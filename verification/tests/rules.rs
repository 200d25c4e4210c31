use blackjack::blackjack::{
    can_follow, can_go, can_link, card_score, is_valid, outstanding_penalty, penalty_value,
};
use blackjack::cards::{Card, Colour, Rank, Suit};
use blackjack::game::{log_queryable, Action, Turn};

fn c(rank: Rank, suit: Suit) -> Card {
    Card::new(rank, suit)
}

fn opening(card: Card) -> Turn {
    Turn { player: None, action: Action::First(card) }
}

fn played(who: usize, chain: Vec<Card>) -> Turn {
    Turn { player: Some(who), action: Action::Played(chain) }
}

#[test]
fn scoring_covers_the_full_deck() {
    // Every full-deck card has a score between 3 and 25 and a penalty of
    // exactly 0, 2 or 5.
    let deck = Card::full_deck();
    assert_eq!(deck.len(), 52);
    for card in &deck {
        let s = card_score(card);
        assert!(3 <= s && s <= 25, "score out of range");
        let p = penalty_value(*card);
        assert!(p == 0 || p == 2 || p == 5, "unexpected penalty");
    }
}

#[test]
fn score_values_by_kind() {
    assert_eq!(card_score(&c(Rank::Ace, Suit::Hearts)), 25);
    assert_eq!(card_score(&c(Rank::Val(8), Suit::Clubs)), 20);
    assert_eq!(card_score(&c(Rank::Val(2), Suit::Diamonds)), 20);
    assert_eq!(card_score(&c(Rank::Jack, Suit::Spades)), 15);
    assert_eq!(card_score(&c(Rank::Jack, Suit::Hearts)), 10);
    assert_eq!(card_score(&c(Rank::Queen, Suit::Hearts)), 10);
    assert_eq!(card_score(&c(Rank::Val(7), Suit::Clubs)), 7);
}

#[test]
fn penalty_values_by_kind() {
    assert_eq!(penalty_value(c(Rank::Jack, Suit::Spades)), 5);
    assert_eq!(penalty_value(c(Rank::Jack, Suit::Clubs)), 5);
    assert_eq!(penalty_value(c(Rank::Jack, Suit::Hearts)), 0);
    assert_eq!(penalty_value(c(Rank::Val(2), Suit::Hearts)), 2);
    assert_eq!(penalty_value(c(Rank::Queen, Suit::Spades)), 0);
}

#[test]
fn suit_colours() {
    assert!(c(Rank::Ace, Suit::Spades).suit.is_black());
    assert!(c(Rank::Ace, Suit::Clubs).suit.is_black());
    assert!(c(Rank::Ace, Suit::Hearts).suit.is_red());
    assert!(c(Rank::Ace, Suit::Diamonds).suit.is_red());
    assert!(Suit::Spades.colour() == Colour::Black);
    assert!(Suit::Diamonds.colour() == Colour::Red);
}

#[test]
fn full_deck_has_no_duplicates() {
    let deck = Card::full_deck();
    for i in 0..deck.len() {
        for j in 0..i {
            assert!(deck[i] != deck[j], "duplicate card in full deck");
        }
    }
}

#[test]
fn adjacency_wraps_at_both_ends() {
    assert!(Rank::adjacent(Rank::Ace, Rank::King));
    assert!(Rank::adjacent(Rank::Ace, Rank::Val(2)));
    assert!(Rank::adjacent(Rank::Val(10), Rank::Jack));
    assert!(Rank::adjacent(Rank::Val(9), Rank::Val(10)));
    assert!(Rank::adjacent(Rank::Queen, Rank::King));
    assert!(!Rank::adjacent(Rank::Val(5), Rank::Val(9)));
    assert!(!Rank::adjacent(Rank::King, Rank::Jack));
}

#[test]
fn empty_chain_is_never_valid() {
    let log = vec![opening(c(Rank::Val(5), Suit::Hearts))];
    assert!(!is_valid(&log, &[]));
}

#[test]
fn linking_is_not_symmetric() {
    // A red King extends into the red Jack of its suit, but not back.
    let kh = c(Rank::King, Suit::Hearts);
    let jh = c(Rank::Jack, Suit::Hearts);
    assert!(can_link(kh, jh));
    assert!(!can_link(jh, kh));
    // The same-suit King-into-Jack extension can never fire for a black
    // King: it would need the Jack of the King's own black suit to be red.
    let ks = c(Rank::King, Suit::Spades);
    let js = c(Rank::Jack, Suit::Spades);
    assert!(!can_link(ks, js));
}

#[test]
fn linking_rules() {
    // Equal ranks link, whatever the suits.
    assert!(can_link(c(Rank::Val(2), Suit::Spades), c(Rank::Val(2), Suit::Hearts)));
    // Same suit and adjacent ranks link.
    assert!(can_link(c(Rank::Val(5), Suit::Clubs), c(Rank::Val(6), Suit::Clubs)));
    assert!(!can_link(c(Rank::Val(5), Suit::Clubs), c(Rank::Val(6), Suit::Hearts)));
    // An Ace links only with another Ace.
    assert!(can_link(c(Rank::Ace, Suit::Clubs), c(Rank::Ace, Suit::Hearts)));
    assert!(!can_link(c(Rank::Ace, Suit::Clubs), c(Rank::King, Suit::Clubs)));
    assert!(!can_link(c(Rank::King, Suit::Clubs), c(Rank::Ace, Suit::Clubs)));
    // A King extends into its suit, but not into a 2, an 8 or an Ace.
    assert!(can_link(c(Rank::King, Suit::Clubs), c(Rank::Val(5), Suit::Clubs)));
    assert!(!can_link(c(Rank::King, Suit::Clubs), c(Rank::Val(8), Suit::Clubs)));
    assert!(!can_link(c(Rank::King, Suit::Clubs), c(Rank::Val(2), Suit::Clubs)));
}

#[test]
fn no_penalty_after_skip_or_pickup() {
    let log = vec![
        opening(c(Rank::Val(2), Suit::Spades)),
        Turn { player: Some(0), action: Action::Skipped },
    ];
    assert_eq!(outstanding_penalty(&log), 0);
    let log2 = vec![
        opening(c(Rank::Jack, Suit::Spades)),
        Turn { player: Some(0), action: Action::PickedUp(5) },
    ];
    assert_eq!(outstanding_penalty(&log2), 0);
}

#[test]
fn opening_two_of_spades_scenario() {
    let log = vec![opening(c(Rank::Val(2), Suit::Spades))];
    assert_eq!(outstanding_penalty(&log), 2);
    assert!(can_follow(&log, c(Rank::Val(2), Suit::Hearts)));
    assert!(!can_follow(&log, c(Rank::Val(3), Suit::Spades)));
}

#[test]
fn penalty_run_spans_fully_penalised_turns() {
    // The newest play is all penalty cards, so the scan continues into the
    // opening card, which is itself a penalty card.
    let log = vec![
        opening(c(Rank::Val(2), Suit::Spades)),
        played(0, vec![c(Rank::Val(2), Suit::Hearts)]),
    ];
    assert_eq!(outstanding_penalty(&log), 4);
    // A non-penalty card at the tail stops the scan at once.
    let log2 = vec![
        opening(c(Rank::Val(2), Suit::Spades)),
        played(0, vec![c(Rank::Val(2), Suit::Hearts), c(Rank::Val(5), Suit::Hearts)]),
    ];
    assert_eq!(outstanding_penalty(&log2), 0);
    // A black Jack on top of a 2 of its suit stacks 5 on 2.
    let log3 = vec![
        opening(c(Rank::Val(5), Suit::Hearts)),
        played(0, vec![c(Rank::Val(2), Suit::Spades), c(Rank::Jack, Suit::Spades)]),
    ];
    assert_eq!(outstanding_penalty(&log3), 7);
}

#[test]
fn nomination_scenario() {
    let log = vec![
        opening(c(Rank::Val(5), Suit::Hearts)),
        played(0, vec![c(Rank::Ace, Suit::Diamonds)]),
        Turn { player: Some(0), action: Action::Nominated(Suit::Diamonds) },
    ];
    assert!(can_follow(&log, c(Rank::Val(5), Suit::Diamonds)));
    assert!(can_follow(&log, c(Rank::Ace, Suit::Clubs)));
    assert!(!can_follow(&log, c(Rank::Val(5), Suit::Clubs)));
}

#[test]
fn special_effects_expire_after_pickup_or_skip() {
    // While an 8 is active, only an 8 follows.
    let log = vec![opening(c(Rank::Val(8), Suit::Spades))];
    assert!(!can_follow(&log, c(Rank::Val(5), Suit::Spades)));
    assert!(can_follow(&log, c(Rank::Val(8), Suit::Hearts)));
    // After the skip it has caused, the nominal rule applies again.
    let log2 = vec![
        opening(c(Rank::Val(8), Suit::Spades)),
        Turn { player: Some(0), action: Action::Skipped },
    ];
    assert!(can_follow(&log2, c(Rank::Val(5), Suit::Spades)));
    assert!(!can_follow(&log2, c(Rank::Val(5), Suit::Hearts)));
    // Likewise after a pickup has settled a penalty card.
    let log3 = vec![
        opening(c(Rank::Val(2), Suit::Spades)),
        Turn { player: Some(0), action: Action::PickedUp(2) },
    ];
    assert!(can_follow(&log3, c(Rank::Val(3), Suit::Spades)));
}

#[test]
fn black_jack_follow_rules() {
    let log = vec![opening(c(Rank::Jack, Suit::Spades))];
    // Any Jack counters.
    assert!(can_follow(&log, c(Rank::Jack, Suit::Hearts)));
    // The 2 of the same suit counters.
    assert!(can_follow(&log, c(Rank::Val(2), Suit::Spades)));
    // The 2 of another suit does not.
    assert!(!can_follow(&log, c(Rank::Val(2), Suit::Hearts)));
    // A plain card of the suit does not while the Jack is active.
    assert!(!can_follow(&log, c(Rank::Val(7), Suit::Spades)));
}

#[test]
fn chain_validity_over_a_log() {
    let log = vec![opening(c(Rank::Val(2), Suit::Spades))];
    let chain = [c(Rank::Val(2), Suit::Spades), c(Rank::Val(2), Suit::Hearts)];
    assert!(is_valid(&log, &chain));
    let broken = [c(Rank::Val(2), Suit::Spades), c(Rank::Val(7), Suit::Hearts)];
    assert!(!is_valid(&log, &broken));
    let cannot_open = [c(Rank::Val(5), Suit::Clubs)];
    assert!(!is_valid(&log, &cannot_open));
}

#[test]
fn can_go_over_a_hand() {
    let log = vec![opening(c(Rank::Val(2), Suit::Spades))];
    let hand = [c(Rank::Val(5), Suit::Clubs), c(Rank::Val(2), Suit::Hearts)];
    assert!(can_go(&log, &hand));
    let stuck = [c(Rank::Val(5), Suit::Clubs), c(Rank::Val(7), Suit::Diamonds)];
    assert!(!can_go(&log, &stuck));
}

#[test]
fn log_queryable_checks_shape() {
    assert!(!log_queryable(&[]));
    let good = vec![opening(c(Rank::Val(5), Suit::Hearts))];
    assert!(log_queryable(&good));
    let no_opening = vec![Turn { player: Some(0), action: Action::Skipped }];
    assert!(!log_queryable(&no_opening));
    let empty_play = vec![opening(c(Rank::Val(5), Suit::Hearts)), played(0, vec![])];
    assert!(!log_queryable(&empty_play));
}
