use blackjack::blackjack::{is_valid, STARTING_CARD_COUNT};
use blackjack::cards::{Card, Rank, Suit};
use blackjack::game::{Action, Game, Turn};
use blackjack::player::Player;
use blackjack::strategy::computer_v1::ComputerStrategyV1;
use blackjack::strategy::computer_v2::ComputerStrategyV2;
use blackjack::strategy::human::{hand_contains_chain, parse_card, parse_rank, parse_suit};
use blackjack::strategy::shared::{choose_suit, find_best_valid, iterate_valid_chains, score};
use blackjack::strategy::{make_strategy, Strategy, StrategyKind, StrategyType};

fn c(rank: Rank, suit: Suit) -> Card {
    Card::new(rank, suit)
}

fn opening(card: Card) -> Turn {
    Turn { player: None, action: Action::First(card) }
}

#[test]
fn every_enumerated_chain_is_valid() {
    // Soundness of the chain search: everything it reports is a legal play.
    let log = vec![opening(c(Rank::Val(2), Suit::Spades))];
    let mut scratch = vec![
        c(Rank::Val(2), Suit::Hearts),
        c(Rank::Val(2), Suit::Clubs),
        c(Rank::Val(5), Suit::Clubs),
        c(Rank::Jack, Suit::Clubs),
    ];
    let mut ctr: u64 = 0;
    let chains = iterate_valid_chains(&log, &mut scratch, &mut ctr);
    assert!(!chains.is_empty());
    for chain in &chains {
        assert!(is_valid(&log, chain));
    }
}

#[test]
fn search_order_is_deterministic() {
    // The reported chains are a function of the log, the buffer order and
    // the counter: depth first, candidates in position order, each legal
    // prefix reported, one counter tick per report while under the budget.
    let log = vec![opening(c(Rank::Val(2), Suit::Spades))];
    let two_h = c(Rank::Val(2), Suit::Hearts);
    let two_c = c(Rank::Val(2), Suit::Clubs);
    let mut scratch = vec![two_h, two_c];
    let mut ctr: u64 = 0;
    let chains = iterate_valid_chains(&log, &mut scratch, &mut ctr);
    assert_eq!(
        chains,
        vec![vec![two_h], vec![two_h, two_c], vec![two_c], vec![two_c, two_h]],
    );
    assert_eq!(ctr, 4);
    // The pick is the highest-scoring reported chain, first seen wins
    // ties: the heart-first pair beats the club-first pair.
    let best = find_best_valid(&log, &[two_h, two_c]);
    assert_eq!(best, vec![two_h, two_c]);
}

#[test]
fn enumeration_reports_nothing_when_stuck() {
    let log = vec![opening(c(Rank::Val(2), Suit::Spades))];
    let mut scratch = vec![c(Rank::Val(5), Suit::Clubs), c(Rank::Val(7), Suit::Diamonds)];
    let mut ctr: u64 = 0;
    let chains = iterate_valid_chains(&log, &mut scratch, &mut ctr);
    assert!(chains.is_empty());
}

#[test]
fn stacking_a_penalty_scores_higher() {
    // [2s, 2h] must score at least as high as [2s] alone: it sheds more
    // points and stacks more penalty.
    let two_s = c(Rank::Val(2), Suit::Spades);
    let two_h = c(Rank::Val(2), Suit::Hearts);
    let pair = [two_s, two_h];
    let single = [two_s];
    assert!(score(2, &pair) >= score(2, &single));
    // Exact values: 20+20 points, (2+2)*10 stacking, 2*10 under threat.
    assert_eq!(score(2, &pair), 100);
    assert_eq!(score(2, &single), 60);
    // The stacking bonus reads from the tail and stops at a plain card.
    let mixed = [two_s, c(Rank::Val(5), Suit::Spades)];
    assert_eq!(score(0, &mixed), 25);
}

#[test]
fn best_chain_opens_with_a_two() {
    // Only rank-2 cards may follow the opening 2 of spades, so the pick
    // must open with one.
    let log = vec![opening(c(Rank::Val(2), Suit::Spades))];
    let hand = [
        c(Rank::Val(2), Suit::Spades),
        c(Rank::Val(2), Suit::Hearts),
        c(Rank::Val(5), Suit::Clubs),
    ];
    let best = find_best_valid(&log, &hand);
    assert!(!best.is_empty());
    assert_eq!(best[0].rank, Rank::Val(2));
    assert!(is_valid(&log, &best));
    // Both twos outscore one, so the pick plays the pair.
    assert_eq!(best.len(), 2);
}

#[test]
fn stuck_hand_yields_the_empty_chain() {
    let log = vec![opening(c(Rank::Val(2), Suit::Spades))];
    let hand = [c(Rank::Val(5), Suit::Clubs), c(Rank::Val(7), Suit::Diamonds)];
    let best = find_best_valid(&log, &hand);
    assert!(best.is_empty());
}

#[test]
fn nominates_the_longest_suit() {
    let hand = [
        c(Rank::Val(3), Suit::Hearts),
        c(Rank::Val(4), Suit::Hearts),
        c(Rank::Val(5), Suit::Hearts),
        c(Rank::Val(6), Suit::Clubs),
    ];
    assert_eq!(choose_suit(&hand), Suit::Hearts);
    // Ties go to the suit earliest in the fixed order (spades first).
    let tied = [c(Rank::Val(3), Suit::Diamonds), c(Rank::Val(4), Suit::Spades)];
    assert_eq!(choose_suit(&tied), Suit::Spades);
}

#[test]
fn card_counter_consumes_new_log_entries() {
    let seats = [StrategyType::ComputerV2, StrategyType::ComputerV2];
    let mut v2 = ComputerStrategyV2::new(&seats);
    assert_eq!(v2.deck_count, 52 - 2 * STARTING_CARD_COUNT);
    assert_eq!(v2.live_cards.len(), 52);
    assert!(v2.dead_cards.is_empty());

    let two_s = c(Rank::Val(2), Suit::Spades);
    let five_h = c(Rank::Val(5), Suit::Hearts);
    let log = vec![
        opening(two_s),
        Turn { player: Some(0), action: Action::Played(vec![five_h]) },
    ];
    v2.process_new_events(&log);
    assert_eq!(v2.log_processed, 2);
    assert_eq!(v2.deck_count, 52 - 2 * STARTING_CARD_COUNT - 1);
    assert!(v2.dead_cards.contains(&two_s));
    assert!(v2.dead_cards.contains(&five_h));
    assert!(!v2.live_cards.contains(&two_s));
    assert!(!v2.live_cards.contains(&five_h));
    assert_eq!(v2.live_cards.len(), 50);

    // A pickup larger than the believed draw pile resets the live set.
    let mut log2 = log.clone();
    log2.push(Turn { player: Some(1), action: Action::PickedUp(52) });
    v2.process_new_events(&log2);
    assert_eq!(v2.live_cards.len(), 52);
    assert!(v2.dead_cards.is_empty());
}

#[test]
fn strategies_pick_a_playable_chain() {
    let log = vec![opening(c(Rank::Val(2), Suit::Spades))];
    let hand = [c(Rank::Val(2), Suit::Hearts), c(Rank::Val(9), Suit::Diamonds)];
    let v1 = ComputerStrategyV1 {};
    let chain = v1.choose_next(&hand, &log);
    assert!(is_valid(&log, &chain));
    assert_eq!(chain, vec![c(Rank::Val(2), Suit::Hearts)]);
    assert_eq!(v1.choose_suit(&hand), Suit::Hearts);
}

#[test]
fn card_counter_also_picks_chains() {
    let seats = [StrategyType::ComputerV2, StrategyType::ComputerV2];
    let mut v2 = ComputerStrategyV2::new(&seats);
    let log = vec![opening(c(Rank::Val(2), Suit::Spades))];
    let hand = [c(Rank::Val(2), Suit::Clubs), c(Rank::Val(9), Suit::Diamonds)];
    let chain = v2.choose_next(&hand, &log);
    assert_eq!(chain, vec![c(Rank::Val(2), Suit::Clubs)]);
    // Choosing also consumed the log for the card count.
    assert_eq!(v2.log_processed, 1);
    assert!(v2.dead_cards.contains(&c(Rank::Val(2), Suit::Spades)));
}

#[test]
fn strategies_dispatch_through_the_interface() {
    fn pick<S: Strategy>(s: &mut S, hand: &[Card], log: &[Turn]) -> Vec<Card> {
        s.choose_next(hand, log)
    }
    let log = vec![opening(c(Rank::Val(7), Suit::Spades))];
    let hand = [c(Rank::Val(7), Suit::Hearts)];
    let mut v1 = ComputerStrategyV1 {};
    assert_eq!(pick(&mut v1, &hand, &log), vec![c(Rank::Val(7), Suit::Hearts)]);
    assert_eq!(v1.name(), "Computer (v1)");
    let mut v2 = ComputerStrategyV2::new(&[StrategyType::ComputerV2]);
    assert_eq!(pick(&mut v2, &hand, &log), vec![c(Rank::Val(7), Suit::Hearts)]);
    assert_eq!(v2.name(), "Computer (v2)");
}

#[test]
fn seats_get_the_requested_strategies() {
    let seats = [StrategyType::ComputerV1, StrategyType::ComputerV2, StrategyType::Human];
    assert!(matches!(make_strategy(&seats[0], &seats), StrategyKind::ComputerV1(_)));
    assert!(matches!(make_strategy(&seats[1], &seats), StrategyKind::ComputerV2(_)));
    assert!(matches!(make_strategy(&seats[2], &seats), StrategyKind::External));
}

#[test]
fn player_plays_from_its_hand() {
    let strategy = make_strategy(&StrategyType::ComputerV1, &[StrategyType::ComputerV1]);
    let mut player = Player::new(strategy.label(), strategy);
    player.hand.push(c(Rank::Val(2), Suit::Hearts));
    player.hand.push(c(Rank::Val(9), Suit::Diamonds));
    let log = vec![opening(c(Rank::Val(2), Suit::Spades))];
    let chain = player.choose_next(&log);
    assert_eq!(chain, vec![c(Rank::Val(2), Suit::Hearts)]);
    assert_eq!(player.choose_suit(&log), Suit::Hearts);
}

#[test]
fn new_game_deals_and_opens() {
    let seats = [StrategyType::ComputerV1; 4];
    let game = Game::new(&seats);
    assert_eq!(game.players.len(), 4);
    for p in &game.players {
        assert_eq!(p.hand.len(), STARTING_CARD_COUNT);
        assert_eq!(p.score, 0);
    }
    assert_eq!(game.log.len(), 1);
    assert_eq!(game.discard_pile.len(), 1);
    match &game.log[0].action {
        Action::First(card) => assert_eq!(*card, game.discard_pile[0]),
        _ => panic!("the log must open with the first card"),
    }
    assert_eq!(game.deck.len(), 52 - 4 * STARTING_CARD_COUNT - 1);
}

#[test]
fn a_new_game_holds_each_card_exactly_once() {
    // Shuffling and dealing conserve the cards: across the draw pile, the
    // discard pile and the hands, every full-deck card appears once.
    let seats = [StrategyType::ComputerV2, StrategyType::ComputerV1, StrategyType::Human];
    let game = Game::new(&seats);
    let mut everywhere: Vec<Card> = Vec::new();
    everywhere.extend_from_slice(&game.deck);
    everywhere.extend_from_slice(&game.discard_pile);
    for p in &game.players {
        everywhere.extend_from_slice(&p.hand);
    }
    assert_eq!(everywhere.len(), 52);
    for card in Card::full_deck() {
        let copies = everywhere.iter().filter(|x| **x == card).count();
        assert_eq!(copies, 1, "a card must appear exactly once");
    }
}

#[test]
fn typed_input_names_cards() {
    assert_eq!(parse_rank('a'), Some(Rank::Ace));
    assert_eq!(parse_rank('K'), Some(Rank::King));
    assert_eq!(parse_rank('q'), Some(Rank::Queen));
    assert_eq!(parse_rank('J'), Some(Rank::Jack));
    assert_eq!(parse_rank('x'), Some(Rank::Val(10)));
    assert_eq!(parse_rank('7'), Some(Rank::Val(7)));
    assert_eq!(parse_rank('1'), None);
    assert_eq!(parse_rank('z'), None);
    assert_eq!(parse_card('2', 's'), Some(c(Rank::Val(2), Suit::Spades)));
    assert_eq!(parse_card('A', 'h'), Some(c(Rank::Ace, Suit::Hearts)));
    assert_eq!(parse_card('1', 'h'), None);
    assert_eq!(parse_card('5', 'y'), None);
}

#[test]
fn typed_input_helpers() {
    assert_eq!(parse_suit('s'), Some(Suit::Spades));
    assert_eq!(parse_suit('H'), Some(Suit::Hearts));
    assert_eq!(parse_suit('d'), Some(Suit::Diamonds));
    assert_eq!(parse_suit('C'), Some(Suit::Clubs));
    assert_eq!(parse_suit('x'), None);

    let hand = [c(Rank::Val(2), Suit::Hearts), c(Rank::Val(9), Suit::Diamonds)];
    assert!(hand_contains_chain(&hand, &[c(Rank::Val(2), Suit::Hearts)]));
    assert!(!hand_contains_chain(&hand, &[c(Rank::Val(2), Suit::Spades)]));
    assert!(hand_contains_chain(&hand, &[]));
}
