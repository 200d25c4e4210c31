//! The recorded game events (the turn log) and the game state owned by
//! the orchestrator: players, draw pile, discard pile and the log.

use vstd::prelude::*;

use rand::seq::SliceRandom;

use crate::blackjack::{spec_outstanding_penalty, spec_penalty_value, STARTING_CARD_COUNT};
use crate::cards::{all_standard, full_deck_seq, lemma_full_deck_wf, Card, Rank, Suit};
use vstd::multiset::Multiset;
use crate::player::Player;
use crate::strategy::{make_strategy, StrategyKind, StrategyType};

verus! {

broadcast use vstd::seq_lib::group_to_multiset_ensures, vstd::multiset::group_multiset_axioms;

/// A recorded game event.
#[derive(Debug, Clone, PartialEq)]
pub enum Action {
    /// An ordered, non-empty run of cards laid down in one turn.
    Played(Vec<Card>),
    /// A wild-suit declaration, made right after an Ace was played or opened.
    Nominated(Suit),
    /// The player drew this many cards.
    PickedUp(usize),
    /// The opening discard.
    First(Card),
    /// The player's turn was voided by a skip-effect card.
    Skipped,
}

/// One entry of the turn log: an action and the acting player, if any
/// (the opening `First` entry has none).
#[derive(Debug, Clone, PartialEq)]
pub struct Turn {
    pub player: Option<usize>,
    pub action: Action,
}

/// Every `Played` entry of the log holds at least one card.
pub open spec fn played_chains_nonempty(log: Seq<Turn>) -> bool {
    forall|i: int|
        0 <= i < log.len() ==> ((#[trigger] log[i].action) matches Action::Played(chain)
            ==> chain@.len() > 0)
}

/// A turn log the rule engine may be queried on: it opens with the
/// `First` entry and no recorded run of cards is empty.
pub open spec fn log_wf(log: Seq<Turn>) -> bool {
    &&& log.len() > 0
    &&& log[0].action is First
    &&& played_chains_nonempty(log)
}

/// Runtime check of [`log_wf`], for callers that did not build the log
/// themselves.
pub fn log_queryable(log: &[Turn]) -> (r: bool)
    ensures
        r == log_wf(log@),
{
    if log.len() == 0 {
        return false;
    }
    match &log[0].action {
        Action::First(_) => {},
        _ => {
            return false;
        },
    }
    let mut i: usize = 0;
    while i < log.len()
        invariant
            0 <= i <= log@.len(),
            forall|k: int|
                0 <= k < i ==> ((#[trigger] log@[k].action) matches Action::Played(chain)
                    ==> chain@.len() > 0),
        decreases log@.len() - i,
    {
        match &log[i].action {
            Action::Played(chain) => {
                if chain.len() == 0 {
                    return false;
                }
            },
            _ => {},
        }
        i += 1;
    }
    true
}

/// All the cards held in players' hands, as one multiset.
pub open spec fn hands_multiset(players: Seq<Player>) -> Multiset<Card>
    decreases players.len(),
{
    if players.len() == 0 {
        Multiset::<Card>::empty()
    } else {
        players[0].hand@.to_multiset().add(hands_multiset(players.drop_first()))
    }
}

proof fn lemma_hands_multiset_empty(players: Seq<Player>)
    requires
        forall|k: int| 0 <= k < players.len() ==> (#[trigger] players[k]).hand@.len() == 0,
    ensures
        hands_multiset(players) == Multiset::<Card>::empty(),
    decreases players.len(),
{
    if players.len() > 0 {
        lemma_hands_multiset_empty(players.drop_first());
        assert(players[0].hand@ =~= Seq::<Card>::empty());
        assert(players[0].hand@.to_multiset().len() == 0);
        assert(hands_multiset(players) =~= Multiset::<Card>::empty());
    }
}

proof fn lemma_hands_multiset_update(players: Seq<Player>, k: int, p2: Player)
    requires
        0 <= k < players.len(),
    ensures
        hands_multiset(players.update(k, p2)).add(players[k].hand@.to_multiset())
            == hands_multiset(players).add(p2.hand@.to_multiset()),
    decreases players.len(),
{
    if k == 0 {
        assert(players.update(0, p2).drop_first() =~= players.drop_first());
        assert(hands_multiset(players.update(0, p2)) == p2.hand@.to_multiset().add(
            hands_multiset(players.drop_first()),
        ));
        assert(hands_multiset(players.update(0, p2)).add(players[0].hand@.to_multiset())
            =~= hands_multiset(players).add(p2.hand@.to_multiset()));
    } else {
        assert(players.update(k, p2).drop_first() =~= players.drop_first().update(k - 1, p2));
        assert(players.update(k, p2)[0] == players[0]);
        lemma_hands_multiset_update(players.drop_first(), k - 1, p2);
        assert(players.drop_first()[k - 1] == players[k]);
        assert(hands_multiset(players.update(k, p2)) == players[0].hand@.to_multiset().add(
            hands_multiset(players.drop_first().update(k - 1, p2)),
        ));
        assert(hands_multiset(players) == players[0].hand@.to_multiset().add(
            hands_multiset(players.drop_first()),
        ));
        assert forall|x: Card|
            hands_multiset(players.update(k, p2)).add(players[k].hand@.to_multiset()).count(x)
                == hands_multiset(players).add(p2.hand@.to_multiset()).count(x) by {
            assert(hands_multiset(players.drop_first().update(k - 1, p2)).add(
                players.drop_first()[k - 1].hand@.to_multiset(),
            ).count(x) == hands_multiset(players.drop_first()).add(
                p2.hand@.to_multiset(),
            ).count(x));
        }
        assert(hands_multiset(players.update(k, p2)).add(players[k].hand@.to_multiset())
            =~= hands_multiset(players).add(p2.hand@.to_multiset()));
    }
}

proof fn lemma_hand_within_hands(players: Seq<Player>, k: int)
    requires
        0 <= k < players.len(),
    ensures
        players[k].hand@.to_multiset().subset_of(hands_multiset(players)),
    decreases players.len(),
{
    if k == 0 {
    } else {
        lemma_hand_within_hands(players.drop_first(), k - 1);
        assert(players.drop_first()[k - 1] == players[k]);
    }
}

/// The game state the orchestrator owns: the seats, the draw pile, the
/// discard pile, the turn log, and whose turn it is.
pub struct Game {
    pub players: Vec<Player>,
    pub deck: Vec<Card>,
    pub discard_pile: Vec<Card>,
    pub log: Vec<Turn>,
    pub curr_player_id: usize,
}

/// Every card of the game, wherever it currently sits: the draw pile,
/// the discard pile, or a hand.
pub open spec fn cards_account(g: Game) -> Multiset<Card> {
    g.deck@.to_multiset().add(g.discard_pile@.to_multiset()).add(hands_multiset(g.players@))
}

/// Relies on rand's `SliceRandom::shuffle` with a fresh `thread_rng`:
/// a Fisher-Yates shuffle that permutes the slice in place, so the deck
/// keeps exactly its cards.
#[verifier::external_body]
fn shuffle_cards(deck: &mut Vec<Card>)
    ensures
        final(deck)@.to_multiset() == old(deck)@.to_multiset(),
        final(deck)@.len() == old(deck)@.len(),
{
    deck.shuffle(&mut rand::thread_rng());
}

/// The last play ended on a rank-8, so the next player misses a turn.
pub open spec fn spec_player_should_skip(log: Seq<Turn>) -> bool {
    log.last().action matches Action::Played(chain) && chain@.last().rank == Rank::Val(8)
}

impl Game {
    /// Fills the draw pile with a freshly shuffled full deck.
    pub fn populate_deck(&mut self)
        ensures
            final(self).deck@.to_multiset() == full_deck_seq().to_multiset(),
            final(self).deck@.len() == 52,
            final(self).players == old(self).players,
            final(self).discard_pile == old(self).discard_pile,
            final(self).log == old(self).log,
            final(self).curr_player_id == old(self).curr_player_id,
    {
        let mut deck = Card::full_deck();
        shuffle_cards(&mut deck);
        self.deck = deck;
    }

    /// Takes the top card of the draw pile; when the pile is out, the
    /// discard pile is recycled (shuffled in) first. The game's cards are
    /// conserved: afterwards the two piles plus the drawn card hold
    /// exactly what the two piles held before.
    pub fn draw(&mut self) -> (c: Card)
        requires
            old(self).deck@.len() + old(self).discard_pile@.len() > 0,
        ensures
            final(self).deck@.to_multiset().add(final(self).discard_pile@.to_multiset()).insert(c)
                == old(self).deck@.to_multiset().add(old(self).discard_pile@.to_multiset()),
            final(self).deck@.len() + final(self).discard_pile@.len() + 1 == old(self).deck@.len()
                + old(self).discard_pile@.len(),
            old(self).deck@.len() > 0 ==> final(self).discard_pile == old(self).discard_pile
                && final(self).deck@ == old(self).deck@.drop_last() && c == old(
                self,
            ).deck@.last(),
            old(self).deck@.len() == 0 ==> final(self).discard_pile@.len() == 0,
            final(self).players == old(self).players,
            final(self).log == old(self).log,
            final(self).curr_player_id == old(self).curr_player_id,
    {
        let popped = self.deck.pop();
        match popped {
            Some(c) => {
                proof {
                    assert(old(self).deck@ =~= self.deck@.push(c));
                    assert(self.deck@.to_multiset().insert(c) == old(self).deck@.to_multiset());
                    assert(self.deck@.to_multiset().add(
                        self.discard_pile@.to_multiset(),
                    ).insert(c) =~= old(self).deck@.to_multiset().add(
                        old(self).discard_pile@.to_multiset(),
                    ));
                }
                c
            },
            None => {
                proof {
                    assert(old(self).deck@.len() == 0);
                    assert(self.discard_pile@.len() > 0);
                }
                let ghost discard0 = self.discard_pile@;
                self.deck.append(&mut self.discard_pile);
                proof {
                    assert(self.deck@ =~= discard0);
                }
                shuffle_cards(&mut self.deck);
                let ghost shuffled = self.deck@;
                let popped2 = self.deck.pop();
                match popped2 {
                    Some(c) => {
                        proof {
                            assert(shuffled =~= self.deck@.push(c));
                            assert(self.deck@.to_multiset().insert(c) == shuffled.to_multiset());
                            assert(old(self).deck@ =~= Seq::<Card>::empty());
                            assert(old(self).deck@.to_multiset().len() == 0);
                            assert(self.discard_pile@.to_multiset().len() == 0);
                            assert(self.deck@.to_multiset().add(
                                self.discard_pile@.to_multiset(),
                            ).insert(c) =~= old(self).deck@.to_multiset().add(
                                old(self).discard_pile@.to_multiset(),
                            ));
                        }
                        c
                    },
                    None => {
                        proof {
                            assert(shuffled.to_multiset().len() == discard0.to_multiset().len());
                            assert(false);
                        }
                        vstd::pervasive::unreached()
                    },
                }
            },
        }
    }

    /// Deals the starting hand to every seat, drawing in rounds.
    #[verifier::loop_isolation(false)]
    fn deal(&mut self)
        requires
            old(self).deck@.len() >= old(self).players@.len() * (STARTING_CARD_COUNT as int),
        ensures
            cards_account(*final(self)) == cards_account(*old(self)),
            final(self).players@.len() == old(self).players@.len(),
            forall|k: int|
                0 <= k < old(self).players@.len() ==> {
                    &&& (#[trigger] final(self).players@[k]).hand@.len() == old(
                        self,
                    ).players@[k].hand@.len() + STARTING_CARD_COUNT
                    &&& final(self).players@[k].name == old(self).players@[k].name
                    &&& final(self).players@[k].score == old(self).players@[k].score
                    &&& final(self).players@[k].strategy == old(self).players@[k].strategy
                },
            final(self).deck@.len() + old(self).players@.len() * (STARTING_CARD_COUNT as int)
                == old(self).deck@.len(),
            final(self).discard_pile == old(self).discard_pile,
            final(self).log == old(self).log,
            final(self).curr_player_id == old(self).curr_player_id,
    {
        let n = self.players.len();
        let mut round: usize = 0;
        while round < STARTING_CARD_COUNT
            invariant
                round <= STARTING_CARD_COUNT,
                self.players@.len() == n,
                cards_account(*self) == cards_account(*old(self)),
                forall|k: int|
                    0 <= k < n ==> {
                        &&& (#[trigger] self.players@[k]).hand@.len() == old(
                            self,
                        ).players@[k].hand@.len() + round
                        &&& self.players@[k].name == old(self).players@[k].name
                        &&& self.players@[k].score == old(self).players@[k].score
                        &&& self.players@[k].strategy == old(self).players@[k].strategy
                    },
                self.deck@.len() + n * (round as int) == old(self).deck@.len(),
                self.discard_pile == old(self).discard_pile,
                self.log == old(self).log,
                self.curr_player_id == old(self).curr_player_id,
            decreases STARTING_CARD_COUNT - round,
        {
            let mut p: usize = 0;
            while p < n
                invariant
                    p <= n,
                    round < STARTING_CARD_COUNT,
                    self.players@.len() == n,
                    cards_account(*self) == cards_account(*old(self)),
                    forall|k: int|
                        0 <= k < n ==> {
                            &&& (#[trigger] self.players@[k]).hand@.len() == old(
                                self,
                            ).players@[k].hand@.len() + round + if k < p {
                                1int
                            } else {
                                0int
                            }
                            &&& self.players@[k].name == old(self).players@[k].name
                            &&& self.players@[k].score == old(self).players@[k].score
                            &&& self.players@[k].strategy == old(self).players@[k].strategy
                        },
                    self.deck@.len() + n * (round as int) + p as int == old(self).deck@.len(),
                    self.discard_pile == old(self).discard_pile,
                    self.log == old(self).log,
                    self.curr_player_id == old(self).curr_player_id,
                decreases n - p,
            {
                proof {
                    assert(n * (round as int) + p < n * (STARTING_CARD_COUNT as int))
                        by (nonlinear_arith)
                        requires
                            0 <= round < (STARTING_CARD_COUNT as int),
                            0 <= p < n,
                    ;
                }
                let card = self.draw();
                let ghost players0 = self.players@;
                let ghost account0 = cards_account(*self);
                let pl = &mut self.players[p];
                let ghost hand0 = pl.hand@;
                pl.hand.push(card);
                proof {
                    let pk = players0[p as int];
                    let pn = self.players@[p as int];
                    assert(self.players@ == players0.update(p as int, pn));
                    assert(pn.hand@ == hand0.push(card));
                    assert(pn.hand@.to_multiset() == pk.hand@.to_multiset().insert(card));
                    lemma_hands_multiset_update(players0, p as int, pn);
                    assert forall|x: Card|
                        hands_multiset(self.players@).count(x) == hands_multiset(
                            players0,
                        ).insert(card).count(x) by {
                        assert(hands_multiset(players0.update(p as int, pn)).add(
                            players0[p as int].hand@.to_multiset(),
                        ).count(x) == hands_multiset(players0).add(
                            pn.hand@.to_multiset(),
                        ).count(x));
                    }
                    assert(hands_multiset(self.players@) =~= hands_multiset(players0).insert(
                        card,
                    ));
                    assert(cards_account(*self) =~= account0.insert(card));
                }
                p += 1;
            }
            proof {
                assert(n * (round as int + 1) == n * (round as int) + n) by (nonlinear_arith);
            }
            round += 1;
        }
    }

    /// The next player must skip: the last play ended on a rank-8.
    pub fn player_should_skip(&self) -> (r: bool)
        requires
            log_wf(self.log@),
        ensures
            r == spec_player_should_skip(self.log@),
    {
        match &self.log[self.log.len() - 1].action {
            Action::Played(c) => {
                match c[c.len() - 1] {
                    Card { rank: Rank::Val(8), suit: _ } => true,
                    _ => false,
                }
            },
            _ => false,
        }
    }

    /// Sets up a game: one seat per requested strategy, a shuffled full
    /// deck, the starting hands dealt, and the opening card on the
    /// discard pile and in the log.
    pub fn new(player_types: &[StrategyType]) -> (g: Game)
        requires
            2 <= player_types@.len() <= 6,
        ensures
            g.players@.len() == player_types@.len(),
            forall|k: int|
                0 <= k < player_types@.len() ==> {
                    &&& (#[trigger] g.players@[k]).hand@.len() == STARTING_CARD_COUNT
                    &&& all_standard(g.players@[k].hand@)
                    &&& g.players@[k].score == 0
                    &&& g.players@[k].engine_driven() == !(player_types@[k] is Human)
                    &&& g.players@[k].ready(g.log@)
                },
            g.log@.len() == 1,
            log_wf(g.log@),
            g.discard_pile@.len() == 1,
            g.log@[0].player is None,
            g.log@[0].action == Action::First(g.discard_pile@[0]),
            spec_outstanding_penalty(g.log@) <= 5,
            cards_account(g) == full_deck_seq().to_multiset(),
            g.curr_player_id == 0,
    {
        let mut players: Vec<Player> = Vec::new();
        let mut i: usize = 0;
        while i < player_types.len()
            invariant
                i <= player_types@.len(),
                players@.len() == i,
                2 <= player_types@.len() <= 6,
                forall|k: int|
                    0 <= k < i ==> {
                        &&& (#[trigger] players@[k]).hand@.len() == 0
                        &&& players@[k].score == 0
                        &&& players@[k].engine_driven() == !(player_types@[k] is Human)
                        &&& (players@[k].strategy matches StrategyKind::ComputerV2(v2) ==> v2.wf()
                            && v2.log_processed == 0)
                    },
            decreases player_types@.len() - i,
        {
            let strategy = make_strategy(&player_types[i], player_types);
            let name = strategy.label();
            players.push(Player::new(name, strategy));
            i += 1;
        }
        let mut game = Game {
            players,
            deck: Vec::new(),
            discard_pile: Vec::new(),
            curr_player_id: 0,
            log: Vec::new(),
        };
        proof {
            lemma_hands_multiset_empty(game.players@);
            assert(game.deck@.to_multiset().len() == 0);
            assert(game.discard_pile@.to_multiset().len() == 0);
        }
        let ghost fresh_players = game.players@;
        game.populate_deck();
        proof {
            assert(cards_account(game) =~= full_deck_seq().to_multiset());
            assert(full_deck_seq().to_multiset().len() == 52);
        }
        game.deal();
        let first = game.draw();
        let ghost account1 = cards_account(game);
        let ghost discard1 = game.discard_pile@;
        game.discard_pile.push(first);
        proof {
            assert(game.discard_pile@.to_multiset() == discard1.to_multiset().insert(first));
            assert(cards_account(game) =~= account1.insert(first));
            assert(cards_account(game) =~= full_deck_seq().to_multiset());
        }
        game.log.push(Turn { player: None, action: Action::First(first) });
        proof {
            assert(log_wf(game.log@));
            assert(spec_outstanding_penalty(game.log@) == spec_penalty_value(first));
            lemma_account_hands_standard(game);
        }
        game
    }
}

/// When the game's cards account for exactly the full deck, every card
/// in every hand is a full-deck value.
proof fn lemma_account_hands_standard(g: Game)
    requires
        cards_account(g) == full_deck_seq().to_multiset(),
    ensures
        forall|k: int|
            0 <= k < g.players@.len() ==> all_standard((#[trigger] g.players@[k]).hand@),
{
    lemma_full_deck_wf();
    assert forall|k: int|
        0 <= k < g.players@.len() implies all_standard((#[trigger] g.players@[k]).hand@) by {
        lemma_hand_within_hands(g.players@, k);
        let hand = g.players@[k].hand@;
        assert forall|j: int| 0 <= j < hand.len() implies (#[trigger] hand[j]).wf() by {
            assert(hand.contains(hand[j]));
            assert(hand.to_multiset().count(hand[j]) > 0);
            assert(hands_multiset(g.players@).count(hand[j]) > 0);
            assert(cards_account(g).count(hand[j]) > 0);
            assert(full_deck_seq().to_multiset().count(hand[j]) > 0);
            assert(full_deck_seq().contains(hand[j]));
            let w = choose|t: int|
                0 <= t < full_deck_seq().len() && full_deck_seq()[t] == hand[j];
            assert(full_deck_seq()[w].wf());
        }
    }
}

} // verus!
