//! The card-counting automated strategy: besides the shared chain
//! search, it keeps track of which of the 52 cards are still live (not
//! yet seen on the discard pile) by consuming the turn-log entries it has
//! not processed yet, and resets the live set to the full deck when a
//! pickup shows that the draw pile was exhausted and recycled.

use vstd::prelude::*;

use crate::blackjack::{spec_outstanding_penalty, STARTING_CARD_COUNT};
use crate::cards::{
    all_standard, full_deck_seq, lemma_full_deck_distinct, Card, Suit,
};
use crate::game::{log_wf, Action, Turn};
use crate::strategy::shared::{choose_suit, find_best_valid, spec_best_choice, spec_suit_count};
use crate::strategy::{Strategy, StrategyType};

verus! {

broadcast use vstd::seq_lib::group_seq_properties;

/// The abstract state of the card counter: which cards are still live,
/// which are known dead (seen on the discard pile), and how many cards
/// the draw pile is believed to hold.
pub struct CardTracking {
    pub live: Set<Card>,
    pub dead: Set<Card>,
    pub deck_count: int,
}

/// Seeing a card on the pile kills it.
pub open spec fn track_card(m: CardTracking, c: Card) -> CardTracking {
    CardTracking { live: m.live.remove(c), dead: m.dead.insert(c), deck_count: m.deck_count }
}

/// Seeing a whole run of cards, in order.
pub open spec fn track_cards(m: CardTracking, chain: Seq<Card>) -> CardTracking
    decreases chain.len(),
{
    if chain.len() == 0 {
        m
    } else {
        track_cards(track_card(m, chain[0]), chain.drop_first())
    }
}

pub proof fn lemma_track_cards_push(m: CardTracking, chain: Seq<Card>, c: Card)
    ensures
        track_cards(m, chain.push(c)) == track_card(track_cards(m, chain), c),
    decreases chain.len(),
{
    if chain.len() == 0 {
        assert(chain.push(c)[0] == c);
        assert(chain.push(c).drop_first() =~= Seq::<Card>::empty());
        assert(track_cards(m, chain.push(c)) == track_cards(
            track_card(m, c),
            Seq::<Card>::empty(),
        ));
        assert(track_cards(track_card(m, c), Seq::<Card>::empty()) == track_card(m, c));
        assert(track_cards(m, chain) == m);
    } else {
        assert(chain.push(c)[0] == chain[0]);
        assert(chain.push(c).drop_first() =~= chain.drop_first().push(c));
        assert(track_cards(m, chain.push(c)) == track_cards(
            track_card(m, chain[0]),
            chain.drop_first().push(c),
        ));
        lemma_track_cards_push(track_card(m, chain[0]), chain.drop_first(), c);
        assert(track_cards(m, chain) == track_cards(track_card(m, chain[0]), chain.drop_first()));
    }
}

/// How one turn-log entry moves the tracking state. A played run and the
/// opening card kill what they show (the opening card also came off the
/// draw pile). A pickup of more cards than the draw pile was believed to
/// hold shows that the discard pile was recycled: the live set resets to
/// the full deck. The deck counter clamps at the `usize` range.
pub open spec fn track_turn(m: CardTracking, t: Turn) -> CardTracking {
    match t.action {
        Action::Played(chain) => track_cards(m, chain@),
        Action::First(c) => {
            let m2 = track_card(m, c);
            CardTracking {
                live: m2.live,
                dead: m2.dead,
                deck_count: if m2.deck_count >= 1 {
                    m2.deck_count - 1
                } else {
                    0
                },
            }
        },
        Action::PickedUp(n) => {
            if n as int <= m.deck_count {
                CardTracking { live: m.live, dead: m.dead, deck_count: m.deck_count - n }
            } else {
                let recycled = if m.deck_count + m.dead.len() <= usize::MAX {
                    m.deck_count + m.dead.len()
                } else {
                    usize::MAX as int
                };
                CardTracking {
                    live: full_deck_seq().to_set(),
                    dead: Set::<Card>::empty(),
                    deck_count: if n as int <= recycled {
                        recycled - n
                    } else {
                        0
                    },
                }
            }
        },
        _ => m,
    }
}

/// Folds a stretch of turn-log entries into the tracking state.
pub open spec fn track_log(m: CardTracking, log: Seq<Turn>) -> CardTracking
    decreases log.len(),
{
    if log.len() == 0 {
        m
    } else {
        track_log(track_turn(m, log[0]), log.drop_first())
    }
}

pub proof fn lemma_track_log_push(m: CardTracking, log: Seq<Turn>, t: Turn)
    ensures
        track_log(m, log.push(t)) == track_turn(track_log(m, log), t),
    decreases log.len(),
{
    if log.len() == 0 {
        assert(log.push(t)[0] == t);
        assert(log.push(t).drop_first() =~= Seq::<Turn>::empty());
        assert(track_log(m, log.push(t)) == track_log(track_turn(m, t), Seq::<Turn>::empty()));
        assert(track_log(track_turn(m, t), Seq::<Turn>::empty()) == track_turn(m, t));
        assert(track_log(m, log) == m);
    } else {
        assert(log.push(t)[0] == log[0]);
        assert(log.push(t).drop_first() =~= log.drop_first().push(t));
        assert(track_log(m, log.push(t)) == track_log(
            track_turn(m, log[0]),
            log.drop_first().push(t),
        ));
        lemma_track_log_push(track_turn(m, log[0]), log.drop_first(), t);
        assert(track_log(m, log) == track_log(track_turn(m, log[0]), log.drop_first()));
    }
}

/// What the counter believes before any turn was seen: every card live,
/// none dead, and the draw pile holding what is left after the deal.
pub open spec fn initial_tracking(n_players: int) -> CardTracking {
    CardTracking {
        live: full_deck_seq().to_set(),
        dead: Set::<Card>::empty(),
        deck_count: 52 - n_players * (STARTING_CARD_COUNT as int),
    }
}

/// Whether a card sits in the buffer.
fn contains_card(v: &Vec<Card>, c: Card) -> (r: bool)
    ensures
        r == v@.contains(c),
{
    let mut i: usize = 0;
    while i < v.len()
        invariant
            i <= v@.len(),
            forall|k: int| 0 <= k < i ==> v@[k] != c,
        decreases v@.len() - i,
    {
        if v[i] == c {
            return true;
        }
        i += 1;
    }
    false
}

/// Adds a card to a duplicate-free buffer unless already present.
#[verifier::loop_isolation(false)]
fn insert_card(v: &mut Vec<Card>, c: Card)
    requires
        old(v)@.no_duplicates(),
    ensures
        final(v)@.no_duplicates(),
        final(v)@.to_set() == old(v)@.to_set().insert(c),
{
    if !contains_card(v, c) {
        let ghost v0 = v@;
        v.push(c);
        proof {
            assert forall|a: int, b: int|
                0 <= a < b < v@.len() implies v@[a] != v@[b] by {
                if b < v0.len() {
                } else {
                    assert(v@[b] == c && v@[a] == v0[a]);
                }
            }
            assert(v@.to_set() =~= v0.to_set().insert(c));
        }
    } else {
        proof {
            assert(v@.to_set() =~= v@.to_set().insert(c));
        }
    }
}

/// Removes a card from a duplicate-free buffer, keeping the rest.
#[verifier::loop_isolation(false)]
fn remove_card(v: &mut Vec<Card>, c: Card)
    requires
        old(v)@.no_duplicates(),
    ensures
        final(v)@.no_duplicates(),
        final(v)@.to_set() == old(v)@.to_set().remove(c),
{
    let mut kept: Vec<Card> = Vec::new();
    let mut i: usize = 0;
    while i < v.len()
        invariant
            i <= v@.len(),
            kept@.no_duplicates(),
            forall|x: Card| kept@.contains(x) == (v@.take(i as int).contains(x) && x != c),
        decreases v@.len() - i,
    {
        proof {
            assert(v@.take(i as int + 1) =~= v@.take(i as int).push(v@[i as int]));
        }
        if v[i] != c {
            let ghost k0 = kept@;
            proof {
                if k0.contains(v@[i as int]) {
                    let w = choose|j: int| 0 <= j < i && v@[j] == v@[i as int];
                    assert(false);
                }
            }
            kept.push(v[i]);
            proof {
                assert forall|a: int, b: int|
                    0 <= a < b < kept@.len() implies kept@[a] != kept@[b] by {
                    if b < k0.len() {
                    } else {
                        assert(kept@[b] == v@[i as int] && kept@[a] == k0[a]);
                        assert(k0.contains(k0[a]));
                    }
                }
                assert forall|x: Card|
                    kept@.contains(x) == (v@.take(i as int + 1).contains(x) && x != c) by {
                    if kept@.contains(x) {
                        let w = choose|j: int| 0 <= j < kept@.len() && kept@[j] == x;
                        if w < k0.len() {
                            assert(k0.contains(x));
                        }
                    }
                    if v@.take(i as int + 1).contains(x) && x != c {
                        let w = choose|j: int|
                            0 <= j < i + 1 && #[trigger] v@.take(i as int + 1)[j] == x;
                        if w < i {
                            assert(v@.take(i as int).contains(x));
                            assert(k0.contains(x));
                            let u = choose|j: int| 0 <= j < k0.len() && k0[j] == x;
                            assert(kept@[u] == x);
                        } else {
                            assert(kept@[kept@.len() - 1] == x);
                        }
                    }
                }
            }
        } else {
            proof {
                assert forall|x: Card|
                    kept@.contains(x) == (v@.take(i as int + 1).contains(x) && x != c) by {
                    if v@.take(i as int + 1).contains(x) && x != c {
                        let w = choose|j: int|
                            0 <= j < i + 1 && #[trigger] v@.take(i as int + 1)[j] == x;
                        assert(v@.take(i as int).contains(x));
                    }
                }
            }
        }
        i += 1;
    }
    proof {
        assert(v@.take(v@.len() as int) =~= v@);
    }
    *v = kept;
    proof {
        assert(v@.to_set() =~= old(v)@.to_set().remove(c));
    }
}

/// An automated player that counts cards across its turns.
pub struct ComputerStrategyV2 {
    pub live_cards: Vec<Card>,
    pub dead_cards: Vec<Card>,
    pub log_processed: usize,
    pub deck_count: usize,
}

impl ComputerStrategyV2 {
    /// The card buffers hold each card at most once, so their lengths are
    /// the sizes of the tracked sets.
    pub open spec fn wf(self) -> bool {
        &&& self.live_cards@.no_duplicates()
        &&& self.dead_cards@.no_duplicates()
    }

    /// The tracking state this strategy value stands for.
    pub open spec fn model(self) -> CardTracking {
        CardTracking {
            live: self.live_cards@.to_set(),
            dead: self.dead_cards@.to_set(),
            deck_count: self.deck_count as int,
        }
    }

    pub fn new(players: &[StrategyType]) -> (s: ComputerStrategyV2)
        requires
            players@.len() * (STARTING_CARD_COUNT as int) <= 52,
        ensures
            s.wf(),
            s.log_processed == 0,
            s.model() == initial_tracking(players@.len() as int),
    {
        let full = Card::full_deck();
        let deck_count = full.len() - players.len() * STARTING_CARD_COUNT;
        let s = ComputerStrategyV2 {
            live_cards: full,
            dead_cards: Vec::new(),
            log_processed: 0,
            deck_count,
        };
        proof {
            lemma_full_deck_distinct();
            assert(s.dead_cards@.to_set() =~= Set::<Card>::empty());
        }
        s
    }

    /// Marks one shown card dead.
    fn mark_seen(&mut self, c: Card)
        requires
            old(self).wf(),
        ensures
            final(self).wf(),
            final(self).model() == track_card(old(self).model(), c),
            final(self).log_processed == old(self).log_processed,
            final(self).deck_count == old(self).deck_count,
    {
        remove_card(&mut self.live_cards, c);
        insert_card(&mut self.dead_cards, c);
    }

    /// Consumes the turn-log entries not seen yet and folds them into the
    /// live/dead tracking.
    #[verifier::loop_isolation(false)]
    pub fn process_new_events(&mut self, log: &[Turn])
        requires
            old(self).wf(),
            old(self).log_processed <= log@.len(),
        ensures
            final(self).wf(),
            final(self).log_processed == log@.len(),
            final(self).model() == track_log(
                old(self).model(),
                log@.subrange(old(self).log_processed as int, log@.len() as int),
            ),
            old(self).log_processed == log@.len() ==> *final(self) == *old(self),
    {
        let ghost m0 = self.model();
        let ghost start = self.log_processed as int;
        let mut i: usize = self.log_processed;
        proof {
            assert(log@.subrange(start, start) =~= Seq::<Turn>::empty());
        }
        while i < log.len()
            invariant
                start <= i <= log@.len(),
                self.wf(),
                self.log_processed == old(self).log_processed,
                self.model() == track_log(m0, log@.subrange(start, i as int)),
                i > start || *self == *old(self),
            decreases log@.len() - i,
        {
            proof {
                assert(log@.subrange(start, i as int + 1) =~= log@.subrange(
                    start,
                    i as int,
                ).push(log@[i as int]));
                lemma_track_log_push(m0, log@.subrange(start, i as int), log@[i as int]);
            }
            let ghost mi = self.model();
            match &log[i].action {
                Action::Played(chain) => {
                    let mut j: usize = 0;
                    proof {
                        assert(chain@.take(0) =~= Seq::<Card>::empty());
                    }
                    while j < chain.len()
                        invariant
                            j <= chain@.len(),
                            self.wf(),
                            self.log_processed == old(self).log_processed,
                            self.model() == track_cards(mi, chain@.take(j as int)),
                        decreases chain@.len() - j,
                    {
                        proof {
                            assert(chain@.take(j as int + 1) =~= chain@.take(j as int).push(
                                chain@[j as int],
                            ));
                            lemma_track_cards_push(mi, chain@.take(j as int), chain@[j as int]);
                        }
                        self.mark_seen(chain[j]);
                        j += 1;
                    }
                    proof {
                        assert(chain@.take(chain@.len() as int) =~= chain@);
                    }
                },
                Action::First(c) => {
                    self.mark_seen(*c);
                    if self.deck_count >= 1 {
                        self.deck_count = self.deck_count - 1;
                    } else {
                        self.deck_count = 0;
                    }
                },
                Action::PickedUp(n) => {
                    let n = *n;
                    if n <= self.deck_count {
                        self.deck_count = self.deck_count - n;
                    } else {
                        let discard_pile_size = self.dead_cards.len();
                        proof {
                            self.dead_cards@.unique_seq_to_set();
                        }
                        self.dead_cards = Vec::new();
                        self.live_cards = Card::full_deck();
                        let recycled = self.deck_count.saturating_add(discard_pile_size);
                        self.deck_count = recycled.saturating_sub(n);
                        proof {
                            lemma_full_deck_distinct();
                            assert(self.dead_cards@.to_set() =~= Set::<Card>::empty());
                        }
                    }
                },
                _ => {},
            }
            i += 1;
        }
        self.log_processed = log.len();
        proof {
            assert(log@.subrange(start, log@.len() as int) == log@.subrange(
                old(self).log_processed as int,
                log@.len() as int,
            ));
        }
    }

    pub fn choose_next(&mut self, hand: &[Card], log: &[Turn]) -> (chain: Vec<Card>)
        requires
            old(self).wf(),
            old(self).log_processed <= log@.len(),
            log_wf(log@),
            all_standard(hand@),
            spec_outstanding_penalty(log@) <= usize::MAX,
        ensures
            final(self).wf(),
            final(self).log_processed == log@.len(),
            final(self).model() == track_log(
                old(self).model(),
                log@.subrange(old(self).log_processed as int, log@.len() as int),
            ),
            spec_best_choice(log@, hand@, chain@),
    {
        self.process_new_events(log);
        find_best_valid(log, hand)
    }

    pub fn choose_suit(&self, hand: &[Card]) -> (s: Suit)
        requires
            hand@.len() > 0,
        ensures
            forall|t: Suit| #[trigger] spec_suit_count(hand@, t) <= spec_suit_count(hand@, s),
    {
        choose_suit(hand)
    }
}

impl Strategy for ComputerStrategyV2 {
    open spec fn ready(&self, hand: Seq<Card>, log: Seq<Turn>) -> bool {
        &&& self.wf()
        &&& self.log_processed <= log.len()
        &&& log_wf(log)
        &&& all_standard(hand)
        &&& spec_outstanding_penalty(log) <= usize::MAX
    }

    fn choose_next(&mut self, hand: &[Card], log: &[Turn]) -> (chain: Vec<Card>) {
        self.process_new_events(log);
        find_best_valid(log, hand)
    }

    fn choose_suit(&mut self, hand: &[Card], _log: &[Turn]) -> (s: Suit) {
        choose_suit(hand)
    }

    open spec fn spec_name(&self) -> Seq<char> {
        "Computer (v2)"@
    }

    fn name(&self) -> (n: &'static str) {
        "Computer (v2)"
    }
}

} // verus!
