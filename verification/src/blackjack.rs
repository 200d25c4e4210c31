//! The rule engine: pure legality and penalty accounting over the turn
//! log. It decides which card may open a play (`can_follow`), which card
//! may extend a play (`can_link`), whether a whole chain is a legal play
//! (`is_valid`), and how many cards the threatened player must draw
//! (`outstanding_penalty`).

use vstd::prelude::*;

use crate::cards::{Card, Rank, Suit};
use crate::game::{log_wf, Action, Turn};

verus! {

/// How many cards each player is dealt at the start of a game.
pub const STARTING_CARD_COUNT: usize = 7;

/// The extra draw penalty a card imposes on the next player unless
/// countered: 5 for a black Jack, 2 for any rank-2, otherwise none.
pub open spec fn spec_penalty_value(c: Card) -> nat {
    if c.rank == Rank::Jack && c.suit.spec_is_black() {
        5
    } else if c.rank == Rank::Val(2) {
        2
    } else {
        0
    }
}

pub fn penalty_value(card: Card) -> (p: usize)
    ensures
        p == spec_penalty_value(card),
{
    match card {
        Card { rank: Rank::Jack, suit: s } => if s.is_black() {
            5
        } else {
            0
        },
        Card { rank: Rank::Val(2), suit: _ } => 2,
        _ => 0,
    }
}

/// The points a card costs when left in a hand at game end: Ace 25,
/// rank-8 and rank-2 20, black Jack 15, all other cards their face value.
pub open spec fn spec_card_score(c: Card) -> int {
    if c.rank == Rank::Ace {
        25
    } else if c.rank == Rank::Val(8) {
        20
    } else if c.rank == Rank::Val(2) {
        20
    } else if c.rank == Rank::Jack && c.suit.spec_is_black() {
        15
    } else {
        c.rank.spec_face_value()
    }
}

pub fn card_score(card: &Card) -> (s: i32)
    ensures
        s as int == spec_card_score(*card),
{
    match card {
        Card { rank: Rank::Ace, suit: _ } => 25,
        Card { rank: Rank::Val(8), suit: _ } => 20,
        Card { rank: Rank::Val(2), suit: _ } => 20,
        Card { rank: Rank::Jack, suit: s } => if s.is_black() {
            15
        } else {
            10
        },
        Card { rank: r, suit: _ } => r.face_value(),
    }
}

/// The summed penalty of the run of penalty-bearing cards at the tail of
/// a chain, read from the tail backward and stopping at the first card
/// that bears none.
pub open spec fn spec_trailing_penalty(chain: Seq<Card>) -> nat
    decreases chain.len(),
{
    if chain.len() == 0 {
        0
    } else if spec_penalty_value(chain.last()) > 0 {
        spec_penalty_value(chain.last()) + spec_trailing_penalty(chain.drop_last())
    } else {
        0
    }
}

/// Whether every card of a chain bears a penalty (in that case a backward
/// scan runs through the whole chain and continues into the turn before).
pub open spec fn spec_all_penalty(chain: Seq<Card>) -> bool {
    forall|k: int| 0 <= k < chain.len() ==> spec_penalty_value(#[trigger] chain[k]) > 0
}

/// The outstanding penalty accumulated by the backward scan that stands
/// at log position `i`: a `Played` run contributes its trailing penalty
/// and, when the whole run bears penalties, the scan continues into the
/// turn before; the opening card contributes its own penalty; any other
/// turn stops the scan at once.
pub open spec fn spec_outstanding_penalty_at(log: Seq<Turn>, i: int) -> nat
    decreases i + 1,
{
    if i < 0 {
        0
    } else {
        match log[i].action {
            Action::Played(chain) => spec_trailing_penalty(chain@) + if spec_all_penalty(chain@) {
                spec_outstanding_penalty_at(log, i - 1)
            } else {
                0
            },
            Action::First(c) => spec_penalty_value(c),
            _ => 0,
        }
    }
}

/// The number of cards the next player must draw if they do not extend or
/// counter the current penalty run, recomputed from the log alone.
pub open spec fn spec_outstanding_penalty(log: Seq<Turn>) -> nat {
    spec_outstanding_penalty_at(log, log.len() - 1)
}

#[verifier::loop_isolation(false)]
pub fn outstanding_penalty(log: &[Turn]) -> (penalty: usize)
    requires
        spec_outstanding_penalty(log@) <= usize::MAX,
    ensures
        penalty == spec_outstanding_penalty(log@),
{
    let mut penalty: usize = 0;
    let mut i: usize = log.len();
    while i > 0
        invariant
            i <= log@.len(),
            penalty + spec_outstanding_penalty_at(log@, i as int - 1) == spec_outstanding_penalty(
                log@,
            ),
        decreases i,
    {
        i -= 1;
        match &log[i].action {
            Action::Played(chain) => {
                let ghost pen0 = penalty as nat;
                let mut j: usize = chain.len();
                proof {
                    assert(chain@.take(j as int) =~= chain@);
                }
                while j > 0
                    invariant
                        j <= chain@.len(),
                        forall|k: int|
                            j <= k < chain@.len() ==> spec_penalty_value(#[trigger] chain@[k]) > 0,
                        penalty + spec_trailing_penalty(chain@.take(j as int)) == pen0
                            + spec_trailing_penalty(chain@),
                    decreases j,
                {
                    j -= 1;
                    let p = penalty_value(chain[j]);
                    proof {
                        assert(chain@.take(j as int + 1).last() == chain@[j as int]);
                        assert(chain@.take(j as int + 1).drop_last() =~= chain@.take(j as int));
                    }
                    if p > 0 {
                        proof {
                            assert(spec_trailing_penalty(chain@.take(j as int + 1))
                                == spec_penalty_value(chain@[j as int]) + spec_trailing_penalty(
                                chain@.take(j as int),
                            ));
                            assert(pen0 + spec_outstanding_penalty_at(log@, i as int)
                                == spec_outstanding_penalty(log@));
                            assert(spec_outstanding_penalty_at(log@, i as int)
                                >= spec_trailing_penalty(chain@));
                        }
                        penalty += p;
                    } else {
                        proof {
                            assert(spec_trailing_penalty(chain@.take(j as int + 1)) == 0);
                            assert(!spec_all_penalty(chain@));
                            assert(spec_outstanding_penalty_at(log@, i as int)
                                == spec_trailing_penalty(chain@));
                        }
                        return penalty;
                    }
                }
                proof {
                    assert(chain@.take(0) =~= Seq::<Card>::empty());
                    assert(spec_all_penalty(chain@));
                    assert(spec_outstanding_penalty_at(log@, i as int) == spec_trailing_penalty(
                        chain@,
                    ) + spec_outstanding_penalty_at(log@, i as int - 1));
                }
            },
            Action::First(card) => {
                let p = penalty_value(*card);
                proof {
                    assert(spec_outstanding_penalty_at(log@, i as int) == spec_penalty_value(
                        *card,
                    ));
                }
                return penalty + p;
            },
            _ => {
                proof {
                    assert(spec_outstanding_penalty_at(log@, i as int) == 0);
                }
                return penalty;
            },
        }
    }
    penalty
}

/// The default follow rule: the candidate is an Ace, or shares the suit
/// or the rank of the reference card.
pub open spec fn spec_follows_nominal(prev: Card, next: Card) -> bool {
    ||| next.rank == Rank::Ace
    ||| prev.suit == next.suit
    ||| prev.rank == next.rank
}

/// The follow rule against a reference card. While a special card is
/// still active, a black Jack admits only Jacks or its own suit's rank-2,
/// a rank-2 only rank-2s, and a rank-8 only rank-8s; everything else, and
/// every expired card, falls back to the default rule.
pub open spec fn spec_follows_card(active: bool, prev: Card, next: Card) -> bool {
    if active {
        if prev.rank == Rank::Jack && prev.suit.spec_is_black() {
            next.rank == Rank::Jack || (next.rank == Rank::Val(2) && next.suit == prev.suit)
        } else if prev.rank == Rank::Val(2) {
            next.rank == Rank::Val(2)
        } else if prev.rank == Rank::Val(8) {
            next.rank == Rank::Val(8)
        } else {
            spec_follows_nominal(prev, next)
        }
    } else {
        spec_follows_nominal(prev, next)
    }
}

fn can_follow_nominal(prev: Card, next: Card) -> (r: bool)
    ensures
        r == spec_follows_nominal(prev, next),
{
    next.rank == Rank::Ace || prev.suit == next.suit || prev.rank == next.rank
}

fn can_follow_card(active: bool, prev: Card, next: Card) -> (r: bool)
    ensures
        r == spec_follows_card(active, prev, next),
{
    if active {
        match prev {
            Card { rank: Rank::Jack, suit: s } if s.is_black() => {
                match next {
                    Card { rank: Rank::Jack, suit: _ } => true,
                    Card { rank: Rank::Val(2), suit: s2 } => s == s2,
                    _ => false,
                }
            },
            Card { rank: Rank::Val(2), suit: _ } => next.rank == Rank::Val(2),
            Card { rank: Rank::Val(8), suit: _ } => next.rank == Rank::Val(8),
            _ => can_follow_nominal(prev, next),
        }
    } else {
        can_follow_nominal(prev, next)
    }
}

/// The follow verdict of the backward scan standing at log position `i`
/// with the given active flag: a `Played` run or the opening card is
/// tested with [`spec_follows_card`]; a nomination admits the nominated
/// suit or an Ace; a pickup or a skip expires the active flag and the
/// scan moves on to the turn before.
pub open spec fn spec_can_follow_at(log: Seq<Turn>, i: int, active: bool, next: Card) -> bool
    decreases i + 1,
{
    if i < 0 {
        false
    } else {
        match log[i].action {
            Action::First(prev) => spec_follows_card(active, prev, next),
            Action::Played(chain) => spec_follows_card(active, chain@.last(), next),
            Action::Nominated(s) => next.suit == s || next.rank == Rank::Ace,
            _ => spec_can_follow_at(log, i - 1, false, next),
        }
    }
}

/// Whether `next` may legally open a new play on the current table state.
pub open spec fn spec_can_follow(log: Seq<Turn>, next: Card) -> bool {
    spec_can_follow_at(log, log.len() - 1, true, next)
}

#[verifier::loop_isolation(false)]
pub fn can_follow(log: &[Turn], next: Card) -> (r: bool)
    requires
        log_wf(log@),
    ensures
        r == spec_can_follow(log@, next),
{
    let mut idx: usize = log.len() - 1;
    let mut is_active = true;
    loop
        invariant
            idx < log@.len(),
            spec_can_follow_at(log@, idx as int, is_active, next) == spec_can_follow(log@, next),
        decreases idx,
    {
        match &log[idx].action {
            Action::First(prev) => {
                return can_follow_card(is_active, *prev, next);
            },
            Action::Played(chain) => {
                return can_follow_card(is_active, chain[chain.len() - 1], next);
            },
            Action::Nominated(s) => {
                return next.suit == *s || next.rank == Rank::Ace;
            },
            _ => {
                proof {
                    assert(idx != 0);
                }
                is_active = false;
                idx -= 1;
            },
        }
    }
}

/// What ranks a King may extend into within one play: not a rank-2,
/// rank-8 or Ace, and a Jack only when red.
pub open spec fn spec_king_run_extension(next: Card) -> bool {
    match next.rank {
        Rank::Val(v) => v != 2 && v != 8,
        Rank::Jack => !next.suit.spec_is_black(),
        Rank::Queen => true,
        Rank::King => true,
        Rank::Ace => false,
    }
}

/// Whether `next` may be laid down immediately after `prev` within the
/// same play: Aces chain only with Aces; otherwise equal ranks, or equal
/// suits with adjacent ranks, or a same-suit King extension.
pub open spec fn spec_can_link(prev: Card, next: Card) -> bool {
    if (prev.rank == Rank::Ace) != (next.rank == Rank::Ace) {
        false
    } else {
        ||| prev.rank == next.rank
        ||| (prev.suit == next.suit && Rank::spec_adjacent(prev.rank, next.rank))
        ||| (prev.rank == Rank::King && prev.suit == next.suit && spec_king_run_extension(next))
    }
}

pub fn can_link(prev: Card, next: Card) -> (r: bool)
    ensures
        r == spec_can_link(prev, next),
{
    if (prev.rank == Rank::Ace) != (next.rank == Rank::Ace) {
        return false;
    }
    if prev.rank == next.rank {
        return true;
    }
    if prev.suit == next.suit && Rank::adjacent(prev.rank, next.rank) {
        return true;
    }
    prev.rank == Rank::King && prev.suit == next.suit && (match next.rank {
        Rank::Val(v) => v != 2 && v != 8,
        Rank::Jack => next.suit.is_red(),
        Rank::Queen => true,
        Rank::King => true,
        Rank::Ace => false,
    })
}

/// Whether some card of the hand may open a play on the current state.
pub open spec fn spec_can_follow_from_hand(log: Seq<Turn>, hand: Seq<Card>) -> bool {
    exists|i: int| 0 <= i < hand.len() && spec_can_follow(log, #[trigger] hand[i])
}

/// Whether any card of the hand may open a play on the current state.
#[verifier::loop_isolation(false)]
pub fn can_go(log: &[Turn], hand: &[Card]) -> (r: bool)
    requires
        log_wf(log@),
    ensures
        r == spec_can_follow_from_hand(log@, hand@),
{
    let mut i: usize = 0;
    while i < hand.len()
        invariant
            i <= hand@.len(),
            forall|k: int| 0 <= k < i ==> !spec_can_follow(log@, #[trigger] hand@[k]),
        decreases hand@.len() - i,
    {
        if can_follow(log, hand[i]) {
            return true;
        }
        i += 1;
    }
    false
}

/// Every card of the chain after the first links to its predecessor.
pub open spec fn chain_linked(chain: Seq<Card>) -> bool {
    forall|i: int| 1 <= i < chain.len() ==> spec_can_link(chain[i - 1], #[trigger] chain[i])
}

/// Whether a chain is a legal play on the current state: it is non-empty,
/// its first card may follow the table, and each later card links to the
/// one before it. The empty chain is never a valid play.
pub open spec fn spec_is_valid(log: Seq<Turn>, chain: Seq<Card>) -> bool {
    &&& chain.len() > 0
    &&& spec_can_follow(log, chain[0])
    &&& chain_linked(chain)
}

#[verifier::loop_isolation(false)]
pub fn is_valid(log: &[Turn], chain: &[Card]) -> (r: bool)
    requires
        log_wf(log@),
    ensures
        r == spec_is_valid(log@, chain@),
{
    if chain.len() == 0 {
        return false;
    }
    if !can_follow(log, chain[0]) {
        return false;
    }
    let mut i: usize = 1;
    while i < chain.len()
        invariant
            1 <= i <= chain@.len(),
            forall|k: int| 1 <= k < i ==> spec_can_link(chain@[k - 1], #[trigger] chain@[k]),
        decreases chain@.len() - i,
    {
        if !can_link(chain[i - 1], chain[i]) {
            return false;
        }
        i += 1;
    }
    true
}

/// Scoring is total and exhaustive over well-formed cards: every
/// full-deck card scores between 3 and 25 points, and bears a penalty of
/// exactly 0, 2 or 5.
pub proof fn lemma_scoring_total()
    ensures
        forall|c: Card| c.wf() ==> 3 <= spec_card_score(c) <= 25,
        forall|c: Card|
            c.wf() ==> (spec_penalty_value(c) == 0 || spec_penalty_value(c) == 2
                || #[trigger] spec_penalty_value(c) == 5),
{
}

/// The empty chain is never a valid play, on any log.
pub proof fn lemma_empty_chain_never_valid(log: Seq<Turn>)
    ensures
        !spec_is_valid(log, Seq::<Card>::empty()),
{
}

/// Linking is not symmetric: a red King extends into the red Jack of its
/// suit, but that Jack does not link back into the King. And the
/// same-suit King-into-Jack extension can never fire for a black King,
/// since it would need the Jack of the King's own (black) suit to be red.
pub proof fn lemma_can_link_asymmetric()
    ensures
        spec_can_link(
            Card { rank: Rank::King, suit: Suit::Hearts },
            Card { rank: Rank::Jack, suit: Suit::Hearts },
        ),
        !spec_can_link(
            Card { rank: Rank::Jack, suit: Suit::Hearts },
            Card { rank: Rank::King, suit: Suit::Hearts },
        ),
        forall|s: Suit|
            s.spec_is_black() ==> !#[trigger] spec_can_link(
                Card { rank: Rank::King, suit: s },
                Card { rank: Rank::Jack, suit: s },
            ),
{
}

/// A log whose last turn is a skip or a pickup carries no outstanding
/// penalty: those turns stop the backward scan at once.
pub proof fn lemma_no_penalty_after_interruption(log: Seq<Turn>)
    requires
        log.len() > 0,
        log.last().action is Skipped || log.last().action is PickedUp,
    ensures
        spec_outstanding_penalty(log) == 0,
{
}

} // verus!
