//! The chain search shared by the automated strategies: a bounded
//! backtracking enumeration of legal chains, the scoring function, and
//! the suit-nomination count.

use vstd::prelude::*;

use crate::blackjack::{
    can_follow, can_link, card_score, chain_linked, lemma_scoring_total, outstanding_penalty,
    penalty_value, spec_can_follow, spec_can_follow_from_hand, spec_can_link, spec_card_score,
    spec_is_valid, spec_outstanding_penalty, spec_trailing_penalty,
};
use crate::cards::{all_standard, suit_at, Card, Suit};
use crate::game::{log_wf, Turn};
use vstd::multiset::Multiset;
use vstd::slice::slice_to_vec;

verus! {

broadcast use vstd::seq_lib::group_to_multiset_ensures, vstd::multiset::group_multiset_axioms;

/// The work ceiling of one chain search: the search stops reporting once
/// this many prefixes have been visited.
pub const MAX_PERMUTATIONS: u64 = 10_000;

/// What a strategy owes for the chain it picks: it returns a chain
/// exactly when some hand card may follow the log, and a returned chain
/// is a valid play drawn from the hand.
pub open spec fn spec_good_choice(log: Seq<Turn>, hand: Seq<Card>, chain: Seq<Card>) -> bool {
    &&& (chain.len() > 0) == spec_can_follow_from_hand(log, hand)
    &&& (chain.len() > 0 ==> spec_is_valid(log, chain) && chain.to_multiset().subset_of(
        hand.to_multiset(),
    ))
}

/// What the engine's own automated strategies owe beyond a good choice:
/// among the chains the bounded search reports for this hand and log, the
/// returned chain scores highest, earlier-reported chains winning ties.
pub open spec fn spec_best_choice(log: Seq<Turn>, hand: Seq<Card>, chain: Seq<Card>) -> bool {
    let emitted = spec_chain_search(log, hand, 0, 0).0;
    let op = spec_outstanding_penalty(log);
    &&& spec_good_choice(log, hand, chain)
    &&& forall|k: int|
        0 <= k < emitted.len() ==> spec_score(op, #[trigger] emitted[k]) <= spec_score(op, chain)
    &&& (chain.len() > 0 ==> exists|m: int|
        0 <= m < emitted.len() && #[trigger] emitted[m] == chain && (forall|k: int|
            0 <= k < m ==> spec_score(op, #[trigger] emitted[k]) < spec_score(op, chain)))
}

/// Two positions of a buffer exchanged.
pub open spec fn swap_seq(s: Seq<Card>, a: int, b: int) -> Seq<Card> {
    s.update(a, s[b]).update(b, s[a])
}

/// The card sequences a list of chains stands for.
pub open spec fn chains_view(chains: Seq<Vec<Card>>) -> Seq<Seq<Card>> {
    chains.map_values(|v: Vec<Card>| v@)
}

/// The mathematical definition of the extension search: what the chains
/// reported from the legal prefix `cards[0 .. chain_length]` are, and
/// where the work counter ends up. The prefix itself is reported first;
/// if the ceiling is not yet reached, the counter ticks once and every
/// remaining card that links to the prefix's last card is tried in
/// position order, depth first.
pub open spec fn spec_extensions(chain_length: int, cards: Seq<Card>, ctr: nat) -> (
    Seq<Seq<Card>>,
    nat,
)
    decreases cards.len() - chain_length, cards.len() - chain_length + 1,
{
    if chain_length < 1 || chain_length > cards.len() {
        (Seq::<Seq<Card>>::empty(), ctr)
    } else {
        let prefix = cards.take(chain_length);
        if ctr >= MAX_PERMUTATIONS {
            (seq![prefix], ctr)
        } else {
            let rest = spec_extensions_from(chain_length, cards, cards, chain_length, ctr + 1);
            (seq![prefix] + rest.0, rest.1)
        }
    }
}

/// The loop of the extension search, standing at candidate position `i`:
/// `cards` is the buffer as this level received it (candidates are read
/// from it), `scratch` the buffer with the swaps made so far.
pub open spec fn spec_extensions_from(
    chain_length: int,
    cards: Seq<Card>,
    scratch: Seq<Card>,
    i: int,
    ctr: nat,
) -> (Seq<Seq<Card>>, nat)
    decreases cards.len() - chain_length, cards.len() - i,
{
    if chain_length < 1 || chain_length > i || i >= cards.len() || scratch.len() != cards.len() {
        (Seq::<Seq<Card>>::empty(), ctr)
    } else if spec_can_link(cards[chain_length - 1], cards[i]) {
        let next = if i != chain_length {
            swap_seq(scratch, chain_length, i)
        } else {
            scratch
        };
        let sub = spec_extensions(chain_length + 1, next, ctr);
        let rest = spec_extensions_from(chain_length, cards, next, i + 1, sub.1);
        (sub.0 + rest.0, rest.1)
    } else {
        spec_extensions_from(chain_length, cards, scratch, i + 1, ctr)
    }
}

/// The mathematical definition of the whole chain search over a hand
/// buffer: each position whose card may open a play is swapped to the
/// front and extended; the result lists the reported chains in search
/// order, the buffer as the swaps left it, and the final counter. Two
/// searches over the same log, buffer and counter agree exactly.
pub open spec fn spec_chain_search(log: Seq<Turn>, scratch: Seq<Card>, f: int, ctr: nat) -> (
    Seq<Seq<Card>>,
    Seq<Card>,
    nat,
)
    decreases scratch.len() - f,
{
    if f < 0 || f >= scratch.len() {
        (Seq::<Seq<Card>>::empty(), scratch, ctr)
    } else if spec_can_follow(log, scratch[f]) {
        let next = if f != 0 {
            swap_seq(scratch, 0, f)
        } else {
            scratch
        };
        let sub = spec_extensions(1, next, ctr);
        let rest = spec_chain_search(log, next, f + 1, sub.1);
        (sub.0 + rest.0, rest.1, rest.2)
    } else {
        spec_chain_search(log, scratch, f + 1, ctr)
    }
}

/// Exchanging two positions keeps the length, the contents and
/// everything outside the two positions.
proof fn lemma_swap_seq_facts(s: Seq<Card>, a: int, b: int)
    requires
        0 <= a < b < s.len(),
    ensures
        swap_seq(s, a, b).len() == s.len(),
        swap_seq(s, a, b).to_multiset() == s.to_multiset(),
        swap_seq(s, a, b)[a] == s[b],
        swap_seq(s, a, b)[b] == s[a],
        forall|k: int| 0 <= k < s.len() && k != a && k != b ==> swap_seq(s, a, b)[k] == s[k],
        swap_seq(s, a, b).take(a) == s.take(a),
{
    broadcast use vstd::seq_lib::to_multiset_update;

    assert(swap_seq(s, a, b).to_multiset() =~= s.to_multiset());
    assert(swap_seq(s, a, b).take(a) =~= s.take(a));
}

/// Buffers with equal contents and an equal front have tails with equal
/// contents.
proof fn lemma_tail_multiset(s: Seq<Card>, t: Seq<Card>, n: int)
    requires
        0 <= n <= s.len(),
        s.len() == t.len(),
        s.to_multiset() == t.to_multiset(),
        s.take(n) == t.take(n),
    ensures
        s.skip(n).to_multiset() == t.skip(n).to_multiset(),
{
    assert(s =~= s.take(n) + s.skip(n));
    assert(t =~= t.take(n) + t.skip(n));
    vstd::seq_lib::lemma_multiset_commutative(s.take(n), s.skip(n));
    vstd::seq_lib::lemma_multiset_commutative(t.take(n), t.skip(n));
    assert forall|x: Card|
        s.skip(n).to_multiset().count(x) == t.skip(n).to_multiset().count(x) by {
        assert(s.to_multiset().count(x) == s.take(n).to_multiset().add(
            s.skip(n).to_multiset(),
        ).count(x));
        assert(t.to_multiset().count(x) == t.take(n).to_multiset().add(
            t.skip(n).to_multiset(),
        ).count(x));
    }
    assert(s.skip(n).to_multiset() =~= t.skip(n).to_multiset());
}

/// A buffer's contents are the card at a position plus the contents past
/// that position, for the tail starting there.
proof fn lemma_skip_step(c: Seq<Card>, n: int)
    requires
        0 <= n < c.len(),
    ensures
        c.skip(n).to_multiset() == c.skip(n + 1).to_multiset().insert(c[n]),
{
    assert(c.skip(n) =~= seq![c[n]] + c.skip(n + 1));
    vstd::seq_lib::lemma_multiset_commutative(seq![c[n]], c.skip(n + 1));
    assert(seq![c[n]] =~= Seq::<Card>::empty().push(c[n]));
    assert(Seq::<Card>::empty().to_multiset().len() == 0);
    assert(Seq::<Card>::empty().to_multiset() =~= Multiset::<Card>::empty());
    assert(seq![c[n]].to_multiset() =~= Multiset::<Card>::empty().insert(c[n]));
    assert(c.skip(n).to_multiset() =~= c.skip(n + 1).to_multiset().insert(c[n]));
}

/// The extension search's counter never decreases, and while it ends
/// below the ceiling it ticked exactly once per reported chain.
pub proof fn lemma_extensions_counter(chain_length: int, cards: Seq<Card>, ctr: nat)
    ensures
        ({
            let r = spec_extensions(chain_length, cards, ctr);
            r.1 >= ctr && (r.1 < MAX_PERMUTATIONS ==> r.1 == ctr + r.0.len())
        }),
    decreases cards.len() - chain_length, cards.len() - chain_length + 1,
{
    if 1 <= chain_length <= cards.len() && ctr < MAX_PERMUTATIONS {
        lemma_extensions_from_counter(chain_length, cards, cards, chain_length, ctr + 1);
    }
}

pub proof fn lemma_extensions_from_counter(
    chain_length: int,
    cards: Seq<Card>,
    scratch: Seq<Card>,
    i: int,
    ctr: nat,
)
    ensures
        ({
            let r = spec_extensions_from(chain_length, cards, scratch, i, ctr);
            r.1 >= ctr && (r.1 < MAX_PERMUTATIONS ==> r.1 == ctr + r.0.len())
        }),
    decreases cards.len() - chain_length, cards.len() - i,
{
    if 1 <= chain_length <= i && i < cards.len() && scratch.len() == cards.len() {
        if spec_can_link(cards[chain_length - 1], cards[i]) {
            let next = if i != chain_length {
                swap_seq(scratch, chain_length, i)
            } else {
                scratch
            };
            lemma_extensions_counter(chain_length + 1, next, ctr);
            let sub = spec_extensions(chain_length + 1, next, ctr);
            lemma_extensions_from_counter(chain_length, cards, next, i + 1, sub.1);
        } else {
            lemma_extensions_from_counter(chain_length, cards, scratch, i + 1, ctr);
        }
    }
}

/// The whole search's counter never decreases, and while it ends below
/// the ceiling it ticked exactly once per reported chain.
pub proof fn lemma_search_counter(log: Seq<Turn>, scratch: Seq<Card>, f: int, ctr: nat)
    ensures
        ({
            let r = spec_chain_search(log, scratch, f, ctr);
            r.2 >= ctr && (r.2 < MAX_PERMUTATIONS ==> r.2 == ctr + r.0.len())
        }),
    decreases scratch.len() - f,
{
    if 0 <= f < scratch.len() {
        if spec_can_follow(log, scratch[f]) {
            let next = if f != 0 {
                swap_seq(scratch, 0, f)
            } else {
                scratch
            };
            lemma_extensions_counter(1, next, ctr);
            let sub = spec_extensions(1, next, ctr);
            lemma_search_counter(log, next, f + 1, sub.1);
        } else {
            lemma_search_counter(log, scratch, f + 1, ctr);
        }
    }
}

/// Completeness of the extension search: while the work ceiling was not
/// reached, every linked chain that extends the current prefix using only
/// cards of the remaining pool is reported.
pub proof fn lemma_extensions_complete(chain_length: int, cards: Seq<Card>, ctr: nat, c: Seq<Card>)
    requires
        1 <= chain_length <= cards.len(),
        spec_extensions(chain_length, cards, ctr).1 < MAX_PERMUTATIONS,
        chain_length <= c.len(),
        c.take(chain_length) == cards.take(chain_length),
        chain_linked(c),
        c.skip(chain_length).to_multiset().subset_of(cards.skip(chain_length).to_multiset()),
    ensures
        spec_extensions(chain_length, cards, ctr).0.contains(c),
    decreases c.len() - chain_length, cards.len() + 1,
{
    let r = spec_extensions(chain_length, cards, ctr);
    assert(ctr < MAX_PERMUTATIONS);
    let rest = spec_extensions_from(chain_length, cards, cards, chain_length, ctr + 1);
    if c.len() == chain_length {
        assert(c =~= cards.take(chain_length));
        assert(r.0[0] == c);
        assert(r.0.contains(c));
    } else {
        assert(c.skip(chain_length)[0] == c[chain_length]);
        assert(c.skip(chain_length).contains(c[chain_length]));
        assert(c.skip(chain_length).to_multiset().count(c[chain_length]) > 0);
        assert(cards.skip(chain_length).to_multiset().count(c[chain_length]) > 0);
        assert(cards.skip(chain_length).contains(c[chain_length]));
        let w = choose|j: int|
            0 <= j < cards.skip(chain_length).len() && cards.skip(chain_length)[j]
                == c[chain_length];
        assert(cards[w + chain_length] == c[chain_length]);
        lemma_extensions_from_complete(chain_length, cards, cards, chain_length, ctr + 1, c);
        let u = choose|k: int| 0 <= k < rest.0.len() && rest.0[k] == c;
        assert(r.0[1 + u] == c);
        assert(r.0.contains(c));
    }
}

/// Completeness of the extension loop from candidate position `i` on:
/// while the work ceiling was not reached, every linked extension whose
/// next card still stands at or past `i` is reported.
pub proof fn lemma_extensions_from_complete(
    chain_length: int,
    cards: Seq<Card>,
    scratch: Seq<Card>,
    i: int,
    ctr: nat,
    c: Seq<Card>,
)
    requires
        1 <= chain_length <= i <= cards.len(),
        scratch.len() == cards.len(),
        scratch.take(chain_length) == cards.take(chain_length),
        forall|k: int| i <= k < cards.len() ==> scratch[k] == cards[k],
        scratch.to_multiset() == cards.to_multiset(),
        spec_extensions_from(chain_length, cards, scratch, i, ctr).1 < MAX_PERMUTATIONS,
        chain_length < c.len(),
        c.take(chain_length) == cards.take(chain_length),
        chain_linked(c),
        c.skip(chain_length).to_multiset().subset_of(cards.skip(chain_length).to_multiset()),
        exists|j: int| i <= j < cards.len() && cards[j] == c[chain_length],
    ensures
        spec_extensions_from(chain_length, cards, scratch, i, ctr).0.contains(c),
    decreases c.len() - chain_length, cards.len() - i,
{
    let r = spec_extensions_from(chain_length, cards, scratch, i, ctr);
    let witness = choose|j: int| i <= j < cards.len() && cards[j] == c[chain_length];
    assert(i < cards.len());
    if cards[i] == c[chain_length] {
        assert(c[chain_length - 1] == cards[chain_length - 1]) by {
            assert(c.take(chain_length)[chain_length - 1] == c[chain_length - 1]);
            assert(cards.take(chain_length)[chain_length - 1] == cards[chain_length - 1]);
        }
        assert(spec_can_link(cards[chain_length - 1], cards[i]));
        let next = if i != chain_length {
            swap_seq(scratch, chain_length, i)
        } else {
            scratch
        };
        if i != chain_length {
            lemma_swap_seq_facts(scratch, chain_length, i);
        }
        assert(next[chain_length] == c[chain_length]);
        assert(next.take(chain_length + 1) =~= c.take(chain_length + 1)) by {
            assert(forall|k: int|
                0 <= k < chain_length ==> #[trigger] next[k] == scratch.take(chain_length)[k]);
            assert(forall|k: int|
                0 <= k < chain_length ==> #[trigger] c[k] == c.take(chain_length)[k]
                    && cards[k] == cards.take(chain_length)[k]);
        }
        assert(next.take(chain_length) =~= cards.take(chain_length));
        lemma_tail_multiset(next, cards, chain_length);
        lemma_skip_step(next, chain_length);
        lemma_skip_step(c, chain_length);
        assert forall|x: Card|
            #[trigger] c.skip(chain_length + 1).to_multiset().count(x) <= next.skip(
                chain_length + 1,
            ).to_multiset().count(x) by {
            assert(c.skip(chain_length).to_multiset().count(x) <= cards.skip(
                chain_length,
            ).to_multiset().count(x));
            assert(c.skip(chain_length).to_multiset() == c.skip(
                chain_length + 1,
            ).to_multiset().insert(c[chain_length]));
            assert(next.skip(chain_length).to_multiset() == next.skip(
                chain_length + 1,
            ).to_multiset().insert(c[chain_length]));
        }
        let sub = spec_extensions(chain_length + 1, next, ctr);
        lemma_extensions_from_counter(chain_length, cards, next, i + 1, sub.1);
        lemma_extensions_complete(chain_length + 1, next, ctr, c);
        let u = choose|k: int| 0 <= k < sub.0.len() && sub.0[k] == c;
        assert(r.0[u] == c);
        assert(r.0.contains(c));
    } else {
        assert(witness >= i + 1);
        if spec_can_link(cards[chain_length - 1], cards[i]) {
            let next = if i != chain_length {
                swap_seq(scratch, chain_length, i)
            } else {
                scratch
            };
            if i != chain_length {
                lemma_swap_seq_facts(scratch, chain_length, i);
            }
            assert(next.take(chain_length) =~= cards.take(chain_length));
            let sub = spec_extensions(chain_length + 1, next, ctr);
            lemma_extensions_counter(chain_length + 1, next, ctr);
            lemma_extensions_from_complete(chain_length, cards, next, i + 1, sub.1, c);
            let rest = spec_extensions_from(chain_length, cards, next, i + 1, sub.1);
            let u = choose|k: int| 0 <= k < rest.0.len() && rest.0[k] == c;
            assert(r.0[sub.0.len() + u] == c);
            assert(r.0.contains(c));
        } else {
            lemma_extensions_from_complete(chain_length, cards, scratch, i + 1, ctr, c);
        }
    }
}

/// Completeness of the whole search: while the work ceiling was not
/// reached, every valid play drawn from the buffer whose opening card
/// still stands at or past position `f` is reported.
pub proof fn lemma_search_complete(
    log: Seq<Turn>,
    scratch: Seq<Card>,
    f: int,
    ctr: nat,
    c: Seq<Card>,
)
    requires
        0 <= f <= scratch.len(),
        spec_chain_search(log, scratch, f, ctr).2 < MAX_PERMUTATIONS,
        spec_is_valid(log, c),
        c.to_multiset().subset_of(scratch.to_multiset()),
        exists|j: int| f <= j < scratch.len() && scratch[j] == c[0],
    ensures
        spec_chain_search(log, scratch, f, ctr).0.contains(c),
    decreases scratch.len() - f,
{
    let r = spec_chain_search(log, scratch, f, ctr);
    let witness = choose|j: int| f <= j < scratch.len() && scratch[j] == c[0];
    assert(f < scratch.len());
    if scratch[f] == c[0] {
        assert(spec_can_follow(log, scratch[f]));
        let next = if f != 0 {
            swap_seq(scratch, 0, f)
        } else {
            scratch
        };
        if f != 0 {
            lemma_swap_seq_facts(scratch, 0, f);
        }
        assert(next[0] == c[0]);
        assert(next.take(1) =~= c.take(1));
        lemma_skip_step(next, 0);
        lemma_skip_step(c, 0);
        assert(next.skip(0) =~= next);
        assert(c.skip(0) =~= c);
        assert forall|x: Card|
            #[trigger] c.skip(1).to_multiset().count(x) <= next.skip(1).to_multiset().count(
                x,
            ) by {
            assert(c.to_multiset().count(x) <= scratch.to_multiset().count(x));
            assert(c.to_multiset() == c.skip(1).to_multiset().insert(c[0]));
            assert(next.to_multiset() == next.skip(1).to_multiset().insert(c[0]));
        }
        let sub = spec_extensions(1, next, ctr);
        lemma_search_counter(log, next, f + 1, sub.1);
        lemma_extensions_complete(1, next, ctr, c);
        let u = choose|k: int| 0 <= k < sub.0.len() && sub.0[k] == c;
        assert(r.0[u] == c);
        assert(r.0.contains(c));
    } else {
        assert(witness >= f + 1);
        if spec_can_follow(log, scratch[f]) {
            let next = if f != 0 {
                swap_seq(scratch, 0, f)
            } else {
                scratch
            };
            if f != 0 {
                lemma_swap_seq_facts(scratch, 0, f);
            }
            assert(next[witness] == c[0]);
            let sub = spec_extensions(1, next, ctr);
            lemma_extensions_counter(1, next, ctr);
            lemma_search_complete(log, next, f + 1, sub.1, c);
            let rest = spec_chain_search(log, next, f + 1, sub.1);
            let u = choose|k: int| 0 <= k < rest.0.len() && rest.0[k] == c;
            assert(r.0[sub.0.len() + u] == c);
            assert(r.0.contains(c));
        } else {
            lemma_search_complete(log, scratch, f + 1, ctr, c);
        }
    }
}

/// The summed point value of the cards of a chain.
pub open spec fn spec_chain_score(chain: Seq<Card>) -> int
    decreases chain.len(),
{
    if chain.len() == 0 {
        0
    } else {
        spec_chain_score(chain.drop_last()) + spec_card_score(chain.last())
    }
}

/// A chain of full-deck cards scores between 3 and 25 points per card.
pub proof fn lemma_chain_score_bounds(chain: Seq<Card>)
    requires
        all_standard(chain),
    ensures
        3 * chain.len() <= spec_chain_score(chain) <= 25 * chain.len(),
    decreases chain.len(),
{
    lemma_scoring_total();
    if chain.len() > 0 {
        assert(all_standard(chain.drop_last()));
        lemma_chain_score_bounds(chain.drop_last());
    }
}

/// The worth of playing a chain now: the points it sheds from the hand,
/// plus ten times the penalty its trailing penalty run stacks onto the
/// next player, plus ten times the outstanding penalty when the player is
/// themselves under threat (any play beats drawing).
pub open spec fn spec_score(outstanding: nat, chain: Seq<Card>) -> int {
    spec_chain_score(chain) + 10 * spec_trailing_penalty(chain) + if outstanding > 0 {
        10 * outstanding
    } else {
        0
    }
}

/// A non-empty chain of full-deck cards always scores above zero.
pub proof fn lemma_nonempty_chain_scores(outstanding: nat, chain: Seq<Card>)
    requires
        all_standard(chain),
        chain.len() > 0,
    ensures
        spec_score(outstanding, chain) > 0,
{
    lemma_chain_score_bounds(chain);
}

#[verifier::loop_isolation(false)]
pub fn score(outstanding: usize, chain: &[Card]) -> (s: u128)
    requires
        all_standard(chain@),
    ensures
        s as int == spec_score(outstanding as nat, chain@),
{
    proof {
        lemma_scoring_total();
    }
    let mut points: u128 = 0;
    let mut k: usize = 0;
    while k < chain.len()
        invariant
            k <= chain@.len(),
            points == spec_chain_score(chain@.take(k as int)),
            points <= 25 * k,
        decreases chain@.len() - k,
    {
        let c = chain[k];
        proof {
            assert(chain@.take(k as int + 1).last() == chain@[k as int]);
            assert(chain@.take(k as int + 1).drop_last() =~= chain@.take(k as int));
        }
        points += card_score(&c) as u128;
        k += 1;
    }
    proof {
        assert(chain@.take(chain@.len() as int) =~= chain@);
    }
    let mut trailing: u128 = 0;
    let mut j: usize = chain.len();
    #[verifier::loop_isolation(true)]
    while j > 0
        invariant_except_break
            j <= chain@.len(),
            trailing + spec_trailing_penalty(chain@.take(j as int)) == spec_trailing_penalty(
                chain@,
            ),
            trailing <= 5 * (chain@.len() - j),
        ensures
            trailing == spec_trailing_penalty(chain@),
            trailing <= 5 * chain@.len(),
        decreases j,
    {
        j -= 1;
        let p = penalty_value(chain[j]);
        proof {
            assert(chain@.take(j as int + 1).last() == chain@[j as int]);
            assert(chain@.take(j as int + 1).drop_last() =~= chain@.take(j as int));
        }
        if p > 0 {
            trailing += p as u128;
        } else {
            proof {
                assert(spec_trailing_penalty(chain@.take(j as int + 1)) == 0);
            }
            break;
        }
    }
    let mut s = points + 10 * trailing;
    if outstanding > 0 {
        s += 10 * (outstanding as u128);
    }
    s
}

/// Exchanges two positions of a card buffer, keeping its contents as a
/// multiset.
fn swap_cards(v: &mut Vec<Card>, a: usize, b: usize)
    requires
        a < b < old(v)@.len(),
    ensures
        final(v)@ == old(v)@.update(a as int, old(v)@[b as int]).update(
            b as int,
            old(v)@[a as int],
        ),
        final(v)@.len() == old(v)@.len(),
        final(v)@.to_multiset() == old(v)@.to_multiset(),
{
    let x = v[a];
    let y = v[b];
    v[a] = y;
    v[b] = x;
    proof {
        broadcast use vstd::seq_lib::to_multiset_update;

        assert(v@.to_multiset() =~= old(v)@.to_multiset());
    }
}

/// A copy of the first `n` cards of a buffer.
fn copied_prefix(cards: &Vec<Card>, n: usize) -> (r: Vec<Card>)
    requires
        n <= cards@.len(),
    ensures
        r@ == cards@.take(n as int),
{
    let r = slice_to_vec(vstd::slice::slice_subrange(cards.as_slice(), 0, n));
    proof {
        assert(r@ =~= cards@.take(n as int));
    }
    r
}

/// Reports the legal chain standing in `cards[0 .. chain_length]`, then
/// extends it by every remaining card that links to its last card,
/// backtracking through swaps, until the work ceiling is reached.
#[verifier::loop_isolation(false)]
fn iterate_extensions(
    chain_length: usize,
    cards: &Vec<Card>,
    ctr: &mut u64,
    Ghost(log): Ghost<Seq<Turn>>,
    out: &mut Vec<Vec<Card>>,
)
    requires
        1 <= chain_length <= cards@.len(),
        spec_is_valid(log, cards@.take(chain_length as int)),
        *old(ctr) <= MAX_PERMUTATIONS,
    ensures
        *final(ctr) <= MAX_PERMUTATIONS,
        *final(ctr) >= *old(ctr),
        final(out)@.len() > old(out)@.len(),
        forall|k: int| 0 <= k < old(out)@.len() ==> final(out)@[k] == old(out)@[k],
        forall|k: int|
            old(out)@.len() <= k < final(out)@.len() ==> spec_is_valid(
                log,
                (#[trigger] final(out)@[k])@,
            ) && final(out)@[k]@.to_multiset().subset_of(cards@.to_multiset()),
        ({
            let r = spec_extensions(chain_length as int, cards@, *old(ctr) as nat);
            chains_view(final(out)@) == chains_view(old(out)@) + r.0 && *final(ctr) == r.1
        }),
    decreases cards@.len() - chain_length,
{
    let ghost r = spec_extensions(chain_length as int, cards@, *old(ctr) as nat);
    let ghost out0 = out@;
    let prefix = copied_prefix(cards, chain_length);
    proof {
        assert(cards@ =~= cards@.take(chain_length as int) + cards@.skip(chain_length as int));
        vstd::seq_lib::lemma_multiset_commutative(
            cards@.take(chain_length as int),
            cards@.skip(chain_length as int),
        );
        assert(prefix@.to_multiset().subset_of(cards@.to_multiset()));
    }
    out.push(prefix);
    proof {
        assert(chains_view(out@) =~= chains_view(out0).push(cards@.take(chain_length as int)));
    }
    if *ctr >= MAX_PERMUTATIONS {
        proof {
            assert(chains_view(out@) =~= chains_view(out0) + r.0);
        }
        return ;
    }
    *ctr += 1;
    let prev = cards[chain_length - 1];
    let mut scratch: Vec<Card> = slice_to_vec(cards.as_slice());
    let mut i: usize = chain_length;
    proof {
        assert(chains_view(out0) + r.0 =~= chains_view(out@) + spec_extensions_from(
            chain_length as int,
            cards@,
            scratch@,
            i as int,
            *ctr as nat,
        ).0);
    }
    while i < cards.len()
        invariant
            chain_length <= i <= cards@.len(),
            scratch@.len() == cards@.len(),
            scratch@.to_multiset() == cards@.to_multiset(),
            scratch@.take(chain_length as int) == cards@.take(chain_length as int),
            forall|k: int| i <= k < cards@.len() ==> scratch@[k] == cards@[k],
            *old(ctr) <= *ctr <= MAX_PERMUTATIONS,
            out@.len() > out0.len(),
            forall|k: int| 0 <= k < out0.len() ==> out@[k] == out0[k],
            forall|k: int|
                out0.len() <= k < out@.len() ==> spec_is_valid(log, (#[trigger] out@[k])@)
                    && out@[k]@.to_multiset().subset_of(cards@.to_multiset()),
            ({
                let rem = spec_extensions_from(
                    chain_length as int,
                    cards@,
                    scratch@,
                    i as int,
                    *ctr as nat,
                );
                chains_view(out0) + r.0 == chains_view(out@) + rem.0 && r.1 == rem.1
            }),
        decreases cards@.len() - i,
    {
        let ghost scratch_pre = scratch@;
        let ghost ctr_pre = *ctr as nat;
        let ghost out_pre = out@;
        if can_link(prev, cards[i]) {
            if i != chain_length {
                swap_cards(&mut scratch, chain_length, i);
            }
            proof {
                assert(scratch@ == (if i as int != chain_length as int {
                    swap_seq(scratch_pre, chain_length as int, i as int)
                } else {
                    scratch_pre
                }));
                assert(scratch@[chain_length as int] == cards@[i as int]);
                assert(scratch@.take(chain_length as int + 1) =~= cards@.take(
                    chain_length as int,
                ).push(cards@[i as int]));
                let ext = scratch@.take(chain_length as int + 1);
                assert forall|t: int|
                    1 <= t < ext.len() implies spec_can_link(ext[t - 1], #[trigger] ext[t]) by {
                    if t < chain_length {
                        assert(spec_can_link(
                            cards@.take(chain_length as int)[t - 1],
                            cards@.take(chain_length as int)[t],
                        ));
                    } else {
                        assert(ext[t - 1] == cards@[chain_length as int - 1]);
                        assert(ext[t] == cards@[i as int]);
                    }
                }
                assert(spec_is_valid(log, ext));
            }
            iterate_extensions(chain_length + 1, &scratch, ctr, Ghost(log), out);
            proof {
                let sub = spec_extensions(chain_length as int + 1, scratch@, ctr_pre);
                assert(spec_extensions_from(
                    chain_length as int,
                    cards@,
                    scratch_pre,
                    i as int,
                    ctr_pre,
                ).0 == sub.0 + spec_extensions_from(
                    chain_length as int,
                    cards@,
                    scratch@,
                    i as int + 1,
                    sub.1,
                ).0);
                assert(chains_view(out@) =~= chains_view(out_pre) + sub.0);
                assert(chains_view(out0) + r.0 =~= chains_view(out@) + spec_extensions_from(
                    chain_length as int,
                    cards@,
                    scratch@,
                    i as int + 1,
                    *ctr as nat,
                ).0);
            }
        }
        i += 1;
    }
    proof {
        assert(spec_extensions_from(
            chain_length as int,
            cards@,
            scratch@,
            i as int,
            *ctr as nat,
        ).0 =~= Seq::<Seq<Card>>::empty());
        assert(chains_view(out@) =~= chains_view(out0) + r.0);
    }
}

/// Visits every legal chain that can be opened from the scratch hand
/// against the log, reporting each legal prefix (shorter chains may score
/// higher than their extensions), and returns the reported chains. The
/// scratch buffer is permuted in place by the backtracking but keeps its
/// contents.
///
/// The reported chains, the permuted buffer and the final counter are
/// exactly [`spec_chain_search`] of the inputs, so two runs on equal
/// inputs agree. Every returned chain is a valid play drawn from the
/// scratch cards; at least one chain is returned exactly when some
/// scratch card may follow the log. The counter never decreases and,
/// while it ends below the ceiling, ticks once per reported chain (at the
/// ceiling one last prefix is reported untallied) — and then the search
/// was exhaustive: every valid play drawn from the scratch cards was
/// reported.
#[verifier::loop_isolation(false)]
pub fn iterate_valid_chains(log: &[Turn], scratch: &mut Vec<Card>, ctr: &mut u64) -> (chains: Vec<
    Vec<Card>,
>)
    requires
        log_wf(log@),
        *old(ctr) <= MAX_PERMUTATIONS,
    ensures
        *final(ctr) <= MAX_PERMUTATIONS,
        *final(ctr) >= *old(ctr),
        final(scratch)@.to_multiset() == old(scratch)@.to_multiset(),
        final(scratch)@.len() == old(scratch)@.len(),
        forall|k: int|
            0 <= k < chains@.len() ==> spec_is_valid(log@, (#[trigger] chains@[k])@)
                && chains@[k]@.to_multiset().subset_of(old(scratch)@.to_multiset()),
        (chains@.len() > 0) == (exists|i: int|
            0 <= i < old(scratch)@.len() && spec_can_follow(log@, #[trigger] old(scratch)@[i])),
        ({
            let r = spec_chain_search(log@, old(scratch)@, 0, *old(ctr) as nat);
            chains_view(chains@) == r.0 && final(scratch)@ == r.1 && *final(ctr) == r.2
        }),
        *final(ctr) < MAX_PERMUTATIONS ==> *final(ctr) == *old(ctr) + chains@.len(),
        *final(ctr) < MAX_PERMUTATIONS ==> forall|c: Seq<Card>|
            (#[trigger] spec_is_valid(log@, c)) && c.to_multiset().subset_of(
                old(scratch)@.to_multiset(),
            ) ==> exists|k: int| 0 <= k < chains@.len() && (#[trigger] chains@[k])@ == c,
{
    let ghost r = spec_chain_search(log@, scratch@, 0, *old(ctr) as nat);
    let mut out: Vec<Vec<Card>> = Vec::new();
    let ghost hand0 = scratch@;
    let mut f: usize = 0;
    while f < scratch.len()
        invariant
            f <= hand0.len(),
            scratch@.len() == hand0.len(),
            scratch@.to_multiset() == hand0.to_multiset(),
            forall|k: int| f <= k < hand0.len() ==> scratch@[k] == hand0[k],
            *old(ctr) <= *ctr <= MAX_PERMUTATIONS,
            forall|k: int|
                0 <= k < out@.len() ==> spec_is_valid(log@, (#[trigger] out@[k])@)
                    && out@[k]@.to_multiset().subset_of(hand0.to_multiset()),
            (out@.len() > 0) == (exists|i: int|
                0 <= i < f && spec_can_follow(log@, #[trigger] hand0[i])),
            ({
                let rem = spec_chain_search(log@, scratch@, f as int, *ctr as nat);
                r.0 == chains_view(out@) + rem.0 && r.1 == rem.1 && r.2 == rem.2
            }),
        decreases hand0.len() - f,
    {
        let ghost scratch_pre = scratch@;
        let ghost ctr_pre = *ctr as nat;
        let ghost out_pre = out@;
        if can_follow(log, scratch[f]) {
            if f != 0 {
                swap_cards(scratch, 0, f);
            }
            proof {
                assert(scratch@ == (if f as int != 0 {
                    swap_seq(scratch_pre, 0, f as int)
                } else {
                    scratch_pre
                }));
                assert(scratch@[0] == hand0[f as int]);
                assert(scratch@.take(1) =~= seq![hand0[f as int]]);
                assert(spec_is_valid(log@, scratch@.take(1)));
            }
            iterate_extensions(1, scratch, ctr, Ghost(log@), &mut out);
            proof {
                assert(spec_can_follow(log@, hand0[f as int]));
                let sub = spec_extensions(1, scratch@, ctr_pre);
                assert(spec_chain_search(log@, scratch_pre, f as int, ctr_pre).0 == sub.0
                    + spec_chain_search(log@, scratch@, f as int + 1, sub.1).0);
                assert(chains_view(out@) =~= chains_view(out_pre) + sub.0);
                assert(r.0 =~= chains_view(out@) + spec_chain_search(
                    log@,
                    scratch@,
                    f as int + 1,
                    *ctr as nat,
                ).0);
            }
        }
        f += 1;
    }
    proof {
        assert(spec_chain_search(log@, scratch@, f as int, *ctr as nat).0 =~= Seq::<
            Seq<Card>,
        >::empty());
        assert(chains_view(out@) =~= r.0);
        lemma_search_counter(log@, hand0, 0, *old(ctr) as nat);
        if *ctr < MAX_PERMUTATIONS {
            assert forall|c: Seq<Card>|
                (#[trigger] spec_is_valid(log@, c)) && c.to_multiset().subset_of(
                    hand0.to_multiset(),
                ) implies exists|k: int| 0 <= k < out@.len() && (#[trigger] out@[k])@ == c by {
                assert(c.contains(c[0]));
                assert(c.to_multiset().count(c[0]) > 0);
                assert(hand0.to_multiset().count(c[0]) > 0);
                assert(hand0.contains(c[0]));
                lemma_search_complete(log@, hand0, 0, *old(ctr) as nat, c);
                let w = choose|k: int| 0 <= k < r.0.len() && r.0[k] == c;
                assert(chains_view(out@)[w] == c);
                assert(out@[w]@ == c);
            }
        }
    }
    out
}

/// A chain whose cards all come from a hand of full-deck cards is itself
/// made of full-deck cards.
pub proof fn lemma_submultiset_standard(chain: Seq<Card>, hand: Seq<Card>)
    requires
        chain.to_multiset().subset_of(hand.to_multiset()),
        all_standard(hand),
    ensures
        all_standard(chain),
{
    assert forall|i: int| 0 <= i < chain.len() implies (#[trigger] chain[i]).wf() by {
        assert(chain.contains(chain[i]));
        assert(chain.to_multiset().count(chain[i]) > 0);
        assert(hand.to_multiset().count(chain[i]) > 0);
        assert(hand.contains(chain[i]));
        let w = choose|j: int| 0 <= j < hand.len() && hand[j] == chain[i];
        assert(hand[w].wf());
    }
}

/// Runs the chain search over the hand and returns the highest-scoring
/// reported chain, earlier-reported chains winning ties; the empty chain
/// when no hand card may follow the log.
#[verifier::loop_isolation(false)]
pub fn find_best_valid(log: &[Turn], hand: &[Card]) -> (best: Vec<Card>)
    requires
        log_wf(log@),
        all_standard(hand@),
        spec_outstanding_penalty(log@) <= usize::MAX,
    ensures
        spec_best_choice(log@, hand@, best@),
{
    let outstanding = outstanding_penalty(log);
    let mut scratch: Vec<Card> = slice_to_vec(hand);
    let ghost scratch0 = scratch@;
    let mut n_considered: u64 = 0;
    let chains = iterate_valid_chains(log, &mut scratch, &mut n_considered);
    proof {
        assert(scratch0 == hand@);
        if exists|i: int| 0 <= i < scratch0.len() && spec_can_follow(log@, #[trigger] scratch0[i]) {
            let w = choose|i: int|
                0 <= i < scratch0.len() && spec_can_follow(log@, #[trigger] scratch0[i]);
            assert(spec_can_follow(log@, hand@[w]));
        }
        if exists|i: int| 0 <= i < hand@.len() && spec_can_follow(log@, #[trigger] hand@[i]) {
            let w = choose|i: int|
                0 <= i < hand@.len() && spec_can_follow(log@, #[trigger] hand@[i]);
            assert(spec_can_follow(log@, scratch0[w]));
        }
    }
    let ghost emitted = chains_view(chains@);
    let ghost op = spec_outstanding_penalty(log@);
    let mut best: Vec<Card> = Vec::new();
    let mut best_score: u128 = 0;
    let mut k: usize = 0;
    while k < chains.len()
        invariant
            k <= chains@.len(),
            (best@.len() > 0) == (best_score > 0),
            (best@.len() > 0) == (k > 0 && chains@.len() > 0),
            best@.len() > 0 ==> spec_is_valid(log@, best@) && best@.to_multiset().subset_of(
                hand@.to_multiset(),
            ),
            forall|j: int| 0 <= j < k ==> spec_score(op, #[trigger] emitted[j]) <= best_score,
            best@.len() > 0 ==> best_score == spec_score(op, best@),
            best@.len() > 0 ==> exists|m: int|
                0 <= m < k && #[trigger] emitted[m] == best@ && (forall|j: int|
                    0 <= j < m ==> spec_score(op, #[trigger] emitted[j]) < best_score),
        decreases chains@.len() - k,
    {
        proof {
            lemma_submultiset_standard(chains@[k as int]@, hand@);
            lemma_nonempty_chain_scores(outstanding as nat, chains@[k as int]@);
            assert(emitted[k as int] == chains@[k as int]@);
        }
        let this_score = score(outstanding, chains[k].as_slice());
        if this_score > best_score {
            best_score = this_score;
            best = slice_to_vec(chains[k].as_slice());
        }
        k += 1;
    }
    proof {
        if chains@.len() > 0 {
            assert(best@.len() > 0);
        } else {
            assert(emitted.len() == 0);
        }
    }
    best
}

/// How many cards of the hand carry the given suit.
pub open spec fn spec_suit_count(hand: Seq<Card>, s: Suit) -> nat
    decreases hand.len(),
{
    if hand.len() == 0 {
        0
    } else {
        spec_suit_count(hand.drop_last(), s) + if hand.last().suit == s {
            1nat
        } else {
            0
        }
    }
}

/// Picks the suit the hand holds most of, for a wild-suit nomination.
/// Ties go to the suit standing earliest in the fixed suit order.
#[verifier::loop_isolation(false)]
pub fn choose_suit(hand: &[Card]) -> (s: Suit)
    requires
        hand@.len() > 0,
    ensures
        forall|t: Suit| #[trigger] spec_suit_count(hand@, t) <= spec_suit_count(hand@, s),
        exists|k: int|
            0 <= k < 4 && #[trigger] suit_at(k) == s && (forall|j: int|
                0 <= j < k ==> spec_suit_count(hand@, #[trigger] suit_at(j)) < spec_suit_count(
                    hand@,
                    s,
                )),
{
    let mut spades: usize = 0;
    let mut clubs: usize = 0;
    let mut hearts: usize = 0;
    let mut diamonds: usize = 0;
    let mut i: usize = 0;
    while i < hand.len()
        invariant
            i <= hand@.len(),
            spades == spec_suit_count(hand@.take(i as int), Suit::Spades),
            clubs == spec_suit_count(hand@.take(i as int), Suit::Clubs),
            hearts == spec_suit_count(hand@.take(i as int), Suit::Hearts),
            diamonds == spec_suit_count(hand@.take(i as int), Suit::Diamonds),
            spades <= i && clubs <= i && hearts <= i && diamonds <= i,
        decreases hand@.len() - i,
    {
        proof {
            assert(hand@.take(i as int + 1).last() == hand@[i as int]);
            assert(hand@.take(i as int + 1).drop_last() =~= hand@.take(i as int));
        }
        match hand[i].suit {
            Suit::Spades => {
                spades += 1;
            },
            Suit::Clubs => {
                clubs += 1;
            },
            Suit::Hearts => {
                hearts += 1;
            },
            Suit::Diamonds => {
                diamonds += 1;
            },
        }
        i += 1;
    }
    proof {
        assert(hand@.take(hand@.len() as int) =~= hand@);
    }
    let pick = if spades >= clubs && spades >= hearts && spades >= diamonds {
        Suit::Spades
    } else if clubs >= hearts && clubs >= diamonds {
        Suit::Clubs
    } else if hearts >= diamonds {
        Suit::Hearts
    } else {
        Suit::Diamonds
    };
    proof {
        assert forall|t: Suit| #[trigger] spec_suit_count(hand@, t) <= spec_suit_count(
            hand@,
            pick,
        ) by {
            match t {
                Suit::Spades => {},
                Suit::Clubs => {},
                Suit::Hearts => {},
                Suit::Diamonds => {},
            }
        }
        if pick == Suit::Spades {
            assert(suit_at(0) == pick);
        } else if pick == Suit::Clubs {
            assert(suit_at(1) == pick && spec_suit_count(hand@, suit_at(0)) < spec_suit_count(
                hand@,
                pick,
            ));
        } else if pick == Suit::Hearts {
            assert(suit_at(2) == pick);
        } else {
            assert(suit_at(3) == pick);
        }
    }
    pick
}

} // verus!
