//! The stateless automated strategy: it searches the hand for the
//! highest-scoring legal chain and nominates the suit it holds most of.

use vstd::prelude::*;

use crate::blackjack::spec_outstanding_penalty;
use crate::cards::{all_standard, Card, Suit};
use crate::game::{log_wf, Turn};
use crate::strategy::shared::{choose_suit, find_best_valid, spec_best_choice, spec_suit_count};
use crate::strategy::Strategy;

verus! {

/// An automated player that keeps no memory between turns.
pub struct ComputerStrategyV1 {}

impl ComputerStrategyV1 {
    pub fn choose_next(&self, hand: &[Card], log: &[Turn]) -> (chain: Vec<Card>)
        requires
            log_wf(log@),
            all_standard(hand@),
            spec_outstanding_penalty(log@) <= usize::MAX,
        ensures
            spec_best_choice(log@, hand@, chain@),
    {
        find_best_valid(log, hand)
    }

    pub fn choose_suit(&self, hand: &[Card]) -> (s: Suit)
        requires
            hand@.len() > 0,
        ensures
            forall|t: Suit| #[trigger] spec_suit_count(hand@, t) <= spec_suit_count(hand@, s),
    {
        choose_suit(hand)
    }
}

impl Strategy for ComputerStrategyV1 {
    open spec fn ready(&self, hand: Seq<Card>, log: Seq<Turn>) -> bool {
        &&& log_wf(log)
        &&& all_standard(hand)
        &&& spec_outstanding_penalty(log) <= usize::MAX
    }

    fn choose_next(&mut self, hand: &[Card], log: &[Turn]) -> (chain: Vec<Card>) {
        find_best_valid(log, hand)
    }

    fn choose_suit(&mut self, hand: &[Card], _log: &[Turn]) -> (s: Suit) {
        choose_suit(hand)
    }

    open spec fn spec_name(&self) -> Seq<char> {
        "Computer (v1)"@
    }

    fn name(&self) -> (n: &'static str) {
        "Computer (v1)"
    }
}

} // verus!
