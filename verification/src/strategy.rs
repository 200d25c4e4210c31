//! Pluggable decision-makers: the strategy interface, the automated
//! strategies, and the shared chain search they are built on.

pub mod computer_v1;
pub mod computer_v2;
pub mod human;
pub mod shared;

use vstd::prelude::*;

use crate::blackjack::STARTING_CARD_COUNT;
use crate::cards::{Card, Suit};
use crate::game::Turn;
use computer_v1::ComputerStrategyV1;
use computer_v2::ComputerStrategyV2;
use shared::{spec_good_choice, spec_suit_count};

verus! {

/// Which decision-maker a player seat is given.
#[derive(Clone, Copy, Debug, PartialEq, Eq, Structural)]
pub enum StrategyType {
    ComputerV1,
    ComputerV2,
    Human,
}

/// A decision-maker the orchestrator can call once per turn: pick the
/// chain to play (empty meaning "cannot or will not play") and, after an
/// Ace, nominate a suit.
pub trait Strategy: Sized {
    /// The inputs on which this strategy may be asked for a decision.
    spec fn ready(&self, hand: Seq<Card>, log: Seq<Turn>) -> bool;

    fn choose_next(&mut self, hand: &[Card], log: &[Turn]) -> (chain: Vec<Card>)
        requires
            old(self).ready(hand@, log@),
        ensures
            spec_good_choice(log@, hand@, chain@),
    ;

    fn choose_suit(&mut self, hand: &[Card], log: &[Turn]) -> (s: Suit)
        requires
            old(self).ready(hand@, log@),
            hand@.len() > 0,
        ensures
            forall|t: Suit| #[trigger] spec_suit_count(hand@, t) <= spec_suit_count(hand@, s),
    ;

    /// The display name this strategy reports.
    spec fn spec_name(&self) -> Seq<char>;

    fn name(&self) -> (n: &'static str)
        ensures
            n@ == self.spec_name(),
    ;
}

/// The strategy state a player seat owns. A seat driven from outside the
/// engine (an interactive player) holds `External`: the engine never
/// decides for it, the surrounding program does.
pub enum StrategyKind {
    ComputerV1(ComputerStrategyV1),
    ComputerV2(ComputerStrategyV2),
    External,
}

impl StrategyKind {
    /// A display name for the seat holding this strategy.
    pub fn label(&self) -> (n: String)
        ensures
            self is ComputerV1 ==> n@ == "Computer (v1)"@,
            self is ComputerV2 ==> n@ == "Computer (v2)"@,
            self is External ==> n@ == "Human Player"@,
    {
        match self {
            StrategyKind::ComputerV1(_) => String::from_str("Computer (v1)"),
            StrategyKind::ComputerV2(_) => String::from_str("Computer (v2)"),
            StrategyKind::External => String::from_str("Human Player"),
        }
    }
}

/// Builds the strategy state for one seat of a table.
pub fn make_strategy(t: &StrategyType, players: &[StrategyType]) -> (k: StrategyKind)
    requires
        players@.len() * (STARTING_CARD_COUNT as int) <= 52,
    ensures
        (k is ComputerV1) == (t is ComputerV1),
        (k is ComputerV2) == (t is ComputerV2),
        (k is External) == (t is Human),
        k matches StrategyKind::ComputerV2(v2) ==> v2.wf() && v2.log_processed == 0
            && v2.model() == computer_v2::initial_tracking(players@.len() as int),
{
    match t {
        StrategyType::ComputerV1 => StrategyKind::ComputerV1(ComputerStrategyV1 {}),
        StrategyType::ComputerV2 => StrategyKind::ComputerV2(ComputerStrategyV2::new(players)),
        StrategyType::Human => StrategyKind::External,
    }
}

} // verus!
