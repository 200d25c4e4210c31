//! One seat at the table: a name, a hand, a running score, and the
//! strategy that decides its plays.

use vstd::prelude::*;

use crate::blackjack::spec_outstanding_penalty;
use crate::cards::{all_standard, Card, Suit};
use crate::game::{log_wf, Turn};
use crate::strategy::computer_v2::track_log;
use crate::strategy::shared::{spec_best_choice, spec_suit_count};
use crate::strategy::StrategyKind;

verus! {

pub struct Player {
    pub name: String,
    pub hand: Vec<Card>,
    pub score: i32,
    pub strategy: StrategyKind,
}

impl Player {
    /// Whether the engine itself decides this player's turns. A seat
    /// holding an `External` strategy is decided by the surrounding
    /// program (an interactive player), never by the engine.
    pub open spec fn engine_driven(self) -> bool {
        !(self.strategy is External)
    }

    /// What the strategy state assumes of the log it is shown: the
    /// card counter must not have processed more entries than exist.
    pub open spec fn ready(self, log: Seq<Turn>) -> bool {
        match self.strategy {
            StrategyKind::ComputerV2(v2) => v2.wf() && v2.log_processed <= log.len(),
            _ => true,
        }
    }

    pub fn new(name: String, strategy: StrategyKind) -> (p: Player)
        ensures
            p.name == name,
            p.hand@.len() == 0,
            p.score == 0,
            p.strategy == strategy,
    {
        Player { name, hand: Vec::new(), score: 0, strategy }
    }

    /// Asks this player's strategy for the chain to play on the current
    /// log, the empty chain meaning "cannot or will not play".
    pub fn choose_next(&mut self, log: &[Turn]) -> (chain: Vec<Card>)
        requires
            old(self).engine_driven(),
            old(self).ready(log@),
            log_wf(log@),
            all_standard(old(self).hand@),
            spec_outstanding_penalty(log@) <= usize::MAX,
        ensures
            spec_best_choice(log@, old(self).hand@, chain@),
            final(self).name == old(self).name,
            final(self).hand == old(self).hand,
            final(self).score == old(self).score,
            final(self).engine_driven(),
            final(self).ready(log@),
            old(self).strategy is ComputerV1 ==> final(self).strategy == old(self).strategy,
            old(self).strategy matches StrategyKind::ComputerV2(v2) ==> (
            final(self).strategy matches StrategyKind::ComputerV2(v2n) && v2n.wf()
                && v2n.log_processed == log@.len() && v2n.model() == track_log(
                v2.model(),
                log@.subrange(v2.log_processed as int, log@.len() as int),
            )),
    {
        match &mut self.strategy {
            StrategyKind::ComputerV1(s) => s.choose_next(self.hand.as_slice(), log),
            StrategyKind::ComputerV2(s) => s.choose_next(self.hand.as_slice(), log),
            StrategyKind::External => {
                proof {
                    assert(false);
                }
                Vec::new()
            },
        }
    }

    /// Asks this player's strategy which suit to nominate after an Ace.
    pub fn choose_suit(&mut self, log: &[Turn]) -> (s: Suit)
        requires
            old(self).engine_driven(),
            old(self).hand@.len() > 0,
        ensures
            forall|t: Suit|
                #[trigger] spec_suit_count(old(self).hand@, t) <= spec_suit_count(
                    old(self).hand@,
                    s,
                ),
            *final(self) == *old(self),
    {
        match &self.strategy {
            StrategyKind::ComputerV1(s) => s.choose_suit(self.hand.as_slice()),
            StrategyKind::ComputerV2(s) => s.choose_suit(self.hand.as_slice()),
            StrategyKind::External => {
                proof {
                    assert(false);
                }
                Suit::Spades
            },
        }
    }
}

} // verus!
