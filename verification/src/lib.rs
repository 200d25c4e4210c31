//! A shedding card game engine in the Crazy-Eights family, with penalty,
//! skip and wild special cards.
//!
//! The crate is organised around three pieces:
//! - the card model ([`cards`]): ranks, suits, colours and the full deck;
//! - the rule engine ([`blackjack`]): pure legality and penalty accounting
//!   over the turn log;
//! - the strategies ([`strategy`]): a bounded backtracking enumeration of
//!   legal chains and a scoring function that picks the best one.
//!
//! The turn log ([`game::Turn`]) is the single source of truth for what is
//! active on top of the discard pile; every rule-engine function is a pure
//! function of a backward scan over it.

pub mod blackjack;
pub mod cards;
pub mod game;
pub mod player;
pub mod strategy;
