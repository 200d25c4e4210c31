//! Support for interactively driven players. The decision loop of such a
//! player reads standard input and lives with the surrounding program
//! (the seat holds `StrategyKind::External`); the engine keeps only the
//! pure helpers that input handling validates with.

use vstd::prelude::*;

use crate::cards::{Card, Rank, Suit};

verus! {

/// Marker for a seat whose plays are typed in by a person rather than
/// decided by the engine.
pub struct HumanStrategy {}

/// Which suit a typed character names, if any.
pub open spec fn spec_parse_suit(c: char) -> Option<Suit> {
    if c == 's' || c == 'S' {
        Some(Suit::Spades)
    } else if c == 'h' || c == 'H' {
        Some(Suit::Hearts)
    } else if c == 'd' || c == 'D' {
        Some(Suit::Diamonds)
    } else if c == 'c' || c == 'C' {
        Some(Suit::Clubs)
    } else {
        None
    }
}

pub fn parse_suit(c: char) -> (s: Option<Suit>)
    ensures
        s == spec_parse_suit(c),
{
    match c {
        's' | 'S' => Some(Suit::Spades),
        'h' | 'H' => Some(Suit::Hearts),
        'd' | 'D' => Some(Suit::Diamonds),
        'c' | 'C' => Some(Suit::Clubs),
        _ => None,
    }
}

/// Which rank a typed character names, if any: a face rank's letter,
/// `x` for the 10, or a single digit (the digit 1 names nothing).
pub open spec fn spec_parse_rank(c: char) -> Option<Rank> {
    if c == 'a' || c == 'A' {
        Some(Rank::Ace)
    } else if c == 'k' || c == 'K' {
        Some(Rank::King)
    } else if c == 'q' || c == 'Q' {
        Some(Rank::Queen)
    } else if c == 'j' || c == 'J' {
        Some(Rank::Jack)
    } else if c == 'x' || c == 'X' {
        Some(Rank::Val(10))
    } else if '0' <= c && c <= '9' && c != '1' {
        Some(Rank::Val(((c as u32) - ('0' as u32)) as i32))
    } else {
        None
    }
}

pub fn parse_rank(c: char) -> (r: Option<Rank>)
    ensures
        r == spec_parse_rank(c),
{
    match c {
        'a' | 'A' => Some(Rank::Ace),
        'k' | 'K' => Some(Rank::King),
        'q' | 'Q' => Some(Rank::Queen),
        'j' | 'J' => Some(Rank::Jack),
        'x' | 'X' => Some(Rank::Val(10)),
        '1' => None,
        '0'..='9' => Some(Rank::Val(((c as u32) - ('0' as u32)) as i32)),
        _ => None,
    }
}

/// The card a typed rank-and-suit pair names, if both characters do.
pub fn parse_card(rank_ch: char, suit_ch: char) -> (r: Option<Card>)
    ensures
        r matches Some(card) ==> spec_parse_rank(rank_ch) == Some(card.rank)
            && spec_parse_suit(suit_ch) == Some(card.suit),
        r is None ==> spec_parse_rank(rank_ch) is None || spec_parse_suit(suit_ch) is None,
{
    match (parse_rank(rank_ch), parse_suit(suit_ch)) {
        (Some(rank), Some(suit)) => Some(Card::new(rank, suit)),
        _ => None,
    }
}

fn hand_contains(hand: &[Card], c: Card) -> (r: bool)
    ensures
        r == hand@.contains(c),
{
    let mut i: usize = 0;
    while i < hand.len()
        invariant
            i <= hand@.len(),
            forall|k: int| 0 <= k < i ==> hand@[k] != c,
        decreases hand@.len() - i,
    {
        if hand[i] == c {
            return true;
        }
        i += 1;
    }
    false
}

/// Whether every card of a typed-in chain is actually held in the hand.
pub fn hand_contains_chain(hand: &[Card], chain: &[Card]) -> (r: bool)
    ensures
        r == forall|i: int| 0 <= i < chain@.len() ==> hand@.contains(#[trigger] chain@[i]),
{
    let mut i: usize = 0;
    while i < chain.len()
        invariant
            i <= chain@.len(),
            forall|k: int| 0 <= k < i ==> hand@.contains(#[trigger] chain@[k]),
        decreases chain@.len() - i,
    {
        if !hand_contains(hand, chain[i]) {
            return false;
        }
        i += 1;
    }
    true
}

} // verus!
