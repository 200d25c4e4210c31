//! Immutable value types for suits, ranks and cards, their derived
//! properties (colour, face value, adjacency), and the 52-card full deck.

use vstd::prelude::*;

verus! {

/// One of the four suits. Two suits are black, two are red.
#[derive(PartialEq, Eq, Structural, Clone, Copy, Hash, Debug)]
pub enum Suit {
    Diamonds,
    Hearts,
    Clubs,
    Spades,
}

/// One of the thirteen ranks: the numeric ranks carry their number
/// (a well-formed card holds 2 through 10), plus the four face ranks.
#[derive(PartialEq, Eq, Structural, Clone, Copy, Hash, Debug)]
pub enum Rank {
    Val(i32),
    Jack,
    Queen,
    King,
    Ace,
}

/// The colour of a suit.
#[derive(PartialEq, Eq, Structural, Clone, Copy, Debug)]
pub enum Colour {
    Red,
    Black,
}

/// A playing card: a rank paired with a suit. Equality is by value.
#[derive(PartialEq, Eq, Structural, Clone, Copy, Hash, Debug)]
pub struct Card {
    pub rank: Rank,
    pub suit: Suit,
}

impl Suit {
    /// Whether this suit is black (spades and clubs are; hearts and
    /// diamonds are not).
    pub open spec fn spec_is_black(self) -> bool {
        self == Suit::Spades || self == Suit::Clubs
    }

    pub open spec fn spec_colour(self) -> Colour {
        if self.spec_is_black() {
            Colour::Black
        } else {
            Colour::Red
        }
    }

    pub fn colour(&self) -> (c: Colour)
        ensures
            c == self.spec_colour(),
    {
        match self {
            Suit::Spades | Suit::Clubs => Colour::Black,
            Suit::Hearts | Suit::Diamonds => Colour::Red,
        }
    }

    pub fn is_black(&self) -> (r: bool)
        ensures
            r == self.spec_is_black(),
    {
        match self.colour() {
            Colour::Black => true,
            Colour::Red => false,
        }
    }

    pub fn is_red(&self) -> (r: bool)
        ensures
            r == !self.spec_is_black(),
    {
        match self.colour() {
            Colour::Red => true,
            Colour::Black => false,
        }
    }

    /// The four suits, in the fixed declaration order used throughout
    /// the crate (deck construction, suit-nomination tie-breaks).
    pub fn all() -> (suits: [Suit; 4])
        ensures
            suits@ == suit_order(),
    {
        let suits = [Suit::Spades, Suit::Clubs, Suit::Hearts, Suit::Diamonds];
        proof {
            assert(suits@ =~= suit_order());
        }
        suits
    }
}

/// The position of a suit in the fixed suit order.
pub open spec fn suit_position(s: Suit) -> int {
    match s {
        Suit::Spades => 0,
        Suit::Clubs => 1,
        Suit::Hearts => 2,
        Suit::Diamonds => 3,
    }
}

/// The suit standing at a position of the fixed suit order.
pub open spec fn suit_at(i: int) -> Suit {
    if i == 0 {
        Suit::Spades
    } else if i == 1 {
        Suit::Clubs
    } else if i == 2 {
        Suit::Hearts
    } else {
        Suit::Diamonds
    }
}

/// The fixed suit order as a sequence.
pub open spec fn suit_order() -> Seq<Suit> {
    Seq::new(4, |i: int| suit_at(i))
}

/// The rank standing at a position of the fixed rank order
/// (2 through 10, then Jack, Queen, King, Ace).
pub open spec fn rank_at(i: int) -> Rank {
    if 0 <= i <= 8 {
        Rank::Val((i + 2) as i32)
    } else if i == 9 {
        Rank::Jack
    } else if i == 10 {
        Rank::Queen
    } else if i == 11 {
        Rank::King
    } else {
        Rank::Ace
    }
}

/// The position of a rank in the fixed rank order.
pub open spec fn rank_position(r: Rank) -> int {
    match r {
        Rank::Val(v) => v - 2,
        Rank::Jack => 9,
        Rank::Queen => 10,
        Rank::King => 11,
        Rank::Ace => 12,
    }
}

/// The fixed rank order as a sequence.
pub open spec fn rank_order() -> Seq<Rank> {
    Seq::new(13, |i: int| rank_at(i))
}

impl Rank {
    /// A well-formed rank: a numeric rank carries 2 through 10.
    pub open spec fn wf(self) -> bool {
        match self {
            Rank::Val(v) => 2 <= v <= 10,
            _ => true,
        }
    }

    /// Whether `x` sits immediately next to `y` in the same-suit run
    /// order, which wraps: Ace touches King and 2; 10 touches 9 and Jack.
    pub open spec fn spec_adjacent(x: Rank, y: Rank) -> bool {
        match y {
            Rank::Val(i) => if i == 10 {
                x == Rank::Val(9) || x == Rank::Jack
            } else if i == 2 {
                x == Rank::Val(3) || x == Rank::Ace
            } else {
                match x {
                    Rank::Val(w) => w as int == i as int - 1 || w as int == i as int + 1,
                    _ => false,
                }
            },
            Rank::Jack => x == Rank::Val(10) || x == Rank::Queen,
            Rank::Queen => x == Rank::Jack || x == Rank::King,
            Rank::King => x == Rank::Queen || x == Rank::Ace,
            Rank::Ace => x == Rank::King || x == Rank::Val(2),
        }
    }

    pub fn adjacent(x: Rank, y: Rank) -> (r: bool)
        ensures
            r == Rank::spec_adjacent(x, y),
    {
        match y {
            Rank::Val(i) => {
                if i == 10 {
                    x == Rank::Val(9) || x == Rank::Jack
                } else if i == 2 {
                    x == Rank::Val(3) || x == Rank::Ace
                } else {
                    match x {
                        Rank::Val(w) => w as i64 == i as i64 - 1 || w as i64 == i as i64 + 1,
                        _ => false,
                    }
                }
            },
            Rank::Jack => x == Rank::Val(10) || x == Rank::Queen,
            Rank::Queen => x == Rank::Jack || x == Rank::King,
            Rank::King => x == Rank::Queen || x == Rank::Ace,
            Rank::Ace => x == Rank::King || x == Rank::Val(2),
        }
    }

    /// The face value: numeric ranks count their number, face ranks 10.
    pub open spec fn spec_face_value(self) -> int {
        match self {
            Rank::Val(v) => v as int,
            _ => 10,
        }
    }

    pub fn face_value(&self) -> (v: i32)
        ensures
            v as int == self.spec_face_value(),
    {
        match self {
            Rank::Val(v) => *v,
            Rank::Jack => 10,
            Rank::Queen => 10,
            Rank::King => 10,
            Rank::Ace => 10,
        }
    }

    /// The thirteen ranks, in the fixed declaration order.
    pub fn all() -> (ranks: [Rank; 13])
        ensures
            ranks@ == rank_order(),
    {
        let ranks = [
            Rank::Val(2),
            Rank::Val(3),
            Rank::Val(4),
            Rank::Val(5),
            Rank::Val(6),
            Rank::Val(7),
            Rank::Val(8),
            Rank::Val(9),
            Rank::Val(10),
            Rank::Jack,
            Rank::Queen,
            Rank::King,
            Rank::Ace,
        ];
        proof {
            assert(ranks@ =~= rank_order());
        }
        ranks
    }
}

/// The full deck as a sequence: suits in suit order, each holding its
/// thirteen ranks in rank order.
pub open spec fn full_deck_seq() -> Seq<Card> {
    Seq::new(52, |i: int| Card { rank: rank_at(i % 13), suit: suit_at(i / 13) })
}

impl Card {
    /// A well-formed card: one of the 52 full-deck values.
    pub open spec fn wf(self) -> bool {
        self.rank.wf()
    }

    pub fn new(rank: Rank, suit: Suit) -> (c: Card)
        ensures
            c == (Card { rank, suit }),
    {
        Card { rank, suit }
    }

    /// Whether this card is one of the 52 full-deck values.
    pub fn is_standard(&self) -> (r: bool)
        ensures
            r == self.wf(),
    {
        match self.rank {
            Rank::Val(v) => 2 <= v && v <= 10,
            _ => true,
        }
    }

    /// The 52 distinct cards, every rank of every suit exactly once.
    pub fn full_deck() -> (deck: Vec<Card>)
        ensures
            deck@ == full_deck_seq(),
    {
        let suits = Suit::all();
        let ranks = Rank::all();
        let mut deck: Vec<Card> = Vec::new();
        for a in 0..4
            invariant
                suits@ == suit_order(),
                ranks@ == rank_order(),
                deck@.len() == 13 * (a as int),
                forall|k: int| 0 <= k < deck@.len() ==> deck@[k] == full_deck_seq()[k],
        {
            for b in 0..13
                invariant
                    0 <= a < 4,
                    suits@ == suit_order(),
                    ranks@ == rank_order(),
                    deck@.len() == 13 * (a as int) + (b as int),
                    forall|k: int| 0 <= k < deck@.len() ==> deck@[k] == full_deck_seq()[k],
            {
                deck.push(Card::new(ranks[b], suits[a]));
                proof {
                    let k = 13 * (a as int) + b as int;
                    assert(k / 13 == a as int && k % 13 == b as int) by (nonlinear_arith)
                        requires
                            0 <= a as int,
                            0 <= (b as int) < 13,
                            k == 13 * (a as int) + b as int,
                    ;
                    assert(deck@[k] == full_deck_seq()[k]);
                }
            }
        }
        proof {
            assert(deck@ =~= full_deck_seq());
        }
        deck
    }
}

/// Every full-deck card is well formed.
pub proof fn lemma_full_deck_wf()
    ensures
        forall|k: int| 0 <= k < 52 ==> (#[trigger] full_deck_seq()[k]).wf(),
{
    assert forall|k: int| 0 <= k < 52 implies (#[trigger] full_deck_seq()[k]).wf() by {
        assert(0 <= k % 13 < 13) by (nonlinear_arith)
            requires
                0 <= k,
        ;
    }
}

/// Every well-formed card appears in the full deck.
pub proof fn lemma_full_deck_complete()
    ensures
        forall|c: Card| c.wf() ==> full_deck_seq().contains(c),
{
    assert forall|c: Card| c.wf() implies full_deck_seq().contains(c) by {
        let a = suit_position(c.suit);
        let b = rank_position(c.rank);
        assert(0 <= a < 4);
        assert(0 <= b < 13);
        let k = 13 * a + b;
        assert(k / 13 == a && k % 13 == b) by (nonlinear_arith)
            requires
                0 <= a,
                0 <= b < 13,
                k == 13 * a + b,
        ;
        assert(suit_at(a) == c.suit);
        assert(rank_at(b) == c.rank);
        assert(full_deck_seq()[k] == c);
    }
}

/// No card appears twice in the full deck.
pub proof fn lemma_full_deck_distinct()
    ensures
        full_deck_seq().no_duplicates(),
{
    assert forall|i: int, j: int|
        0 <= i < 52 && 0 <= j < 52 && i != j implies full_deck_seq()[i] != full_deck_seq()[j] by {
        assert(i == 13 * (i / 13) + i % 13 && 0 <= i % 13 < 13 && 0 <= i / 13 < 4) by (nonlinear_arith)
            requires
                0 <= i < 52,
        ;
        assert(j == 13 * (j / 13) + j % 13 && 0 <= j % 13 < 13 && 0 <= j / 13 < 4) by (nonlinear_arith)
            requires
                0 <= j < 52,
        ;
        let ci = full_deck_seq()[i];
        let cj = full_deck_seq()[j];
        if ci == cj {
            assert(suit_position(ci.suit) == i / 13);
            assert(rank_position(ci.rank) == i % 13);
            assert(suit_position(cj.suit) == j / 13);
            assert(rank_position(cj.rank) == j % 13);
            assert(i == j);
        }
    }
}

/// Rank adjacency wraps at both ends of the order: the Ace touches the
/// King and the 2, and the 10 touches the Jack.
pub proof fn lemma_adjacent_wraps()
    ensures
        Rank::spec_adjacent(Rank::Ace, Rank::King),
        Rank::spec_adjacent(Rank::Ace, Rank::Val(2)),
        Rank::spec_adjacent(Rank::Val(10), Rank::Jack),
{
}

/// Whether every card of a sequence is a full-deck value.
pub open spec fn all_standard(cards: Seq<Card>) -> bool {
    forall|i: int| 0 <= i < cards.len() ==> (#[trigger] cards[i]).wf()
}

/// Runtime check that every card of a slice is a full-deck value.
pub fn cards_standard(cards: &[Card]) -> (r: bool)
    ensures
        r == all_standard(cards@),
{
    let mut i: usize = 0;
    while i < cards.len()
        invariant
            0 <= i <= cards@.len(),
            forall|k: int| 0 <= k < i ==> (#[trigger] cards@[k]).wf(),
        decreases cards@.len() - i,
    {
        if !cards[i].is_standard() {
            return false;
        }
        i += 1;
    }
    true
}

} // verus!
