//! Cards, suits, values and the pack they are dealt from.

use vstd::prelude::*;

use rand::seq::SliceRandom;

verus! {

pub const NUM_SUITS: usize = 4;

pub const CARDS_PER_SUIT: usize = 13;

/// The values a card of the pack can carry, lowest first (an ace is 14).
pub const CARD_VALUES: [u8; CARDS_PER_SUIT] = [2, 3, 4, 5, 6, 7, 8, 9, 10, 11, 12, 13, 14];

pub const MIN_CARD_VALUE: u8 = 2;

pub const FULL_PACK_SIZE: usize = NUM_SUITS * CARDS_PER_SUIT;

#[derive(Clone, Copy, Debug, PartialEq, Eq, Structural)]
pub enum SuitColour {
    Red,
    Black,
}

#[derive(Clone, Copy, Debug, Eq, Hash, PartialEq, Structural)]
pub enum Suit {
    Clubs,
    Diamonds,
    Hearts,
    Spades,
}

/// The suits in the order the pack holds them.
pub open spec fn suit_at(i: int) -> Suit {
    if i == 0 {
        Suit::Clubs
    } else if i == 1 {
        Suit::Diamonds
    } else if i == 2 {
        Suit::Hearts
    } else {
        Suit::Spades
    }
}

pub open spec fn suit_symbol(s: Suit) -> Seq<char> {
    match s {
        Suit::Clubs => "♣"@,
        Suit::Diamonds => "♦"@,
        Suit::Hearts => "♥"@,
        Suit::Spades => "♠"@,
    }
}

pub open spec fn suit_colour(s: Suit) -> SuitColour {
    match s {
        Suit::Clubs => SuitColour::Black,
        Suit::Diamonds => SuitColour::Red,
        Suit::Hearts => SuitColour::Red,
        Suit::Spades => SuitColour::Black,
    }
}

impl Suit {
    fn all() -> (r: [Suit; 4])
        ensures
            forall|i: int| 0 <= i < 4 ==> #[trigger] r@[i] == suit_at(i),
    {
        [Suit::Clubs, Suit::Diamonds, Suit::Hearts, Suit::Spades]
    }

    pub fn symbol(&self) -> (r: &'static str)
        ensures
            r@ == suit_symbol(*self),
    {
        match self {
            Suit::Clubs => "♣",
            Suit::Diamonds => "♦",
            Suit::Hearts => "♥",
            Suit::Spades => "♠",
        }
    }

    pub fn colour(&self) -> (r: SuitColour)
        ensures
            r == suit_colour(*self),
    {
        match self {
            Suit::Clubs => SuitColour::Black,
            Suit::Diamonds => SuitColour::Red,
            Suit::Hearts => SuitColour::Red,
            Suit::Spades => SuitColour::Black,
        }
    }
}

/// The value of a card: 2 to 10, 11 for a jack, 12 for a queen, 13 for a king and
/// 14 for an ace; 1 stands for an ace that counts low.
#[derive(Clone, Copy, Debug, Eq, Hash, Ord, PartialEq, PartialOrd, Structural)]
pub struct Value(u8);

impl View for Value {
    type V = u8;

    closed spec fn view(&self) -> u8 {
        self.0
    }
}

/// A value that a card of the full pack carries (aces high).
pub open spec fn is_pack_value(v: u8) -> bool {
    MIN_CARD_VALUE <= v <= 14
}

pub open spec fn face_value(face: char) -> u8 {
    if face == 'a' {
        1
    } else if face == 'J' {
        11
    } else if face == 'Q' {
        12
    } else if face == 'K' {
        13
    } else {
        14
    }
}

pub open spec fn is_face(face: char) -> bool {
    face == 'a' || face == 'J' || face == 'Q' || face == 'K' || face == 'A'
}

pub open spec fn value_symbol(v: u8) -> Seq<char> {
    if v == 1 {
        "a"@
    } else if v == 2 {
        "2"@
    } else if v == 3 {
        "3"@
    } else if v == 4 {
        "4"@
    } else if v == 5 {
        "5"@
    } else if v == 6 {
        "6"@
    } else if v == 7 {
        "7"@
    } else if v == 8 {
        "8"@
    } else if v == 9 {
        "9"@
    } else if v == 10 {
        "10"@
    } else if v == 11 {
        "J"@
    } else if v == 12 {
        "Q"@
    } else if v == 13 {
        "K"@
    } else {
        "A"@
    }
}

/// The value of an ace that counts low.
pub closed spec fn low_ace_value() -> Value {
    Value(1)
}

/// A low ace has the value 1.
pub broadcast proof fn lemma_low_ace_value()
    ensures
        #[trigger] low_ace_value()@ == 1,
{
}

/// Values with the same number are the same value.
pub proof fn lemma_value_view_injective(a: Value, b: Value)
    ensures
        a@ == b@ ==> a == b,
{
}

impl Value {
    #[verifier::type_invariant]
    spec fn in_range(self) -> bool {
        1 <= self.0 <= 14
    }

    fn all() -> (r: [Value; CARDS_PER_SUIT])
        ensures
            forall|i: int| 0 <= i < 13 ==> (#[trigger] r@[i])@ == i + 2,
    {
        [
            Value(2),
            Value(3),
            Value(4),
            Value(5),
            Value(6),
            Value(7),
            Value(8),
            Value(9),
            Value(10),
            Value(11),
            Value(12),
            Value(13),
            Value(14),
        ]
    }

    pub fn of_number(number: u8) -> (r: Self)
        requires
            1 <= number <= 14,
        ensures
            r@ == number,
    {
        Value(number)
    }

    pub fn of_face(face: char) -> (r: Self)
        requires
            is_face(face),
        ensures
            r@ == face_value(face),
    {
        match face {
            'a' => Value(1),
            'J' => Value(11),
            'Q' => Value(12),
            'K' => Value(13),
            _ => Value(14),
        }
    }

    pub fn low_ace() -> (r: Self)
        ensures
            r@ == 1,
            r == low_ace_value(),
    {
        Value(1)
    }

    pub fn symbol(&self) -> (r: &'static str)
        ensures
            r@ == value_symbol(self@),
    {
        proof {
            use_type_invariant(self);
        }
        match self.0 {
            1 => "a",
            2 => "2",
            3 => "3",
            4 => "4",
            5 => "5",
            6 => "6",
            7 => "7",
            8 => "8",
            9 => "9",
            10 => "10",
            11 => "J",
            12 => "Q",
            13 => "K",
            _ => "A",
        }
    }

    pub fn value(&self) -> (r: u8)
        ensures
            r == self@,
            1 <= r <= 14,
    {
        proof {
            use_type_invariant(self);
        }
        self.0
    }
}

#[derive(Clone, Copy, Debug, Eq, Hash, PartialEq, Structural)]
pub struct CardId {
    pub suit: Suit,
    pub value: Value,
}

impl CardId {
    pub fn new(suit: Suit, value: Value) -> (r: CardId)
        ensures
            r == (CardId { suit, value }),
    {
        CardId { suit, value }
    }
}

/// The card that position `i` of an unshuffled full pack holds: suits in the order
/// clubs, diamonds, hearts, spades, and within a suit the values from 2 up to the ace.
pub open spec fn is_full_pack_card(c: CardId, i: int) -> bool {
    &&& c.suit == suit_at(i / 13)
    &&& c.value@ == i % 13 + 2
}

pub open spec fn is_full_pack(s: Seq<CardId>) -> bool {
    &&& s.len() == FULL_PACK_SIZE
    &&& forall|i: int| 0 <= i < s.len() ==> is_full_pack_card(#[trigger] s[i], i)
}

/// No card occurs twice in a full pack.
pub proof fn lemma_full_pack_distinct(f: Seq<CardId>)
    requires
        is_full_pack(f),
    ensures
        f.no_duplicates(),
{
    assert forall|i: int, j: int| 0 <= i < f.len() && 0 <= j < f.len() && i != j implies f[i]
        != f[j] by {
        if f[i] == f[j] {
            assert(is_full_pack_card(f[i], i));
            assert(is_full_pack_card(f[j], j));
            assert(i / 13 == j / 13);
            assert(i == j) by (nonlinear_arith)
                requires
                    i / 13 == j / 13,
                    i % 13 == j % 13,
                    0 <= i,
                    0 <= j,
            ;
        }
    }
}

/// Every card of a full pack has a value of the pack.
pub proof fn lemma_full_pack_values(f: Seq<CardId>, c: CardId)
    requires
        is_full_pack(f),
        f.contains(c),
    ensures
        is_pack_value(c.value@),
{
    let i = choose|i: int| 0 <= i < f.len() && f[i] == c;
    assert(is_full_pack_card(f[i], i));
}

/// A pile of cards; the last card is the top of the pile.
pub struct Stack {
    cards: Vec<CardId>,
}

impl View for Stack {
    type V = Seq<CardId>;

    closed spec fn view(&self) -> Seq<CardId> {
        self.cards@
    }
}

#[verifier::external_type_specification]
#[verifier::external_body]
pub struct ExThreadRng(rand::rngs::ThreadRng);

/// The thread-local random generator of `rand`.
///
/// Trusted: `rand::rng()`. Nothing is promised of the generator: what it yields is chance.
/// Its documentation says that it panics when the operating system's generator fails at
/// first use; that depends on the machine, so no precondition can rule it out.
#[verifier::external_body]
pub(crate) fn thread_rng() -> rand::rngs::ThreadRng {
    rand::rng()
}

/// Puts the items into a random order drawn from the thread-local generator.
///
/// Trusted: `rand::seq::SliceRandom::shuffle`. Its documentation says that the slice is put
/// into a permutation of itself, picked by the generator; the thread-local generator's stream
/// is chance, so the contract says only that the same items, as a multiset, remain.
#[verifier::external_body]
pub(crate) fn shuffle_slice<T>(items: &mut [T], rng: &mut rand::rngs::ThreadRng)
    ensures
        final(items)@.to_multiset() == old(items)@.to_multiset(),
{
    items.shuffle(rng);
}

impl Stack {
    pub fn full_pack() -> (r: Self)
        ensures
            is_full_pack(r@),
    {
        let mut cards: Vec<CardId> = Vec::with_capacity(52);
        let suits = Suit::all();
        let values = Value::all();
        for si in 0..4
            invariant
                cards@.len() == si * 13,
                forall|i: int| 0 <= i < suits@.len() ==> #[trigger] suits@[i] == suit_at(i),
                forall|i: int| 0 <= i < 13 ==> (#[trigger] values@[i])@ == i + 2,
                forall|i: int| 0 <= i < cards@.len() ==> is_full_pack_card(#[trigger] cards@[i], i),
        {
            let suit = suits[si];
            for vi in 0..13
                invariant
                    cards@.len() == si * 13 + vi,
                    suit == suit_at(si as int),
                    forall|i: int| 0 <= i < 13 ==> (#[trigger] values@[i])@ == i + 2,
                    forall|i: int| 0 <= i < cards@.len() ==> is_full_pack_card(#[trigger] cards@[i], i),
            {
                let card = CardId { suit, value: values[vi] };
                proof {
                    let n = cards@.len() as int;
                    assert(n / 13 == si as int) by (nonlinear_arith)
                        requires n == si * 13 + vi, 0 <= vi < 13;
                    assert(n % 13 == vi as int) by (nonlinear_arith)
                        requires n == si * 13 + vi, 0 <= vi < 13;
                }
                cards.push(card);
            }
        }
        Stack { cards }
    }

    /// A pile of the given cards; the last is the top.
    pub fn from_cards(cards: Vec<CardId>) -> (r: Self)
        ensures
            r@ == cards@,
    {
        Stack { cards }
    }

    pub fn shuffle(&mut self)
        ensures
            final(self)@.to_multiset() == old(self)@.to_multiset(),
    {
        let mut rng = thread_rng();
        shuffle_slice(self.cards.as_mut_slice(), &mut rng);
    }

    pub fn pop(&mut self) -> (r: Option<CardId>)
        ensures
            old(self)@.len() == 0 ==> r is None && final(self)@ == old(self)@,
            old(self)@.len() > 0 ==> r == Some(old(self)@.last()) && final(self)@
                == old(self)@.drop_last(),
    {
        self.cards.pop()
    }

    pub fn pop_all(&mut self) -> (r: Vec<CardId>)
        ensures
            r@ == old(self)@,
            final(self)@ == Seq::<CardId>::empty(),
    {
        let mut cards: Vec<CardId> = Vec::new();
        std::mem::swap(&mut cards, &mut self.cards);
        cards
    }
}

} // verus!
