//! Which messages the keys the player pressed ask for.

use vstd::prelude::*;

use crate::cards::{is_pack_value, Suit, Value};
use crate::game::GameMessage;

verus! {

/// The keys the game listens to; `Digit(d)` is the digit key `d` (0 to 9).
#[derive(Clone, Copy, Debug, Eq, PartialEq, Structural)]
pub enum Key {
    Escape,
    R,
    C,
    H,
    D,
    S,
    Digit(u8),
    J,
    Q,
    K,
    A,
    Space,
    Backspace,
    Delete,
    X,
}

/// The place of a key in the order in which keys are looked at: redeal first, then the
/// suits, the digits, the faces, clearing and solving. Keys of one place ask for the same
/// thing. Escape, and a digit above 9, ask for nothing here.
pub open spec fn key_rank(k: Key) -> Option<int> {
    match k {
        Key::Escape => None,
        Key::R => Some(0),
        Key::C => Some(1),
        Key::H => Some(2),
        Key::D => Some(3),
        Key::S => Some(4),
        Key::Digit(d) => if d <= 9 {
            Some(5 + d)
        } else {
            None
        },
        Key::J => Some(15),
        Key::Q => Some(16),
        Key::K => Some(17),
        Key::A => Some(18),
        Key::Space => Some(19),
        Key::Backspace => Some(19),
        Key::Delete => Some(19),
        Key::X => Some(20),
    }
}

/// `m` is what key `k` asks for: R redeals; C, H, D, S guess clubs, hearts, diamonds,
/// spades; the digits 2 to 9 guess that value and 0 and 1 guess 10; J, Q, K, A guess the
/// faces (the ace high); space, backspace and delete clear the guesses; X solves all.
pub open spec fn is_key_message(k: Key, m: GameMessage) -> bool {
    match k {
        Key::Escape => m is Quit,
        Key::R => m is Redeal,
        Key::C => m == GameMessage::GuessSuit(Suit::Clubs),
        Key::H => m == GameMessage::GuessSuit(Suit::Hearts),
        Key::D => m == GameMessage::GuessSuit(Suit::Diamonds),
        Key::S => m == GameMessage::GuessSuit(Suit::Spades),
        Key::Digit(d) => m matches GameMessage::GuessValue(v) && v@ == if d <= 1 {
            10
        } else {
            d
        },
        Key::J => m matches GameMessage::GuessValue(v) && v@ == 11,
        Key::Q => m matches GameMessage::GuessValue(v) && v@ == 12,
        Key::K => m matches GameMessage::GuessValue(v) && v@ == 13,
        Key::A => m matches GameMessage::GuessValue(v) && v@ == 14,
        Key::Space => m is ClearGuesses,
        Key::Backspace => m is ClearGuesses,
        Key::Delete => m is ClearGuesses,
        Key::X => m is SolveAll,
    }
}

/// Key `i` is pressed, asks for something, and no pressed key comes before it.
pub open spec fn is_first_key(keys: Seq<Key>, i: int) -> bool {
    &&& 0 <= i < keys.len()
    &&& key_rank(keys[i]) is Some
    &&& forall|j: int|
        0 <= j < keys.len() && (#[trigger] key_rank(keys[j])) is Some ==> key_rank(keys[i])->0
            <= key_rank(keys[j])->0
}

pub open spec fn asks_quit(keys: Seq<Key>, can_quit: bool) -> bool {
    can_quit && exists|i: int| 0 <= i < keys.len() && (#[trigger] keys[i]) is Escape
}

pub open spec fn asks_something(keys: Seq<Key>) -> bool {
    exists|i: int| 0 <= i < keys.len() && (#[trigger] key_rank(keys[i])) is Some
}

fn rank_of(k: Key) -> (r: Option<u8>)
    ensures
        match r {
            Some(x) => key_rank(k) == Some(x as int),
            None => key_rank(k) is None,
        },
{
    match k {
        Key::Escape => None,
        Key::R => Some(0),
        Key::C => Some(1),
        Key::H => Some(2),
        Key::D => Some(3),
        Key::S => Some(4),
        Key::Digit(d) => if d <= 9 {
            Some(5 + d)
        } else {
            None
        },
        Key::J => Some(15),
        Key::Q => Some(16),
        Key::K => Some(17),
        Key::A => Some(18),
        Key::Space => Some(19),
        Key::Backspace => Some(19),
        Key::Delete => Some(19),
        Key::X => Some(20),
    }
}

fn message_of(k: Key) -> (m: GameMessage)
    requires
        key_rank(k) is Some,
    ensures
        is_key_message(k, m),
        m matches GameMessage::GuessValue(v) ==> is_pack_value(v@),
{
    match k {
        Key::R => GameMessage::Redeal,
        Key::C => GameMessage::GuessSuit(Suit::Clubs),
        Key::H => GameMessage::GuessSuit(Suit::Hearts),
        Key::D => GameMessage::GuessSuit(Suit::Diamonds),
        Key::S => GameMessage::GuessSuit(Suit::Spades),
        Key::Digit(d) => if d <= 1 {
            GameMessage::GuessValue(Value::of_number(10))
        } else {
            GameMessage::GuessValue(Value::of_number(d))
        },
        Key::J => GameMessage::GuessValue(Value::of_face('J')),
        Key::Q => GameMessage::GuessValue(Value::of_face('Q')),
        Key::K => GameMessage::GuessValue(Value::of_face('K')),
        Key::A => GameMessage::GuessValue(Value::of_face('A')),
        Key::X => GameMessage::SolveAll,
        _ => GameMessage::ClearGuesses,
    }
}

/// The messages that the pressed keys ask for: quitting first, when Escape is pressed and
/// quitting is allowed, then what the first key in the order of `key_rank` asks for.
/// Every value guessed is a value of the pack.
pub fn messages_for_keys(pressed: &Vec<Key>, can_quit: bool) -> (r: Vec<GameMessage>)
    ensures
        r@.len() == (if asks_quit(pressed@, can_quit) {
            1int
        } else {
            0int
        }) + (if asks_something(pressed@) {
            1int
        } else {
            0int
        }),
        asks_quit(pressed@, can_quit) ==> r@[0] is Quit,
        asks_something(pressed@) ==> exists|i: int|
            is_first_key(pressed@, i) && #[trigger] is_key_message(pressed@[i], r@[r@.len() - 1]),
        forall|k: int|
            0 <= k < r@.len() ==> ((#[trigger] r@[k]) matches GameMessage::GuessValue(v)
                ==> is_pack_value(v@)),
{
    let n = pressed.len();
    let mut escape = false;
    let mut best: Option<usize> = None;
    let mut best_rank: u8 = 0;
    let mut i: usize = 0;
    while i < n
        invariant
            n == pressed@.len(),
            0 <= i <= n,
            escape <==> exists|j: int| 0 <= j < i && (#[trigger] pressed@[j]) is Escape,
            match best {
                Some(b) => {
                    &&& b < i
                    &&& key_rank(pressed@[b as int]) == Some(best_rank as int)
                    &&& forall|j: int|
                        0 <= j < i && (#[trigger] key_rank(pressed@[j])) is Some ==> best_rank
                            <= key_rank(pressed@[j])->0
                },
                None => forall|j: int| 0 <= j < i ==> (#[trigger] key_rank(pressed@[j])) is None,
            },
        decreases n - i,
    {
        let k = pressed[i];
        if let Key::Escape = k {
            escape = true;
        }
        match rank_of(k) {
            Some(x) => {
                let better = match best {
                    Some(_) => x < best_rank,
                    None => true,
                };
                if better {
                    best = Some(i);
                    best_rank = x;
                }
            },
            None => {},
        }
        i = i + 1;
    }
    let mut messages: Vec<GameMessage> = Vec::new();
    if can_quit && escape {
        messages.push(GameMessage::Quit);
    }
    proof {
        if asks_quit(pressed@, can_quit) {
            let j = choose|j: int| 0 <= j < pressed@.len() && (#[trigger] pressed@[j]) is Escape;
            assert(pressed@[j] is Escape);
        }
    }
    match best {
        Some(b) => {
            let m = message_of(pressed[b]);
            messages.push(m);
            assert(is_first_key(pressed@, b as int));
            assert(is_key_message(pressed@[b as int], messages@[messages@.len() - 1]));
            assert(asks_something(pressed@)) by {
                assert(key_rank(pressed@[b as int]) is Some);
            }
        },
        None => {
            assert(!asks_something(pressed@));
        },
    }
    messages
}

} // verus!
