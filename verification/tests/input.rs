use poker_puzzle::cards::{Suit, Value};
use poker_puzzle::game::GameMessage;
use poker_puzzle::input::{messages_for_keys, Key};

fn guessed_value(m: &GameMessage) -> Option<u8> {
    match m {
        GameMessage::GuessValue(v) => Some(v.value()),
        _ => None,
    }
}

#[test]
fn no_keys_no_messages() {
    assert!(messages_for_keys(&vec![], true).is_empty());
}

#[test]
fn escape_quits_only_where_allowed() {
    let m = messages_for_keys(&vec![Key::Escape], true);
    assert_eq!(m.len(), 1);
    assert!(matches!(m[0], GameMessage::Quit));
    assert!(messages_for_keys(&vec![Key::Escape], false).is_empty());
}

#[test]
fn quit_comes_before_the_other_message() {
    let m = messages_for_keys(&vec![Key::C, Key::Escape], true);
    assert_eq!(m.len(), 2);
    assert!(matches!(m[0], GameMessage::Quit));
    assert!(matches!(m[1], GameMessage::GuessSuit(Suit::Clubs)));
}

#[test]
fn each_key_asks_for_its_message() {
    assert!(matches!(messages_for_keys(&vec![Key::R], true)[0], GameMessage::Redeal));
    assert!(matches!(messages_for_keys(&vec![Key::H], true)[0], GameMessage::GuessSuit(Suit::Hearts)));
    assert!(matches!(messages_for_keys(&vec![Key::D], true)[0], GameMessage::GuessSuit(Suit::Diamonds)));
    assert!(matches!(messages_for_keys(&vec![Key::S], true)[0], GameMessage::GuessSuit(Suit::Spades)));
    assert!(matches!(messages_for_keys(&vec![Key::Space], true)[0], GameMessage::ClearGuesses));
    assert!(matches!(messages_for_keys(&vec![Key::Backspace], true)[0], GameMessage::ClearGuesses));
    assert!(matches!(messages_for_keys(&vec![Key::Delete], true)[0], GameMessage::ClearGuesses));
    assert!(matches!(messages_for_keys(&vec![Key::X], true)[0], GameMessage::SolveAll));
}

#[test]
fn value_keys_guess_values_of_the_pack() {
    let expected = [10, 10, 2, 3, 4, 5, 6, 7, 8, 9];
    for d in 0..10u8 {
        let m = messages_for_keys(&vec![Key::Digit(d)], true);
        assert_eq!(guessed_value(&m[0]), Some(expected[d as usize]));
    }
    assert_eq!(guessed_value(&messages_for_keys(&vec![Key::J], true)[0]), Some(11));
    assert_eq!(guessed_value(&messages_for_keys(&vec![Key::Q], true)[0]), Some(12));
    assert_eq!(guessed_value(&messages_for_keys(&vec![Key::K], true)[0]), Some(13));
    assert_eq!(guessed_value(&messages_for_keys(&vec![Key::A], true)[0]), Some(14));
    assert!(messages_for_keys(&vec![Key::Digit(12)], true).is_empty());
}

#[test]
fn the_first_key_in_order_wins() {
    let m = messages_for_keys(&vec![Key::X, Key::A, Key::Digit(3), Key::H, Key::R], true);
    assert_eq!(m.len(), 1);
    assert!(matches!(m[0], GameMessage::Redeal));
    let m = messages_for_keys(&vec![Key::X, Key::A, Key::Digit(3)], true);
    assert_eq!(guessed_value(&m[0]), Some(3));
    let m = messages_for_keys(&vec![Key::Space, Key::K], true);
    assert_eq!(guessed_value(&m[0]), Some(13));
}

#[test]
fn equal_values_from_different_constructors() {
    assert_eq!(Value::of_face('a'), Value::low_ace());
    assert_eq!(Value::of_face('A'), Value::of_number(14));
}
