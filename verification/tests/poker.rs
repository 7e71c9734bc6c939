use poker_puzzle::cards::{CardId, Suit, Value};
use poker_puzzle::poker::{identify_hand, PokerHand};

fn card(suit: Suit, value: u8) -> CardId {
    CardId::new(suit, Value::of_number(value))
}

#[test]
fn straight() {
    let mut pack = [
        CardId::new(Suit::Hearts, Value::of_number(3)),
        CardId::new(Suit::Hearts, Value::of_number(7)),
        CardId::new(Suit::Clubs, Value::of_number(5)),
        CardId::new(Suit::Spades, Value::of_number(6)),
        CardId::new(Suit::Diamonds, Value::of_number(4)),
    ];

    let hand = identify_hand(&mut pack);
    assert_eq!(hand, PokerHand::Straight);
}

#[test]
fn straight_flush() {
    let mut pack = [
        CardId::new(Suit::Clubs, Value::of_number(3)),
        CardId::new(Suit::Clubs, Value::of_number(7)),
        CardId::new(Suit::Clubs, Value::of_number(5)),
        CardId::new(Suit::Clubs, Value::of_number(6)),
        CardId::new(Suit::Clubs, Value::of_number(4)),
    ];

    let hand = identify_hand(&mut pack);
    assert_eq!(hand, PokerHand::StraightFlush);
}

#[test]
fn straight_flush_with_ace() {
    let mut pack = [
        CardId::new(Suit::Clubs, Value::of_number(3)),
        CardId::new(Suit::Clubs, Value::of_number(2)),
        CardId::new(Suit::Clubs, Value::of_number(5)),
        CardId::new(Suit::Clubs, Value::of_face('A')),
        CardId::new(Suit::Clubs, Value::of_number(4)),
    ];

    let hand = identify_hand(&mut pack);
    assert_eq!(hand, PokerHand::StraightFlush);
}

#[test]
fn royal_flush() {
    let mut pack = [
        CardId::new(Suit::Clubs, Value::of_face('Q')),
        CardId::new(Suit::Clubs, Value::of_number(10)),
        CardId::new(Suit::Clubs, Value::of_face('A')),
        CardId::new(Suit::Clubs, Value::of_face('K')),
        CardId::new(Suit::Clubs, Value::of_face('J')),
    ];

    let hand = identify_hand(&mut pack);
    assert_eq!(hand, PokerHand::RoyalFlush);
}

#[test]
fn empty_line_is_nothing() {
    let mut cards: [CardId; 0] = [];
    assert_eq!(identify_hand(&mut cards), PokerHand::Nothing);
}

#[test]
fn five_of_a_kind() {
    let mut cards = [
        card(Suit::Clubs, 9),
        card(Suit::Hearts, 9),
        card(Suit::Spades, 9),
        card(Suit::Diamonds, 9),
        card(Suit::Clubs, 9),
    ];
    assert_eq!(identify_hand(&mut cards), PokerHand::FiveOfAKind);
}

#[test]
fn four_of_a_kind() {
    let mut cards = [
        card(Suit::Clubs, 9),
        card(Suit::Hearts, 9),
        card(Suit::Spades, 4),
        card(Suit::Diamonds, 9),
        card(Suit::Spades, 9),
    ];
    assert_eq!(identify_hand(&mut cards), PokerHand::FourOfAKind);
}

#[test]
fn full_house() {
    let mut cards = [
        card(Suit::Clubs, 9),
        card(Suit::Hearts, 4),
        card(Suit::Spades, 4),
        card(Suit::Diamonds, 9),
        card(Suit::Spades, 9),
    ];
    assert_eq!(identify_hand(&mut cards), PokerHand::FullHouse);
}

#[test]
fn flush() {
    let mut cards = [
        card(Suit::Hearts, 2),
        card(Suit::Hearts, 9),
        card(Suit::Hearts, 4),
        card(Suit::Hearts, 12),
        card(Suit::Hearts, 7),
    ];
    assert_eq!(identify_hand(&mut cards), PokerHand::Flush);
}

#[test]
fn three_of_a_kind() {
    let mut cards = [
        card(Suit::Clubs, 9),
        card(Suit::Hearts, 9),
        card(Suit::Spades, 4),
        card(Suit::Diamonds, 9),
        card(Suit::Spades, 13),
    ];
    assert_eq!(identify_hand(&mut cards), PokerHand::ThreeOfAKind);
}

#[test]
fn two_pair() {
    let mut cards = [
        card(Suit::Clubs, 9),
        card(Suit::Hearts, 4),
        card(Suit::Spades, 4),
        card(Suit::Diamonds, 9),
        card(Suit::Spades, 13),
    ];
    assert_eq!(identify_hand(&mut cards), PokerHand::TwoPair);
}

#[test]
fn one_pair() {
    let mut cards = [
        card(Suit::Clubs, 9),
        card(Suit::Hearts, 4),
        card(Suit::Spades, 6),
        card(Suit::Diamonds, 9),
        card(Suit::Spades, 13),
    ];
    assert_eq!(identify_hand(&mut cards), PokerHand::OnePair);
}

#[test]
fn nothing() {
    let mut cards = [
        card(Suit::Clubs, 9),
        card(Suit::Hearts, 4),
        card(Suit::Spades, 6),
        card(Suit::Diamonds, 2),
        card(Suit::Spades, 13),
    ];
    assert_eq!(identify_hand(&mut cards), PokerHand::Nothing);
}

#[test]
fn ace_high_straight() {
    let mut cards = [
        card(Suit::Clubs, 14),
        card(Suit::Hearts, 13),
        card(Suit::Spades, 12),
        card(Suit::Diamonds, 11),
        card(Suit::Spades, 10),
    ];
    assert_eq!(identify_hand(&mut cards), PokerHand::Straight);
}

#[test]
fn ace_does_not_wrap_around() {
    let mut cards = [
        card(Suit::Clubs, 14),
        card(Suit::Hearts, 13),
        card(Suit::Spades, 2),
        card(Suit::Diamonds, 3),
        card(Suit::Spades, 4),
    ];
    assert_eq!(identify_hand(&mut cards), PokerHand::Nothing);
}

#[test]
fn short_lines() {
    let mut one = [card(Suit::Clubs, 10)];
    assert_eq!(identify_hand(&mut one), PokerHand::RoyalFlush);
    let mut one_low = [card(Suit::Clubs, 7)];
    assert_eq!(identify_hand(&mut one_low), PokerHand::StraightFlush);
    let mut pair = [card(Suit::Clubs, 7), card(Suit::Hearts, 7)];
    assert_eq!(identify_hand(&mut pair), PokerHand::OnePair);
    let mut run = [card(Suit::Clubs, 7), card(Suit::Hearts, 8), card(Suit::Hearts, 6)];
    assert_eq!(identify_hand(&mut run), PokerHand::Straight);
}

#[test]
fn cards_are_left_sorted_with_low_aces() {
    let mut cards = [
        card(Suit::Clubs, 3),
        card(Suit::Hearts, 14),
        card(Suit::Clubs, 2),
        card(Suit::Spades, 9),
        card(Suit::Spades, 14),
    ];
    assert_eq!(identify_hand(&mut cards), PokerHand::OnePair);
    let values: Vec<u8> = cards.iter().map(|c| c.value.value()).collect();
    assert_eq!(values, vec![1, 1, 2, 3, 9]);
    assert_eq!(cards[0].suit, Suit::Hearts);
    assert_eq!(cards[1].suit, Suit::Spades);
}

#[test]
fn cards_are_left_sorted_keeping_high_aces() {
    let mut cards = [
        card(Suit::Clubs, 14),
        card(Suit::Hearts, 5),
        card(Suit::Spades, 5),
        card(Suit::Diamonds, 3),
    ];
    assert_eq!(identify_hand(&mut cards), PokerHand::OnePair);
    let values: Vec<u8> = cards.iter().map(|c| c.value.value()).collect();
    assert_eq!(values, vec![3, 5, 5, 14]);
    assert_eq!(cards[1].suit, Suit::Hearts);
    assert_eq!(cards[2].suit, Suit::Spades);
}

#[test]
fn hand_ignores_order() {
    let base = [
        card(Suit::Clubs, 9),
        card(Suit::Hearts, 4),
        card(Suit::Spades, 4),
        card(Suit::Diamonds, 9),
        card(Suit::Spades, 9),
    ];
    let mut a = base;
    let mut b = [base[4], base[2], base[0], base[3], base[1]];
    assert_eq!(identify_hand(&mut a), identify_hand(&mut b));
}

#[test]
fn hand_names() {
    assert_eq!(PokerHand::Nothing.name(), "Nothing");
    assert_eq!(PokerHand::OnePair.name(), "One Pair");
    assert_eq!(PokerHand::TwoPair.name(), "Two Pair");
    assert_eq!(PokerHand::ThreeOfAKind.name(), "Three Of A Kind");
    assert_eq!(PokerHand::Straight.name(), "Straight");
    assert_eq!(PokerHand::Flush.name(), "Flush");
    assert_eq!(PokerHand::FullHouse.name(), "Full House");
    assert_eq!(PokerHand::FourOfAKind.name(), "Four Of A Kind");
    assert_eq!(PokerHand::StraightFlush.name(), "Straight Flush");
    assert_eq!(PokerHand::RoyalFlush.name(), "Royal Flush");
    assert_eq!(PokerHand::FiveOfAKind.name(), "Five Of A Kind");
}

#[test]
fn hands_are_ordered_by_strength() {
    assert!(PokerHand::Nothing < PokerHand::OnePair);
    assert!(PokerHand::FullHouse < PokerHand::FourOfAKind);
    assert!(PokerHand::RoyalFlush < PokerHand::FiveOfAKind);
}
