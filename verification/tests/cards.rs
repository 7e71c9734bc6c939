use poker_puzzle::cards::{CardId, Stack, Suit, SuitColour, Value, CARD_VALUES, FULL_PACK_SIZE};

#[test]
fn suit_symbols_and_colours() {
    assert_eq!(Suit::Clubs.symbol(), "♣");
    assert_eq!(Suit::Diamonds.symbol(), "♦");
    assert_eq!(Suit::Hearts.symbol(), "♥");
    assert_eq!(Suit::Spades.symbol(), "♠");
    assert_eq!(Suit::Clubs.colour(), SuitColour::Black);
    assert_eq!(Suit::Diamonds.colour(), SuitColour::Red);
    assert_eq!(Suit::Hearts.colour(), SuitColour::Red);
    assert_eq!(Suit::Spades.colour(), SuitColour::Black);
}

#[test]
fn value_constructors() {
    assert_eq!(Value::of_number(7).value(), 7);
    assert_eq!(Value::of_face('a').value(), 1);
    assert_eq!(Value::of_face('J').value(), 11);
    assert_eq!(Value::of_face('Q').value(), 12);
    assert_eq!(Value::of_face('K').value(), 13);
    assert_eq!(Value::of_face('A').value(), 14);
    assert_eq!(Value::low_ace().value(), 1);
    assert_eq!(Value::of_face('A'), Value::of_number(14));
}

#[test]
fn value_symbols() {
    let expected = ["a", "2", "3", "4", "5", "6", "7", "8", "9", "10", "J", "Q", "K", "A"];
    for (i, sym) in expected.iter().enumerate() {
        assert_eq!(Value::of_number(i as u8 + 1).symbol(), *sym);
    }
}

#[test]
fn card_new_keeps_suit_and_value() {
    let c = CardId::new(Suit::Hearts, Value::of_number(5));
    assert_eq!(c.suit, Suit::Hearts);
    assert_eq!(c.value.value(), 5);
}

#[test]
fn full_pack_order() {
    let mut pack = Stack::full_pack();
    let cards = pack.pop_all();
    assert_eq!(cards.len(), FULL_PACK_SIZE);
    assert_eq!(cards[0], CardId::new(Suit::Clubs, Value::of_number(2)));
    assert_eq!(cards[12], CardId::new(Suit::Clubs, Value::of_face('A')));
    assert_eq!(cards[13], CardId::new(Suit::Diamonds, Value::of_number(2)));
    assert_eq!(cards[51], CardId::new(Suit::Spades, Value::of_face('A')));
    for (i, c) in cards.iter().enumerate() {
        assert_eq!(c.value.value(), CARD_VALUES[i % 13]);
    }
    assert_eq!(pack.pop(), None);
}

#[test]
fn pop_takes_the_top() {
    let mut pack = Stack::full_pack();
    assert_eq!(pack.pop(), Some(CardId::new(Suit::Spades, Value::of_face('A'))));
    assert_eq!(pack.pop(), Some(CardId::new(Suit::Spades, Value::of_face('K'))));
    assert_eq!(pack.pop_all().len(), 50);
    assert_eq!(pack.pop(), None);
}

#[test]
fn from_cards_keeps_order() {
    let cards = vec![
        CardId::new(Suit::Hearts, Value::of_number(5)),
        CardId::new(Suit::Clubs, Value::of_number(9)),
    ];
    let mut pack = Stack::from_cards(cards.clone());
    assert_eq!(pack.pop(), Some(cards[1]));
    assert_eq!(pack.pop(), Some(cards[0]));
    assert_eq!(pack.pop(), None);
}

#[test]
fn shuffle_keeps_the_cards_and_changes_the_order() {
    let mut unshuffled = Stack::full_pack();
    let sorted = unshuffled.pop_all();
    let mut moved = false;
    for _ in 0..5 {
        let mut pack = Stack::full_pack();
        pack.shuffle();
        let cards = pack.pop_all();
        assert_eq!(cards.len(), 52);
        for c in &sorted {
            assert_eq!(cards.iter().filter(|d| *d == c).count(), 1);
        }
        if cards != sorted {
            moved = true;
        }
    }
    assert!(moved);
}
