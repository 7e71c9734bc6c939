use poker_puzzle::cards::{CardId, Stack, Suit, Value};
use poker_puzzle::deal::{deal_from_pack, deal_game};
use poker_puzzle::poker::{identify_hand, PokerHand};

fn card(suit: Suit, value: u8) -> CardId {
    CardId::new(suit, Value::of_number(value))
}

fn interesting_order() -> Vec<CardId> {
    vec![
        card(Suit::Spades, 12),
        card(Suit::Clubs, 12),
        card(Suit::Spades, 10),
        card(Suit::Diamonds, 13),
        card(Suit::Hearts, 10),
        card(Suit::Hearts, 12),
        card(Suit::Clubs, 11),
        card(Suit::Spades, 13),
        card(Suit::Hearts, 2),
        card(Suit::Diamonds, 2),
        card(Suit::Spades, 8),
        card(Suit::Clubs, 14),
        card(Suit::Spades, 14),
        card(Suit::Diamonds, 6),
        card(Suit::Diamonds, 10),
        card(Suit::Diamonds, 11),
        card(Suit::Spades, 3),
        card(Suit::Hearts, 13),
        card(Suit::Clubs, 10),
        card(Suit::Hearts, 11),
        card(Suit::Clubs, 7),
        card(Suit::Spades, 11),
        card(Suit::Clubs, 13),
        card(Suit::Spades, 9),
        card(Suit::Hearts, 3),
        card(Suit::Hearts, 7),
        card(Suit::Diamonds, 8),
        card(Suit::Hearts, 14),
        card(Suit::Clubs, 3),
        card(Suit::Clubs, 5),
        card(Suit::Clubs, 9),
        card(Suit::Diamonds, 7),
        card(Suit::Spades, 2),
        card(Suit::Diamonds, 12),
        card(Suit::Hearts, 4),
        card(Suit::Spades, 7),
        card(Suit::Hearts, 6),
        card(Suit::Clubs, 2),
        card(Suit::Spades, 5),
        card(Suit::Clubs, 4),
        card(Suit::Hearts, 5),
        card(Suit::Spades, 6),
        card(Suit::Clubs, 8),
        card(Suit::Spades, 4),
        card(Suit::Diamonds, 3),
        card(Suit::Hearts, 9),
        card(Suit::Hearts, 8),
        card(Suit::Diamonds, 4),
        card(Suit::Diamonds, 5),
        card(Suit::Diamonds, 14),
        card(Suit::Clubs, 6),
        card(Suit::Diamonds, 9),
    ]
}

#[test]
fn unshuffled_pack_is_not_interesting() {
    assert!(deal_from_pack(Stack::full_pack()).is_none());
}

#[test]
fn deal_lays_out_the_pack_top_first() {
    let dealt = deal_from_pack(Stack::from_cards(interesting_order())).expect("interesting deal");
    assert_eq!(dealt.board[0][0][0], card(Suit::Diamonds, 9));
    assert_eq!(dealt.board[0][0][1], card(Suit::Clubs, 6));
    assert_eq!(dealt.board[2][3][1], card(Suit::Hearts, 3));
    assert_eq!(dealt.spares[0], card(Suit::Clubs, 12));
    assert_eq!(dealt.spares[1], card(Suit::Spades, 12));
    assert_eq!(dealt.top_hands, [PokerHand::Nothing, PokerHand::Nothing, PokerHand::OnePair, PokerHand::OnePair, PokerHand::Nothing]);
    assert_eq!(dealt.left_hands, [PokerHand::TwoPair, PokerHand::Nothing, PokerHand::OnePair, PokerHand::ThreeOfAKind, PokerHand::OnePair]);
    assert_eq!(dealt.right_hands, [PokerHand::OnePair, PokerHand::OnePair, PokerHand::OnePair, PokerHand::OnePair, PokerHand::OnePair]);
    assert_eq!(dealt.bottom_hands, [PokerHand::Straight, PokerHand::OnePair, PokerHand::OnePair, PokerHand::TwoPair, PokerHand::Nothing]);
}

fn check_deal_laws(dealt: &poker_puzzle::deal::DealtGame) {
    // Every card of the pack is dealt exactly once.
    let mut all: Vec<CardId> = Vec::new();
    for i in 0..5 {
        for j in 0..5 {
            for k in 0..2 {
                all.push(dealt.board[i][j][k]);
            }
        }
    }
    all.extend_from_slice(&dealt.spares);
    let mut full = Stack::full_pack().pop_all();
    assert_eq!(all.len(), 52);
    for c in &all {
        let pos = full.iter().position(|d| d == c).expect("card of the pack, dealt once");
        full.remove(pos);
    }
    assert!(full.is_empty());
    // Each hand is the hand of its line.
    for c in 0..5 {
        let mut top: Vec<CardId> = (0..5).map(|r| dealt.board[r][c][0]).collect();
        let mut left: Vec<CardId> = (0..5).map(|x| dealt.board[c][x][0]).collect();
        let mut right: Vec<CardId> = (0..5).map(|x| dealt.board[c][x][1]).collect();
        let mut bottom: Vec<CardId> = (0..5).map(|r| dealt.board[r][c][1]).collect();
        assert_eq!(identify_hand(&mut top), dealt.top_hands[c]);
        assert_eq!(identify_hand(&mut left), dealt.left_hands[c]);
        assert_eq!(identify_hand(&mut right), dealt.right_hands[c]);
        assert_eq!(identify_hand(&mut bottom), dealt.bottom_hands[c]);
    }
    // The deal is interesting.
    let hands: Vec<PokerHand> = dealt
        .top_hands
        .iter()
        .chain(dealt.left_hands.iter())
        .chain(dealt.right_hands.iter())
        .chain(dealt.bottom_hands.iter())
        .copied()
        .collect();
    let count = |h: PokerHand| hands.iter().filter(|x| **x == h).count();
    assert!(count(PokerHand::Nothing) < 6);
    assert!(count(PokerHand::OnePair) < 12);
    let mut kinds: Vec<PokerHand> = Vec::new();
    for h in &hands {
        if !kinds.contains(h) {
            kinds.push(*h);
        }
    }
    assert!(kinds.len() >= 4);
}

#[test]
fn fixed_deal_obeys_the_laws() {
    let dealt = deal_from_pack(Stack::from_cards(interesting_order())).expect("interesting deal");
    check_deal_laws(&dealt);
}

#[test]
fn random_deals_obey_the_laws() {
    for _ in 0..3 {
        let dealt = loop {
            if let Some(d) = deal_game(1000) {
                break d;
            }
        };
        check_deal_laws(&dealt);
    }
}

#[test]
fn no_attempts_deal_nothing() {
    assert!(deal_game(0).is_none());
}
