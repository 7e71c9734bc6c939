use poker_puzzle::cards::{CardId, Stack, Suit, Value};
use poker_puzzle::deal::{deal_from_pack, DealtGame};
use poker_puzzle::game::{
    build_clues, build_tiles, check_for_victory, check_guesses, clear_guesses, guess_suit,
    guess_value, redeal_game, select_tile, solve_all, Clue, ClueGuessState, ClueLocation, GameSeed,
    Selection, Tile, TilePosition,
};

fn card(suit: Suit, value: u8) -> CardId {
    CardId::new(suit, Value::of_number(value))
}

fn interesting_order() -> Vec<CardId> {
    vec![
        card(Suit::Spades, 12),
        card(Suit::Clubs, 12),
        card(Suit::Spades, 10),
        card(Suit::Diamonds, 13),
        card(Suit::Hearts, 10),
        card(Suit::Hearts, 12),
        card(Suit::Clubs, 11),
        card(Suit::Spades, 13),
        card(Suit::Hearts, 2),
        card(Suit::Diamonds, 2),
        card(Suit::Spades, 8),
        card(Suit::Clubs, 14),
        card(Suit::Spades, 14),
        card(Suit::Diamonds, 6),
        card(Suit::Diamonds, 10),
        card(Suit::Diamonds, 11),
        card(Suit::Spades, 3),
        card(Suit::Hearts, 13),
        card(Suit::Clubs, 10),
        card(Suit::Hearts, 11),
        card(Suit::Clubs, 7),
        card(Suit::Spades, 11),
        card(Suit::Clubs, 13),
        card(Suit::Spades, 9),
        card(Suit::Hearts, 3),
        card(Suit::Hearts, 7),
        card(Suit::Diamonds, 8),
        card(Suit::Hearts, 14),
        card(Suit::Clubs, 3),
        card(Suit::Clubs, 5),
        card(Suit::Clubs, 9),
        card(Suit::Diamonds, 7),
        card(Suit::Spades, 2),
        card(Suit::Diamonds, 12),
        card(Suit::Hearts, 4),
        card(Suit::Spades, 7),
        card(Suit::Hearts, 6),
        card(Suit::Clubs, 2),
        card(Suit::Spades, 5),
        card(Suit::Clubs, 4),
        card(Suit::Hearts, 5),
        card(Suit::Spades, 6),
        card(Suit::Clubs, 8),
        card(Suit::Spades, 4),
        card(Suit::Diamonds, 3),
        card(Suit::Hearts, 9),
        card(Suit::Hearts, 8),
        card(Suit::Diamonds, 4),
        card(Suit::Diamonds, 5),
        card(Suit::Diamonds, 14),
        card(Suit::Clubs, 6),
        card(Suit::Diamonds, 9),
    ]
}

fn dealt() -> DealtGame {
    deal_from_pack(Stack::from_cards(interesting_order())).expect("interesting deal")
}

fn board_index(i: usize, j: usize, k: usize) -> usize {
    10 * i + 2 * j + k
}

fn hidden_count_row(tiles: &[Tile], i: usize, k: usize) -> usize {
    (0..5).filter(|j| !tiles[board_index(i, *j, k)].known).count()
}

fn hidden_count_column(tiles: &[Tile], j: usize, k: usize) -> usize {
    (0..5).filter(|i| !tiles[board_index(*i, j, k)].known).count()
}

fn select(position: TilePosition) -> Selection {
    Selection { position: Some(position) }
}

#[test]
fn effective_card_of_tiles() {
    let c = card(Suit::Hearts, 5);
    let mut t = Tile {
        position: TilePosition::Spare(0),
        card: c,
        known: true,
        guessed_suit: None,
        guessed_value: None,
        selected: false,
        duplicate: false,
    };
    assert_eq!(t.effective_card(), Some(c));
    t.known = false;
    assert_eq!(t.effective_card(), None);
    t.guessed_suit = Some(Suit::Clubs);
    assert_eq!(t.effective_card(), None);
    t.guessed_value = Some(Value::of_number(9));
    assert_eq!(t.effective_card(), Some(card(Suit::Clubs, 9)));
}

#[test]
fn fresh_tiles_hide_one_per_row_and_column() {
    let d = dealt();
    let tiles = build_tiles(&d, [2, 0, 4, 1, 3]);
    assert_eq!(tiles.len(), 52);
    for i in 0..5 {
        for j in 0..5 {
            for k in 0..2 {
                let t = tiles[board_index(i, j, k)];
                assert_eq!(t.position, TilePosition::Board(i, j, k));
                assert_eq!(t.card, d.board[i][j][k]);
                assert_eq!(t.known, [2, 0, 4, 1, 3][i] != j);
                assert!(t.guessed_suit.is_none() && t.guessed_value.is_none());
                assert!(!t.selected && !t.duplicate);
            }
        }
    }
    for s in 0..2 {
        assert_eq!(tiles[50 + s].position, TilePosition::Spare(s));
        assert_eq!(tiles[50 + s].card, d.spares[s]);
        assert!(tiles[50 + s].known);
    }
    for x in 0..5 {
        for k in 0..2 {
            assert_eq!(hidden_count_row(&tiles, x, k), 1);
            assert_eq!(hidden_count_column(&tiles, x, k), 1);
        }
    }
}

#[test]
fn fresh_clues_name_the_dealt_hands() {
    let d = dealt();
    let clues = build_clues(&d);
    assert_eq!(clues.len(), 20);
    for c in 0..5 {
        assert_eq!(clues[c].poker_hand, d.top_hands[c]);
        assert_eq!(clues[c].location, ClueLocation::Top(c));
        assert_eq!(clues[5 + c].poker_hand, d.left_hands[c]);
        assert_eq!(clues[5 + c].location, ClueLocation::Left(c));
        assert_eq!(clues[10 + c].poker_hand, d.right_hands[c]);
        assert_eq!(clues[10 + c].location, ClueLocation::Right(c));
        assert_eq!(clues[15 + c].poker_hand, d.bottom_hands[c]);
        assert_eq!(clues[15 + c].location, ClueLocation::Bottom(c));
    }
    assert!(clues.iter().all(|c| c.state == ClueGuessState::Incomplete));
}

#[test]
fn redeal_hides_a_permutation_of_columns() {
    let d = dealt();
    let mut some_shuffled = false;
    for seed in 0..20u16 {
        let (tiles, clues) = redeal_game(&GameSeed::from_value(seed), &d);
        assert_eq!(clues.len(), 20);
        for x in 0..5 {
            for k in 0..2 {
                assert_eq!(hidden_count_row(&tiles, x, k), 1);
                assert_eq!(hidden_count_column(&tiles, x, k), 1);
            }
        }
        let hidden: Vec<usize> =
            (0..5).map(|i| (0..5).find(|j| !tiles[board_index(i, *j, 0)].known).unwrap()).collect();
        if hidden != vec![0, 1, 2, 3, 4] {
            some_shuffled = true;
        }
        let (again, _) = redeal_game(&GameSeed::from_value(seed), &d);
        let hidden_again: Vec<usize> =
            (0..5).map(|i| (0..5).find(|j| !again[board_index(i, *j, 0)].known).unwrap()).collect();
        assert_eq!(hidden, hidden_again);
    }
    assert!(some_shuffled);
}

#[test]
fn seed_labels_are_four_hex_digits() {
    assert_eq!(GameSeed::from_value(0xBEEF).label(), "BEEF");
    assert_eq!(GameSeed::from_value(0x00A3).label(), "00A3");
    assert_eq!(GameSeed::from_value(0).label(), "0000");
    assert_eq!(GameSeed::from_value(0xFFFF).label(), "FFFF");
}

#[test]
fn seed_value_round_trips() {
    assert_eq!(GameSeed::from_value(0xBEEF).value(), 0xBEEF);
    let _ = GameSeed::random().value();
}

#[test]
fn fresh_puzzle_is_incomplete_everywhere() {
    let d = dealt();
    let mut tiles = build_tiles(&d, [2, 0, 4, 1, 3]);
    let mut clues = build_clues(&d);
    check_guesses(&mut tiles, &mut clues);
    assert!(clues.iter().all(|c| c.state == ClueGuessState::Incomplete));
    assert!(tiles.iter().all(|t| !t.duplicate));
    assert!(!check_for_victory(&clues, &tiles));
}

#[test]
fn true_cards_win() {
    let d = dealt();
    let mut tiles = build_tiles(&d, [2, 0, 4, 1, 3]);
    let mut clues = build_clues(&d);
    solve_all(&mut tiles);
    for t in &tiles {
        assert_eq!(t.guessed_suit, Some(t.card.suit));
        assert_eq!(t.guessed_value, Some(t.card.value));
        assert_eq!(t.effective_card(), Some(t.card));
    }
    check_guesses(&mut tiles, &mut clues);
    assert!(clues.iter().all(|c| c.state == ClueGuessState::Correct));
    assert!(tiles.iter().all(|t| !t.duplicate));
    assert!(check_for_victory(&clues, &tiles));
}

#[test]
fn guessing_a_hidden_tile() {
    let d = dealt();
    let mut tiles = build_tiles(&d, [2, 0, 4, 1, 3]);
    let mut clues = build_clues(&d);
    let hidden = TilePosition::Board(0, 2, 0);
    let index = board_index(0, 2, 0);
    let truth = d.board[0][2][0];
    let selection = select(hidden);

    select_tile(&mut tiles, &selection);
    assert!(tiles[index].selected);
    assert_eq!(tiles.iter().filter(|t| t.selected).count(), 1);

    guess_suit(truth.suit, &mut tiles, &selection);
    assert_eq!(tiles[index].guessed_suit, Some(truth.suit));
    assert_eq!(tiles[index].effective_card(), None);
    guess_value(truth.value, &mut tiles, &selection);
    assert_eq!(tiles[index].effective_card(), Some(truth));

    check_guesses(&mut tiles, &mut clues);
    // Top(2) and Left(0) run through the guessed tile and have no other hidden tile.
    assert_eq!(clues[2].state, ClueGuessState::Correct);
    assert_eq!(clues[5].state, ClueGuessState::Correct);
    // Right(0) runs through the other plane, whose tile (0, 2, 1) is still hidden.
    assert_eq!(clues[10].state, ClueGuessState::Incomplete);

    clear_guesses(&mut tiles, &selection);
    assert_eq!(tiles[index].guessed_suit, None);
    assert_eq!(tiles[index].guessed_value, None);
    assert_eq!(tiles[index].effective_card(), None);
}

#[test]
fn wrong_guess_and_duplicates() {
    let d = dealt();
    let mut tiles = build_tiles(&d, [2, 0, 4, 1, 3]);
    let mut clues = build_clues(&d);
    let index = board_index(0, 2, 0);
    let selection = select(TilePosition::Board(0, 2, 0));
    // Guess the card of a shown tile: both now stand for the same card.
    let shown = d.board[0][0][0];
    guess_suit(shown.suit, &mut tiles, &selection);
    guess_value(shown.value, &mut tiles, &selection);
    check_guesses(&mut tiles, &mut clues);
    assert!(tiles[index].duplicate);
    assert!(tiles[board_index(0, 0, 0)].duplicate);
    assert_eq!(tiles.iter().filter(|t| t.duplicate).count(), 2);
    assert!(!check_for_victory(&clues, &tiles));
    // The left clue of row 0 now sees two of the same card where the deal had one.
    assert_ne!(clues[5].state, ClueGuessState::Incomplete);
}

#[test]
fn shown_tiles_take_no_guesses() {
    let d = dealt();
    let mut tiles = build_tiles(&d, [2, 0, 4, 1, 3]);
    let before = tiles.clone();
    let selection = select(TilePosition::Board(0, 0, 0));
    guess_suit(Suit::Hearts, &mut tiles, &selection);
    guess_value(Value::of_number(2), &mut tiles, &selection);
    clear_guesses(&mut tiles, &selection);
    for (a, b) in tiles.iter().zip(before.iter()) {
        assert_eq!(a.guessed_suit, b.guessed_suit);
        assert_eq!(a.guessed_value, b.guessed_value);
    }
    let nothing = Selection::default();
    guess_suit(Suit::Hearts, &mut tiles, &nothing);
    select_tile(&mut tiles, &nothing);
    assert!(tiles.iter().all(|t| !t.selected && t.guessed_suit == before[0].guessed_suit));
}

#[test]
fn victory_needs_every_clue_correct() {
    let clue = |state| Clue { poker_hand: poker_puzzle::poker::PokerHand::Nothing, state, location: ClueLocation::Top(0) };
    let tiles: Vec<Tile> = Vec::new();
    assert!(check_for_victory(&vec![clue(ClueGuessState::Correct)], &tiles));
    assert!(!check_for_victory(&vec![clue(ClueGuessState::Correct), clue(ClueGuessState::Wrong)], &tiles));
    assert!(!check_for_victory(&vec![clue(ClueGuessState::Incomplete)], &tiles));
}

#[test]
fn shown_symbols_and_marks() {
    let mut t = Tile {
        position: TilePosition::Spare(1),
        card: card(Suit::Hearts, 12),
        known: true,
        guessed_suit: None,
        guessed_value: None,
        selected: false,
        duplicate: false,
    };
    assert_eq!(t.shown_symbols(), ("♥", "Q"));
    t.known = false;
    assert_eq!(t.shown_symbols(), ("", ""));
    t.guessed_value = Some(Value::of_number(10));
    assert_eq!(t.shown_symbols(), ("", "10"));
    t.guessed_suit = Some(Suit::Spades);
    assert_eq!(t.shown_symbols(), ("♠", "10"));
    assert_eq!(t.duplicate_mark(), "");
    t.duplicate = true;
    assert_eq!(t.duplicate_mark(), " ✗");
    assert_eq!(ClueGuessState::Incomplete.mark(), "");
    assert_eq!(ClueGuessState::Correct.mark(), " ✓");
    assert_eq!(ClueGuessState::Wrong.mark(), " ✗");
}

#[test]
fn checking_twice_changes_nothing() {
    let d = dealt();
    let mut tiles = build_tiles(&d, [2, 0, 4, 1, 3]);
    let mut clues = build_clues(&d);
    let selection = select(TilePosition::Board(0, 2, 0));
    let shown = d.board[0][0][0];
    guess_suit(shown.suit, &mut tiles, &selection);
    guess_value(shown.value, &mut tiles, &selection);
    check_guesses(&mut tiles, &mut clues);
    let states: Vec<ClueGuessState> = clues.iter().map(|c| c.state).collect();
    let duplicates: Vec<bool> = tiles.iter().map(|t| t.duplicate).collect();
    let cards: Vec<Option<CardId>> = tiles.iter().map(|t| t.effective_card()).collect();
    assert_eq!(duplicates.iter().filter(|&&b| b).count(), 2);
    check_guesses(&mut tiles, &mut clues);
    assert_eq!(clues.iter().map(|c| c.state).collect::<Vec<_>>(), states);
    assert_eq!(tiles.iter().map(|t| t.duplicate).collect::<Vec<_>>(), duplicates);
    assert_eq!(tiles.iter().map(|t| t.effective_card()).collect::<Vec<_>>(), cards);
}
