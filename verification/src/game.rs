//! The state of a puzzle in play: tiles, clues, the selection, and the rules that
//! update them.

use vstd::prelude::*;

use rand::seq::SliceRandom;
use rand::SeedableRng;

use crate::cards::{
    suit_symbol, thread_rng, value_symbol, CardId, Suit, Value, FULL_PACK_SIZE,
};
use crate::deal::{
    board_card, deal_index, dealt_cards, is_deal_of, is_shuffled_pack,
    lemma_deal_uses_every_card, line_cards, DealtGame,
};
use crate::poker::{all_pack_values, identify_hand, poker_hand_of, PokerHand, POKER_HAND_INDICES, POKER_HAND_SIZE};

verus! {

pub const CLUES_PER_DIRECTION: usize = POKER_HAND_SIZE;

pub const CLUE_INDICES: [usize; CLUES_PER_DIRECTION] = POKER_HAND_INDICES;

pub const NUM_PLANES: usize = 2;

pub const PLANE_INDICES: [usize; NUM_PLANES] = [0, 1];

pub const NUM_SPARES: usize = FULL_PACK_SIZE - CLUES_PER_DIRECTION * CLUES_PER_DIRECTION * NUM_PLANES;

pub const SPARE_INDICES: [usize; NUM_SPARES] = [0, 1];

/// The number a game is dealt under.
#[derive(Clone, Copy, Debug)]
pub struct GameSeed(u16);

impl View for GameSeed {
    type V = u16;

    closed spec fn view(&self) -> u16 {
        self.0
    }
}

/// A random number from the generator.
///
/// Trusted: `rand::RngExt::random` for `u16`. Nothing is promised of the number: it is chance.
#[verifier::external_body]
fn random_u16(rng: &mut rand::rngs::ThreadRng) -> u16 {
    rand::RngExt::random(rng)
}

/// The upper-case hexadecimal digit of `n` (0 to 15).
pub open spec fn hex_digit(n: int) -> Seq<char> {
    if n == 0 {
        "0"@
    } else if n == 1 {
        "1"@
    } else if n == 2 {
        "2"@
    } else if n == 3 {
        "3"@
    } else if n == 4 {
        "4"@
    } else if n == 5 {
        "5"@
    } else if n == 6 {
        "6"@
    } else if n == 7 {
        "7"@
    } else if n == 8 {
        "8"@
    } else if n == 9 {
        "9"@
    } else if n == 10 {
        "A"@
    } else if n == 11 {
        "B"@
    } else if n == 12 {
        "C"@
    } else if n == 13 {
        "D"@
    } else if n == 14 {
        "E"@
    } else {
        "F"@
    }
}

/// A seed's label: its four upper-case hexadecimal digits, most significant first.
pub open spec fn seed_label(v: u16) -> Seq<char> {
    let n = v as int;
    hex_digit(n / 4096) + hex_digit((n / 256) % 16) + hex_digit((n / 16) % 16) + hex_digit(n % 16)
}

fn hex_digit_text(n: u16) -> (r: &'static str)
    requires
        n < 16,
    ensures
        r@ == hex_digit(n as int),
{
    match n {
        0 => "0",
        1 => "1",
        2 => "2",
        3 => "3",
        4 => "4",
        5 => "5",
        6 => "6",
        7 => "7",
        8 => "8",
        9 => "9",
        10 => "A",
        11 => "B",
        12 => "C",
        13 => "D",
        14 => "E",
        _ => "F",
    }
}

impl GameSeed {
    /// The seed as the player is shown it: four upper-case hexadecimal digits.
    pub fn label(&self) -> (r: String)
        ensures
            r@ == seed_label(self@),
    {
        let v = self.0;
        let mut text = String::new();
        text.append(hex_digit_text(v / 4096));
        text.append(hex_digit_text((v / 256) % 16));
        text.append(hex_digit_text((v / 16) % 16));
        text.append(hex_digit_text(v % 16));
        text
    }

    /// A seed drawn at random.
    pub fn random() -> GameSeed {
        let mut rng = thread_rng();
        GameSeed(random_u16(&mut rng))
    }

    pub fn from_value(value: u16) -> (r: GameSeed)
        ensures
            r@ == value,
    {
        GameSeed(value)
    }

    pub fn value(&self) -> (r: u16)
        ensures
            r == self@,
    {
        self.0
    }
}

/// The number an upper-case hexadecimal digit stands for: '0' to '9' for 0 to 9, 'A' to
/// 'F' for 10 to 15. Any other character is no such digit.
pub open spec fn upper_hex_digit_value(c: char) -> Option<int> {
    if '0' as int <= c as int <= '9' as int {
        Some(c as int - '0' as int)
    } else if 'A' as int <= c as int <= 'F' as int {
        Some(c as int - 'A' as int + 10)
    } else {
        None
    }
}

/// Reads four upper-case hexadecimal digits, most significant first, as a number.
pub open spec fn read_upper_hex4(s: Seq<char>) -> Option<int> {
    if s.len() == 4 && upper_hex_digit_value(s[0]) is Some && upper_hex_digit_value(s[1]) is Some
        && upper_hex_digit_value(s[2]) is Some && upper_hex_digit_value(s[3]) is Some {
        Some(
            ((upper_hex_digit_value(s[0])->0 * 16 + upper_hex_digit_value(s[1])->0) * 16
                + upper_hex_digit_value(s[2])->0) * 16 + upper_hex_digit_value(s[3])->0,
        )
    } else {
        None
    }
}

proof fn lemma_hex_digit_reads_back(n: int)
    requires
        0 <= n < 16,
    ensures
        hex_digit(n).len() == 1,
        upper_hex_digit_value(hex_digit(n)[0]) == Some(n),
{
    reveal_strlit("0");
    reveal_strlit("1");
    reveal_strlit("2");
    reveal_strlit("3");
    reveal_strlit("4");
    reveal_strlit("5");
    reveal_strlit("6");
    reveal_strlit("7");
    reveal_strlit("8");
    reveal_strlit("9");
    reveal_strlit("A");
    reveal_strlit("B");
    reveal_strlit("C");
    reveal_strlit("D");
    reveal_strlit("E");
    reveal_strlit("F");
}

/// A seed's label is its value written in four upper-case hexadecimal digits: reading
/// the label back as a hexadecimal number gives the seed's value.
pub proof fn lemma_label_reads_back(seed: GameSeed)
    ensures
        read_upper_hex4(seed_label(seed@)) == Some(seed@ as int),
{
    let v = seed@;
    let n = v as int;
    let d0 = n / 4096;
    let d1 = (n / 256) % 16;
    let d2 = (n / 16) % 16;
    let d3 = n % 16;
    assert(0 <= d0 < 16 && ((d0 * 16 + d1) * 16 + d2) * 16 + d3 == n) by (nonlinear_arith)
        requires
            0 <= n < 65536,
            d0 == n / 4096,
            d1 == (n / 256) % 16,
            d2 == (n / 16) % 16,
            d3 == n % 16,
    ;
    lemma_hex_digit_reads_back(d0);
    lemma_hex_digit_reads_back(d1);
    lemma_hex_digit_reads_back(d2);
    lemma_hex_digit_reads_back(d3);
    let l = seed_label(v);
    assert(l =~= seq![hex_digit(d0)[0], hex_digit(d1)[0], hex_digit(d2)[0], hex_digit(d3)[0]]);
}

/// The order into which the generator seeded with `seed` shuffles `items`.
pub uninterp spec fn seeded_order(seed: u16, items: Seq<usize>) -> Seq<usize>;

/// Shuffles the items with a Xoshiro128PlusPlus generator seeded with `seed`.
///
/// Trusted: `rand::SeedableRng::seed_from_u64` for `rand::rngs::Xoshiro128PlusPlus`, whose
/// documentation lists it as reproducible (the same seed gives the same stream on every
/// machine), and `rand::seq::SliceRandom::shuffle` on that generator, which puts the items into
/// a permutation of themselves chosen by the stream alone. So the order that comes out is a
/// function of the seed and the items, named `seeded_order`, and holds the same items. Which
/// permutation that is, the contract leaves unsaid.
#[verifier::external_body]
fn shuffle_with_seed(seed: u16, items: &mut [usize; CLUES_PER_DIRECTION])
    ensures
        final(items)@ == seeded_order(seed, old(items)@),
        final(items)@.to_multiset() == old(items)@.to_multiset(),
{
    items.shuffle(&mut rand::rngs::Xoshiro128PlusPlus::seed_from_u64(seed as u64));
}

/// What the player or the game asks for.
#[derive(Debug)]
pub enum GameMessage {
    Redeal,
    Quit,
    SelectTile,
    GuessSuit(Suit),
    GuessValue(Value),
    ClearGuesses,
    SolveAll,
    Victory,
}

/// Where a tile lies: on the board at (row, column, plane), or among the spares.
#[derive(Clone, Copy, Debug, Eq, Hash, PartialEq, Structural)]
pub enum TilePosition {
    Board(usize, usize, usize),
    Spare(usize),
}

/// The tile the player has picked, if any.
pub struct Selection {
    pub position: Option<TilePosition>,
}

impl Default for Selection {
    fn default() -> (r: Self)
        ensures
            r.position is None,
    {
        Selection { position: None }
    }
}

/// A place for a card: its true card, whether the player is shown it, and what the
/// player guessed of it.
#[derive(Clone, Copy, Debug)]
pub struct Tile {
    pub position: TilePosition,
    pub card: CardId,
    pub known: bool,
    pub guessed_suit: Option<Suit>,
    pub guessed_value: Option<Value>,
    pub selected: bool,
    pub duplicate: bool,
}

/// The card a tile stands for in the player's eyes: its card when shown, else the
/// guessed card once both suit and value are guessed.
pub open spec fn effective_card_of(t: Tile) -> Option<CardId> {
    if t.known {
        Some(t.card)
    } else if t.guessed_suit is Some && t.guessed_value is Some {
        Some(CardId { suit: t.guessed_suit->0, value: t.guessed_value->0 })
    } else {
        None
    }
}

impl Tile {
    pub fn effective_card(&self) -> (r: Option<CardId>)
        ensures
            r == effective_card_of(*self),
    {
        if self.known {
            Some(self.card)
        } else if let (Some(suit), Some(value)) = (self.guessed_suit, self.guessed_value) {
            Some(CardId::new(suit, value))
        } else {
            None
        }
    }
}

/// The symbols a tile shows: its card's when shown, else those of the guesses made.
pub open spec fn shown_symbols(t: Tile) -> (Seq<char>, Seq<char>) {
    if t.known {
        (suit_symbol(t.card.suit), value_symbol(t.card.value@))
    } else {
        (
            match t.guessed_suit {
                Some(s) => suit_symbol(s),
                None => ""@,
            },
            match t.guessed_value {
                Some(v) => value_symbol(v@),
                None => ""@,
            },
        )
    }
}

impl Tile {
    /// The suit and value symbols the tile shows.
    pub fn shown_symbols(&self) -> (r: (&'static str, &'static str))
        ensures
            (r.0@, r.1@) == shown_symbols(*self),
    {
        if self.known {
            (self.card.suit.symbol(), self.card.value.symbol())
        } else {
            let suit_str = match self.guessed_suit {
                Some(s) => s.symbol(),
                None => "",
            };
            let value_str = match self.guessed_value {
                Some(v) => v.symbol(),
                None => "",
            };
            (suit_str, value_str)
        }
    }

    /// The mark shown beside a duplicate tile.
    pub fn duplicate_mark(&self) -> (r: &'static str)
        ensures
            r@ == if self.duplicate {
                " ✗"@
            } else {
                ""@
            },
    {
        if self.duplicate {
            " ✗"
        } else {
            ""
        }
    }
}

#[derive(Clone, Copy, Debug, Eq, PartialEq, Structural)]
pub enum ClueGuessState {
    Incomplete,
    Correct,
    Wrong,
}

impl ClueGuessState {
    /// The mark shown beside a clue's hand.
    pub fn mark(&self) -> (r: &'static str)
        ensures
            r@ == match *self {
                ClueGuessState::Incomplete => ""@,
                ClueGuessState::Correct => " ✓"@,
                ClueGuessState::Wrong => " ✗"@,
            },
    {
        match self {
            ClueGuessState::Incomplete => "",
            ClueGuessState::Correct => " ✓",
            ClueGuessState::Wrong => " ✗",
        }
    }
}

/// A line of five board tiles that a clue names the hand of: a column of the first
/// plane (top), a row of the first plane (left), a row of the second plane (right) or a
/// column of the second plane (bottom).
#[derive(Clone, Copy, Debug, Eq, PartialEq, Structural)]
pub enum ClueLocation {
    Top(usize),
    Left(usize),
    Right(usize),
    Bottom(usize),
}

/// The board position (row, column, plane) of the `p`-th tile of a clue's line.
pub open spec fn clue_position(loc: ClueLocation, p: int) -> (int, int, int) {
    match loc {
        ClueLocation::Top(column) => (p, column as int, 0),
        ClueLocation::Left(row) => (row as int, p, 0),
        ClueLocation::Right(row) => (row as int, p, 1),
        ClueLocation::Bottom(column) => (p, column as int, 1),
    }
}

/// The row or column a clue's line runs along.
pub open spec fn clue_line_index(loc: ClueLocation) -> int {
    match loc {
        ClueLocation::Top(column) => column as int,
        ClueLocation::Left(row) => row as int,
        ClueLocation::Right(row) => row as int,
        ClueLocation::Bottom(column) => column as int,
    }
}

/// The clue's line lies on the board.
pub open spec fn is_board_line(loc: ClueLocation) -> bool {
    clue_line_index(loc) < CLUES_PER_DIRECTION
}

/// The board position of the `p`-th tile of a clue's line.
pub open spec fn clue_tile(loc: ClueLocation, p: int) -> TilePosition {
    let q = clue_position(loc, p);
    TilePosition::Board(q.0 as usize, q.1 as usize, q.2 as usize)
}

impl ClueLocation {
    pub(crate) fn tile_positions(&self) -> (r: [(usize, usize, usize); POKER_HAND_SIZE])
        ensures
            forall|p: int|
                0 <= p < 5 ==> {
                    let q = #[trigger] r@[p];
                    (q.0 as int, q.1 as int, q.2 as int) == clue_position(*self, p)
                },
    {
        match self {
            ClueLocation::Top(column) => [
                (0, *column, 0),
                (1, *column, 0),
                (2, *column, 0),
                (3, *column, 0),
                (4, *column, 0),
            ],
            ClueLocation::Left(row) => [(*row, 0, 0), (*row, 1, 0), (*row, 2, 0), (*row, 3, 0), (*row, 4, 0)],
            ClueLocation::Right(row) => [(*row, 0, 1), (*row, 1, 1), (*row, 2, 1), (*row, 3, 1), (*row, 4, 1)],
            ClueLocation::Bottom(column) => [
                (0, *column, 1),
                (1, *column, 1),
                (2, *column, 1),
                (3, *column, 1),
                (4, *column, 1),
            ],
        }
    }
}

/// A clue: the hand that a line of the board makes, and how the player's guesses fare
/// against it.
#[derive(Clone, Copy, Debug)]
pub struct Clue {
    pub poker_hand: PokerHand,
    pub state: ClueGuessState,
    pub location: ClueLocation,
}

// ---------------------------------------------------------------------------
// Finding tiles
// ---------------------------------------------------------------------------

/// Tile `i` is the first one at `pos`.
pub open spec fn is_first_at(tiles: Seq<Tile>, pos: TilePosition, i: int) -> bool {
    &&& 0 <= i < tiles.len()
    &&& tiles[i].position == pos
    &&& forall|j: int| 0 <= j < i ==> (#[trigger] tiles[j]).position != pos
}

/// The index of the first tile at `pos`, if any tile lies there.
pub open spec fn tile_at(tiles: Seq<Tile>, pos: TilePosition) -> Option<int> {
    if exists|i: int| is_first_at(tiles, pos, i) {
        Some(choose|i: int| is_first_at(tiles, pos, i))
    } else {
        None
    }
}

/// The card that the tile at `pos` stands for in the player's eyes.
pub open spec fn card_at(tiles: Seq<Tile>, pos: TilePosition) -> Option<CardId> {
    match tile_at(tiles, pos) {
        Some(i) => effective_card_of(tiles[i]),
        None => None,
    }
}

fn find_tile(tiles: &Vec<Tile>, pos: TilePosition) -> (r: Option<usize>)
    ensures
        match r {
            Some(i) => tile_at(tiles@, pos) == Some(i as int),
            None => tile_at(tiles@, pos) is None,
        },
{
    let n = tiles.len();
    let mut i: usize = 0;
    while i < n
        invariant
            n == tiles@.len(),
            0 <= i <= n,
            forall|j: int| 0 <= j < i ==> (#[trigger] tiles@[j]).position != pos,
        decreases n - i,
    {
        if tiles[i].position == pos {
            proof {
                assert(is_first_at(tiles@, pos, i as int));
                let c = choose|c: int| is_first_at(tiles@, pos, c);
                if c < i {
                    assert(tiles@[c].position != pos);
                }
                if c > i {
                    assert(tiles@[i as int].position != pos);
                }
            }
            return Some(i);
        }
        i = i + 1;
    }
    proof {
        if exists|c: int| is_first_at(tiles@, pos, c) {
            let c = choose|c: int| is_first_at(tiles@, pos, c);
            assert(tiles@[c].position != pos);
        }
    }
    None
}

// ---------------------------------------------------------------------------
// Checking the player's guesses
// ---------------------------------------------------------------------------

/// The cards the player sees along the first `n` places of a clue's line, in line
/// order; places with no tile or no card are skipped.
pub open spec fn clue_cards_upto(tiles: Seq<Tile>, loc: ClueLocation, n: int) -> Seq<CardId>
    decreases n,
{
    if n <= 0 {
        Seq::empty()
    } else {
        let prev = clue_cards_upto(tiles, loc, n - 1);
        match card_at(tiles, clue_tile(loc, n - 1)) {
            Some(c) => prev.push(c),
            None => prev,
        }
    }
}

/// The cards the player sees along a clue's line.
pub open spec fn clue_cards(tiles: Seq<Tile>, loc: ClueLocation) -> Seq<CardId> {
    clue_cards_upto(tiles, loc, POKER_HAND_SIZE as int)
}

/// How the player's cards along the clue's line fare against its hand.
pub open spec fn clue_state(tiles: Seq<Tile>, clue: Clue) -> ClueGuessState {
    let cards = clue_cards(tiles, clue.location);
    if cards.len() < POKER_HAND_SIZE {
        ClueGuessState::Incomplete
    } else if poker_hand_of(cards) == clue.poker_hand {
        ClueGuessState::Correct
    } else {
        ClueGuessState::Wrong
    }
}

/// Another tile stands for the same card as tile `i`.
pub open spec fn is_duplicate(tiles: Seq<Tile>, i: int) -> bool {
    &&& effective_card_of(tiles[i]) is Some
    &&& exists|j: int|
        0 <= j < tiles.len() && j != i && effective_card_of(#[trigger] tiles[j]) == effective_card_of(
            tiles[i],
        )
}

/// Every card that `identify_hand` would see along the clues' lines is a card of the pack.
pub open spec fn clue_lines_valued(tiles: Seq<Tile>, clues: Seq<Clue>) -> bool {
    forall|c: int| 0 <= c < clues.len() ==> all_pack_values(clue_cards(tiles, #[trigger] clues[c].location))
}

fn get_cards_for_clue(tiles: &Vec<Tile>, location: ClueLocation) -> (cards: Vec<CardId>)
    ensures
        cards@ == clue_cards(tiles@, location),
{
    let positions = location.tile_positions();
    let mut cards: Vec<CardId> = Vec::new();
    for p in 0..5
        invariant
            forall|p2: int|
                0 <= p2 < 5 ==> {
                    let q = #[trigger] positions@[p2];
                    (q.0 as int, q.1 as int, q.2 as int) == clue_position(location, p2)
                },
            cards@ == clue_cards_upto(tiles@, location, p as int),
    {
        let (row, column, plane) = positions[p];
        let pos = TilePosition::Board(row, column, plane);
        assert(pos == clue_tile(location, p as int));
        match find_tile(tiles, pos) {
            Some(i) => {
                match tiles[i].effective_card() {
                    Some(card) => {
                        cards.push(card);
                    },
                    None => {},
                }
            },
            None => {},
        }
    }
    cards
}

/// `new_tiles` and `new_clues` are what checking the guesses makes of `tiles` and
/// `clues`: each clue's state is set by the cards along its line, each tile's duplicate
/// mark by the other tiles' cards, and nothing else changes.
pub open spec fn is_check_of(
    tiles: Seq<Tile>,
    clues: Seq<Clue>,
    new_tiles: Seq<Tile>,
    new_clues: Seq<Clue>,
) -> bool {
    &&& new_clues.len() == clues.len()
    &&& forall|c: int|
        0 <= c < clues.len() ==> #[trigger] new_clues[c] == (Clue {
            state: clue_state(tiles, clues[c]),
            ..clues[c]
        })
    &&& new_tiles.len() == tiles.len()
    &&& forall|i: int|
        0 <= i < tiles.len() ==> #[trigger] new_tiles[i] == (Tile {
            duplicate: is_duplicate(tiles, i),
            ..tiles[i]
        })
}

/// Marks each clue as incomplete, correct or wrong by the cards the player sees along
/// its line, and each tile as a duplicate when another tile stands for the same card.
pub fn check_guesses(tiles: &mut Vec<Tile>, clues: &mut Vec<Clue>)
    requires
        clue_lines_valued(old(tiles)@, old(clues)@),
    ensures
        is_check_of(old(tiles)@, old(clues)@, final(tiles)@, final(clues)@),
{
    let ghost clues0 = clues@;
    let n_clues = clues.len();
    for c in 0..n_clues
        invariant
            n_clues == clues@.len(),
            clues0.len() == n_clues,
            clue_lines_valued(tiles@, clues0),
            forall|c2: int| c <= c2 < n_clues ==> #[trigger] clues@[c2] == clues0[c2],
            forall|c2: int|
                0 <= c2 < c ==> #[trigger] clues@[c2] == (Clue {
                    state: clue_state(tiles@, clues0[c2]),
                    ..clues0[c2]
                }),
    {
        let mut clue = clues[c];
        let mut cards = get_cards_for_clue(tiles, clue.location);
        assert(all_pack_values(clue_cards(tiles@, clues0[c as int].location)));
        let guessed_hand = identify_hand(cards.as_mut_slice());
        clue.state = if cards.len() < POKER_HAND_SIZE {
            ClueGuessState::Incomplete
        } else if guessed_hand == clue.poker_hand {
            ClueGuessState::Correct
        } else {
            ClueGuessState::Wrong
        };
        clues.set(c, clue);
    }

    let ghost tiles0 = tiles@;
    let n = tiles.len();
    let mut duplicates: Vec<bool> = Vec::new();
    for i in 0..n
        invariant
            n == tiles@.len(),
            tiles@ == tiles0,
            duplicates@.len() == i,
            forall|i2: int| 0 <= i2 < i ==> #[trigger] duplicates@[i2] == is_duplicate(tiles0, i2),
    {
        let card = tiles[i].effective_card();
        let mut found = false;
        if card.is_some() {
            for j in 0..n
                invariant
                    n == tiles@.len(),
                    tiles@ == tiles0,
                    0 <= i < n,
                    card == effective_card_of(tiles0[i as int]),
                    card is Some,
                    found <==> exists|j2: int|
                        0 <= j2 < j && j2 != i && effective_card_of(#[trigger] tiles0[j2]) == card,
            {
                if j != i && tiles[j].effective_card() == card {
                    found = true;
                }
            }
        }
        duplicates.push(found);
    }
    for i in 0..n
        invariant
            n == tiles@.len(),
            tiles0.len() == n,
            duplicates@.len() == n,
            forall|i2: int| 0 <= i2 < n ==> #[trigger] duplicates@[i2] == is_duplicate(tiles0, i2),
            forall|i2: int| i <= i2 < n ==> #[trigger] tiles@[i2] == tiles0[i2],
            forall|i2: int|
                0 <= i2 < i ==> #[trigger] tiles@[i2] == (Tile {
                    duplicate: is_duplicate(tiles0, i2),
                    ..tiles0[i2]
                }),
    {
        let mut tile = tiles[i];
        tile.duplicate = duplicates[i];
        tiles.set(i, tile);
    }
}

/// The puzzle is won: every clue is correct and no tile is a duplicate.
pub fn check_for_victory(clues: &Vec<Clue>, tiles: &Vec<Tile>) -> (won: bool)
    ensures
        won <==> (forall|c: int| 0 <= c < clues@.len() ==> (#[trigger] clues@[c]).state
            == ClueGuessState::Correct) && (forall|i: int|
            0 <= i < tiles@.len() ==> !(#[trigger] tiles@[i]).duplicate),
{
    let mut all_correct = true;
    for c in 0..clues.len()
        invariant
            all_correct <==> forall|c2: int|
                0 <= c2 < c ==> (#[trigger] clues@[c2]).state == ClueGuessState::Correct,
    {
        if clues[c].state != ClueGuessState::Correct {
            all_correct = false;
        }
    }
    let mut no_duplicate = true;
    for i in 0..tiles.len()
        invariant
            no_duplicate <==> forall|i2: int| 0 <= i2 < i ==> !(#[trigger] tiles@[i2]).duplicate,
    {
        if tiles[i].duplicate {
            no_duplicate = false;
        }
    }
    all_correct && no_duplicate
}

// ---------------------------------------------------------------------------
// The player's moves
// ---------------------------------------------------------------------------

/// Marks the selected tile, and only it, as selected.
pub fn select_tile(tiles: &mut Vec<Tile>, selection: &Selection)
    ensures
        final(tiles)@.len() == old(tiles)@.len(),
        forall|i: int|
            0 <= i < old(tiles)@.len() ==> #[trigger] final(tiles)@[i] == (Tile {
                selected: selection.position == Some(old(tiles)@[i].position),
                ..old(tiles)@[i]
            }),
{
    let ghost tiles0 = tiles@;
    let n = tiles.len();
    for i in 0..n
        invariant
            n == tiles@.len(),
            tiles0.len() == n,
            forall|i2: int| i <= i2 < n ==> #[trigger] tiles@[i2] == tiles0[i2],
            forall|i2: int|
                0 <= i2 < i ==> #[trigger] tiles@[i2] == (Tile {
                    selected: selection.position == Some(tiles0[i2].position),
                    ..tiles0[i2]
                }),
    {
        let mut tile = tiles[i];
        let should_select = match selection.position {
            Some(pos) => pos == tile.position,
            None => false,
        };
        tile.selected = should_select;
        tiles.set(i, tile);
    }
}

/// The tile a guess applies to: the first tile at the selected position, unless it
/// is shown.
pub open spec fn guess_target(tiles: Seq<Tile>, selection: Selection) -> Option<int> {
    match selection.position {
        Some(pos) => match tile_at(tiles, pos) {
            Some(i) => if tiles[i].known {
                None
            } else {
                Some(i)
            },
            None => None,
        },
        None => None,
    }
}

fn selected_guess_tile(tiles: &Vec<Tile>, selection: &Selection) -> (r: Option<usize>)
    ensures
        match r {
            Some(i) => guess_target(tiles@, *selection) == Some(i as int),
            None => guess_target(tiles@, *selection) is None,
        },
{
    match selection.position {
        Some(pos) => match find_tile(tiles, pos) {
            Some(i) => if tiles[i].known {
                None
            } else {
                Some(i)
            },
            None => None,
        },
        None => None,
    }
}

/// Guesses the suit of the selected tile, unless it is shown.
pub fn guess_suit(suit: Suit, tiles: &mut Vec<Tile>, selection: &Selection)
    ensures
        match guess_target(old(tiles)@, *selection) {
            Some(i) => final(tiles)@ == old(tiles)@.update(
                i,
                Tile { guessed_suit: Some(suit), ..old(tiles)@[i] },
            ),
            None => final(tiles)@ == old(tiles)@,
        },
{
    if let Some(i) = selected_guess_tile(tiles, selection) {
        let mut tile = tiles[i];
        tile.guessed_suit = Some(suit);
        tiles.set(i, tile);
    }
}

/// Guesses the value of the selected tile, unless it is shown.
pub fn guess_value(value: Value, tiles: &mut Vec<Tile>, selection: &Selection)
    ensures
        match guess_target(old(tiles)@, *selection) {
            Some(i) => final(tiles)@ == old(tiles)@.update(
                i,
                Tile { guessed_value: Some(value), ..old(tiles)@[i] },
            ),
            None => final(tiles)@ == old(tiles)@,
        },
{
    if let Some(i) = selected_guess_tile(tiles, selection) {
        let mut tile = tiles[i];
        tile.guessed_value = Some(value);
        tiles.set(i, tile);
    }
}

/// Forgets both guesses of the selected tile, unless it is shown.
pub fn clear_guesses(tiles: &mut Vec<Tile>, selection: &Selection)
    ensures
        match guess_target(old(tiles)@, *selection) {
            Some(i) => final(tiles)@ == old(tiles)@.update(
                i,
                Tile { guessed_suit: None, guessed_value: None, ..old(tiles)@[i] },
            ),
            None => final(tiles)@ == old(tiles)@,
        },
{
    if let Some(i) = selected_guess_tile(tiles, selection) {
        let mut tile = tiles[i];
        tile.guessed_suit = None;
        tile.guessed_value = None;
        tiles.set(i, tile);
    }
}

/// Guesses every tile's true card.
pub fn solve_all(tiles: &mut Vec<Tile>)
    ensures
        final(tiles)@.len() == old(tiles)@.len(),
        forall|i: int|
            0 <= i < old(tiles)@.len() ==> #[trigger] final(tiles)@[i] == (Tile {
                guessed_suit: Some(old(tiles)@[i].card.suit),
                guessed_value: Some(old(tiles)@[i].card.value),
                ..old(tiles)@[i]
            }),
{
    let ghost tiles0 = tiles@;
    let n = tiles.len();
    for i in 0..n
        invariant
            n == tiles@.len(),
            tiles0.len() == n,
            forall|i2: int| i <= i2 < n ==> #[trigger] tiles@[i2] == tiles0[i2],
            forall|i2: int|
                0 <= i2 < i ==> #[trigger] tiles@[i2] == (Tile {
                    guessed_suit: Some(tiles0[i2].card.suit),
                    guessed_value: Some(tiles0[i2].card.value),
                    ..tiles0[i2]
                }),
    {
        let mut tile = tiles[i];
        tile.guessed_suit = Some(tile.card.suit);
        tile.guessed_value = Some(tile.card.value);
        tiles.set(i, tile);
    }
}

// ---------------------------------------------------------------------------
// A fresh puzzle
// ---------------------------------------------------------------------------

/// The tiles of a fresh puzzle: the board tiles in deal order, each hidden exactly when
/// its column is the missing column of its row, then the shown spares; no guesses yet.
pub open spec fn is_fresh_board(tiles: Seq<Tile>, dealt: DealtGame, missings: Seq<usize>) -> bool {
    &&& tiles.len() == 52
    &&& forall|i: int, j: int, k: int|
        0 <= i < 5 && 0 <= j < 5 && 0 <= k < 2 ==> #[trigger] tiles[deal_index(i, j, k)] == (Tile {
            position: TilePosition::Board(i as usize, j as usize, k as usize),
            card: board_card(dealt.board, i, j, k),
            known: missings[i] != j,
            guessed_suit: None,
            guessed_value: None,
            selected: false,
            duplicate: false,
        })
    &&& forall|s: int|
        0 <= s < 2 ==> #[trigger] tiles[50 + s] == (Tile {
            position: TilePosition::Spare(s as usize),
            card: dealt.spares@[s],
            known: true,
            guessed_suit: None,
            guessed_value: None,
            selected: false,
            duplicate: false,
        })
}

/// The clues of a fresh puzzle: for top, left, right and bottom in turn, the five
/// dealt hands of that side, not yet checked.
pub open spec fn is_fresh_clue_set(clues: Seq<Clue>, dealt: DealtGame) -> bool {
    &&& clues.len() == 20
    &&& forall|c: int|
        0 <= c < 5 ==> #[trigger] clues[c] == (Clue {
            poker_hand: dealt.top_hands@[c],
            state: ClueGuessState::Incomplete,
            location: ClueLocation::Top(c as usize),
        })
    &&& forall|c: int|
        0 <= c < 5 ==> #[trigger] clues[5 + c] == (Clue {
            poker_hand: dealt.left_hands@[c],
            state: ClueGuessState::Incomplete,
            location: ClueLocation::Left(c as usize),
        })
    &&& forall|c: int|
        0 <= c < 5 ==> #[trigger] clues[10 + c] == (Clue {
            poker_hand: dealt.right_hands@[c],
            state: ClueGuessState::Incomplete,
            location: ClueLocation::Right(c as usize),
        })
    &&& forall|c: int|
        0 <= c < 5 ==> #[trigger] clues[15 + c] == (Clue {
            poker_hand: dealt.bottom_hands@[c],
            state: ClueGuessState::Incomplete,
            location: ClueLocation::Bottom(c as usize),
        })
}

/// Lays out the tiles of a fresh puzzle: in row `i`, the tiles of column `missings[i]`
/// are hidden.
pub fn build_tiles(dealt: &DealtGame, missings: [usize; CLUES_PER_DIRECTION]) -> (tiles: Vec<Tile>)
    ensures
        is_fresh_board(tiles@, *dealt, missings@),
{
    let mut tiles: Vec<Tile> = Vec::new();
    for i in 0..5usize
        invariant
            tiles@.len() == 10 * i,
            forall|i2: int, j2: int, k2: int|
                0 <= i2 < i && 0 <= j2 < 5 && 0 <= k2 < 2 ==> #[trigger] tiles@[deal_index(i2, j2, k2)]
                    == (Tile {
                    position: TilePosition::Board(i2 as usize, j2 as usize, k2 as usize),
                    card: board_card(dealt.board, i2, j2, k2),
                    known: missings@[i2] != j2,
                    guessed_suit: None,
                    guessed_value: None,
                    selected: false,
                    duplicate: false,
                }),
    {
        for j in 0..5usize
            invariant
                0 <= i < 5,
                tiles@.len() == 10 * i + 2 * j,
                forall|i2: int, j2: int, k2: int|
                    ((0 <= i2 < i && 0 <= j2 < 5) || (i2 == i && 0 <= j2 < j)) && 0 <= k2 < 2
                        ==> #[trigger] tiles@[deal_index(i2, j2, k2)] == (Tile {
                        position: TilePosition::Board(i2 as usize, j2 as usize, k2 as usize),
                        card: board_card(dealt.board, i2, j2, k2),
                        known: missings@[i2] != j2,
                        guessed_suit: None,
                        guessed_value: None,
                        selected: false,
                        duplicate: false,
                    }),
        {
            for k in 0..2usize
                invariant
                    0 <= i < 5,
                    0 <= j < 5,
                    tiles@.len() == 10 * i + 2 * j + k,
                    forall|i2: int, j2: int, k2: int|
                        (((0 <= i2 < i && 0 <= j2 < 5) || (i2 == i && 0 <= j2 < j)) && 0 <= k2 < 2)
                            || (i2 == i && j2 == j && 0 <= k2 < k) ==> #[trigger] tiles@[deal_index(
                            i2,
                            j2,
                            k2,
                        )] == (Tile {
                            position: TilePosition::Board(i2 as usize, j2 as usize, k2 as usize),
                            card: board_card(dealt.board, i2, j2, k2),
                            known: missings@[i2] != j2,
                            guessed_suit: None,
                            guessed_value: None,
                            selected: false,
                            duplicate: false,
                        }),
            {
                let tile = Tile {
                    position: TilePosition::Board(i, j, k),
                    card: dealt.board[i][j][k],
                    known: missings[i] != j,
                    guessed_suit: None,
                    guessed_value: None,
                    selected: false,
                    duplicate: false,
                };
                tiles.push(tile);
            }
        }
    }
    for s in 0..2usize
        invariant
            tiles@.len() == 50 + s,
            forall|i2: int, j2: int, k2: int|
                0 <= i2 < 5 && 0 <= j2 < 5 && 0 <= k2 < 2 ==> #[trigger] tiles@[deal_index(i2, j2, k2)]
                    == (Tile {
                    position: TilePosition::Board(i2 as usize, j2 as usize, k2 as usize),
                    card: board_card(dealt.board, i2, j2, k2),
                    known: missings@[i2] != j2,
                    guessed_suit: None,
                    guessed_value: None,
                    selected: false,
                    duplicate: false,
                }),
            forall|s2: int|
                0 <= s2 < s ==> #[trigger] tiles@[50 + s2] == (Tile {
                    position: TilePosition::Spare(s2 as usize),
                    card: dealt.spares@[s2],
                    known: true,
                    guessed_suit: None,
                    guessed_value: None,
                    selected: false,
                    duplicate: false,
                }),
    {
        let tile = Tile {
            position: TilePosition::Spare(s),
            card: dealt.spares[s],
            known: true,
            guessed_suit: None,
            guessed_value: None,
            selected: false,
            duplicate: false,
        };
        tiles.push(tile);
    }
    tiles
}

/// The clues of a fresh puzzle, one per dealt hand.
pub fn build_clues(dealt: &DealtGame) -> (clues: Vec<Clue>)
    ensures
        is_fresh_clue_set(clues@, *dealt),
{
    let mut clues: Vec<Clue> = Vec::new();
    for c in 0..5usize
        invariant
            clues@.len() == c,
            forall|c2: int|
                0 <= c2 < c ==> #[trigger] clues@[c2] == (Clue {
                    poker_hand: dealt.top_hands@[c2],
                    state: ClueGuessState::Incomplete,
                    location: ClueLocation::Top(c2 as usize),
                }),
    {
        clues.push(
            Clue {
                poker_hand: dealt.top_hands[c],
                state: ClueGuessState::Incomplete,
                location: ClueLocation::Top(c),
            },
        );
    }
    for c in 0..5usize
        invariant
            clues@.len() == 5 + c,
            forall|c2: int|
                0 <= c2 < 5 ==> #[trigger] clues@[c2] == (Clue {
                    poker_hand: dealt.top_hands@[c2],
                    state: ClueGuessState::Incomplete,
                    location: ClueLocation::Top(c2 as usize),
                }),
            forall|c2: int|
                0 <= c2 < c ==> #[trigger] clues@[5 + c2] == (Clue {
                    poker_hand: dealt.left_hands@[c2],
                    state: ClueGuessState::Incomplete,
                    location: ClueLocation::Left(c2 as usize),
                }),
    {
        clues.push(
            Clue {
                poker_hand: dealt.left_hands[c],
                state: ClueGuessState::Incomplete,
                location: ClueLocation::Left(c),
            },
        );
    }
    for c in 0..5usize
        invariant
            clues@.len() == 10 + c,
            forall|c2: int|
                0 <= c2 < 5 ==> #[trigger] clues@[c2] == (Clue {
                    poker_hand: dealt.top_hands@[c2],
                    state: ClueGuessState::Incomplete,
                    location: ClueLocation::Top(c2 as usize),
                }),
            forall|c2: int|
                0 <= c2 < 5 ==> #[trigger] clues@[5 + c2] == (Clue {
                    poker_hand: dealt.left_hands@[c2],
                    state: ClueGuessState::Incomplete,
                    location: ClueLocation::Left(c2 as usize),
                }),
            forall|c2: int|
                0 <= c2 < c ==> #[trigger] clues@[10 + c2] == (Clue {
                    poker_hand: dealt.right_hands@[c2],
                    state: ClueGuessState::Incomplete,
                    location: ClueLocation::Right(c2 as usize),
                }),
    {
        clues.push(
            Clue {
                poker_hand: dealt.right_hands[c],
                state: ClueGuessState::Incomplete,
                location: ClueLocation::Right(c),
            },
        );
    }
    for c in 0..5usize
        invariant
            clues@.len() == 15 + c,
            forall|c2: int|
                0 <= c2 < 5 ==> #[trigger] clues@[c2] == (Clue {
                    poker_hand: dealt.top_hands@[c2],
                    state: ClueGuessState::Incomplete,
                    location: ClueLocation::Top(c2 as usize),
                }),
            forall|c2: int|
                0 <= c2 < 5 ==> #[trigger] clues@[5 + c2] == (Clue {
                    poker_hand: dealt.left_hands@[c2],
                    state: ClueGuessState::Incomplete,
                    location: ClueLocation::Left(c2 as usize),
                }),
            forall|c2: int|
                0 <= c2 < 5 ==> #[trigger] clues@[10 + c2] == (Clue {
                    poker_hand: dealt.right_hands@[c2],
                    state: ClueGuessState::Incomplete,
                    location: ClueLocation::Right(c2 as usize),
                }),
            forall|c2: int|
                0 <= c2 < c ==> #[trigger] clues@[15 + c2] == (Clue {
                    poker_hand: dealt.bottom_hands@[c2],
                    state: ClueGuessState::Incomplete,
                    location: ClueLocation::Bottom(c2 as usize),
                }),
    {
        clues.push(
            Clue {
                poker_hand: dealt.bottom_hands[c],
                state: ClueGuessState::Incomplete,
                location: ClueLocation::Bottom(c),
            },
        );
    }
    clues
}

/// The columns a fresh puzzle dealt under `seed` hides, one per row: the clue indices in
/// the order the seed's generator shuffles them into.
pub open spec fn hidden_columns(seed: u16) -> Seq<usize> {
    seeded_order(seed, seq![0usize, 1, 2, 3, 4])
}

/// Sets up a fresh puzzle from a deal: the columns left hidden, one per row, are the
/// clue indices shuffled by the seed's generator.
pub fn redeal_game(seed: &GameSeed, dealt: &DealtGame) -> (r: (Vec<Tile>, Vec<Clue>))
    ensures
        is_fresh_board(r.0@, *dealt, hidden_columns(seed@)),
        hidden_columns(seed@).to_multiset() == seq![0usize, 1, 2, 3, 4].to_multiset(),
        is_fresh_clue_set(r.1@, *dealt),
{
    let mut missings = CLUE_INDICES;
    assert(missings@ =~= seq![0usize, 1, 2, 3, 4]);
    shuffle_with_seed(seed.value(), &mut missings);
    let tiles = build_tiles(dealt, missings);
    let clues = build_clues(dealt);
    (tiles, clues)
}

// ---------------------------------------------------------------------------
// Laws of a fresh puzzle
// ---------------------------------------------------------------------------

/// Row `i` of plane `k` hides the tile of column `j` and no other.
pub open spec fn row_hides_only(tiles: Seq<Tile>, i: int, k: int, j: int) -> bool {
    &&& 0 <= j < 5
    &&& forall|j2: int| 0 <= j2 < 5 ==> (!(#[trigger] tiles[deal_index(i, j2, k)]).known <==> j2 == j)
}

/// Column `j` of plane `k` hides the tile of row `i` and no other.
pub open spec fn column_hides_only(tiles: Seq<Tile>, j: int, k: int, i: int) -> bool {
    &&& 0 <= i < 5
    &&& forall|i2: int| 0 <= i2 < 5 ==> (!(#[trigger] tiles[deal_index(i2, j, k)]).known <==> i2 == i)
}

pub open spec fn row_hides_one(tiles: Seq<Tile>, i: int, k: int) -> bool {
    exists|j: int| row_hides_only(tiles, i, k, j)
}

pub open spec fn column_hides_one(tiles: Seq<Tile>, j: int, k: int) -> bool {
    exists|i: int| column_hides_only(tiles, j, k, i)
}

/// In a fresh puzzle whose missing columns are a permutation of the clue indices, each
/// row and each column of each plane hides exactly one tile.
pub proof fn lemma_one_hidden_per_line(tiles: Seq<Tile>, dealt: DealtGame, missings: Seq<usize>)
    requires
        missings.to_multiset() == seq![0usize, 1, 2, 3, 4].to_multiset(),
        is_fresh_board(tiles, dealt, missings),
    ensures
        forall|i: int, k: int| 0 <= i < 5 && 0 <= k < 2 ==> #[trigger] row_hides_one(tiles, i, k),
        forall|j: int, k: int| 0 <= j < 5 && 0 <= k < 2 ==> #[trigger] column_hides_one(tiles, j, k),
{
    broadcast use vstd::seq_lib::to_multiset_len, vstd::seq_lib::to_multiset_contains;

    let idx = seq![0usize, 1, 2, 3, 4];
    assert(missings.len() == missings.to_multiset().len());
    assert(idx.len() == idx.to_multiset().len());
    assert(missings.len() == 5);
    assert(idx.no_duplicates());
    idx.lemma_multiset_has_no_duplicates();
    missings.lemma_multiset_has_no_duplicates_conv();
    assert forall|i: int| 0 <= i < 5 implies #[trigger] missings[i] < 5 by {
        assert(missings.contains(missings[i]));
        assert(missings.to_multiset().count(missings[i]) > 0);
        assert(idx.to_multiset().count(missings[i]) > 0);
        assert(idx.contains(missings[i]));
    }
    assert forall|i: int, k: int| 0 <= i < 5 && 0 <= k < 2 implies #[trigger] row_hides_one(
        tiles,
        i,
        k,
    ) by {
        let j = missings[i] as int;
        assert(0 <= j < 5);
        assert forall|j2: int| 0 <= j2 < 5 implies (!(#[trigger] tiles[deal_index(i, j2, k)]).known
            <==> j2 == j) by {
            assert(tiles[deal_index(i, j2, k)].known == (missings[i] != j2));
        }
        assert(row_hides_only(tiles, i, k, j));
    }
    assert forall|j: int, k: int| 0 <= j < 5 && 0 <= k < 2 implies #[trigger] column_hides_one(
        tiles,
        j,
        k,
    ) by {
        let ju = j as usize;
        assert(idx[j] == ju);
        assert(idx.contains(ju));
        assert(idx.to_multiset().count(ju) > 0);
        assert(missings.to_multiset().count(ju) > 0);
        assert(missings.contains(ju));
        let i = choose|i: int| 0 <= i < missings.len() && missings[i] == ju;
        assert forall|i2: int| 0 <= i2 < 5 implies (!(#[trigger] tiles[deal_index(i2, j, k)]).known
            <==> i2 == i) by {
            assert(tiles[deal_index(i2, j, k)].known == (missings[i2] != j));
        }
        assert(column_hides_only(tiles, j, k, i));
    }
}

/// A fresh puzzle is a function of its deal and its seed: dealing the same deal under
/// seeds of the same number lays out the same tiles.
pub proof fn lemma_same_seed_same_board(
    dealt: DealtGame,
    seed1: GameSeed,
    seed2: GameSeed,
    tiles1: Seq<Tile>,
    tiles2: Seq<Tile>,
)
    requires
        seed1@ == seed2@,
        is_fresh_board(tiles1, dealt, hidden_columns(seed1@)),
        is_fresh_board(tiles2, dealt, hidden_columns(seed2@)),
    ensures
        tiles1 == tiles2,
{
    assert forall|t: int| 0 <= t < 52 implies #[trigger] tiles1[t] == tiles2[t] by {
        if t < 50 {
            lemma_deal_index_of(t);
            let i = t / 10;
            let j = (t % 10) / 2;
            let k = t % 2;
            assert(tiles1[deal_index(i, j, k)] == tiles2[deal_index(i, j, k)]);
        } else {
            assert(tiles1[50 + (t - 50)] == tiles2[50 + (t - 50)]);
        }
    }
    assert(tiles1 =~= tiles2);
}

/// The tiles lie where a fresh puzzle puts them: board tiles in deal order, then the
/// spares.
pub open spec fn laid_out(tiles: Seq<Tile>) -> bool {
    &&& tiles.len() == 52
    &&& forall|i: int, j: int, k: int|
        0 <= i < 5 && 0 <= j < 5 && 0 <= k < 2 ==> (#[trigger] tiles[deal_index(i, j, k)]).position
            == TilePosition::Board(i as usize, j as usize, k as usize)
    &&& forall|s: int|
        0 <= s < 2 ==> (#[trigger] tiles[50 + s]).position == TilePosition::Spare(s as usize)
}

proof fn lemma_deal_index_of(t: int)
    requires
        0 <= t < 50,
    ensures
        deal_index(t / 10, (t % 10) / 2, t % 2) == t,
        0 <= t / 10 < 5,
        0 <= (t % 10) / 2 < 5,
        0 <= t % 2 < 2,
{
}

/// On laid-out tiles the tile at board position (i, j, k) is the one at its deal index.
proof fn lemma_laid_out_tile_at(tiles: Seq<Tile>, i: int, j: int, k: int)
    requires
        laid_out(tiles),
        0 <= i < 5,
        0 <= j < 5,
        0 <= k < 2,
    ensures
        tile_at(tiles, TilePosition::Board(i as usize, j as usize, k as usize)) == Some(
            deal_index(i, j, k),
        ),
{
    let pos = TilePosition::Board(i as usize, j as usize, k as usize);
    let d = deal_index(i, j, k);
    assert forall|t: int| 0 <= t < d implies (#[trigger] tiles[t]).position != pos by {
        lemma_deal_index_of(t);
        let i2 = t / 10;
        let j2 = (t % 10) / 2;
        let k2 = t % 2;
        assert(tiles[deal_index(i2, j2, k2)].position == TilePosition::Board(
            i2 as usize,
            j2 as usize,
            k2 as usize,
        ));
    }
    assert(tiles[d].position == pos);
    assert(is_first_at(tiles, pos, d));
    let c = choose|c: int| is_first_at(tiles, pos, c);
    if c < d {
        assert(tiles[c].position != pos);
    }
    if c > d {
        assert(tiles[d].position != pos);
    }
}

proof fn lemma_clue_cards_len(tiles: Seq<Tile>, loc: ClueLocation, n: int, gap: int)
    requires
        0 <= n,
    ensures
        clue_cards_upto(tiles, loc, n).len() <= n,
        0 <= gap < n && card_at(tiles, clue_tile(loc, gap)) is None ==> clue_cards_upto(
            tiles,
            loc,
            n,
        ).len() <= n - 1,
    decreases n,
{
    if n > 0 {
        lemma_clue_cards_len(tiles, loc, n - 1, gap);
    }
}

/// A fresh puzzle is not yet solved: each clue's line runs through a hidden tile with no
/// guesses, so the player sees fewer than five cards along it and `check_guesses` marks
/// every clue incomplete.
pub proof fn lemma_fresh_puzzle_unsolved(
    tiles: Seq<Tile>,
    clues: Seq<Clue>,
    dealt: DealtGame,
    missings: Seq<usize>,
)
    requires
        missings.to_multiset() == seq![0usize, 1, 2, 3, 4].to_multiset(),
        is_fresh_board(tiles, dealt, missings),
        is_fresh_clue_set(clues, dealt),
    ensures
        forall|c: int|
            0 <= c < clues.len() ==> clue_state(tiles, #[trigger] clues[c])
                == ClueGuessState::Incomplete,
{
    lemma_one_hidden_per_line(tiles, dealt, missings);
    assert(laid_out(tiles)) by {
        assert forall|i: int, j: int, k: int|
            0 <= i < 5 && 0 <= j < 5 && 0 <= k < 2 implies (#[trigger] tiles[deal_index(
            i,
            j,
            k,
        )]).position == TilePosition::Board(i as usize, j as usize, k as usize) by {}
        assert forall|s: int| 0 <= s < 2 implies (#[trigger] tiles[50 + s]).position
            == TilePosition::Spare(s as usize) by {}
    }
    assert forall|c: int| 0 <= c < clues.len() implies clue_state(tiles, #[trigger] clues[c])
        == ClueGuessState::Incomplete by {
        let loc = clues[c].location;
        let d = if c < 5 {
            c
        } else if c < 10 {
            c - 5
        } else if c < 15 {
            c - 10
        } else {
            c - 15
        };
        // The place along the line where the hidden tile lies.
        let gap = if c < 5 {
            assert(clues[c] == clues[0 + d]);
            assert(column_hides_one(tiles, d, 0));
            let i = choose|i: int| column_hides_only(tiles, d, 0, i);
            assert(!tiles[deal_index(i, d, 0)].known);
            i
        } else if c < 10 {
            assert(clues[c] == clues[5 + d]);
            assert(row_hides_one(tiles, d, 0));
            let j = choose|j: int| row_hides_only(tiles, d, 0, j);
            assert(!tiles[deal_index(d, j, 0)].known);
            j
        } else if c < 15 {
            assert(clues[c] == clues[10 + d]);
            assert(row_hides_one(tiles, d, 1));
            let j = choose|j: int| row_hides_only(tiles, d, 1, j);
            assert(!tiles[deal_index(d, j, 1)].known);
            j
        } else {
            assert(clues[c] == clues[15 + d]);
            assert(column_hides_one(tiles, d, 1));
            let i = choose|i: int| column_hides_only(tiles, d, 1, i);
            assert(!tiles[deal_index(i, d, 1)].known);
            i
        };
        let q = clue_position(loc, gap);
        lemma_laid_out_tile_at(tiles, q.0, q.1, q.2);
        assert(tiles[deal_index(q.0, q.1, q.2)].guessed_suit is None);
        assert(card_at(tiles, clue_tile(loc, gap)) is None);
        lemma_clue_cards_len(tiles, loc, 5, gap);
    }
}

/// The tiles after `solve_all`: every guess is the true card.
pub open spec fn all_guessed(tiles: Seq<Tile>, solved: Seq<Tile>) -> bool {
    &&& solved.len() == tiles.len()
    &&& forall|i: int|
        0 <= i < tiles.len() ==> #[trigger] solved[i] == (Tile {
            guessed_suit: Some(tiles[i].card.suit),
            guessed_value: Some(tiles[i].card.value),
            ..tiles[i]
        })
}

proof fn lemma_solved_line(
    solved: Seq<Tile>,
    dealt: DealtGame,
    loc: ClueLocation,
    n: int,
)
    requires
        laid_out(solved),
        is_board_line(loc),
        0 <= n <= 5,
        forall|i: int, j: int, k: int|
            0 <= i < 5 && 0 <= j < 5 && 0 <= k < 2 ==> effective_card_of(
                #[trigger] solved[deal_index(i, j, k)],
            ) == Some(board_card(dealt.board, i, j, k)),
    ensures
        clue_cards_upto(solved, loc, n) == line_cards(dealt.board, loc).take(n),
    decreases n,
{
    if n > 0 {
        lemma_solved_line(solved, dealt, loc, n - 1);
        let q = clue_position(loc, n - 1);
        lemma_laid_out_tile_at(solved, q.0, q.1, q.2);
        assert(clue_tile(loc, n - 1) == TilePosition::Board(q.0 as usize, q.1 as usize, q.2 as usize));
        assert(line_cards(dealt.board, loc).take(n) =~= line_cards(dealt.board, loc).take(n - 1).push(
            board_card(dealt.board, q.0, q.1, q.2),
        ));
    }
}

/// Guessing every tile's true card solves a fresh puzzle dealt from a shuffled pack:
/// every clue's line then shows five cards of the pack that make the clue's hand, so
/// `check_guesses` marks every clue correct and no tile a duplicate, and
/// `check_for_victory` then declares the puzzle won.
pub proof fn lemma_true_cards_win(
    dealt: DealtGame,
    pack: Seq<CardId>,
    missings: Seq<usize>,
    tiles: Seq<Tile>,
    clues: Seq<Clue>,
    solved: Seq<Tile>,
)
    requires
        is_shuffled_pack(pack),
        is_deal_of(dealt, pack),
        is_fresh_board(tiles, dealt, missings),
        is_fresh_clue_set(clues, dealt),
        all_guessed(tiles, solved),
    ensures
        clue_lines_valued(solved, clues),
        forall|c: int|
            0 <= c < clues.len() ==> clue_state(solved, #[trigger] clues[c]) == ClueGuessState::Correct,
        forall|i: int| 0 <= i < solved.len() ==> !is_duplicate(solved, i),
{
    lemma_deal_uses_every_card(dealt, pack);
    let cards = dealt_cards(dealt);
    assert forall|t: int| 0 <= t < 52 implies effective_card_of(#[trigger] solved[t]) == Some(
        cards[t],
    ) by {
        if t < 50 {
            lemma_deal_index_of(t);
            assert(tiles[deal_index(t / 10, (t % 10) / 2, t % 2)].card == board_card(
                dealt.board,
                t / 10,
                (t % 10) / 2,
                t % 2,
            ));
        } else {
            assert(tiles[50 + (t - 50)].card == dealt.spares@[t - 50]);
        }
    }
    assert(laid_out(solved)) by {
        assert forall|i: int, j: int, k: int|
            0 <= i < 5 && 0 <= j < 5 && 0 <= k < 2 implies (#[trigger] solved[deal_index(
            i,
            j,
            k,
        )]).position == TilePosition::Board(i as usize, j as usize, k as usize) by {
            assert(tiles[deal_index(i, j, k)].position == TilePosition::Board(
                i as usize,
                j as usize,
                k as usize,
            ));
        }
        assert forall|s: int| 0 <= s < 2 implies (#[trigger] solved[50 + s]).position
            == TilePosition::Spare(s as usize) by {
            assert(tiles[50 + s].position == TilePosition::Spare(s as usize));
        }
    }
    assert forall|i: int, j: int, k: int|
        0 <= i < 5 && 0 <= j < 5 && 0 <= k < 2 implies effective_card_of(
        #[trigger] solved[deal_index(i, j, k)],
    ) == Some(board_card(dealt.board, i, j, k)) by {
        let t = deal_index(i, j, k);
        lemma_deal_index_of(t);
        assert(t / 10 == i && (t % 10) / 2 == j && t % 2 == k);
        assert(effective_card_of(solved[t]) == Some(cards[t]));
    }
    crate::deal::lemma_shuffled_pack_values(pack);
    assert forall|c: int| 0 <= c < clues.len() implies {
        &&& all_pack_values(clue_cards(solved, #[trigger] clues[c].location))
        &&& clue_state(solved, clues[c]) == ClueGuessState::Correct
    } by {
        let loc = clues[c].location;
        if c < 5 {
            assert(clues[c] == clues[0 + c]);
        } else if c < 10 {
            assert(clues[c] == clues[5 + (c - 5)]);
        } else if c < 15 {
            assert(clues[c] == clues[10 + (c - 10)]);
        } else {
            assert(clues[c] == clues[15 + (c - 15)]);
        }
        assert(is_board_line(loc));
        assert(clues[c].poker_hand == poker_hand_of(line_cards(dealt.board, loc)));
        lemma_solved_line(solved, dealt, loc, 5);
        assert(line_cards(dealt.board, loc).take(5) =~= line_cards(dealt.board, loc));
        assert(clue_cards(solved, loc) == line_cards(dealt.board, loc));
        assert forall|p: int| 0 <= p < 5 implies crate::cards::is_pack_value(
            (#[trigger] line_cards(dealt.board, loc)[p]).value@,
        ) by {
            let q = clue_position(loc, p);
            assert(board_card(dealt.board, q.0, q.1, q.2) == pack[51 - deal_index(q.0, q.1, q.2)]);
        }
    }
    assert forall|i: int| 0 <= i < solved.len() implies !is_duplicate(solved, i) by {
        if is_duplicate(solved, i) {
            let j = choose|j: int|
                0 <= j < solved.len() && j != i && effective_card_of(#[trigger] solved[j])
                    == effective_card_of(solved[i]);
            assert(cards[i] == cards[j]);
        }
    }
}

// ---------------------------------------------------------------------------
// Checking twice
// ---------------------------------------------------------------------------

/// Two rows of tiles agree, place by place, on where each tile lies and which card it
/// stands for in the player's eyes.
pub open spec fn same_sight(a: Seq<Tile>, b: Seq<Tile>) -> bool {
    &&& a.len() == b.len()
    &&& forall|i: int|
        #![trigger a[i]]
        #![trigger b[i]]
        0 <= i < a.len() ==> a[i].position == b[i].position && effective_card_of(a[i])
            == effective_card_of(b[i])
}

proof fn lemma_first_at_same(a: Seq<Tile>, b: Seq<Tile>, pos: TilePosition, i: int)
    requires
        same_sight(a, b),
        is_first_at(a, pos, i),
    ensures
        is_first_at(b, pos, i),
{
    assert forall|j: int| 0 <= j < i implies (#[trigger] b[j]).position != pos by {
        assert(a[j].position != pos);
    }
}

proof fn lemma_first_at_unique(a: Seq<Tile>, pos: TilePosition, x: int, y: int)
    requires
        is_first_at(a, pos, x),
        is_first_at(a, pos, y),
    ensures
        x == y,
{
    if x < y {
        assert(a[x].position != pos);
    }
    if y < x {
        assert(a[y].position != pos);
    }
}

/// Tiles seen alike are found alike.
proof fn lemma_same_sight_card_at(a: Seq<Tile>, b: Seq<Tile>, pos: TilePosition)
    requires
        same_sight(a, b),
    ensures
        tile_at(a, pos) == tile_at(b, pos),
        card_at(a, pos) == card_at(b, pos),
{
    assert(same_sight(b, a));
    if exists|i: int| is_first_at(a, pos, i) {
        let x = choose|i: int| is_first_at(a, pos, i);
        lemma_first_at_same(a, b, pos, x);
        let y = choose|i: int| is_first_at(b, pos, i);
        lemma_first_at_same(b, a, pos, y);
        lemma_first_at_unique(a, pos, x, y);
    } else if exists|i: int| is_first_at(b, pos, i) {
        let y = choose|i: int| is_first_at(b, pos, i);
        lemma_first_at_same(b, a, pos, y);
    }
}

proof fn lemma_same_sight_clue_cards(a: Seq<Tile>, b: Seq<Tile>, loc: ClueLocation, n: int)
    requires
        same_sight(a, b),
    ensures
        clue_cards_upto(a, loc, n) == clue_cards_upto(b, loc, n),
    decreases n,
{
    if n > 0 {
        lemma_same_sight_clue_cards(a, b, loc, n - 1);
        lemma_same_sight_card_at(a, b, clue_tile(loc, n - 1));
    }
}

proof fn lemma_same_sight_duplicate(a: Seq<Tile>, b: Seq<Tile>, i: int)
    requires
        same_sight(a, b),
        0 <= i < a.len(),
    ensures
        is_duplicate(a, i) == is_duplicate(b, i),
{
    if is_duplicate(a, i) {
        let j = choose|j: int|
            0 <= j < a.len() && j != i && effective_card_of(#[trigger] a[j]) == effective_card_of(
                a[i],
            );
        assert(effective_card_of(b[j]) == effective_card_of(b[i]));
    }
    if is_duplicate(b, i) {
        let j = choose|j: int|
            0 <= j < b.len() && j != i && effective_card_of(#[trigger] b[j]) == effective_card_of(
                b[i],
            );
        assert(effective_card_of(a[j]) == effective_card_of(a[i]));
    }
}

/// Checking the guesses a second time, with nothing changed since the first, changes
/// nothing: the check writes only clue states and duplicate marks, and reads neither.
/// The second check is allowed wherever the first was.
pub proof fn lemma_check_guesses_idempotent(
    tiles: Seq<Tile>,
    clues: Seq<Clue>,
    checked_tiles: Seq<Tile>,
    checked_clues: Seq<Clue>,
    again_tiles: Seq<Tile>,
    again_clues: Seq<Clue>,
)
    requires
        is_check_of(tiles, clues, checked_tiles, checked_clues),
        is_check_of(checked_tiles, checked_clues, again_tiles, again_clues),
    ensures
        clue_lines_valued(tiles, clues) ==> clue_lines_valued(checked_tiles, checked_clues),
        again_tiles == checked_tiles,
        again_clues == checked_clues,
{
    assert forall|i: int| 0 <= i < checked_tiles.len() implies (#[trigger] checked_tiles[i]).position
        == tiles[i].position && effective_card_of(checked_tiles[i]) == effective_card_of(tiles[i]) by {
        assert(checked_tiles[i] == (Tile { duplicate: is_duplicate(tiles, i), ..tiles[i] }));
    }
    assert(same_sight(checked_tiles, tiles));
    assert forall|c: int| 0 <= c < checked_clues.len() implies {
        &&& #[trigger] again_clues[c] == checked_clues[c]
        &&& clue_cards(checked_tiles, checked_clues[c].location) == clue_cards(
            tiles,
            clues[c].location,
        )
    } by {
        assert(checked_clues[c] == (Clue { state: clue_state(tiles, clues[c]), ..clues[c] }));
        lemma_same_sight_clue_cards(checked_tiles, tiles, clues[c].location, POKER_HAND_SIZE as int);
    }
    assert forall|i: int| 0 <= i < checked_tiles.len() implies #[trigger] again_tiles[i]
        == checked_tiles[i] by {
        lemma_same_sight_duplicate(checked_tiles, tiles, i);
    }
    assert(again_tiles =~= checked_tiles);
    assert(again_clues =~= checked_clues);
}

/// After a check, a tile is marked a duplicate exactly when it stands for a card and
/// some other tile, wherever it lies, on the board or among the spares, stands for the
/// same card: two such tiles are both marked, and a marked tile has such a twin.
pub proof fn lemma_duplicate_marks(
    tiles: Seq<Tile>,
    clues: Seq<Clue>,
    checked_tiles: Seq<Tile>,
    checked_clues: Seq<Clue>,
)
    requires
        is_check_of(tiles, clues, checked_tiles, checked_clues),
    ensures
        forall|i: int, j: int|
            #![trigger checked_tiles[i], checked_tiles[j]]
            0 <= i < tiles.len() && 0 <= j < tiles.len() && i != j && effective_card_of(tiles[i]) is Some
                && effective_card_of(tiles[i]) == effective_card_of(tiles[j]) ==> checked_tiles[i].duplicate
                && checked_tiles[j].duplicate,
        forall|i: int|
            0 <= i < tiles.len() && (#[trigger] checked_tiles[i]).duplicate ==> effective_card_of(tiles[i]) is Some
                && exists|j: int|
                0 <= j < tiles.len() && j != i && effective_card_of(#[trigger] tiles[j]) == effective_card_of(
                    tiles[i],
                ),
{
    assert forall|i: int, j: int|
        #![trigger checked_tiles[i], checked_tiles[j]]
        0 <= i < tiles.len() && 0 <= j < tiles.len() && i != j && effective_card_of(tiles[i]) is Some
            && effective_card_of(tiles[i]) == effective_card_of(tiles[j]) implies checked_tiles[i].duplicate
            && checked_tiles[j].duplicate by {
        assert(checked_tiles[i] == (Tile { duplicate: is_duplicate(tiles, i), ..tiles[i] }));
        assert(checked_tiles[j] == (Tile { duplicate: is_duplicate(tiles, j), ..tiles[j] }));
        assert(effective_card_of(tiles[j]) == effective_card_of(tiles[i]));
    }
    assert forall|i: int|
        0 <= i < tiles.len() && (#[trigger] checked_tiles[i]).duplicate implies effective_card_of(tiles[i]) is Some
            && exists|j: int|
            0 <= j < tiles.len() && j != i && effective_card_of(#[trigger] tiles[j]) == effective_card_of(
                tiles[i],
            ) by {
        assert(checked_tiles[i] == (Tile { duplicate: is_duplicate(tiles, i), ..tiles[i] }));
    }
}

} // verus!
