//! Dealing a puzzle: cards onto the board from a shuffled pack, the hands that the
//! board's lines make, and the test that a deal is interesting enough to play.

use vstd::prelude::*;

use crate::cards::{
    is_full_pack, is_pack_value, lemma_full_pack_distinct, lemma_full_pack_values, CardId, Stack, Suit,
    Value,
};
use crate::game::{clue_position, is_board_line, ClueLocation, CLUES_PER_DIRECTION, NUM_PLANES, NUM_SPARES};
use crate::poker::{all_pack_values, identify_hand, poker_hand_of, PokerHand};

verus! {

pub struct DealtGame {
    pub board: [[[CardId; NUM_PLANES]; CLUES_PER_DIRECTION]; CLUES_PER_DIRECTION],
    pub spares: [CardId; NUM_SPARES],
    pub top_hands: [PokerHand; CLUES_PER_DIRECTION],
    pub left_hands: [PokerHand; CLUES_PER_DIRECTION],
    pub right_hands: [PokerHand; CLUES_PER_DIRECTION],
    pub bottom_hands: [PokerHand; CLUES_PER_DIRECTION],
}

pub open spec fn board_card(
    board: [[[CardId; NUM_PLANES]; CLUES_PER_DIRECTION]; CLUES_PER_DIRECTION],
    i: int,
    j: int,
    k: int,
) -> CardId {
    board@[i]@[j]@[k]
}

/// The five cards of the board that a clue's line runs through, in line order.
pub open spec fn line_cards(
    board: [[[CardId; NUM_PLANES]; CLUES_PER_DIRECTION]; CLUES_PER_DIRECTION],
    loc: ClueLocation,
) -> Seq<CardId> {
    Seq::new(
        5,
        |p: int|
            {
                let q = clue_position(loc, p);
                board_card(board, q.0, q.1, q.2)
            },
    )
}

/// Every hand of the deal is the hand that its line of the board makes.
pub open spec fn hands_match_board(dg: DealtGame) -> bool {
    &&& forall|c: int|
        0 <= c < 5 ==> #[trigger] dg.top_hands@[c] == poker_hand_of(
            line_cards(dg.board, ClueLocation::Top(c as usize)),
        )
    &&& forall|c: int|
        0 <= c < 5 ==> #[trigger] dg.left_hands@[c] == poker_hand_of(
            line_cards(dg.board, ClueLocation::Left(c as usize)),
        )
    &&& forall|c: int|
        0 <= c < 5 ==> #[trigger] dg.right_hands@[c] == poker_hand_of(
            line_cards(dg.board, ClueLocation::Right(c as usize)),
        )
    &&& forall|c: int|
        0 <= c < 5 ==> #[trigger] dg.bottom_hands@[c] == poker_hand_of(
            line_cards(dg.board, ClueLocation::Bottom(c as usize)),
        )
}

/// The order in which the deal takes cards off a pack: row by row, column by column,
/// plane by plane.
pub open spec fn deal_index(i: int, j: int, k: int) -> int {
    10 * i + 2 * j + k
}

/// The deal laid out the cards of `pack` (its top, the last card, first) and names
/// the hands of its lines.
pub open spec fn is_deal_of(dg: DealtGame, pack: Seq<CardId>) -> bool {
    &&& pack.len() == 52
    &&& forall|i: int, j: int, k: int|
        0 <= i < 5 && 0 <= j < 5 && 0 <= k < 2 ==> #[trigger] board_card(dg.board, i, j, k)
            == pack[51 - deal_index(i, j, k)]
    &&& dg.spares@[0] == pack[1]
    &&& dg.spares@[1] == pack[0]
    &&& hands_match_board(dg)
}

/// The twenty hands of a deal: top, left, right, then bottom.
pub open spec fn all_hands(dg: DealtGame) -> Seq<PokerHand> {
    dg.top_hands@ + dg.left_hands@ + dg.right_hands@ + dg.bottom_hands@
}

/// How many of the hands are `h`.
pub open spec fn count_hand(hands: Seq<PokerHand>, h: PokerHand) -> nat
    decreases hands.len(),
{
    if hands.len() == 0 {
        0
    } else {
        count_hand(hands.drop_last(), h) + if hands.last() == h {
            1nat
        } else {
            0nat
        }
    }
}

pub open spec fn hand_of_rank(r: int) -> PokerHand {
    if r == 0 {
        PokerHand::Nothing
    } else if r == 1 {
        PokerHand::OnePair
    } else if r == 2 {
        PokerHand::TwoPair
    } else if r == 3 {
        PokerHand::ThreeOfAKind
    } else if r == 4 {
        PokerHand::Straight
    } else if r == 5 {
        PokerHand::Flush
    } else if r == 6 {
        PokerHand::FullHouse
    } else if r == 7 {
        PokerHand::FourOfAKind
    } else if r == 8 {
        PokerHand::StraightFlush
    } else if r == 9 {
        PokerHand::RoyalFlush
    } else {
        PokerHand::FiveOfAKind
    }
}

/// How many of the `k` weakest kinds of hand occur among the hands.
pub open spec fn kinds_present(hands: Seq<PokerHand>, k: int) -> nat
    decreases k,
{
    if k <= 0 {
        0
    } else {
        kinds_present(hands, k - 1) + if count_hand(hands, hand_of_rank(k - 1)) > 0 {
            1nat
        } else {
            0nat
        }
    }
}

/// A deal is played only if fewer than 6 of its hands are nothing, fewer than 12 are
/// one pair, and at least 4 kinds of hand occur.
pub open spec fn is_interesting(hands: Seq<PokerHand>) -> bool {
    &&& count_hand(hands, PokerHand::Nothing) < 6
    &&& count_hand(hands, PokerHand::OnePair) < 12
    &&& kinds_present(hands, 11) >= 4
}

fn hand_index(h: PokerHand) -> (r: usize)
    ensures
        r < 11,
        hand_of_rank(r as int) == h,
{
    match h {
        PokerHand::Nothing => 0,
        PokerHand::OnePair => 1,
        PokerHand::TwoPair => 2,
        PokerHand::ThreeOfAKind => 3,
        PokerHand::Straight => 4,
        PokerHand::Flush => 5,
        PokerHand::FullHouse => 6,
        PokerHand::FourOfAKind => 7,
        PokerHand::StraightFlush => 8,
        PokerHand::RoyalFlush => 9,
        PokerHand::FiveOfAKind => 10,
    }
}

proof fn lemma_rank_injective(r: int, q: int)
    requires
        0 <= r < 11,
        0 <= q < 11,
        hand_of_rank(r) == hand_of_rank(q),
    ensures
        r == q,
{
}

/// `counts[r]` is the number of hands of rank `r`.
fn hand_counts(hands: &Vec<PokerHand>) -> (counts: Vec<usize>)
    ensures
        counts@.len() == 11,
        forall|r: int| 0 <= r < 11 ==> #[trigger] counts@[r] == count_hand(hands@, hand_of_rank(r)),
{
    let mut counts: Vec<usize> = Vec::new();
    for r in 0..11
        invariant
            counts@.len() == r,
            forall|t: int| 0 <= t < r ==> counts@[t] == 0,
    {
        counts.push(0);
    }
    let n = hands.len();
    let mut i: usize = 0;
    while i < n
        invariant
            n == hands@.len(),
            0 <= i <= n,
            counts@.len() == 11,
            forall|r: int|
                0 <= r < 11 ==> #[trigger] counts@[r] == count_hand(
                    hands@.take(i as int),
                    hand_of_rank(r),
                ),
            forall|r: int| 0 <= r < 11 ==> #[trigger] counts@[r] <= i,
        decreases n - i,
    {
        let h = hands[i];
        let r = hand_index(h);
        let c = counts[r];
        counts.set(r, c + 1);
        proof {
            let t = hands@.take(i + 1);
            assert(t.drop_last() =~= hands@.take(i as int));
            assert(t.last() == h);
            assert forall|q: int| 0 <= q < 11 && q != r implies hand_of_rank(q) != h by {
                if hand_of_rank(q) == h {
                    lemma_rank_injective(q, r as int);
                }
            }
        }
        i = i + 1;
    }
    assert(hands@.take(n as int) =~= hands@);
    counts
}

/// Whether a deal with these hands is played.
fn interesting(hands: &Vec<PokerHand>) -> (r: bool)
    ensures
        r == is_interesting(hands@),
{
    let counts = hand_counts(hands);
    let mut kinds: usize = 0;
    for r in 0..11
        invariant
            counts@.len() == 11,
            forall|q: int| 0 <= q < 11 ==> #[trigger] counts@[q] == count_hand(hands@, hand_of_rank(q)),
            kinds == kinds_present(hands@, r as int),
            kinds <= r,
    {
        if counts[r] > 0 {
            kinds = kinds + 1;
        }
    }
    assert(counts@[0] == count_hand(hands@, PokerHand::Nothing));
    assert(counts@[1] == count_hand(hands@, PokerHand::OnePair));
    counts[0] < 6 && counts[1] < 12 && kinds >= 4
}

/// The hands that five lines of the board make.
fn build_hands(
    board: &[[[CardId; NUM_PLANES]; CLUES_PER_DIRECTION]; CLUES_PER_DIRECTION],
    locations: [ClueLocation; CLUES_PER_DIRECTION],
) -> (hands: [PokerHand; CLUES_PER_DIRECTION])
    requires
        forall|i: int, j: int, k: int|
            0 <= i < 5 && 0 <= j < 5 && 0 <= k < 2 ==> crate::cards::is_pack_value(
                #[trigger] board_card(*board, i, j, k).value@,
            ),
        forall|c: int| 0 <= c < 5 ==> is_board_line(#[trigger] locations@[c]),
    ensures
        forall|c: int|
            0 <= c < 5 ==> #[trigger] hands@[c] == poker_hand_of(line_cards(*board, locations@[c])),
{
    let mut hands = [PokerHand::Nothing;5];
    for c in 0..5
        invariant
            forall|i: int, j: int, k: int|
                0 <= i < 5 && 0 <= j < 5 && 0 <= k < 2 ==> crate::cards::is_pack_value(
                    #[trigger] board_card(*board, i, j, k).value@,
                ),
            forall|c2: int| 0 <= c2 < 5 ==> is_board_line(#[trigger] locations@[c2]),
            forall|c2: int|
                0 <= c2 < c ==> #[trigger] hands@[c2] == poker_hand_of(
                    line_cards(*board, locations@[c2]),
                ),
    {
        let loc = locations[c];
        let positions = loc.tile_positions();
        let mut cards = [board[0][0][0];5];
        for p in 0..5
            invariant
                loc == locations@[c as int],
                forall|p2: int|
                    0 <= p2 < 5 ==> {
                        let q = #[trigger] positions@[p2];
                        (q.0 as int, q.1 as int, q.2 as int) == clue_position(loc, p2)
                    },
                is_board_line(loc),
                forall|p2: int| 0 <= p2 < p ==> #[trigger] cards@[p2] == line_cards(*board, loc)[p2],
        {
            let (a, b, k) = positions[p];
            assert(clue_position(loc, p as int) == (a as int, b as int, k as int));
            cards[p] = board[a][b][k];
        }
        assert(cards@ =~= line_cards(*board, loc));
        proof {
            assert forall|p2: int| 0 <= p2 < 5 implies crate::cards::is_pack_value(
                (#[trigger] cards@[p2]).value@,
            ) by {
                let q = clue_position(loc, p2);
                assert(board_card(*board, q.0, q.1, q.2) == cards@[p2]);
            }
        }
        let hand = identify_hand(&mut cards);
        hands[c] = hand;
    }
    hands
}

/// Deals a puzzle from a pack of 52 cards, taking cards off its top, and keeps it
/// only if its hands are interesting.
pub fn deal_from_pack(pack: Stack) -> (r: Option<DealtGame>)
    requires
        pack@.len() == 52,
        all_pack_values(pack@),
    ensures
        r matches Some(dg) ==> is_deal_of(dg, pack@) && is_interesting(all_hands(dg)),
        r is None ==> forall|dg: DealtGame| is_deal_of(dg, pack@) ==> !is_interesting(all_hands(dg)),
{
    let ghost orig = pack@;
    let mut pack = pack;
    let filler = CardId::new(Suit::Clubs, Value::of_number(2));
    let mut board = [[[filler;2];5];5];
    for i in 0..5
        invariant
            orig.len() == 52,
            all_pack_values(orig),
            pack@ == orig.take(52 - 10 * i),
            forall|i2: int, j2: int, k2: int|
                0 <= i2 < i && 0 <= j2 < 5 && 0 <= k2 < 2 ==> #[trigger] board_card(board, i2, j2, k2)
                    == orig[51 - deal_index(i2, j2, k2)],
    {
        for j in 0..5
            invariant
                orig.len() == 52,
                0 <= i < 5,
                pack@ == orig.take(52 - 10 * i - 2 * j),
                forall|i2: int, j2: int, k2: int|
                    (0 <= i2 < i && 0 <= j2 < 5 && 0 <= k2 < 2) || (i2 == i && 0 <= j2 < j && 0
                        <= k2 < 2) ==> #[trigger] board_card(board, i2, j2, k2) == orig[51
                        - deal_index(i2, j2, k2)],
        {
            for k in 0..2
                invariant
                    orig.len() == 52,
                    0 <= i < 5,
                    0 <= j < 5,
                    pack@ == orig.take(52 - 10 * i - 2 * j - k),
                    forall|i2: int, j2: int, k2: int|
                        (0 <= i2 < i && 0 <= j2 < 5 && 0 <= k2 < 2) || (i2 == i && 0 <= j2 < j && 0
                            <= k2 < 2) || (i2 == i && j2 == j && 0 <= k2 < k) ==> #[trigger] board_card(
                            board,
                            i2,
                            j2,
                            k2,
                        ) == orig[51 - deal_index(i2, j2, k2)],
            {
                let card = pack.pop().expect("nonempty pack");
                proof {
                    assert(orig.take(52 - 10 * i - 2 * j - k).drop_last() =~= orig.take(
                        52 - 10 * i - 2 * j - k - 1,
                    ));
                }
                let ghost before = board;
                board[i][j][k] = card;
                proof {
                    assert(board_card(board, i as int, j as int, k as int) == orig[51 - deal_index(
                        i as int,
                        j as int,
                        k as int,
                    )]);
                    assert forall|i2: int, j2: int, k2: int|
                        0 <= i2 < 5 && 0 <= j2 < 5 && 0 <= k2 < 2 && (i2 != i || j2 != j || k2
                            != k) implies #[trigger] board_card(board, i2, j2, k2) == board_card(
                        before,
                        i2,
                        j2,
                        k2,
                    ) by {}
                }
            }
        }
    }
    proof {
        assert forall|i: int, j: int, k: int|
            0 <= i < 5 && 0 <= j < 5 && 0 <= k < 2 implies crate::cards::is_pack_value(
                #[trigger] board_card(board, i, j, k).value@,
            ) by {
            assert(board_card(board, i, j, k) == orig[51 - deal_index(i, j, k)]);
        }
    }

    let top_hands = build_hands(
        &board,
        [
            ClueLocation::Top(0),
            ClueLocation::Top(1),
            ClueLocation::Top(2),
            ClueLocation::Top(3),
            ClueLocation::Top(4),
        ],
    );
    let left_hands = build_hands(
        &board,
        [
            ClueLocation::Left(0),
            ClueLocation::Left(1),
            ClueLocation::Left(2),
            ClueLocation::Left(3),
            ClueLocation::Left(4),
        ],
    );
    let right_hands = build_hands(
        &board,
        [
            ClueLocation::Right(0),
            ClueLocation::Right(1),
            ClueLocation::Right(2),
            ClueLocation::Right(3),
            ClueLocation::Right(4),
        ],
    );
    let bottom_hands = build_hands(
        &board,
        [
            ClueLocation::Bottom(0),
            ClueLocation::Bottom(1),
            ClueLocation::Bottom(2),
            ClueLocation::Bottom(3),
            ClueLocation::Bottom(4),
        ],
    );

    let mut hands: Vec<PokerHand> = Vec::new();
    for c in 0..5
        invariant
            hands@ == top_hands@.take(c as int),
    {
        hands.push(top_hands[c]);
        assert(top_hands@.take(c + 1) =~= top_hands@.take(c as int).push(top_hands@[c as int]));
    }
    for c in 0..5
        invariant
            hands@ == top_hands@ + left_hands@.take(c as int),
    {
        hands.push(left_hands[c]);
        assert(left_hands@.take(c + 1) =~= left_hands@.take(c as int).push(left_hands@[c as int]));
    }
    for c in 0..5
        invariant
            hands@ == top_hands@ + left_hands@ + right_hands@.take(c as int),
    {
        hands.push(right_hands[c]);
        assert(right_hands@.take(c + 1) =~= right_hands@.take(c as int).push(
            right_hands@[c as int],
        ));
    }
    for c in 0..5
        invariant
            hands@ == top_hands@ + left_hands@ + right_hands@ + bottom_hands@.take(c as int),
    {
        hands.push(bottom_hands[c]);
        assert(bottom_hands@.take(c + 1) =~= bottom_hands@.take(c as int).push(
            bottom_hands@[c as int],
        ));
    }
    assert(top_hands@.take(5) =~= top_hands@);
    assert(left_hands@.take(5) =~= left_hands@);
    assert(right_hands@.take(5) =~= right_hands@);
    assert(bottom_hands@.take(5) =~= bottom_hands@);

    let keep = interesting(&hands);
    if !keep {
        proof {
            assert forall|dg: DealtGame| is_deal_of(dg, orig) implies !is_interesting(
                all_hands(dg),
            ) by {
                assert forall|i: int, j: int, k: int|
                    0 <= i < 5 && 0 <= j < 5 && 0 <= k < 2 implies #[trigger] board_card(
                    dg.board,
                    i,
                    j,
                    k,
                ) == board_card(board, i, j, k) by {}
                assert(dg.board =~= board) by {
                    assert forall|i: int| 0 <= i < 5 implies #[trigger] dg.board@[i] == board@[i] by {
                        assert forall|j: int| 0 <= j < 5 implies #[trigger] dg.board@[i]@[j]
                            == board@[i]@[j] by {
                            assert(board_card(dg.board, i, j, 0) == board_card(board, i, j, 0));
                            assert(board_card(dg.board, i, j, 1) == board_card(board, i, j, 1));
                            assert(dg.board@[i]@[j]@ =~= board@[i]@[j]@);
                        }
                        assert(dg.board@[i]@ =~= board@[i]@);
                    }
                    assert(dg.board@ =~= board@);
                }
                assert(dg.top_hands@ =~= top_hands@);
                assert(dg.left_hands@ =~= left_hands@);
                assert(dg.right_hands@ =~= right_hands@);
                assert(dg.bottom_hands@ =~= bottom_hands@);
                assert(all_hands(dg) =~= hands@);
            }
        }
        return None;
    }

    let spare0 = pack.pop().expect("nonempty pack");
    let spare1 = pack.pop().expect("nonempty pack");
    let dg = DealtGame { board, spares: [spare0, spare1], top_hands, left_hands, right_hands, bottom_hands };
    assert(all_hands(dg) =~= hands@);
    Some(dg)
}

/// Some order of the 52 cards of a full pack.
pub open spec fn is_shuffled_pack(p: Seq<CardId>) -> bool {
    exists|f: Seq<CardId>| is_full_pack(f) && #[trigger] p.to_multiset() == f.to_multiset()
}

proof fn lemma_shuffled_pack(p: Seq<CardId>, f: Seq<CardId>)
    requires
        is_full_pack(f),
        p.to_multiset() == f.to_multiset(),
    ensures
        is_shuffled_pack(p),
        p.len() == 52,
        all_pack_values(p),
{
    broadcast use vstd::seq_lib::to_multiset_len, vstd::seq_lib::to_multiset_contains;

    assert(p.to_multiset().len() == f.to_multiset().len());
    assert(f.len() == 52);
    assert(p.len() == p.to_multiset().len());
    assert forall|i: int| 0 <= i < p.len() implies is_pack_value(#[trigger] p[i].value@) by {
        assert(p.contains(p[i]));
        assert(p.to_multiset().count(p[i]) > 0);
        assert(f.to_multiset().count(p[i]) > 0);
        lemma_full_pack_values(f, p[i]);
    }
}

/// The cards of a shuffled pack all carry values of the pack.
pub proof fn lemma_shuffled_pack_values(p: Seq<CardId>)
    requires
        is_shuffled_pack(p),
    ensures
        p.len() == 52,
        all_pack_values(p),
{
    let f = choose|f: Seq<CardId>| is_full_pack(f) && #[trigger] p.to_multiset() == f.to_multiset();
    lemma_shuffled_pack(p, f);
}

/// A shuffled pack whose deal is not interesting enough to play.
pub open spec fn is_dull_pack(p: Seq<CardId>) -> bool {
    &&& is_shuffled_pack(p)
    &&& forall|dg: DealtGame| #[trigger] is_deal_of(dg, p) ==> !is_interesting(all_hands(dg))
}

/// Shuffles a full pack and deals from it, up to `attempts` times, until a deal is
/// interesting enough to play. It gives up only after `attempts` shuffled packs have
/// each dealt a dull puzzle.
pub fn deal_game(attempts: u32) -> (r: Option<DealtGame>)
    ensures
        r matches Some(dg) ==> is_interesting(all_hands(dg)) && exists|p: Seq<CardId>|
            is_shuffled_pack(p) && #[trigger] is_deal_of(dg, p),
        attempts == 0 ==> r is None,
        r is None ==> exists|tried: Seq<Seq<CardId>>|
            tried.len() == attempts && forall|t: int|
                0 <= t < attempts ==> is_dull_pack(#[trigger] tried[t]),
{
    let mut tries: u32 = 0;
    let ghost mut tried: Seq<Seq<CardId>> = Seq::empty();
    while tries < attempts
        invariant
            tries <= attempts,
            tried.len() == tries,
            forall|t: int| 0 <= t < tries ==> is_dull_pack(#[trigger] tried[t]),
        decreases attempts - tries,
    {
        let mut pack = Stack::full_pack();
        let ghost f = pack@;
        pack.shuffle();
        let ghost p = pack@;
        proof {
            lemma_shuffled_pack(p, f);
        }
        match deal_from_pack(pack) {
            Some(dg) => {
                return Some(dg);
            },
            None => {
                proof {
                    tried = tried.push(p);
                }
            },
        }
        tries = tries + 1;
    }
    assert(forall|t: int| 0 <= t < attempts ==> is_dull_pack(#[trigger] tried[t]));
    None
}

/// The cards of a deal in the order they were taken off the pack: the board row by
/// row, column by column, plane by plane, then the spares.
pub open spec fn dealt_cards(dg: DealtGame) -> Seq<CardId> {
    Seq::new(
        52,
        |n: int|
            if n < 50 {
                board_card(dg.board, n / 10, (n % 10) / 2, n % 2)
            } else {
                dg.spares@[n - 50]
            },
    )
}

/// A deal from a shuffled pack lays out every card of the full pack exactly once: the
/// fifty board cards and the two spares are the pack, and no card is dealt twice.
pub proof fn lemma_deal_uses_every_card(dg: DealtGame, pack: Seq<CardId>)
    requires
        is_shuffled_pack(pack),
        is_deal_of(dg, pack),
    ensures
        exists|f: Seq<CardId>|
            is_full_pack(f) && #[trigger] dealt_cards(dg).to_multiset() == f.to_multiset(),
        dealt_cards(dg).no_duplicates(),
{
    let f = choose|f: Seq<CardId>| is_full_pack(f) && #[trigger] pack.to_multiset() == f.to_multiset();
    assert forall|n: int| 0 <= n < 52 implies #[trigger] dealt_cards(dg)[n] == pack.reverse()[n] by {
        if n < 50 {
            let i = n / 10;
            let j = (n % 10) / 2;
            let k = n % 2;
            assert(deal_index(i, j, k) == n);
            assert(0 <= i < 5 && 0 <= j < 5 && 0 <= k < 2);
        }
    }
    assert(dealt_cards(dg) =~= pack.reverse());
    pack.lemma_reverse_to_multiset();
    lemma_full_pack_distinct(f);
    f.lemma_multiset_has_no_duplicates();
    dealt_cards(dg).lemma_multiset_has_no_duplicates_conv();
}

} // verus!
