//! Poker hands: which hand a line of cards makes.

use vstd::prelude::*;

use crate::cards::{is_pack_value, low_ace_value, CardId, Value, MIN_CARD_VALUE};

verus! {

broadcast use crate::cards::lemma_low_ace_value;

pub const POKER_HAND_SIZE: usize = 5;

pub const POKER_HAND_INDICES: [usize; POKER_HAND_SIZE] = [0, 1, 2, 3, 4];

pub const NUM_HAND_TYPES: usize = 11;

/// The poker hands, weakest first.
#[derive(Clone, Copy, Debug, Eq, Hash, PartialEq, PartialOrd, Structural)]
pub enum PokerHand {
    Nothing,
    OnePair,
    TwoPair,
    ThreeOfAKind,
    Straight,
    Flush,
    FullHouse,
    FourOfAKind,
    StraightFlush,
    RoyalFlush,
    FiveOfAKind,
}

pub open spec fn hand_name(h: PokerHand) -> Seq<char> {
    match h {
        PokerHand::Nothing => "Nothing"@,
        PokerHand::OnePair => "One Pair"@,
        PokerHand::TwoPair => "Two Pair"@,
        PokerHand::ThreeOfAKind => "Three Of A Kind"@,
        PokerHand::Straight => "Straight"@,
        PokerHand::Flush => "Flush"@,
        PokerHand::FullHouse => "Full House"@,
        PokerHand::FourOfAKind => "Four Of A Kind"@,
        PokerHand::StraightFlush => "Straight Flush"@,
        PokerHand::RoyalFlush => "Royal Flush"@,
        PokerHand::FiveOfAKind => "Five Of A Kind"@,
    }
}

impl PokerHand {
    pub fn name(&self) -> (r: &'static str)
        ensures
            r@ == hand_name(*self),
    {
        match self {
            PokerHand::Nothing => "Nothing",
            PokerHand::OnePair => "One Pair",
            PokerHand::TwoPair => "Two Pair",
            PokerHand::ThreeOfAKind => "Three Of A Kind",
            PokerHand::Straight => "Straight",
            PokerHand::Flush => "Flush",
            PokerHand::FullHouse => "Full House",
            PokerHand::FourOfAKind => "Four Of A Kind",
            PokerHand::StraightFlush => "Straight Flush",
            PokerHand::RoyalFlush => "Royal Flush",
            PokerHand::FiveOfAKind => "Five Of A Kind",
        }
    }
}

// ---------------------------------------------------------------------------
// What a line of cards makes
// ---------------------------------------------------------------------------

/// The number of cards of value `v`.
pub open spec fn count_value(cards: Seq<CardId>, v: int) -> nat
    decreases cards.len(),
{
    if cards.len() == 0 {
        0
    } else {
        count_value(cards.drop_last(), v) + if cards.last().value@ == v {
            1nat
        } else {
            0nat
        }
    }
}

/// Some value is held by at least `k` cards.
pub open spec fn has_group(cards: Seq<CardId>, k: nat) -> bool {
    exists|v: int| #[trigger] count_value(cards, v) >= k
}

/// Two different values are held by at least `k` and at least `m` cards.
pub open spec fn has_two_groups(cards: Seq<CardId>, k: nat, m: nat) -> bool {
    exists|v: int, w: int|
        v != w && #[trigger] count_value(cards, v) >= k && #[trigger] count_value(cards, w) >= m
}

/// All cards have the suit of the first.
pub open spec fn is_flush(cards: Seq<CardId>) -> bool {
    forall|i: int| 0 <= i < cards.len() ==> #[trigger] cards[i].suit == cards[0].suit
}

/// With a 2 among the cards, an ace counts low (as 1) in a straight.
pub open spec fn aces_low(cards: Seq<CardId>) -> bool {
    count_value(cards, 2) > 0
}

/// The number of cards that count as `r` in a straight.
pub open spec fn run_count(cards: Seq<CardId>, r: int) -> nat {
    if aces_low(cards) && r == 1 {
        count_value(cards, 14)
    } else if aces_low(cards) && r == 14 {
        0
    } else {
        count_value(cards, r)
    }
}

/// The cards count as `lo`, `lo + 1`, ..., one card each and nothing else.
pub open spec fn is_run_from(cards: Seq<CardId>, lo: int) -> bool {
    forall|r: int| #[trigger]
        run_count(cards, r) == if lo <= r < lo + cards.len() {
            1nat
        } else {
            0nat
        }
}

pub open spec fn is_straight(cards: Seq<CardId>) -> bool {
    exists|lo: int| is_run_from(cards, lo)
}

/// The hand that a line of cards makes: the strongest that it satisfies.
pub open spec fn poker_hand_of(cards: Seq<CardId>) -> PokerHand {
    if cards.len() == 0 {
        PokerHand::Nothing
    } else if has_group(cards, 5) {
        PokerHand::FiveOfAKind
    } else if is_run_from(cards, 10) && is_flush(cards) {
        PokerHand::RoyalFlush
    } else if is_straight(cards) && is_flush(cards) {
        PokerHand::StraightFlush
    } else if has_group(cards, 4) {
        PokerHand::FourOfAKind
    } else if has_two_groups(cards, 3, 2) {
        PokerHand::FullHouse
    } else if is_flush(cards) {
        PokerHand::Flush
    } else if is_straight(cards) {
        PokerHand::Straight
    } else if has_group(cards, 3) {
        PokerHand::ThreeOfAKind
    } else if has_two_groups(cards, 2, 2) {
        PokerHand::TwoPair
    } else if has_group(cards, 2) {
        PokerHand::OnePair
    } else {
        PokerHand::Nothing
    }
}

pub open spec fn all_pack_values(cards: Seq<CardId>) -> bool {
    forall|i: int| 0 <= i < cards.len() ==> is_pack_value(#[trigger] cards[i].value@)
}

// ---------------------------------------------------------------------------
// The order that `identify_hand` leaves the cards in
// ---------------------------------------------------------------------------

/// Puts `c` into `sorted` after every card whose value is not greater.
pub open spec fn insert_by_value(sorted: Seq<CardId>, c: CardId) -> Seq<CardId>
    decreases sorted.len(),
{
    if sorted.len() == 0 || sorted.last().value@ <= c.value@ {
        sorted.push(c)
    } else {
        insert_by_value(sorted.drop_last(), c).push(sorted.last())
    }
}

/// The cards in order of value; cards of equal value keep their order.
pub open spec fn sort_by_value(cards: Seq<CardId>) -> Seq<CardId>
    decreases cards.len(),
{
    if cards.len() == 0 {
        cards
    } else {
        insert_by_value(sort_by_value(cards.drop_last()), cards.last())
    }
}

/// Each ace (14) made a low ace (1).
pub open spec fn lower_aces(cards: Seq<CardId>) -> Seq<CardId> {
    cards.map_values(
        |c: CardId|
            if c.value@ == 14 {
                CardId { suit: c.suit, value: low_ace_value() }
            } else {
                c
            },
    )
}

/// The cards sorted by value; if the lowest is a 2, the aces are then made low and
/// the cards sorted again.
pub open spec fn hand_order(cards: Seq<CardId>) -> Seq<CardId> {
    let sorted = sort_by_value(cards);
    if sorted.len() > 0 && sorted[0].value@ == 2 {
        sort_by_value(lower_aces(sorted))
    } else {
        sorted
    }
}

proof fn lemma_insert_len(sorted: Seq<CardId>, c: CardId)
    ensures
        insert_by_value(sorted, c).len() == sorted.len() + 1,
    decreases sorted.len(),
{
    if sorted.len() > 0 && sorted.last().value@ > c.value@ {
        lemma_insert_len(sorted.drop_last(), c);
    }
}

proof fn lemma_sort_len(cards: Seq<CardId>)
    ensures
        sort_by_value(cards).len() == cards.len(),
    decreases cards.len(),
{
    if cards.len() > 0 {
        lemma_sort_len(cards.drop_last());
        lemma_insert_len(sort_by_value(cards.drop_last()), cards.last());
    }
}

/// Inserting `c` puts it at the first position after which every card is greater.
proof fn lemma_insert_at(p: Seq<CardId>, c: CardId, j: int)
    requires
        0 <= j <= p.len(),
        j == 0 || p[j - 1].value@ <= c.value@,
        forall|t: int| j <= t < p.len() ==> (#[trigger] p[t]).value@ > c.value@,
    ensures
        insert_by_value(p, c) == p.take(j) + seq![c] + p.skip(j),
    decreases p.len(),
{
    if p.len() == 0 {
        assert(p.take(j) + seq![c] + p.skip(j) =~= seq![c]);
    } else if p.last().value@ <= c.value@ {
        assert(j == p.len());
        assert(p.take(j) + seq![c] + p.skip(j) =~= p.push(c));
    } else {
        let q = p.drop_last();
        assert(j < p.len());
        lemma_insert_at(q, c, j);
        assert(q.take(j) + seq![c] + q.skip(j) + seq![p.last()] =~= p.take(j) + seq![c] + p.skip(
            j,
        ));
    }
}

/// Sorts the cards by value, keeping cards of equal value in their order.
fn sort_cards_by_value(cards: &mut [CardId])
    ensures
        final(cards)@ == sort_by_value(old(cards)@),
{
    let n = cards.len();
    let ghost s = cards@;
    let mut i: usize = 0;
    while i < n
        invariant
            n == cards@.len(),
            s == old(cards)@,
            s.len() == n,
            0 <= i <= n,
            cards@.take(i as int) == sort_by_value(s.take(i as int)),
            forall|t: int| i <= t < n ==> cards@[t] == s[t],
        decreases n - i,
    {
        let ghost p = cards@.take(i as int);
        let key = cards[i];
        proof {
            lemma_sort_len(s.take(i as int));
            assert(s.take(i + 1).drop_last() =~= s.take(i as int));
            assert(s.take(i + 1).last() == key);
        }
        let mut j = i;
        while j > 0 && cards[j - 1].value.value() > key.value.value()
            invariant
                n == cards@.len(),
                0 <= j <= i < n,
                p.len() == i,
                s.len() == n,
                forall|t: int| 0 <= t < j ==> cards@[t] == p[t],
                forall|t: int| j < t <= i ==> cards@[t] == p[t - 1],
                forall|t: int| i < t < n ==> cards@[t] == s[t],
                forall|t: int| j <= t < i ==> (#[trigger] p[t]).value@ > key.value@,
            decreases j,
        {
            let prev = cards[j - 1];
            cards[j] = prev;
            j = j - 1;
        }
        cards[j] = key;
        proof {
            lemma_insert_at(p, key, j as int);
            assert(cards@.take(i + 1) =~= p.take(j as int) + seq![key] + p.skip(j as int));
        }
        i = i + 1;
    }
    assert(cards@.take(n as int) =~= cards@);
    assert(s.take(n as int) =~= s);
}

/// Makes every ace among the cards a low ace.
fn lower_card_aces(cards: &mut [CardId])
    ensures
        final(cards)@ == lower_aces(old(cards)@),
{
    let n = cards.len();
    let ghost s = cards@;
    let mut i: usize = 0;
    while i < n
        invariant
            n == cards@.len(),
            s == old(cards)@,
            s.len() == n,
            0 <= i <= n,
            forall|t: int| 0 <= t < i ==> cards@[t] == lower_aces(s)[t],
            forall|t: int| i <= t < n ==> cards@[t] == s[t],
        decreases n - i,
    {
        let mut c = cards[i];
        if c.value.value() == 14 {
            c.value = Value::low_ace();
        }
        cards[i] = c;
        i = i + 1;
    }
    assert(cards@ =~= lower_aces(s));
}

// ---------------------------------------------------------------------------
// Counting values
// ---------------------------------------------------------------------------

proof fn lemma_count_outside(cards: Seq<CardId>, v: int)
    requires
        all_pack_values(cards),
        !(MIN_CARD_VALUE <= v <= 14),
    ensures
        count_value(cards, v) == 0,
    decreases cards.len(),
{
    if cards.len() > 0 {
        lemma_count_outside(cards.drop_last(), v);
    }
}

/// `freq[k]` is the number of cards of value `k + 2`.
fn value_frequencies(cards: &[CardId]) -> (freq: Vec<usize>)
    requires
        all_pack_values(cards@),
    ensures
        freq@.len() == 13,
        forall|k: int| 0 <= k < 13 ==> #[trigger] freq@[k] == count_value(cards@, k + 2),
{
    let n = cards.len();
    let mut freq: Vec<usize> = Vec::new();
    for k in 0..13
        invariant
            freq@.len() == k,
            forall|t: int| 0 <= t < k ==> freq@[t] == 0,
    {
        freq.push(0);
    }
    let mut i: usize = 0;
    while i < n
        invariant
            n == cards@.len(),
            all_pack_values(cards@),
            0 <= i <= n,
            freq@.len() == 13,
            forall|k: int| 0 <= k < 13 ==> #[trigger] freq@[k] == count_value(cards@.take(i as int), k + 2),
            forall|k: int| 0 <= k < 13 ==> #[trigger] freq@[k] <= i,
        decreases n - i,
    {
        let v = cards[i].value.value();
        assert(is_pack_value(cards@[i as int].value@));
        let k = (v - 2) as usize;
        let f = freq[k];
        freq.set(k, f + 1);
        proof {
            let t = cards@.take(i + 1);
            assert(t.drop_last() =~= cards@.take(i as int));
            assert(t.last() == cards@[i as int]);
        }
        i = i + 1;
    }
    assert(cards@.take(n as int) =~= cards@);
    freq
}

/// The largest and the second largest entry of `freq`, as a descending sort would
/// put them first and second.
fn two_largest(freq: &Vec<usize>) -> (r: (usize, usize))
    requires
        freq@.len() == 13,
    ensures
        forall|k: int| 0 <= k < 13 ==> #[trigger] freq@[k] <= r.0,
        exists|m: int|
            0 <= m < 13 && freq@[m] == r.0 && (forall|k: int|
                0 <= k < 13 && k != m ==> #[trigger] freq@[k] <= r.1) && (r.1 == 0 || exists|k: int|
                0 <= k < 13 && k != m && #[trigger] freq@[k] == r.1),
{
    let mut best: usize = freq[0];
    let mut second: usize = 0;
    let ghost mut m: int = 0;
    let mut k: usize = 1;
    while k < 13
        invariant
            freq@.len() == 13,
            1 <= k <= 13,
            0 <= m < k,
            freq@[m] == best,
            forall|j: int| 0 <= j < k ==> #[trigger] freq@[j] <= best,
            forall|j: int| 0 <= j < k && j != m ==> #[trigger] freq@[j] <= second,
            second == 0 || exists|j: int| 0 <= j < k && j != m && #[trigger] freq@[j] == second,
        decreases 13 - k,
    {
        let f = freq[k];
        if f > best {
            proof {
                assert(freq@[m] == best);
            }
            second = best;
            best = f;
            proof {
                m = k as int;
            }
        } else if f > second {
            second = f;
        }
        k = k + 1;
    }
    (best, second)
}

/// What the largest and the second largest frequency tell of the groups of values.
proof fn lemma_groups(cards: Seq<CardId>, freq: Seq<usize>, top: usize, second: usize)
    requires
        all_pack_values(cards),
        freq.len() == 13,
        forall|k: int| 0 <= k < 13 ==> #[trigger] freq[k] == count_value(cards, k + 2),
        forall|k: int| 0 <= k < 13 ==> #[trigger] freq[k] <= top,
        exists|m: int|
            0 <= m < 13 && freq[m] == top && (forall|k: int|
                0 <= k < 13 && k != m ==> #[trigger] freq[k] <= second) && (second == 0
                || exists|k: int| 0 <= k < 13 && k != m && #[trigger] freq[k] == second),
    ensures
        forall|k: nat| k >= 1 ==> (#[trigger] has_group(cards, k) <==> top >= k),
        has_two_groups(cards, 3, 2) <==> top >= 3 && second >= 2,
        has_two_groups(cards, 2, 2) <==> top >= 2 && second >= 2,
{
    let m = choose|m: int|
        0 <= m < 13 && freq[m] == top && (forall|k: int|
            0 <= k < 13 && k != m ==> #[trigger] freq[k] <= second) && (second == 0 || exists|k: int|
            0 <= k < 13 && k != m && #[trigger] freq[k] == second);
    assert forall|k: nat| k >= 1 implies (#[trigger] has_group(cards, k) <==> top >= k) by {
        if has_group(cards, k) {
            let v = choose|v: int| #[trigger] count_value(cards, v) >= k;
            if !(MIN_CARD_VALUE <= v <= 14) {
                lemma_count_outside(cards, v);
            }
            assert(freq[v - 2] == count_value(cards, v));
        }
        if top >= k {
            assert(count_value(cards, m + 2) >= k);
        }
    }
    lemma_two_groups(cards, freq, top, second, m, 3, 2);
    lemma_two_groups(cards, freq, top, second, m, 2, 2);
}

proof fn lemma_two_groups(
    cards: Seq<CardId>,
    freq: Seq<usize>,
    top: usize,
    second: usize,
    m: int,
    a: nat,
    b: nat,
)
    requires
        all_pack_values(cards),
        a >= b >= 1,
        freq.len() == 13,
        forall|k: int| 0 <= k < 13 ==> #[trigger] freq[k] == count_value(cards, k + 2),
        forall|k: int| 0 <= k < 13 ==> #[trigger] freq[k] <= top,
        0 <= m < 13,
        freq[m] == top,
        forall|k: int| 0 <= k < 13 && k != m ==> #[trigger] freq[k] <= second,
        second == 0 || exists|k: int| 0 <= k < 13 && k != m && #[trigger] freq[k] == second,
    ensures
        has_two_groups(cards, a, b) <==> top >= a && second >= b,
{
    if has_two_groups(cards, a, b) {
        let (v, w) = choose|v: int, w: int|
            v != w && #[trigger] count_value(cards, v) >= a && #[trigger] count_value(cards, w) >= b;
        if !(MIN_CARD_VALUE <= v <= 14) {
            lemma_count_outside(cards, v);
        }
        if !(MIN_CARD_VALUE <= w <= 14) {
            lemma_count_outside(cards, w);
        }
        assert(freq[v - 2] == count_value(cards, v));
        assert(freq[w - 2] == count_value(cards, w));
    }
    if top >= a && second >= b {
        let k = choose|k: int| 0 <= k < 13 && k != m && #[trigger] freq[k] == second;
        assert(count_value(cards, m + 2) >= a);
        assert(count_value(cards, k + 2) >= b);
    }
}

/// The number of cards that count as `r` in a straight, read from the frequencies.
fn run_count_at(freq: &Vec<usize>, aces: bool, r: u8, Ghost(cards): Ghost<Seq<CardId>>) -> (c: usize)
    requires
        all_pack_values(cards),
        freq@.len() == 13,
        forall|k: int| 0 <= k < 13 ==> #[trigger] freq@[k] == count_value(cards, k + 2),
        aces == aces_low(cards),
        1 <= r <= 14,
    ensures
        c == run_count(cards, r as int),
{
    if r == 1 {
        if aces {
            freq[12]
        } else {
            proof {
                lemma_count_outside(cards, 1);
            }
            0
        }
    } else if r == 14 {
        if aces {
            0
        } else {
            freq[12]
        }
    } else {
        freq[(r - 2) as usize]
    }
}

/// Whether the cards form a straight, and the value it starts from.
fn run_of(freq: &Vec<usize>, n: usize, Ghost(cards): Ghost<Seq<CardId>>) -> (r: (bool, u8))
    requires
        all_pack_values(cards),
        cards.len() == n,
        n >= 1,
        freq@.len() == 13,
        forall|k: int| 0 <= k < 13 ==> #[trigger] freq@[k] == count_value(cards, k + 2),
    ensures
        r.0 == is_straight(cards),
        r.0 ==> is_run_from(cards, r.1 as int),
{
    let aces = freq[0] > 0;
    assert(freq@[0] == count_value(cards, 2));
    let mut found = false;
    let mut lo: u8 = 0;
    let mut r: u8 = 1;
    while r <= 14
        invariant
            all_pack_values(cards),
            freq@.len() == 13,
            forall|k: int| 0 <= k < 13 ==> #[trigger] freq@[k] == count_value(cards, k + 2),
            aces == aces_low(cards),
            1 <= r <= 15,
            found ==> 1 <= lo < r && run_count(cards, lo as int) > 0 && forall|q: int|
                1 <= q < lo ==> #[trigger] run_count(cards, q) == 0,
            !found ==> forall|q: int| 1 <= q < r ==> #[trigger] run_count(cards, q) == 0,
        decreases 15 - r,
    {
        if !found && run_count_at(freq, aces, r, Ghost(cards)) > 0 {
            found = true;
            lo = r;
        }
        r = r + 1;
    }
    proof {
        assert forall|q: int| !(1 <= q <= 14) implies #[trigger] run_count(cards, q) == 0 by {
            lemma_count_outside(cards, q);
            lemma_count_outside(cards, 1);
        }
    }
    if !found {
        proof {
            if is_straight(cards) {
                let lo2 = choose|lo2: int| is_run_from(cards, lo2);
                assert(run_count(cards, lo2) == 1);
            }
        }
        return (false, 0);
    }
    if n > (15 - lo) as usize {
        proof {
            if is_straight(cards) {
                let lo2 = choose|lo2: int| is_run_from(cards, lo2);
                assert(run_count(cards, lo2) == 1);
                assert(run_count(cards, lo2 + n - 1) == 1);
                if lo2 < lo {
                    assert(run_count(cards, lo2) == 0);
                }
                if lo2 > lo {
                    assert(run_count(cards, lo as int) == 0);
                }
            }
        }
        return (false, lo);
    }
    let mut ok = true;
    let mut q: u8 = 1;
    while q <= 14
        invariant
            all_pack_values(cards),
            freq@.len() == 13,
            forall|k: int| 0 <= k < 13 ==> #[trigger] freq@[k] == count_value(cards, k + 2),
            aces == aces_low(cards),
            1 <= q <= 15,
            1 <= lo <= 14,
            lo + n <= 15,
            ok <==> forall|p: int|
                1 <= p < q ==> #[trigger] run_count(cards, p) == if lo <= p < lo + n {
                    1nat
                } else {
                    0nat
                },
        decreases 15 - q,
    {
        let c = run_count_at(freq, aces, q, Ghost(cards));
        let want: usize = if lo <= q && (q as usize) < (lo as usize) + n {
            1
        } else {
            0
        };
        if c != want {
            ok = false;
        }
        q = q + 1;
    }
    proof {
        if ok {
            assert forall|p: int| #[trigger]
                run_count(cards, p) == if lo <= p < lo + n {
                    1nat
                } else {
                    0nat
                } by {
                if !(1 <= p <= 14) {
                    assert(run_count(cards, p) == 0);
                }
            }
            assert(is_run_from(cards, lo as int));
        } else {
            if is_straight(cards) {
                let lo2 = choose|lo2: int| is_run_from(cards, lo2);
                assert(run_count(cards, lo2) == 1);
                if lo2 < lo {
                    assert(run_count(cards, lo2) == 0);
                }
                if lo2 > lo {
                    assert(run_count(cards, lo as int) == 0);
                }
                assert(lo2 == lo);
            }
        }
    }
    (ok, lo)
}

/// A straight from `lo` starts at 10 exactly when `lo` is 10.
proof fn lemma_run_start(cards: Seq<CardId>, lo: int)
    requires
        cards.len() >= 1,
        is_run_from(cards, lo),
    ensures
        is_run_from(cards, 10) <==> lo == 10,
{
    if is_run_from(cards, 10) {
        assert(run_count(cards, lo) == 1);
        assert(run_count(cards, 10) == 1);
    }
}

// ---------------------------------------------------------------------------
// The hand does not depend on the order of the cards
// ---------------------------------------------------------------------------

proof fn lemma_count_remove(t: Seq<CardId>, k: int, v: int)
    requires
        0 <= k < t.len(),
    ensures
        count_value(t, v) == count_value(t.remove(k), v) + if t[k].value@ == v {
            1nat
        } else {
            0nat
        },
    decreases t.len(),
{
    if k == t.len() - 1 {
        assert(t.remove(k) =~= t.drop_last());
    } else {
        lemma_count_remove(t.drop_last(), k, v);
        assert(t.remove(k).drop_last() =~= t.drop_last().remove(k));
        assert(t.remove(k).last() == t.last());
    }
}

proof fn lemma_count_ignores_order(s: Seq<CardId>, t: Seq<CardId>, v: int)
    requires
        s.to_multiset() == t.to_multiset(),
    ensures
        count_value(s, v) == count_value(t, v),
    decreases s.len(),
{
    broadcast use vstd::seq_lib::group_to_multiset_ensures;

    if s.len() == 0 {
        assert(t.len() == t.to_multiset().len());
        assert(t.len() == 0);
    } else {
        let x = s.last();
        let s1 = s.drop_last();
        assert(s1.push(x) =~= s);
        assert(s.to_multiset().count(x) > 0);
        assert(t.contains(x));
        let k = choose|k: int| 0 <= k < t.len() && t[k] == x;
        let t1 = t.remove(k);
        assert(s1.to_multiset() =~= t1.to_multiset());
        lemma_count_ignores_order(s1, t1, v);
        lemma_count_remove(t, k, v);
    }
}

proof fn lemma_flush_ignores_order(s: Seq<CardId>, t: Seq<CardId>)
    requires
        s.to_multiset() == t.to_multiset(),
        is_flush(s),
    ensures
        is_flush(t),
{
    broadcast use vstd::seq_lib::group_to_multiset_ensures;

    assert forall|i: int| 0 <= i < t.len() implies #[trigger] t[i].suit == t[0].suit by {
        assert(t.to_multiset().count(t[i]) > 0);
        assert(t.to_multiset().count(t[0]) > 0);
        assert(s.contains(t[i]));
        assert(s.contains(t[0]));
        let a = choose|a: int| 0 <= a < s.len() && s[a] == t[i];
        let b = choose|b: int| 0 <= b < s.len() && s[b] == t[0];
        assert(s[a].suit == s[0].suit);
        assert(s[b].suit == s[0].suit);
    }
}

/// The hand that a line of cards makes does not depend on the order of the cards.
pub proof fn lemma_hand_ignores_order(s: Seq<CardId>, t: Seq<CardId>)
    requires
        s.to_multiset() == t.to_multiset(),
    ensures
        poker_hand_of(s) == poker_hand_of(t),
{
    broadcast use vstd::seq_lib::group_to_multiset_ensures;

    assert(s.len() == s.to_multiset().len());
    assert(t.len() == t.to_multiset().len());
    assert forall|v: int| #[trigger] count_value(s, v) == count_value(t, v) by {
        lemma_count_ignores_order(s, t, v);
    }
    if is_flush(s) {
        lemma_flush_ignores_order(s, t);
    }
    if is_flush(t) {
        lemma_flush_ignores_order(t, s);
    }
    assert forall|r: int| #[trigger] run_count(s, r) == run_count(t, r) by {
        assert(count_value(s, 2) == count_value(t, 2));
        assert(count_value(s, 14) == count_value(t, 14));
        assert(count_value(s, r) == count_value(t, r));
    }
    assert forall|lo: int| #[trigger] is_run_from(s, lo) == is_run_from(t, lo) by {
        if is_run_from(s, lo) {
            assert forall|r: int| #[trigger]
                run_count(t, r) == if lo <= r < lo + t.len() {
                    1nat
                } else {
                    0nat
                } by {
                assert(run_count(s, r) == run_count(t, r));
            }
        }
        if is_run_from(t, lo) {
            assert forall|r: int| #[trigger]
                run_count(s, r) == if lo <= r < lo + s.len() {
                    1nat
                } else {
                    0nat
                } by {
                assert(run_count(s, r) == run_count(t, r));
            }
        }
    }
    if is_straight(s) {
        let lo = choose|lo: int| is_run_from(s, lo);
        assert(is_run_from(t, lo));
    }
    if is_straight(t) {
        let lo = choose|lo: int| is_run_from(t, lo);
        assert(is_run_from(s, lo));
    }
    assert forall|k: nat| #[trigger] has_group(s, k) == has_group(t, k) by {
        if has_group(s, k) {
            let v = choose|v: int| #[trigger] count_value(s, v) >= k;
            assert(count_value(t, v) >= k);
        }
        if has_group(t, k) {
            let v = choose|v: int| #[trigger] count_value(t, v) >= k;
            assert(count_value(s, v) >= k);
        }
    }
    assert forall|k: nat, m: nat| #[trigger] has_two_groups(s, k, m) == has_two_groups(t, k, m) by {
        if has_two_groups(s, k, m) {
            let (v, w) = choose|v: int, w: int|
                v != w && #[trigger] count_value(s, v) >= k && #[trigger] count_value(s, w) >= m;
            assert(count_value(t, v) >= k && count_value(t, w) >= m);
        }
        if has_two_groups(t, k, m) {
            let (v, w) = choose|v: int, w: int|
                v != w && #[trigger] count_value(t, v) >= k && #[trigger] count_value(t, w) >= m;
            assert(count_value(s, v) >= k && count_value(s, w) >= m);
        }
    }
}

// ---------------------------------------------------------------------------
// `identify_hand` only puts the cards in order
// ---------------------------------------------------------------------------

/// The cards are in order of value.
pub open spec fn sorted_by_value(cards: Seq<CardId>) -> bool {
    forall|i: int, j: int| 0 <= i <= j < cards.len() ==> cards[i].value@ <= cards[j].value@
}

proof fn lemma_insert_keeps(sorted: Seq<CardId>, c: CardId)
    ensures
        insert_by_value(sorted, c).to_multiset() == sorted.to_multiset().insert(c),
        sorted_by_value(sorted) ==> sorted_by_value(insert_by_value(sorted, c)),
    decreases sorted.len(),
{
    broadcast use vstd::seq_lib::group_to_multiset_ensures;

    lemma_insert_len(sorted, c);
    if sorted.len() == 0 || sorted.last().value@ <= c.value@ {
    } else {
        let rest = sorted.drop_last();
        lemma_insert_keeps(rest, c);
        lemma_insert_len(rest, c);
        assert(rest.push(sorted.last()) =~= sorted);
        assert(insert_by_value(rest, c).to_multiset() =~= rest.to_multiset().insert(c));
        assert(sorted.to_multiset() =~= rest.to_multiset().insert(sorted.last()));
        assert(insert_by_value(sorted, c).to_multiset() =~= sorted.to_multiset().insert(c));
        if sorted_by_value(sorted) {
            let r = insert_by_value(rest, c);
            assert forall|i: int| 0 <= i < r.len() implies #[trigger] r[i].value@ <= sorted.last().value@ by {
                assert(r.to_multiset().count(r[i]) > 0);
                assert(r.contains(r[i]));
                if r[i] != c {
                    assert(rest.to_multiset().count(r[i]) > 0);
                    assert(rest.contains(r[i]));
                    let k = choose|k: int| 0 <= k < rest.len() && rest[k] == r[i];
                    assert(sorted[k] == rest[k]);
                }
            }
        }
    }
}

proof fn lemma_sort_keeps(cards: Seq<CardId>)
    ensures
        sort_by_value(cards).to_multiset() == cards.to_multiset(),
        sorted_by_value(sort_by_value(cards)),
    decreases cards.len(),
{
    broadcast use vstd::seq_lib::group_to_multiset_ensures;

    if cards.len() == 0 {
    } else {
        let rest = cards.drop_last();
        lemma_sort_keeps(rest);
        lemma_insert_keeps(sort_by_value(rest), cards.last());
        assert(rest.push(cards.last()) =~= cards);
    }
}

proof fn lemma_lower_aces_keeps(s: Seq<CardId>, t: Seq<CardId>)
    requires
        s.to_multiset() == t.to_multiset(),
    ensures
        lower_aces(s).to_multiset() == lower_aces(t).to_multiset(),
    decreases s.len(),
{
    broadcast use vstd::seq_lib::group_to_multiset_ensures;

    if s.len() == 0 {
        assert(t.len() == t.to_multiset().len());
        assert(lower_aces(s) =~= lower_aces(t));
    } else {
        let x = s.last();
        let s1 = s.drop_last();
        assert(s1.push(x) =~= s);
        assert(s.to_multiset().count(x) > 0);
        assert(t.contains(x));
        let k = choose|k: int| 0 <= k < t.len() && t[k] == x;
        let t1 = t.remove(k);
        assert(s1.to_multiset() =~= t1.to_multiset());
        lemma_lower_aces_keeps(s1, t1);
        assert(lower_aces(s) =~= lower_aces(s1).push(lower_aces(s)[s.len() - 1]));
        assert(lower_aces(t1) =~= lower_aces(t).remove(k));
        let lt = lower_aces(t);
        assert(lt.remove(k).to_multiset() =~= lt.to_multiset().remove(lt[k]));
        assert(lt.to_multiset().count(lt[k]) > 0) by {
            assert(lt.contains(lt[k]));
        }
        assert(lt.to_multiset() =~= lt.remove(k).to_multiset().insert(lt[k]));
    }
}

/// `identify_hand` only puts the cards in order: it leaves them sorted by value, and
/// they are the cards it was given, with each ace made a low ace when there is a 2
/// among them.
pub proof fn lemma_hand_order_rearranges(cards: Seq<CardId>)
    requires
        all_pack_values(cards),
    ensures
        sorted_by_value(hand_order(cards)),
        hand_order(cards).to_multiset() == if aces_low(cards) {
            lower_aces(cards).to_multiset()
        } else {
            cards.to_multiset()
        },
{
    broadcast use vstd::seq_lib::group_to_multiset_ensures;

    let sorted = sort_by_value(cards);
    lemma_sort_keeps(cards);
    lemma_sort_len(cards);
    if cards.len() > 0 {
        // The first sorted card has the least value, so it is a 2 exactly when a 2 is held.
        assert(sorted.to_multiset().count(sorted[0]) > 0) by {
            assert(sorted.contains(sorted[0]));
        }
        assert(cards.contains(sorted[0]));
        let a = choose|a: int| 0 <= a < cards.len() && cards[a] == sorted[0];
        assert(crate::cards::is_pack_value(cards[a].value@));
        if sorted[0].value@ == 2 {
            assert(count_value(cards, 2) > 0) by {
                lemma_count_positive(cards, a);
            }
        } else {
            assert(sorted[0].value@ > 2);
            assert(count_value(cards, 2) == 0) by {
                lemma_count_absent(cards, 2, sorted);
            }
        }
        if sorted[0].value@ == 2 {
            lemma_sort_keeps(lower_aces(sorted));
            lemma_lower_aces_keeps(sorted, cards);
        }
    } else {
        assert(count_value(cards, 2) == 0);
    }
}

proof fn lemma_count_positive(cards: Seq<CardId>, a: int)
    requires
        0 <= a < cards.len(),
    ensures
        count_value(cards, cards[a].value@ as int) > 0,
    decreases cards.len(),
{
    if a < cards.len() - 1 {
        lemma_count_positive(cards.drop_last(), a);
    }
}

/// A value below the least value of a sorted arrangement of the cards is held by none.
proof fn lemma_count_absent(cards: Seq<CardId>, v: int, sorted: Seq<CardId>)
    requires
        sorted.to_multiset() == cards.to_multiset(),
        sorted_by_value(sorted),
        sorted.len() > 0,
        v < sorted[0].value@,
    ensures
        count_value(cards, v) == 0,
    decreases cards.len(),
{
    broadcast use vstd::seq_lib::group_to_multiset_ensures;

    if count_value(cards, v) > 0 {
        let a = lemma_count_witness(cards, v);
        assert(cards.to_multiset().count(cards[a]) > 0) by {
            assert(cards.contains(cards[a]));
        }
        assert(sorted.contains(cards[a]));
        let k = choose|k: int| 0 <= k < sorted.len() && sorted[k] == cards[a];
        assert(sorted[0].value@ <= sorted[k].value@);
    }
}

proof fn lemma_count_witness(cards: Seq<CardId>, v: int) -> (a: int)
    requires
        count_value(cards, v) > 0,
    ensures
        0 <= a < cards.len(),
        cards[a].value@ == v,
    decreases cards.len(),
{
    if cards.last().value@ == v {
        cards.len() - 1
    } else {
        lemma_count_witness(cards.drop_last(), v)
    }
}

/// Identifies the poker hand that the cards make.
///
/// The cards are left sorted by value; when the lowest is a 2, aces count low, are made
/// low aces and the cards sorted again.
pub fn identify_hand(cards: &mut [CardId]) -> (hand: PokerHand)
    requires
        all_pack_values(old(cards)@),
    ensures
        hand == poker_hand_of(old(cards)@),
        final(cards)@ == hand_order(old(cards)@),
        final(cards)@.len() == old(cards)@.len(),
{
    let ghost s = cards@;
    let n = cards.len();
    if n == 0 {
        assert(hand_order(s) =~= s);
        return PokerHand::Nothing;
    }
    let freq = value_frequencies(cards);
    let (top, second) = two_largest(&freq);
    proof {
        lemma_groups(s, freq@, top, second);
    }

    let mut one_suit_only = true;
    let first_suit = cards[0].suit;
    let mut i: usize = 1;
    while i < n
        invariant
            n == cards@.len(),
            cards@ == s,
            1 <= i <= n,
            first_suit == s[0].suit,
            one_suit_only <==> forall|t: int| 0 <= t < i ==> #[trigger] s[t].suit == s[0].suit,
        decreases n - i,
    {
        if cards[i].suit != first_suit {
            one_suit_only = false;
        }
        i = i + 1;
    }

    sort_cards_by_value(cards);
    proof {
        lemma_sort_len(s);
    }
    if cards[0].value.value() == 2 {
        lower_card_aces(cards);
        proof {
            lemma_sort_len(cards@);
        }
        sort_cards_by_value(cards);
    }

    let (has_run, lowest) = run_of(&freq, n, Ghost(s));
    proof {
        if has_run {
            lemma_run_start(s, lowest as int);
        }
    }

    if top >= 5 {
        return PokerHand::FiveOfAKind;
    }
    if has_run && one_suit_only && lowest == 10 {
        return PokerHand::RoyalFlush;
    }
    if has_run && one_suit_only {
        return PokerHand::StraightFlush;
    }
    if top >= 4 {
        return PokerHand::FourOfAKind;
    }
    if top >= 3 && second >= 2 {
        return PokerHand::FullHouse;
    }
    if one_suit_only {
        return PokerHand::Flush;
    }
    if has_run {
        return PokerHand::Straight;
    }
    if top >= 3 {
        return PokerHand::ThreeOfAKind;
    }
    if top >= 2 && second >= 2 {
        return PokerHand::TwoPair;
    }
    if top >= 2 {
        return PokerHand::OnePair;
    }
    PokerHand::Nothing
}

// ---------------------------------------------------------------------------
// Straights
// ---------------------------------------------------------------------------

/// What card `i` counts as in a run: an ace counts as 1 when a 2 is among the cards,
/// every other card as its value.
pub open spec fn run_value(cards: Seq<CardId>, i: int) -> int {
    if cards[i].value@ == 14 && exists|k: int| 0 <= k < cards.len() && #[trigger] cards[k].value@ == 2 {
        1
    } else {
        cards[i].value@ as int
    }
}

/// Some card counts as `r` in a run.
pub open spec fn some_card_counts_as(cards: Seq<CardId>, r: int) -> bool {
    exists|i: int| 0 <= i < cards.len() && #[trigger] run_value(cards, i) == r
}

/// Five cards count, one card each, as the five consecutive values `lo` to `lo + 4`.
pub open spec fn counts_consecutively_from(cards: Seq<CardId>, lo: int) -> bool {
    &&& cards.len() == 5
    &&& forall|i: int| 0 <= i < 5 ==> lo <= #[trigger] run_value(cards, i) < lo + 5
    &&& forall|r: int| lo <= r < lo + 5 ==> #[trigger] some_card_counts_as(cards, r)
    &&& forall|i: int, j: int|
        0 <= i < 5 && 0 <= j < 5 && #[trigger] run_value(cards, i) == #[trigger] run_value(cards, j) ==> i
            == j
}

proof fn lemma_count_at_most_one(cards: Seq<CardId>, v: int)
    requires
        forall|i: int, j: int|
            0 <= i < cards.len() && 0 <= j < cards.len() && #[trigger] cards[i].value@ == v
                && #[trigger] cards[j].value@ == v ==> i == j,
    ensures
        count_value(cards, v) <= 1,
    decreases cards.len(),
{
    if cards.len() > 0 {
        let s = cards.drop_last();
        if cards.last().value@ == v && count_value(s, v) > 0 {
            let a = lemma_count_witness(s, v);
            assert(cards[a].value@ == v);
            assert(cards[cards.len() - 1].value@ == v);
        }
        lemma_count_at_most_one(s, v);
    }
}

/// Five cards of the pack that count as five consecutive values make a straight: a
/// Straight when their suits differ, a straight flush when they share one suit (a royal
/// flush when the run is 10 to ace). With a 2 among them an ace counts as 1, so ace to 5
/// is a straight.
pub proof fn lemma_consecutive_values_make_a_straight(cards: Seq<CardId>, lo: int)
    requires
        all_pack_values(cards),
        counts_consecutively_from(cards, lo),
    ensures
        (exists|i: int| 0 <= i < 5 && #[trigger] cards[i].suit != cards[0].suit) ==> poker_hand_of(cards)
            == PokerHand::Straight,
        (forall|i: int| 0 <= i < 5 ==> #[trigger] cards[i].suit == cards[0].suit) ==> poker_hand_of(cards)
            == if lo == 10 {
            PokerHand::RoyalFlush
        } else {
            PokerHand::StraightFlush
        },
{
    let two = exists|k: int| 0 <= k < cards.len() && #[trigger] cards[k].value@ == 2;
    // A 2 is among the cards exactly when aces count low.
    if two {
        let k = choose|k: int| 0 <= k < cards.len() && #[trigger] cards[k].value@ == 2;
        lemma_count_positive(cards, k);
        assert(run_value(cards, k) == 2);
    }
    if aces_low(cards) {
        let k = lemma_count_witness(cards, 2);
        assert(cards[k].value@ == 2);
    }
    assert(aces_low(cards) == two);
    // No two cards share a value.
    assert forall|v: int| #[trigger] count_value(cards, v) <= 1 by {
        assert forall|i: int, j: int|
            0 <= i < cards.len() && 0 <= j < cards.len() && #[trigger] cards[i].value@ == v
                && #[trigger] cards[j].value@ == v implies i == j by {
            assert(run_value(cards, i) == run_value(cards, j));
        }
        lemma_count_at_most_one(cards, v);
    }
    // Each of lo to lo + 4 is counted by exactly one card, and nothing else is.
    assert forall|r: int| #[trigger]
        run_count(cards, r) == if lo <= r < lo + cards.len() {
            1nat
        } else {
            0nat
        } by {
        // The raw value that counts as `r`.
        let m = if two && r == 1 { 14 } else { r };
        if two && r == 14 {
            let k = choose|k: int| 0 <= k < cards.len() && #[trigger] cards[k].value@ == 2;
            assert(run_value(cards, k) == 2);
        } else {
            assert(run_count(cards, r) == count_value(cards, m));
            assert forall|i: int| 0 <= i < 5 implies (#[trigger] cards[i].value@ == m) == (run_value(
                cards,
                i,
            ) == r) by {
                assert(is_pack_value(cards[i].value@));
            }
            if lo <= r < lo + 5 {
                assert(some_card_counts_as(cards, r));
                let i = choose|i: int| 0 <= i < cards.len() && #[trigger] run_value(cards, i) == r;
                assert(cards[i].value@ == m);
                lemma_count_positive(cards, i);
            } else if count_value(cards, m) > 0 {
                let i = lemma_count_witness(cards, m);
                assert(run_value(cards, i) == r);
            }
        }
    }
    assert(is_run_from(cards, lo));
    assert(is_straight(cards));
    lemma_run_start(cards, lo);
    assert(!has_group(cards, 2));
    assert(!has_two_groups(cards, 3, 2));
    assert(!has_group(cards, 4));
}

proof fn lemma_count_two(cards: Seq<CardId>, i: int, j: int)
    requires
        0 <= i < cards.len(),
        0 <= j < cards.len(),
        i != j,
        cards[i].value@ == cards[j].value@,
    ensures
        count_value(cards, cards[i].value@ as int) >= 2,
{
    let v = cards[i].value@ as int;
    lemma_count_remove(cards, i, v);
    let t = cards.remove(i);
    let j2 = if j < i { j } else { j - 1 };
    assert(t[j2] == cards[j]);
    lemma_count_positive(t, j2);
}

/// Five cards of the pack that run from `lo` count, one card each, as `lo` to `lo + 4`.
proof fn lemma_run_counts_consecutively(cards: Seq<CardId>, lo: int)
    requires
        all_pack_values(cards),
        cards.len() == 5,
        is_run_from(cards, lo),
    ensures
        counts_consecutively_from(cards, lo),
{
    let two = exists|k: int| 0 <= k < cards.len() && #[trigger] cards[k].value@ == 2;
    if two {
        let k = choose|k: int| 0 <= k < cards.len() && #[trigger] cards[k].value@ == 2;
        lemma_count_positive(cards, k);
    }
    if aces_low(cards) {
        let k = lemma_count_witness(cards, 2);
        assert(cards[k].value@ == 2);
    }
    assert(aces_low(cards) == two);
    // Each card adds one to the count of what it counts as.
    assert forall|i: int| 0 <= i < 5 implies run_count(cards, #[trigger] run_value(cards, i))
        >= 1 && (forall|j: int| 0 <= j < 5 && j != i && run_value(cards, j) == run_value(cards, i)
        ==> run_count(cards, run_value(cards, i)) >= 2) by {
        assert(is_pack_value(cards[i].value@));
        lemma_count_positive(cards, i);
        assert forall|j: int| 0 <= j < 5 && j != i && run_value(cards, j) == run_value(cards, i) implies run_count(
            cards,
            run_value(cards, i),
        ) >= 2 by {
            assert(is_pack_value(cards[j].value@));
            assert(cards[j].value@ == cards[i].value@);
            lemma_count_two(cards, i, j);
        }
    }
    assert forall|i: int| 0 <= i < 5 implies lo <= #[trigger] run_value(cards, i) < lo + 5 by {
        assert(run_count(cards, run_value(cards, i)) >= 1);
    }
    assert forall|r: int| lo <= r < lo + 5 implies #[trigger] some_card_counts_as(cards, r) by {
        assert(run_count(cards, r) == 1);
        let m = if two && r == 1 { 14 } else { r };
        if two && r == 14 {
            assert(run_count(cards, r) == 0);
        } else {
            assert(run_count(cards, r) == count_value(cards, m));
            let i = lemma_count_witness(cards, m);
            assert(is_pack_value(cards[i].value@));
            assert(run_value(cards, i) == r);
        }
    }
    assert forall|i: int, j: int|
        0 <= i < 5 && 0 <= j < 5 && #[trigger] run_value(cards, i) == #[trigger] run_value(cards, j) implies i
        == j by {
        if i != j {
            assert(run_count(cards, run_value(cards, i)) >= 2);
            assert(run_count(cards, run_value(cards, i)) <= 1);
        }
    }
}

/// A line of five cards of the pack that makes a Straight counts, one card each, as five
/// consecutive values (an ace as 1 when a 2 is among them), and its suits differ.
pub proof fn lemma_straight_counts_consecutively(cards: Seq<CardId>)
    requires
        all_pack_values(cards),
        cards.len() == 5,
        poker_hand_of(cards) == PokerHand::Straight,
    ensures
        exists|lo: int| #[trigger] counts_consecutively_from(cards, lo),
        exists|i: int| 0 <= i < 5 && #[trigger] cards[i].suit != cards[0].suit,
{
    let lo = choose|lo: int| is_run_from(cards, lo);
    lemma_run_counts_consecutively(cards, lo);
    assert(!is_flush(cards));
}

/// Five cards of the pack with five different values make, by their values and suits
/// alone: a straight of some kind when they count as five consecutive values (royal when
/// from 10, a straight flush when of one suit, else a Straight); otherwise a Flush when of
/// one suit, and Nothing when not.
pub proof fn lemma_distinct_values_hand(cards: Seq<CardId>)
    requires
        all_pack_values(cards),
        cards.len() == 5,
        forall|i: int, j: int|
            0 <= i < 5 && 0 <= j < 5 && i != j ==> #[trigger] cards[i].value@ != #[trigger] cards[j].value@,
    ensures
        ({
            let one_suit = forall|i: int| 0 <= i < 5 ==> #[trigger] cards[i].suit == cards[0].suit;
            let consecutive = exists|lo: int| #[trigger] counts_consecutively_from(cards, lo);
            poker_hand_of(cards) == if consecutive && one_suit && counts_consecutively_from(cards, 10) {
                PokerHand::RoyalFlush
            } else if consecutive && one_suit {
                PokerHand::StraightFlush
            } else if one_suit {
                PokerHand::Flush
            } else if consecutive {
                PokerHand::Straight
            } else {
                PokerHand::Nothing
            }
        }),
{
    let consecutive = exists|lo: int| #[trigger] counts_consecutively_from(cards, lo);
    if consecutive {
        let lo = choose|lo: int| #[trigger] counts_consecutively_from(cards, lo);
        lemma_consecutive_values_make_a_straight(cards, lo);
        if counts_consecutively_from(cards, 10) && lo != 10 {
            // Both lo and 10 would be the least value counted.
            assert(some_card_counts_as(cards, lo));
            assert(some_card_counts_as(cards, 10));
            let a = choose|i: int| 0 <= i < cards.len() && #[trigger] run_value(cards, i) == lo;
            let b = choose|i: int| 0 <= i < cards.len() && #[trigger] run_value(cards, i) == 10;
            assert(10 <= run_value(cards, a));
            assert(lo <= run_value(cards, b));
        }
    } else {
        assert forall|v: int| #[trigger] count_value(cards, v) <= 1 by {
            lemma_count_at_most_one(cards, v);
        }
        if is_straight(cards) {
            let lo = choose|lo: int| is_run_from(cards, lo);
            lemma_run_counts_consecutively(cards, lo);
        }
        assert(!has_group(cards, 2));
        assert(!has_two_groups(cards, 3, 2));
        assert(!has_group(cards, 4));
        assert(!has_two_groups(cards, 2, 2));
    }
}

/// How many of the cards share card `i`'s value.
pub open spec fn held_by(cards: Seq<CardId>, i: int) -> nat {
    cards.filter(|c: CardId| c.value@ == cards[i].value@).len()
}

proof fn lemma_filter_counts_value(cards: Seq<CardId>, v: u8)
    ensures
        cards.filter(|c: CardId| c.value@ == v).len() == count_value(cards, v as int),
    decreases cards.len(),
{
    reveal(Seq::filter);
    if cards.len() > 0 {
        lemma_filter_counts_value(cards.drop_last(), v);
        assert(cards.drop_last().push(cards.last()) =~= cards);
    }
}

/// Five cards of the pack in which some value repeats make, by how many cards share a
/// value and by their suits: five of a kind, four of a kind, a full house (three of one
/// value and two of another), a flush when of one suit, three of a kind, two pair (two
/// values held twice each), or else one pair. No straight has a repeated value.
pub proof fn lemma_repeated_values_hand(cards: Seq<CardId>)
    requires
        all_pack_values(cards),
        cards.len() == 5,
        exists|i: int, j: int|
            0 <= i < 5 && 0 <= j < 5 && i != j && #[trigger] cards[i].value@ == #[trigger] cards[j].value@,
    ensures
        poker_hand_of(cards) == if exists|i: int| 0 <= i < 5 && #[trigger] held_by(cards, i) >= 5 {
            PokerHand::FiveOfAKind
        } else if exists|i: int| 0 <= i < 5 && #[trigger] held_by(cards, i) >= 4 {
            PokerHand::FourOfAKind
        } else if exists|i: int, j: int|
            0 <= i < 5 && 0 <= j < 5 && cards[i].value@ != cards[j].value@ && #[trigger] held_by(cards, i) >= 3
                && #[trigger] held_by(cards, j) >= 2 {
            PokerHand::FullHouse
        } else if forall|i: int| 0 <= i < 5 ==> #[trigger] cards[i].suit == cards[0].suit {
            PokerHand::Flush
        } else if exists|i: int| 0 <= i < 5 && #[trigger] held_by(cards, i) >= 3 {
            PokerHand::ThreeOfAKind
        } else if exists|i: int, j: int|
            0 <= i < 5 && 0 <= j < 5 && cards[i].value@ != cards[j].value@ && #[trigger] held_by(cards, i) >= 2
                && #[trigger] held_by(cards, j) >= 2 {
            PokerHand::TwoPair
        } else {
            PokerHand::OnePair
        },
{
    assert forall|i: int| 0 <= i < 5 implies #[trigger] held_by(cards, i) == count_value(
        cards,
        cards[i].value@ as int,
    ) by {
        let v = cards[i].value@;
        lemma_filter_counts_value(cards, v);
        assert((|c: CardId| c.value@ == cards[i].value@) =~= (|c: CardId| c.value@ == v));
    }
    // Groups of values are groups of cards.
    assert forall|k: nat| #[trigger] has_group(cards, k) && k > 0 <==> exists|i: int|
        0 <= i < 5 && #[trigger] held_by(cards, i) >= k && k > 0 by {
        if has_group(cards, k) && k > 0 {
            let v = choose|v: int| #[trigger] count_value(cards, v) >= k;
            let a = lemma_count_witness(cards, v);
            assert(held_by(cards, a) >= k);
        }
    }
    assert forall|k: nat, m: nat| #[trigger] has_two_groups(cards, k, m) && k > 0 && m > 0 <==> exists|
        i: int,
        j: int,
    |
        0 <= i < 5 && 0 <= j < 5 && cards[i].value@ != cards[j].value@ && #[trigger] held_by(cards, i)
            >= k && #[trigger] held_by(cards, j) >= m && k > 0 && m > 0 by {
        if has_two_groups(cards, k, m) && k > 0 && m > 0 {
            let (v, w) = choose|v: int, w: int|
                v != w && #[trigger] count_value(cards, v) >= k && #[trigger] count_value(cards, w) >= m;
            let a = lemma_count_witness(cards, v);
            let b = lemma_count_witness(cards, w);
            assert(held_by(cards, a) >= k && held_by(cards, b) >= m);
        }
        if exists|i: int, j: int|
            0 <= i < 5 && 0 <= j < 5 && cards[i].value@ != cards[j].value@ && #[trigger] held_by(cards, i)
                >= k && #[trigger] held_by(cards, j) >= m && k > 0 && m > 0 {
            let (i, j) = choose|i: int, j: int|
                0 <= i < 5 && 0 <= j < 5 && cards[i].value@ != cards[j].value@ && #[trigger] held_by(cards, i)
                    >= k && #[trigger] held_by(cards, j) >= m && k > 0 && m > 0;
            assert(count_value(cards, cards[i].value@ as int) >= k);
            assert(count_value(cards, cards[j].value@ as int) >= m);
        }
    }
    // A repeated value rules out every straight.
    let (i, j) = choose|i: int, j: int|
        0 <= i < 5 && 0 <= j < 5 && i != j && #[trigger] cards[i].value@ == #[trigger] cards[j].value@;
    lemma_count_two(cards, i, j);
    if is_straight(cards) {
        let lo = choose|lo: int| is_run_from(cards, lo);
        lemma_run_counts_consecutively(cards, lo);
        assert(run_value(cards, i) == run_value(cards, j));
    }
    assert(has_group(cards, 2));
}

} // verus!
