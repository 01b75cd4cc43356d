//! Positions in the order of their keys.

use crate::seqs;
use vstd::prelude::*;

verus! {

/// Whether `order` lists every position of `keys` once, by ascending key and,
/// where keys are equal, by ascending position.
pub open spec fn is_sorted_order(order: Seq<u32>, keys: Seq<u32>) -> bool {
    &&& order.len() == keys.len()
    &&& forall|a: int| 0 <= a < order.len() ==> #[trigger] order[a] < keys.len()
    &&& forall|a: int, b: int|
        0 <= a < b < order.len() ==> {
            ||| keys[#[trigger] order[a] as int] < keys[#[trigger] order[b] as int]
            ||| keys[order[a] as int] == keys[order[b] as int] && order[a] < order[b]
        }
}

/// How many of the first `i` digits equal `digit`.
spec fn count_equal(digits: Seq<u32>, i: int, digit: int) -> nat
    decreases i,
{
    if i <= 0 {
        0
    } else {
        count_equal(digits, i - 1, digit) + (if digits[i - 1] == digit {
            1nat
        } else {
            0nat
        })
    }
}

/// How many of the first `i` digits are below `digit`.
spec fn count_below(digits: Seq<u32>, i: int, digit: int) -> nat
    decreases i,
{
    if i <= 0 {
        0
    } else {
        count_below(digits, i - 1, digit) + (if digits[i - 1] < digit {
            1nat
        } else {
            0nat
        })
    }
}

/// Where a stable sort by digit puts the number at position `j`.
spec fn place(digits: Seq<u32>, j: int) -> int {
    count_below(digits, digits.len() as int, digits[j] as int) as int + count_equal(
        digits,
        j,
        digits[j] as int,
    )
}

proof fn lemma_counts(digits: Seq<u32>, i: int, digit: int)
    requires
        0 <= i <= digits.len(),
    ensures
        count_below(digits, i, digit + 1) == count_below(digits, i, digit) + count_equal(
            digits,
            i,
            digit,
        ),
        count_below(digits, i, digit) <= i,
        count_below(digits, i, digit) + count_equal(digits, i, digit) <= i,
        count_below(digits, i, 0) == 0,
    decreases i,
{
    if i > 0 {
        lemma_counts(digits, i - 1, digit);
    }
}

proof fn lemma_count_below_grows(digits: Seq<u32>, i: int, low: int, high: int)
    requires
        low <= high,
    ensures
        count_below(digits, i, low) <= count_below(digits, i, high),
    decreases i,
{
    if i > 0 {
        lemma_count_below_grows(digits, i - 1, low, high);
    }
}

proof fn lemma_count_equal_grows(digits: Seq<u32>, j: int, k: int, digit: int)
    requires
        0 <= j <= k,
    ensures
        count_equal(digits, j, digit) <= count_equal(digits, k, digit),
    decreases k - j,
{
    if j < k {
        lemma_count_equal_grows(digits, j, k - 1, digit);
    }
}

/// Places follow the digits first and the positions second.
proof fn lemma_places_are_ordered(digits: Seq<u32>, j: int, k: int)
    requires
        0 <= j < digits.len(),
        0 <= k < digits.len(),
        digits[j] < digits[k] || (digits[j] == digits[k] && j < k),
    ensures
        0 <= place(digits, j) < place(digits, k) < digits.len(),
{
    let n = digits.len() as int;
    lemma_count_equal_grows(digits, j + 1, n, digits[j] as int);
    lemma_count_equal_grows(digits, k + 1, n, digits[k] as int);
    lemma_counts(digits, n, digits[j] as int);
    lemma_counts(digits, n, digits[k] as int);
    if digits[j] < digits[k] {
        lemma_count_below_grows(digits, n, digits[j] + 1, digits[k] as int);
    } else {
        lemma_count_equal_grows(digits, j + 1, k, digits[j] as int);
    }
}

proof fn lemma_place_fits(digits: Seq<u32>, j: int)
    requires
        0 <= j < digits.len(),
    ensures
        0 <= place(digits, j) < digits.len(),
{
    let n = digits.len() as int;
    lemma_count_equal_grows(digits, j + 1, n, digits[j] as int);
    lemma_counts(digits, n, digits[j] as int);
}

/// The position that is put at place `p`.
proof fn lemma_place_is_taken(digits: Seq<u32>, p: int) -> (j: int)
    requires
        0 <= p < digits.len(),
    ensures
        0 <= j < digits.len(),
        place(digits, j) == p,
{
    let places = Seq::new(digits.len(), |j: int| place(digits, j));
    assert forall|a: int, b: int| 0 <= a < places.len() && 0 <= b < places.len() && a
        != b implies places[a] != places[b] by {
        if digits[a] < digits[b] || (digits[a] == digits[b] && a < b) {
            lemma_places_are_ordered(digits, a, b);
        } else {
            lemma_places_are_ordered(digits, b, a);
        }
    }
    assert forall|k: int| 0 <= k < places.len() implies 0 <= #[trigger] places[k]
        < places.len() by {
        lemma_place_fits(digits, k);
    }
    seqs::lemma_all_positions_occur(places, p);
    choose|j: int| 0 <= j < places.len() && places[j] == p
}

/// The low or the high half of a key.
spec fn half(key: u32, high: bool) -> u32 {
    if high {
        key / 0x1_0000
    } else {
        key % 0x1_0000
    }
}

fn half_of(key: u32, high: bool) -> (digit: u32)
    ensures
        digit == half(key, high),
        digit < 0x1_0000,
{
    if high {
        key / 0x1_0000
    } else {
        key % 0x1_0000
    }
}

/// The digits of the keys in a given order.
spec fn digits_of(order: Seq<u32>, keys: Seq<u32>, high: bool) -> Seq<u32> {
    Seq::new(order.len(), |j: int| half(keys[order[j] as int], high))
}

/// One stable pass of a counting sort.
fn counting_pass(order: &Vec<u32>, keys: &[u32], high: bool) -> (sorted: Vec<u32>)
    requires
        order.len() == keys.len(),
        forall|a: int| 0 <= a < order.len() ==> #[trigger] order@[a] < keys.len(),
    ensures
        sorted.len() == order.len(),
        forall|j: int|
            #![trigger order@[j]]
            0 <= j < order.len() ==> sorted@[place(digits_of(order@, keys@, high), j)] == order@[j],
{
    let ghost digits = digits_of(order@, keys@, high);
    let n: usize = order.len();
    let mut counts: Vec<usize> = vec![0usize; 0x1_0000];
    let mut i: usize = 0;
    while i < n
        invariant
            i <= n == order.len() == keys.len(),
            digits == digits_of(order@, keys@, high),
            counts.len() == 0x1_0000,
            forall|a: int| 0 <= a < order.len() ==> #[trigger] order@[a] < keys.len(),
            forall|d: int|
                0 <= d < 0x1_0000 ==> #[trigger] counts@[d] == count_equal(digits, i as int, d),
        decreases n - i,
    {
        let digit: usize = half_of(keys[order[i] as usize], high) as usize;
        assert(digits[i as int] == digit);
        proof {
            lemma_counts(digits, i as int, digit as int);
        }
        let count: usize = counts[digit];
        counts.set(digit, count + 1);
        i = i + 1;
    }
    let mut position: usize = 0;
    let mut d: usize = 0;
    proof {
        lemma_counts(digits, n as int, 0);
    }
    while d < 0x1_0000
        invariant
            d <= 0x1_0000,
            n == digits.len(),
            counts.len() == 0x1_0000,
            position == count_below(digits, n as int, d as int),
            forall|e: int|
                0 <= e < d ==> #[trigger] counts@[e] == count_below(digits, n as int, e),
            forall|e: int|
                d <= e < 0x1_0000 ==> #[trigger] counts@[e] == count_equal(digits, n as int, e),
        decreases 0x1_0000 - d,
    {
        proof {
            lemma_counts(digits, n as int, d as int);
        }
        let next: usize = position + counts[d];
        counts.set(d, position);
        position = next;
        d = d + 1;
    }
    let mut sorted: Vec<u32> = vec![0u32; n];
    let mut j: usize = 0;
    while j < n
        invariant
            j <= n == order.len() == keys.len() == sorted.len(),
            digits == digits_of(order@, keys@, high),
            counts.len() == 0x1_0000,
            forall|a: int| 0 <= a < order.len() ==> #[trigger] order@[a] < keys.len(),
            forall|e: int|
                0 <= e < 0x1_0000 ==> #[trigger] counts@[e] == count_below(digits, n as int, e)
                    + count_equal(digits, j as int, e),
            forall|k: int|
                #![trigger order@[k]]
                0 <= k < j ==> sorted@[place(digits, k)] == order@[k],
        decreases n - j,
    {
        let index: u32 = order[j];
        let digit: usize = half_of(keys[index as usize], high) as usize;
        assert(digits[j as int] == digit);
        let slot: usize = counts[digit];
        proof {
            lemma_place_fits(digits, j as int);
            assert(slot == place(digits, j as int));
            assert forall|k: int|
                #![trigger order@[k]]
                0 <= k < j implies place(digits, k) != slot && 0 <= place(digits, k) < n by {
                lemma_place_fits(digits, k);
                if digits[k] <= digits[j as int] {
                    lemma_places_are_ordered(digits, k, j as int);
                } else {
                    lemma_places_are_ordered(digits, j as int, k);
                }
            }
        }
        sorted.set(slot, index);
        counts.set(digit, slot + 1);
        j = j + 1;
    }
    sorted
}

/// The positions of `keys` in the order of their keys, equal keys in the order
/// of their positions.
pub fn radix_order(keys: &[u32]) -> (order: Vec<u32>)
    requires
        keys.len() <= u32::MAX,
    ensures
        is_sorted_order(order@, keys@),
{
    let n: u32 = keys.len() as u32;
    let mut identity: Vec<u32> = Vec::with_capacity(keys.len());
    let mut i: u32 = 0;
    while i < n
        invariant
            i <= n == keys.len(),
            identity.len() == i,
            forall|a: int| 0 <= a < i ==> #[trigger] identity@[a] == a,
        decreases n - i,
    {
        identity.push(i);
        i = i + 1;
    }
    let first = counting_pass(&identity, keys, false);
    let ghost low = digits_of(identity@, keys@, false);
    assert forall|p: int| 0 <= p < first.len() implies #[trigger] first@[p] < keys.len() by {
        let j = lemma_place_is_taken(low, p);
        assert(first@[place(low, j)] == identity@[j]);
    }
    let order = counting_pass(&first, keys, true);
    let ghost high = digits_of(first@, keys@, true);
    proof {
        assert forall|p: int| 0 <= p < order.len() implies #[trigger] order@[p] < keys.len() by {
            let j = lemma_place_is_taken(high, p);
            assert(order@[place(high, j)] == first@[j]);
        }
        assert forall|a: int, b: int| 0 <= a < b < order.len() implies {
            ||| keys@[#[trigger] order@[a] as int] < keys@[#[trigger] order@[b] as int]
            ||| keys@[order@[a] as int] == keys@[order@[b] as int] && order@[a] < order@[b]
        } by {
            lemma_two_passes(identity@, first@, order@, keys@, a, b);
        }
    }
    order
}

/// After a pass by the low halves and one by the high halves, two places are
/// in the order of the whole keys.
proof fn lemma_two_passes(
    identity: Seq<u32>,
    first: Seq<u32>,
    order: Seq<u32>,
    keys: Seq<u32>,
    a: int,
    b: int,
)
    requires
        identity.len() == keys.len(),
        first.len() == keys.len(),
        order.len() == keys.len(),
        forall|i: int| 0 <= i < identity.len() ==> #[trigger] identity[i] == i,
        forall|i: int| 0 <= i < first.len() ==> #[trigger] first[i] < keys.len(),
        forall|j: int|
            #![trigger identity[j]]
            0 <= j < keys.len() ==> first[place(digits_of(identity, keys, false), j)]
                == identity[j],
        forall|j: int|
            #![trigger first[j]]
            0 <= j < keys.len() ==> order[place(digits_of(first, keys, true), j)] == first[j],
        0 <= a < b < keys.len(),
    ensures
        keys[order[a] as int] < keys[order[b] as int] || (keys[order[a] as int]
            == keys[order[b] as int] && order[a] < order[b]),
{
    let low = digits_of(identity, keys, false);
    let high = digits_of(first, keys, true);
    let j = lemma_place_is_taken(high, a);
    let k = lemma_place_is_taken(high, b);
    assert(order[a] == first[j]);
    assert(order[b] == first[k]);
    if high[k] < high[j] || (high[k] == high[j] && k < j) {
        lemma_places_are_ordered(high, k, j);
    }
    if high[j] == high[k] {
        assert(j < k);
        let s = lemma_place_is_taken(low, j);
        let t = lemma_place_is_taken(low, k);
        assert(first[j] == identity[s]);
        assert(first[k] == identity[t]);
        if low[t] < low[s] || (low[t] == low[s] && t < s) {
            lemma_places_are_ordered(low, t, s);
        }
    }
}

/// The range of places at which `wanted` stands among sorted keys: every key
/// before it is smaller, every key after it larger.
pub fn equal_range(order: &[u32], keys: &[u32], wanted: u32) -> (range: (usize, usize))
    requires
        forall|a: int| 0 <= a < order.len() ==> #[trigger] order@[a] < keys.len(),
        forall|a: int, b: int|
            0 <= a < b < order.len() ==> keys@[#[trigger] order@[a] as int]
                <= keys@[#[trigger] order@[b] as int],
    ensures
        range.0 <= range.1 <= order.len(),
        forall|a: int|
            0 <= a < range.0 ==> keys@[#[trigger] order@[a] as int] < wanted,
        forall|a: int|
            range.0 <= a < range.1 ==> keys@[#[trigger] order@[a] as int] == wanted,
        forall|a: int|
            range.1 <= a < order.len() ==> keys@[#[trigger] order@[a] as int] > wanted,
{
    let lower = first_place(order, keys, wanted, false);
    let upper = first_place(order, keys, wanted, true);
    proof {
        if upper < lower {
            assert(keys@[order@[upper as int] as int] < wanted);
        }
    }
    (lower, upper)
}

/// The first place whose key is at least `wanted`, or larger than it where
/// `above` is set.
fn first_place(order: &[u32], keys: &[u32], wanted: u32, above: bool) -> (place: usize)
    requires
        forall|a: int| 0 <= a < order.len() ==> #[trigger] order@[a] < keys.len(),
        forall|a: int, b: int|
            0 <= a < b < order.len() ==> keys@[#[trigger] order@[a] as int]
                <= keys@[#[trigger] order@[b] as int],
    ensures
        place <= order.len(),
        forall|a: int|
            0 <= a < place ==> (if above {
                keys@[#[trigger] order@[a] as int] <= wanted
            } else {
                keys@[order@[a] as int] < wanted
            }),
        forall|a: int|
            place <= a < order.len() ==> (if above {
                keys@[#[trigger] order@[a] as int] > wanted
            } else {
                keys@[order@[a] as int] >= wanted
            }),
{
    let mut low: usize = 0;
    let mut high: usize = order.len();
    while low < high
        invariant
            low <= high <= order.len(),
            forall|a: int| 0 <= a < order.len() ==> #[trigger] order@[a] < keys.len(),
            forall|a: int, b: int|
                0 <= a < b < order.len() ==> keys@[#[trigger] order@[a] as int]
                    <= keys@[#[trigger] order@[b] as int],
            forall|a: int|
                0 <= a < low ==> (if above {
                    keys@[#[trigger] order@[a] as int] <= wanted
                } else {
                    keys@[order@[a] as int] < wanted
                }),
            forall|a: int|
                high <= a < order.len() ==> (if above {
                    keys@[#[trigger] order@[a] as int] > wanted
                } else {
                    keys@[order@[a] as int] >= wanted
                }),
        decreases high - low,
    {
        let middle: usize = low + (high - low) / 2;
        let key: u32 = keys[order[middle] as usize];
        if key < wanted || (above && key == wanted) {
            low = middle + 1;
        } else {
            high = middle;
        }
    }
    low
}

/// Every position has a place in a sorted order.
pub proof fn lemma_order_is_complete(order: Seq<u32>, keys: Seq<u32>, position: int)
    requires
        is_sorted_order(order, keys),
        0 <= position < keys.len() <= u32::MAX,
    ensures
        order.contains(position as u32),
{
    let wide = Seq::new(order.len(), |a: int| order[a] as int);
    assert forall|a: int, b: int| 0 <= a < wide.len() && 0 <= b < wide.len() && a
        != b implies wide[a] != wide[b] by {
        if a < b {
            assert(order[a] != order[b]);
        } else {
            assert(order[b] != order[a]);
        }
    }
    assert forall|a: int| 0 <= a < wide.len() implies 0 <= #[trigger] wide[a] < wide.len() by {
        assert(order[a] < keys.len());
    }
    seqs::lemma_all_positions_occur(wide, position);
    let a = choose|a: int| 0 <= a < wide.len() && wide[a] == position;
    assert(order[a] == position as u32);
}

} // verus!
