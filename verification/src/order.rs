//! Orders and selections over integer sort keys.
//!
//! A sort key is a `u64`. Counts are keys as they are, floating-point numbers
//! become keys through [`total_order_key`], and [`reversed`] turns an order
//! round.

use vstd::prelude::*;

verus! {

/// The key of a double with the given bits: the sign-magnitude order of the
/// bits, negative numbers first.
pub open spec fn total_order(bits: u64) -> int {
    if bits < 0x8000_0000_0000_0000 {
        bits + 0x8000_0000_0000_0000
    } else {
        0xffff_ffff_ffff_ffff - bits
    }
}

/// Key of a double in the IEEE 754 `totalOrder`, from the bits of the double.
pub fn total_order_key(bits: u64) -> (key: u64)
    ensures
        key == total_order(bits),
{
    if bits < 0x8000_0000_0000_0000u64 {
        bits + 0x8000_0000_0000_0000u64
    } else {
        0xffff_ffff_ffff_ffffu64 - bits
    }
}

/// Distinct bits have distinct keys; of two doubles with the sign bit clear the
/// one with the greater bits is greater, with the sign bit set it is smaller,
/// and a set sign bit comes before a clear one.
pub proof fn law_total_order_is_strict(a: u64, b: u64)
    ensures
        total_order(a) == total_order(b) ==> a == b,
        a < 0x8000_0000_0000_0000 && b < 0x8000_0000_0000_0000 ==> (total_order(a) < total_order(b)
            <==> a < b),
        a >= 0x8000_0000_0000_0000 && b >= 0x8000_0000_0000_0000 ==> (total_order(a) < total_order(
            b,
        ) <==> a > b),
        a >= 0x8000_0000_0000_0000 && b < 0x8000_0000_0000_0000 ==> total_order(a) < total_order(b),
{
}

/// The key that sorts the other way round.
pub fn reversed(key: u64) -> (other: u64)
    ensures
        other == u64::MAX - key,
{
    0xffff_ffff_ffff_ffffu64 - key
}

/// `i` holds the greatest key, and the last one of equal keys.
pub open spec fn is_last_greatest(keys: Seq<u64>, i: int) -> bool {
    &&& 0 <= i < keys.len()
    &&& forall|k: int| 0 <= k < keys.len() ==> #[trigger] keys[k] <= keys[i]
    &&& forall|k: int| i < k < keys.len() ==> #[trigger] keys[k] < keys[i]
}

/// Position of the greatest key, the last one of equal keys.
pub fn last_greatest(keys: &Vec<u64>) -> (at: Option<usize>)
    ensures
        at is None <==> keys@.len() == 0,
        at matches Some(i) ==> is_last_greatest(keys@, i as int),
{
    if keys.len() == 0 {
        return None;
    }
    let mut best: usize = 0;
    let mut i: usize = 1;
    while i < keys.len()
        invariant
            best < i <= keys@.len(),
            forall|k: int| 0 <= k < i ==> #[trigger] keys@[k] <= keys@[best as int],
            forall|k: int| best < k < i ==> #[trigger] keys@[k] < keys@[best as int],
        decreases keys@.len() - i,
    {
        if keys[i] >= keys[best] {
            best = i;
        }
        i = i + 1;
    }
    Some(best)
}

/// `i` holds the least key, and the first one of equal keys.
pub open spec fn is_first_least(keys: Seq<u64>, i: int) -> bool {
    &&& 0 <= i < keys.len()
    &&& forall|k: int| 0 <= k < keys.len() ==> #[trigger] keys[k] >= keys[i]
    &&& forall|k: int| 0 <= k < i ==> #[trigger] keys[k] > keys[i]
}

/// Position of the least key, the first one of equal keys.
pub fn first_least(keys: &Vec<u64>) -> (at: Option<usize>)
    ensures
        at is None <==> keys@.len() == 0,
        at matches Some(i) ==> is_first_least(keys@, i as int),
{
    if keys.len() == 0 {
        return None;
    }
    let mut best: usize = 0;
    let mut i: usize = 1;
    while i < keys.len()
        invariant
            best < i <= keys@.len(),
            forall|k: int| 0 <= k < i ==> #[trigger] keys@[k] >= keys@[best as int],
            forall|k: int| 0 <= k < best ==> #[trigger] keys@[k] > keys@[best as int],
        decreases keys@.len() - i,
    {
        if keys[i] < keys[best] {
            best = i;
        }
        i = i + 1;
    }
    Some(best)
}

/// A key of three parts, the first one leading.
#[derive(Debug, Clone, Copy, PartialEq, Eq, Structural)]
pub struct SortKey {
    pub major: u64,
    pub minor: u64,
    pub last: u64,
}

/// Whether key `a` sorts strictly before key `b`.
pub open spec fn key_less(a: SortKey, b: SortKey) -> bool {
    a.major < b.major || (a.major == b.major && (a.minor < b.minor || (a.minor == b.minor && a.last
        < b.last)))
}

/// Whether item `i` comes before item `j`: by key, and equal keys by position.
pub open spec fn comes_before(keys: Seq<SortKey>, i: int, j: int) -> bool {
    key_less(keys[i], keys[j]) || (keys[i] == keys[j] && i < j)
}

/// Whether position `k` is in the list.
pub open spec fn lists(order: Seq<usize>, k: int) -> bool {
    exists|a: int| 0 <= a < order.len() && #[trigger] order[a] == k
}

/// `order` lists the positions `lo..hi`, each once, in stable ascending order.
pub open spec fn is_sorted_range(keys: Seq<SortKey>, order: Seq<usize>, lo: int, hi: int) -> bool {
    &&& order.len() == hi - lo
    &&& forall|a: int| 0 <= a < order.len() ==> lo <= #[trigger] order[a] < hi
    &&& forall|a: int, b: int|
        #![trigger order[a], order[b]]
        0 <= a < b < order.len() ==> comes_before(keys, order[a] as int, order[b] as int)
    &&& forall|k: int| lo <= k < hi ==> #[trigger] lists(order, k)
}

/// `order` lists every position once, in stable ascending order of the keys.
pub open spec fn is_stable_order(keys: Seq<SortKey>, order: Seq<usize>) -> bool {
    is_sorted_range(keys, order, 0, keys.len() as int)
}

fn key_is_less(a: &SortKey, b: &SortKey) -> (less: bool)
    ensures
        less == key_less(*a, *b),
{
    a.major < b.major || (a.major == b.major && (a.minor < b.minor || (a.minor == b.minor && a.last
        < b.last)))
}

/// Merge two sorted halves of a range.
fn merge_halves(
    keys: &Vec<SortKey>,
    left: &Vec<usize>,
    right: &Vec<usize>,
    Ghost(lo): Ghost<int>,
    Ghost(mid): Ghost<int>,
    Ghost(hi): Ghost<int>,
) -> (order: Vec<usize>)
    requires
        0 <= lo <= mid <= hi <= keys@.len(),
        is_sorted_range(keys@, left@, lo, mid),
        is_sorted_range(keys@, right@, mid, hi),
    ensures
        is_sorted_range(keys@, order@, lo, hi),
{
    let ghost ks = keys@;
    let mut order: Vec<usize> = Vec::new();
    let mut a: usize = 0;
    let mut b: usize = 0;
    while a < left.len() || b < right.len()
        invariant
            0 <= lo <= mid <= hi <= ks.len(),
            ks == keys@,
            is_sorted_range(ks, left@, lo, mid),
            is_sorted_range(ks, right@, mid, hi),
            a <= left@.len(),
            b <= right@.len(),
            order@.len() == a + b,
            forall|p: int| 0 <= p < order@.len() ==> lo <= #[trigger] order@[p] < hi,
            forall|p: int, q: int|
                #![trigger order@[p], order@[q]]
                0 <= p < q < order@.len() ==> comes_before(ks, order@[p] as int, order@[q] as int),
            forall|p: int, q: int|
                #![trigger order@[p], left@[q]]
                0 <= p < order@.len() && a <= q < left@.len() ==> comes_before(
                    ks,
                    order@[p] as int,
                    left@[q] as int,
                ),
            forall|p: int, q: int|
                #![trigger order@[p], right@[q]]
                0 <= p < order@.len() && b <= q < right@.len() ==> comes_before(
                    ks,
                    order@[p] as int,
                    right@[q] as int,
                ),
            forall|q: int|
                #![trigger left@[q]]
                0 <= q < a ==> exists|p: int| 0 <= p < order@.len() && #[trigger] order@[p]
                    == left@[q],
            forall|q: int|
                #![trigger right@[q]]
                0 <= q < b ==> exists|p: int| 0 <= p < order@.len() && #[trigger] order@[p]
                    == right@[q],
        decreases left@.len() - a + right@.len() - b,
    {
        let take_left: bool = if a >= left.len() {
            false
        } else if b >= right.len() {
            true
        } else {
            assert(lo <= left@[a as int] < mid);
            assert(mid <= right@[b as int] < hi);
            !key_is_less(&keys[right[b]], &keys[left[a]])
        };
        let ghost before = order@;
        if take_left {
            let next: usize = left[a];
            assert(lo <= next < mid);
            order.push(next);
            proof {
                assert(order@[before.len() as int] == next);
                assert forall|q: int|
                    b <= q < right@.len() implies comes_before(
                    ks,
                    next as int,
                    #[trigger] right@[q] as int,
                ) by {
                    assert(mid <= right@[q] < hi);
                    if q > b {
                        assert(comes_before(ks, right@[b as int] as int, right@[q] as int));
                    }
                }
                assert forall|q: int| 0 <= q < a + 1 implies exists|p: int|
                    0 <= p < order@.len() && #[trigger] order@[p] == #[trigger] left@[q] by {
                    if q < a {
                        let p = choose|p: int|
                            0 <= p < before.len() && #[trigger] before[p] == left@[q];
                        assert(order@[p] == left@[q]);
                    }
                }
                assert forall|q: int| 0 <= q < b implies exists|p: int|
                    0 <= p < order@.len() && #[trigger] order@[p] == #[trigger] right@[q] by {
                    let p = choose|p: int|
                        0 <= p < before.len() && #[trigger] before[p] == right@[q];
                    assert(order@[p] == right@[q]);
                }
            }
            a = a + 1;
        } else {
            let next: usize = right[b];
            assert(mid <= next < hi);
            order.push(next);
            proof {
                assert(order@[before.len() as int] == next);
                assert forall|q: int|
                    a <= q < left@.len() implies comes_before(
                    ks,
                    next as int,
                    #[trigger] left@[q] as int,
                ) by {
                    assert(lo <= left@[q] < mid);
                    if q > a {
                        assert(comes_before(ks, left@[a as int] as int, left@[q] as int));
                    }
                }
                assert forall|q: int| 0 <= q < b + 1 implies exists|p: int|
                    0 <= p < order@.len() && #[trigger] order@[p] == #[trigger] right@[q] by {
                    if q < b {
                        let p = choose|p: int|
                            0 <= p < before.len() && #[trigger] before[p] == right@[q];
                        assert(order@[p] == right@[q]);
                    }
                }
                assert forall|q: int| 0 <= q < a implies exists|p: int|
                    0 <= p < order@.len() && #[trigger] order@[p] == #[trigger] left@[q] by {
                    let p = choose|p: int|
                        0 <= p < before.len() && #[trigger] before[p] == left@[q];
                    assert(order@[p] == left@[q]);
                }
            }
            b = b + 1;
        }
    }
    proof {
        assert forall|k: int| lo <= k < hi implies #[trigger] lists(order@, k) by {
            if k < mid {
                assert(lists(left@, k));
                let q = choose|q: int| 0 <= q < left@.len() && #[trigger] left@[q] == k;
                assert(left@[q] == k);
            } else {
                assert(lists(right@, k));
                let q = choose|q: int| 0 <= q < right@.len() && #[trigger] right@[q] == k;
                assert(right@[q] == k);
            }
        }
    }
    order
}

fn sort_range(keys: &Vec<SortKey>, lo: usize, hi: usize) -> (order: Vec<usize>)
    requires
        lo <= hi <= keys@.len(),
    ensures
        is_sorted_range(keys@, order@, lo as int, hi as int),
    decreases hi - lo,
{
    if hi - lo <= 1 {
        let mut order: Vec<usize> = Vec::new();
        if lo < hi {
            order.push(lo);
            assert(order@[0] == lo);
        }
        order
    } else {
        let mid: usize = lo + (hi - lo) / 2;
        let left: Vec<usize> = sort_range(keys, lo, mid);
        let right: Vec<usize> = sort_range(keys, mid, hi);
        merge_halves(
            keys,
            &left,
            &right,
            Ghost(lo as int),
            Ghost(mid as int),
            Ghost(hi as int),
        )
    }
}

/// The positions of `keys` in stable ascending order.
pub fn stable_order(keys: &Vec<SortKey>) -> (order: Vec<usize>)
    ensures
        is_stable_order(keys@, order@),
{
    sort_range(keys, 0, keys.len())
}

/// The positions whose key is less than `v`.
pub open spec fn keys_below(keys: Seq<u64>, v: u64) -> Set<int> {
    vstd::set_lib::set_int_range(0, keys.len() as int).filter(|i: int| keys[i] < v)
}

/// The positions whose key is `v` or less.
pub open spec fn keys_up_to(keys: Seq<u64>, v: u64) -> Set<int> {
    vstd::set_lib::set_int_range(0, keys.len() as int).filter(|i: int| keys[i] <= v)
}

/// `v` is the upper median: it occurs, at most half of the keys are less, and
/// more than half are not greater.
pub open spec fn is_upper_median(keys: Seq<u64>, v: u64) -> bool {
    &&& keys.contains(v)
    &&& keys_below(keys, v).len() <= keys.len() / 2
    &&& keys_up_to(keys, v).len() > keys.len() / 2
}

/// The upper median of some keys.
pub fn upper_median(keys: &Vec<u64>) -> (median: Option<u64>)
    ensures
        match median {
            None => keys@.len() == 0,
            Some(v) => is_upper_median(keys@, v),
        },
{
    if keys.len() == 0 {
        return None;
    }
    let mut sort_keys: Vec<SortKey> = Vec::new();
    let mut i: usize = 0;
    while i < keys.len()
        invariant
            i <= keys@.len(),
            sort_keys@.len() == i,
            forall|k: int|
                0 <= k < i ==> #[trigger] sort_keys@[k] == (SortKey {
                    major: keys@[k],
                    minor: 0,
                    last: 0,
                }),
        decreases keys@.len() - i,
    {
        sort_keys.push(SortKey { major: keys[i], minor: 0, last: 0 });
        i = i + 1;
    }
    let order: Vec<usize> = stable_order(&sort_keys);
    let m: usize = keys.len() / 2;
    proof {
        lemma_middle_is_median(keys@, sort_keys@, order@, m as int);
    }
    Some(keys[order[m]])
}

pub(crate) proof fn lemma_middle_is_median(keys: Seq<u64>, sort_keys: Seq<SortKey>, order: Seq<usize>, m: int)
    requires
        keys.len() == sort_keys.len(),
        forall|k: int|
            0 <= k < keys.len() ==> #[trigger] sort_keys[k] == (SortKey {
                major: keys[k],
                minor: 0,
                last: 0,
            }),
        is_stable_order(sort_keys, order),
        m == keys.len() / 2,
        keys.len() > 0,
    ensures
        order[m] < keys.len(),
        is_upper_median(keys, keys[order[m] as int]),
{
    assert(order[m] < sort_keys.len());
    let v = keys[order[m] as int];
    let f = |a: int| order[a] as int;
    let front = vstd::set_lib::set_int_range(0, m);
    vstd::set_lib::lemma_int_range(0, m);
    vstd::set_lib::lemma_map_size_bound(front, front.map(f), f);
    assert forall|i: int| keys_below(keys, v).contains(i) implies front.map(f).contains(i) by {
        assert(lists(order, i));
        let a = choose|a: int| 0 <= a < order.len() && #[trigger] order[a] == i;
        if a > m {
            assert(comes_before(sort_keys, order[m] as int, order[a] as int));
            assert(sort_keys[order[m] as int].major == v);
            assert(sort_keys[i].major == keys[i]);
        }
        assert(front.contains(a) && f(a) == i);
    }
    vstd::set_lib::lemma_len_subset(keys_below(keys, v), front.map(f));
    let through = vstd::set_lib::set_int_range(0, m + 1);
    let all = vstd::set_lib::set_int_range(0, keys.len() as int);
    vstd::set_lib::lemma_int_range(0, m + 1);
    vstd::set_lib::lemma_int_range(0, keys.len() as int);
    assert(vstd::relations::injective_on(f, through)) by {
        assert forall|x1: int, x2: int|
            through.contains(x1) && through.contains(x2) && #[trigger] f(x1) == #[trigger] f(
                x2,
            ) implies x1 == x2 by {
            if x1 < x2 {
                assert(comes_before(sort_keys, order[x1] as int, order[x2] as int));
            } else if x2 < x1 {
                assert(comes_before(sort_keys, order[x2] as int, order[x1] as int));
            }
        }
    }
    vstd::set_lib::lemma_map_size(through, through.map(f), f);
    assert forall|i: int| through.map(f).contains(i) implies keys_up_to(keys, v).contains(i) by {
        let a = choose|a: int| through.contains(a) && f(a) == i;
        assert(order[a] < sort_keys.len());
        if a < m {
            assert(comes_before(sort_keys, order[a] as int, order[m] as int));
        }
        assert(sort_keys[i].major == keys[i]);
        assert(sort_keys[order[m] as int].major == v);
    }
    vstd::set_lib::lemma_len_subset(keys_up_to(keys, v), all);
    vstd::set_lib::lemma_len_subset(through.map(f), keys_up_to(keys, v));
    assert(keys.contains(v));
}

/// There is only one upper median.
pub proof fn law_median_is_unique(keys: Seq<u64>, a: u64, b: u64)
    requires
        is_upper_median(keys, a),
        is_upper_median(keys, b),
    ensures
        a == b,
{
    let all = vstd::set_lib::set_int_range(0, keys.len() as int);
    vstd::set_lib::lemma_int_range(0, keys.len() as int);
    vstd::set_lib::lemma_len_subset(keys_below(keys, b), all);
    vstd::set_lib::lemma_len_subset(keys_below(keys, a), all);
    if a < b {
        vstd::set_lib::lemma_len_subset(keys_up_to(keys, a), keys_below(keys, b));
    } else if b < a {
        vstd::set_lib::lemma_len_subset(keys_up_to(keys, b), keys_below(keys, a));
    }
}

proof fn lemma_orders_agree_up_to(keys: Seq<SortKey>, a: Seq<usize>, b: Seq<usize>, n: nat)
    requires
        is_stable_order(keys, a),
        is_stable_order(keys, b),
        n <= keys.len(),
    ensures
        forall|i: int| 0 <= i < n ==> a[i] == b[i],
    decreases n,
{
    if n > 0 {
        lemma_orders_agree_up_to(keys, a, b, (n - 1) as nat);
        let i = n - 1;
        assert(lists(b, a[i] as int));
        assert(lists(a, b[i] as int));
        let j = choose|j: int| 0 <= j < b.len() && #[trigger] b[j] == a[i] as int;
        let k = choose|k: int| 0 <= k < a.len() && #[trigger] a[k] == b[i] as int;
        if a[i] != b[i] {
            if j < i {
                assert(a[j] == b[j]);
                assert(comes_before(keys, a[j] as int, a[i] as int));
            }
            if k < i {
                assert(a[k] == b[k]);
                assert(comes_before(keys, b[k] as int, b[i] as int));
            }
            assert(comes_before(keys, b[i] as int, b[j] as int));
            assert(comes_before(keys, a[i] as int, a[k] as int));
        }
    }
}

/// Keys have one stable order.
pub proof fn law_stable_order_is_unique(keys: Seq<SortKey>, a: Seq<usize>, b: Seq<usize>)
    requires
        is_stable_order(keys, a),
        is_stable_order(keys, b),
    ensures
        a == b,
{
    lemma_orders_agree_up_to(keys, a, b, keys.len());
    assert(a =~= b);
}

/// An order lists every position once, by ascending key: the first part of the key
/// leads, the second and the third decide among equals, and items with equal keys
/// keep their order.
pub proof fn law_order_is_ascending(keys: Seq<SortKey>, order: Seq<usize>)
    requires
        is_stable_order(keys, order),
    ensures
        order.len() == keys.len(),
        order.no_duplicates(),
        forall|k: usize| order.contains(k) <==> k < keys.len(),
        forall|a: int, b: int|
            #![trigger order[a], order[b]]
            0 <= a < b < order.len() ==> {
                let (p, q) = (keys[order[a] as int], keys[order[b] as int]);
                &&& p.major <= q.major
                &&& p.major == q.major ==> p.minor <= q.minor
                &&& p.major == q.major && p.minor == q.minor ==> p.last <= q.last
                &&& p.major == q.major && p.minor == q.minor && p.last == q.last ==> order[a]
                    < order[b]
            },
{
    assert forall|a: int, b: int|
        #![trigger order[a], order[b]]
        0 <= a < b < order.len() implies comes_before(keys, order[a] as int, order[b] as int) by {}
    assert forall|k: usize| order.contains(k) <==> k < keys.len() by {
        if order.contains(k) {
            let a = choose|a: int| 0 <= a < order.len() && order[a] == k;
            assert(order[a] < keys.len());
        }
        if k < keys.len() {
            assert(lists(order, k as int));
            let a = choose|a: int| 0 <= a < order.len() && #[trigger] order[a] == k as int;
            assert(order[a] == k);
        }
    }
    assert forall|a: int, b: int|
        0 <= a < order.len() && 0 <= b < order.len() && a != b implies order[a] != order[b] by {
        if a < b {
            assert(comes_before(keys, order[a] as int, order[b] as int));
        } else {
            assert(comes_before(keys, order[b] as int, order[a] as int));
        }
    }
}

/// The upper median of keys in ascending order is the one in the middle, and of an
/// even number the later of the two.
pub proof fn law_median_is_in_the_middle(keys: Seq<u64>, v: u64)
    requires
        keys.len() > 0,
        forall|i: int, j: int|
            #![trigger keys[i], keys[j]]
            0 <= i <= j < keys.len() ==> keys[i] <= keys[j],
    ensures
        is_upper_median(keys, v) <==> v == keys[keys.len() as int / 2],
{
    let m = keys.len() as int / 2;
    let w = keys[m];
    let all = vstd::set_lib::set_int_range(0, keys.len() as int);
    let front = vstd::set_lib::set_int_range(0, m);
    let through = vstd::set_lib::set_int_range(0, m + 1);
    vstd::set_lib::lemma_int_range(0, keys.len() as int);
    vstd::set_lib::lemma_int_range(0, m);
    vstd::set_lib::lemma_int_range(0, m + 1);
    assert forall|i: int| keys_below(keys, w).contains(i) implies front.contains(i) by {
        if i >= m {
            assert(keys[m] <= keys[i]);
        }
    }
    vstd::set_lib::lemma_len_subset(keys_below(keys, w), front);
    assert forall|i: int| through.contains(i) implies keys_up_to(keys, w).contains(i) by {
        assert(keys[i] <= keys[m]);
    }
    vstd::set_lib::lemma_len_subset(keys_up_to(keys, w), all);
    vstd::set_lib::lemma_len_subset(through, keys_up_to(keys, w));
    assert(is_upper_median(keys, w));
    if is_upper_median(keys, v) {
        law_median_is_unique(keys, v, w);
    }
}

/// The median does not depend on the order in which the keys come.
pub proof fn law_median_ignores_order(keys: Seq<u64>, other: Seq<u64>, to: spec_fn(int) -> int, v: u64)
    requires
        keys.len() == other.len(),
        forall|i: int| 0 <= i < keys.len() ==> 0 <= #[trigger] to(i) < keys.len(),
        forall|i: int, j: int|
            #![trigger to(i), to(j)]
            0 <= i < j < keys.len() ==> to(i) != to(j),
        forall|i: int| 0 <= i < keys.len() ==> other[#[trigger] to(i)] == keys[i],
        is_upper_median(keys, v),
    ensures
        is_upper_median(other, v),
{
    let n = keys.len() as int;
    let all = vstd::set_lib::set_int_range(0, n);
    vstd::set_lib::lemma_int_range(0, n);
    assert(vstd::relations::injective_on(to, all)) by {
        assert forall|x1: int, x2: int|
            all.contains(x1) && all.contains(x2) && #[trigger] to(x1) == #[trigger] to(
                x2,
            ) implies x1 == x2 by {}
    }
    let images = all.map(to);
    vstd::set_lib::lemma_map_size(all, images, to);
    assert(images.subset_of(all));
    vstd::set_lib::lemma_subset_equality(images, all);
    let i = choose|i: int| 0 <= i < keys.len() && keys[i] == v;
    assert(other[to(i)] == v);
    assert(other.contains(v));
    let below = keys_below(keys, v);
    let up_to = keys_up_to(keys, v);
    vstd::set_lib::lemma_len_subset(below, all);
    vstd::set_lib::lemma_len_subset(up_to, all);
    assert(keys_below(other, v) =~= below.map(to)) by {
        assert forall|k: int| keys_below(other, v).contains(k) implies below.map(to).contains(k) by {
            assert(images.contains(k));
            let a = choose|a: int| all.contains(a) && to(a) == k;
            assert(below.contains(a));
        }
    }
    assert(keys_up_to(other, v) =~= up_to.map(to)) by {
        assert forall|k: int| keys_up_to(other, v).contains(k) implies up_to.map(to).contains(k) by {
            assert(images.contains(k));
            let a = choose|a: int| all.contains(a) && to(a) == k;
            assert(up_to.contains(a));
        }
    }
    assert(vstd::relations::injective_on(to, below));
    assert(vstd::relations::injective_on(to, up_to));
    vstd::set_lib::lemma_map_size(below, below.map(to), to);
    vstd::set_lib::lemma_map_size(up_to, up_to.map(to), to);
}

/// The greatest key is not exceeded, and the least not undercut; of equal keys the
/// last is the greatest and the first the least.
pub proof fn law_extremes_bound_the_keys(keys: Seq<u64>, i: int, j: int)
    requires
        0 <= j < keys.len(),
    ensures
        is_last_greatest(keys, i) ==> 0 <= i < keys.len() && keys[j] <= keys[i] && (keys[j]
            == keys[i] ==> j <= i),
        is_first_least(keys, i) ==> 0 <= i < keys.len() && keys[j] >= keys[i] && (keys[j] == keys[i]
            ==> j >= i),
{
}

} // verus!
