//! A stable sort by an integer key.

use vstd::prelude::*;

verus! {

/// Order of entries: by key, entries with one key by position.
pub open spec fn entry_before(a: (u64, usize), b: (u64, usize)) -> bool {
    a.0 < b.0 || (a.0 == b.0 && a.1 < b.1)
}

/// No later entry comes before an earlier one.
pub open spec fn entries_sorted(s: Seq<(u64, usize)>) -> bool {
    forall|i: int, j: int| 0 <= i < j < s.len() ==> entry_before(#[trigger] s[i], #[trigger] s[j])
}

/// `order` lists every position below `keys.len()` once, smallest key first and
/// positions with one key in increasing order.
pub open spec fn is_stable_order(keys: Seq<u64>, order: Seq<usize>) -> bool {
    &&& order.len() == keys.len()
    &&& forall|i: int| 0 <= i < order.len() ==> (#[trigger] order[i] as int) < keys.len()
    &&& forall|p: usize| p < keys.len() ==> #[trigger] order.contains(p)
    &&& forall|i: int, j: int|
        0 <= i < j < order.len() ==> entry_before(
            (keys[#[trigger] order[i] as int], order[i]),
            (keys[#[trigger] order[j] as int], order[j]),
        )
}

/// Merges two sorted lists of entries that have no position in common.
fn merge(a: Vec<(u64, usize)>, b: Vec<(u64, usize)>) -> (r: Vec<(u64, usize)>)
    requires
        entries_sorted(a@),
        entries_sorted(b@),
        a.len() + b.len() <= usize::MAX,
        forall|i: int, j: int|
            0 <= i < a.len() && 0 <= j < b.len() ==> (#[trigger] a@[i]).1 != (#[trigger] b@[j]).1,
    ensures
        entries_sorted(r@),
        r.len() == a.len() + b.len(),
        forall|e: (u64, usize)| #[trigger] r@.contains(e) <==> a@.contains(e) || b@.contains(e),
{
    let mut out: Vec<(u64, usize)> = Vec::new();
    let mut i: usize = 0;
    let mut j: usize = 0;
    while i < a.len() || j < b.len()
        invariant
            i <= a.len(),
            j <= b.len(),
            a.len() + b.len() <= usize::MAX,
            entries_sorted(a@),
            entries_sorted(b@),
            entries_sorted(out@),
            out.len() == i + j,
            forall|x: int, y: int|
                0 <= x < a.len() && 0 <= y < b.len() ==> (#[trigger] a@[x]).1 != (
                #[trigger] b@[y]).1,
            forall|x: int, k: int|
                i <= x < a.len() && 0 <= k < out.len() ==> entry_before(
                    #[trigger] out@[k],
                    #[trigger] a@[x],
                ),
            forall|y: int, k: int|
                j <= y < b.len() && 0 <= k < out.len() ==> entry_before(
                    #[trigger] out@[k],
                    #[trigger] b@[y],
                ),
            forall|k: int|
                0 <= k < out.len() ==> a@.contains(#[trigger] out@[k]) || b@.contains(out@[k]),
            forall|x: int| 0 <= x < i ==> out@.contains(#[trigger] a@[x]),
            forall|y: int| 0 <= y < j ==> out@.contains(#[trigger] b@[y]),
        decreases a.len() + b.len() - i - j,
    {
        let ghost before = out@;
        let from_a: bool = if i < a.len() && j < b.len() {
            a[i].0 < b[j].0 || (a[i].0 == b[j].0 && a[i].1 < b[j].1)
        } else {
            i < a.len()
        };
        if from_a {
            out.push(a[i]);
            i = i + 1;
        } else {
            out.push(b[j]);
            j = j + 1;
        }
        proof {
            let last = out@[before.len() as int];
            assert(out@ == before.push(last));
            assert forall|e: (u64, usize)| before.contains(e) implies out@.contains(e) by {
                let k = choose|k: int| 0 <= k < before.len() && before[k] == e;
                assert(out@[k] == e);
            }
            assert(out@.contains(last));
        }
    }
    assert forall|e: (u64, usize)| #[trigger] out@.contains(e) <==> a@.contains(e)
        || b@.contains(e) by {
        if out@.contains(e) {
            let k = choose|k: int| 0 <= k < out@.len() && out@[k] == e;
            assert(a@.contains(out@[k]) || b@.contains(out@[k]));
        }
        if a@.contains(e) {
            let x = choose|x: int| 0 <= x < a@.len() && a@[x] == e;
            assert(out@.contains(a@[x]));
        }
        if b@.contains(e) {
            let y = choose|y: int| 0 <= y < b@.len() && b@[y] == e;
            assert(out@.contains(b@[y]));
        }
    }
    out
}

/// The entries `(keys[p], p)` for `from <= p < to`, sorted.
fn sorted_entries(keys: &Vec<u64>, from: usize, to: usize) -> (r: Vec<(u64, usize)>)
    requires
        from <= to <= keys.len(),
    ensures
        entries_sorted(r@),
        r.len() == to - from,
        forall|e: (u64, usize)| #[trigger]
            r@.contains(e) <==> from <= e.1 < to && e.0 == keys@[e.1 as int],
    decreases to - from,
{
    if from == to {
        return Vec::new();
    }
    if to - from == 1 {
        let mut one: Vec<(u64, usize)> = Vec::new();
        one.push((keys[from], from));
        proof {
            assert(one@[0] == (keys@[from as int], from));
            assert forall|e: (u64, usize)| #[trigger]
                one@.contains(e) <==> from <= e.1 < to && e.0 == keys@[e.1 as int] by {
                if from <= e.1 < to && e.0 == keys@[e.1 as int] {
                    assert(one@[0] == e);
                }
            }
        }
        return one;
    }
    let mid: usize = from + (to - from) / 2;
    let left: Vec<(u64, usize)> = sorted_entries(keys, from, mid);
    let right: Vec<(u64, usize)> = sorted_entries(keys, mid, to);
    proof {
        assert forall|i: int, j: int| 0 <= i < left.len() && 0 <= j < right.len() implies (
        #[trigger] left@[i]).1 != (#[trigger] right@[j]).1 by {
            assert(left@.contains(left@[i]));
            assert(right@.contains(right@[j]));
        }
    }
    merge(left, right)
}

/// The order in which to visit `keys` so that they come smallest first, equal
/// ones in their present order.
pub fn stable_order(keys: &Vec<u64>) -> (r: Vec<usize>)
    ensures
        is_stable_order(keys@, r@),
{
    let entries: Vec<(u64, usize)> = sorted_entries(keys, 0, keys.len());
    let mut order: Vec<usize> = Vec::new();
    let mut i: usize = 0;
    while i < entries.len()
        invariant
            i <= entries.len(),
            order.len() == i,
            forall|k: int| 0 <= k < i ==> #[trigger] order@[k] == entries@[k].1,
        decreases entries.len() - i,
    {
        order.push(entries[i].1);
        i = i + 1;
    }
    proof {
        assert forall|k: int| 0 <= k < order.len() implies entries@[k] == (
            keys@[#[trigger] order@[k] as int],
            order@[k],
        ) && order@[k] < keys.len() by {
            assert(entries@.contains(entries@[k]));
        }
        assert forall|p: usize| p < keys.len() implies #[trigger] order@.contains(p) by {
            let e = (keys@[p as int], p);
            assert(entries@.contains(e));
            let k = choose|k: int| 0 <= k < entries@.len() && entries@[k] == e;
            assert(order@[k] == p);
        }
    }
    order
}

/// Only one order is stable: two lists that qualify are the same list.
pub proof fn stable_order_is_unique(keys: Seq<u64>, a: Seq<usize>, b: Seq<usize>)
    requires
        is_stable_order(keys, a),
        is_stable_order(keys, b),
    ensures
        a == b,
{
    lemma_agree_to(keys, a, b, a.len() as int);
    assert(a =~= b);
}

proof fn lemma_agree_to(keys: Seq<u64>, a: Seq<usize>, b: Seq<usize>, n: int)
    requires
        is_stable_order(keys, a),
        is_stable_order(keys, b),
        0 <= n <= a.len(),
    ensures
        forall|i: int| 0 <= i < n ==> a[i] == b[i],
    decreases n,
{
    if n > 0 {
        lemma_agree_to(keys, a, b, n - 1);
        let k = n - 1;
        if a[k] != b[k] {
            assert(b.contains(a[k]));
            let j = choose|j: int| 0 <= j < b.len() && b[j] == a[k];
            assert(a.contains(b[k]));
            let i = choose|i: int| 0 <= i < a.len() && a[i] == b[k];
            assert(j > k);
            assert(i > k);
            assert(entry_before((keys[a[k] as int], a[k]), (keys[a[i] as int], a[i])));
            assert(entry_before((keys[b[k] as int], b[k]), (keys[b[j] as int], b[j])));
        }
    }
}

/// A stable order goes through every position once, by rising keys, and leaves positions
/// of equal keys in their order.
pub proof fn equal_keys_keep_their_order(keys: Seq<u64>, order: Seq<usize>, i: int, j: int)
    requires
        is_stable_order(keys, order),
        0 <= i < j < order.len(),
    ensures
        order.len() == keys.len(),
        order[i] != order[j],
        (order[i] as int) < keys.len(),
        keys[order[i] as int] <= keys[order[j] as int],
        keys[order[i] as int] == keys[order[j] as int] ==> order[i] < order[j],
{
}

} // verus!
