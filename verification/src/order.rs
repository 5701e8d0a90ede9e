//! Stable sorting by a key.

use vstd::prelude::*;

verus! {

/// In a stable sort, position `p` comes before position `q`.
pub open spec fn comes_first(keys: Seq<i64>, p: int, q: int) -> bool {
    keys[p] < keys[q] || (keys[p] == keys[q] && p < q)
}

pub open spec fn all_sorted(keys: Seq<i64>, order: Seq<usize>) -> bool {
    forall|i: int, j: int|
        0 <= i < j < order.len() ==> comes_first(keys, #[trigger] order[i] as int, #[trigger] order[j] as int)
}

/// The positions of `keys` in the order of a stable sort.
pub open spec fn is_stable_order(keys: Seq<i64>, order: Seq<usize>) -> bool {
    &&& order.len() == keys.len()
    &&& forall|i: int| 0 <= i < order.len() ==> (#[trigger] order[i]) < keys.len()
    &&& all_sorted(keys, order)
}

/// A stable order names every position once.
pub proof fn law_stable_order_is_a_permutation(keys: Seq<i64>, order: Seq<usize>, p: usize)
    requires
        is_stable_order(keys, order),
        p < keys.len(),
    ensures
        order.no_duplicates(),
        order.contains(p),
{
    let n = keys.len();
    let positions = order.map_values(|x: usize| x as int);
    assert(order.no_duplicates());
    assert(positions.no_duplicates());
    positions.unique_seq_to_set();
    vstd::set_lib::lemma_int_range(0, n as int);
    let all = vstd::set_lib::set_int_range(0, n as int);
    assert(positions.to_set().subset_of(all));
    vstd::set_lib::lemma_subset_equality(positions.to_set(), all);
    assert(all.contains(p as int));
    assert(positions.contains(p as int));
    let i = positions.index_of(p as int);
    assert(order[i] == p);
}

/// There is only one stable order.
pub proof fn law_stable_order_is_unique(keys: Seq<i64>, a: Seq<usize>, b: Seq<usize>)
    requires
        is_stable_order(keys, a),
        is_stable_order(keys, b),
    ensures
        a == b,
{
    assert forall|i: int| 0 <= i < a.len() implies a[i] == b[i] by {
        lemma_same_place(keys, a, b, i);
    }
    assert(a =~= b);
}

proof fn lemma_same_place(keys: Seq<i64>, a: Seq<usize>, b: Seq<usize>, i: int)
    requires
        is_stable_order(keys, a),
        is_stable_order(keys, b),
        0 <= i < a.len(),
    ensures
        a[i] == b[i],
    decreases i,
{
    assert forall|j: int| 0 <= j < i implies a[j] == b[j] by {
        lemma_same_place(keys, a, b, j);
    }
    // What stands at `i` in one order stands at or behind `i` in the other.
    law_stable_order_is_a_permutation(keys, b, a[i]);
    law_stable_order_is_a_permutation(keys, a, b[i]);
    let k = b.index_of(a[i]);
    let l = a.index_of(b[i]);
    assert(a[l] == b[i] && b[k] == a[i]);
    if k < i {
        assert(a[k] == b[k]);
        assert(a.no_duplicates());
    }
    if l < i {
        assert(a[l] == b[l]);
        assert(b.no_duplicates());
    }
    if k > i && l > i {
        assert(comes_first(keys, b[i] as int, b[k] as int));
        assert(comes_first(keys, a[i] as int, a[l] as int));
    }
}

/// Two sorted runs made one. Everything in the first run stands, in `keys`, before
/// everything in the second.
fn merge(keys: &Vec<i64>, a: &Vec<usize>, b: &Vec<usize>, Ghost(mid): Ghost<int>) -> (out: Vec<usize>)
    requires
        all_sorted(keys@, a@),
        all_sorted(keys@, b@),
        forall|i: int| 0 <= i < a.len() ==> (#[trigger] a[i]) < mid,
        forall|i: int| 0 <= i < b.len() ==> mid <= (#[trigger] b[i]) < keys.len(),
        mid <= keys.len(),
        a.len() + b.len() <= usize::MAX,
    ensures
        out.len() == a.len() + b.len(),
        all_sorted(keys@, out@),
        forall|i: int| 0 <= i < out.len() ==> a@.contains(#[trigger] out[i]) || b@.contains(out[i]),
{
    let mut out: Vec<usize> = Vec::new();
    let mut i: usize = 0;
    let mut j: usize = 0;
    while i < a.len() || j < b.len()
        invariant
            all_sorted(keys@, a@),
            all_sorted(keys@, b@),
            forall|i: int| 0 <= i < a.len() ==> (#[trigger] a[i]) < mid,
            forall|i: int| 0 <= i < b.len() ==> mid <= (#[trigger] b[i]) < keys.len(),
            mid <= keys.len(),
            i <= a.len(),
            j <= b.len(),
            a.len() + b.len() <= usize::MAX,
            out.len() == i + j,
            all_sorted(keys@, out@),
            forall|x: int| 0 <= x < out.len() ==> a@.contains(#[trigger] out[x]) || b@.contains(out[x]),
            forall|x: int, y: int|
                0 <= x < out.len() && i <= y < a.len() ==> comes_first(
                    keys@,
                    #[trigger] out[x] as int,
                    #[trigger] a[y] as int,
                ),
            forall|x: int, y: int|
                0 <= x < out.len() && j <= y < b.len() ==> comes_first(
                    keys@,
                    #[trigger] out[x] as int,
                    #[trigger] b[y] as int,
                ),
        decreases a.len() + b.len() - i - j,
    {
        let from_a: bool = j >= b.len() || (i < a.len() && keys[a[i]] <= keys[b[j]]);
        if from_a {
            let p: usize = a[i];
            assert(a@.contains(p));
            if j < b.len() {
                assert forall|y: int| j <= y < b.len() implies comes_first(keys@, p as int, #[trigger] b[y] as int) by {
                    if j < y {
                        assert(comes_first(keys@, b[j as int] as int, b[y] as int));
                    }
                }
            }
            out.push(p);
            i = i + 1;
        } else {
            let p: usize = b[j];
            assert(b@.contains(p));
            assert forall|y: int| i <= y < a.len() implies comes_first(keys@, p as int, #[trigger] a[y] as int) by {
                if i < y {
                    assert(comes_first(keys@, a[i as int] as int, a[y] as int));
                }
            }
            out.push(p);
            j = j + 1;
        }
    }
    out
}

fn sort_range(keys: &Vec<i64>, from: usize, to: usize) -> (order: Vec<usize>)
    requires
        from <= to <= keys.len(),
    ensures
        order.len() == to - from,
        all_sorted(keys@, order@),
        forall|i: int| 0 <= i < order.len() ==> from <= (#[trigger] order[i]) < to,
    decreases to - from,
{
    let mut order: Vec<usize> = Vec::new();
    if to - from == 0 {
        return order;
    }
    if to - from == 1 {
        order.push(from);
        return order;
    }
    let mid: usize = from + (to - from) / 2;
    let a: Vec<usize> = sort_range(keys, from, mid);
    let b: Vec<usize> = sort_range(keys, mid, to);
    merge(keys, &a, &b, Ghost(mid as int))
}

/// The positions of `keys`, sorted by key; positions of equal keys stay in order.
pub fn stable_order(keys: &Vec<i64>) -> (order: Vec<usize>)
    ensures
        is_stable_order(keys@, order@),
{
    sort_range(keys, 0, keys.len())
}

/// Each position listed is beyond the one before it.
pub open spec fn are_in_order(at: Seq<int>) -> bool {
    forall|i: int, j: int| 0 <= i < j < at.len() ==> #[trigger] at[i] < #[trigger] at[j]
}

/// `at` lists, in order, all the positions below `n` that `p` holds of.
pub open spec fn are_all_that(at: Seq<int>, n: int, p: spec_fn(int) -> bool) -> bool {
    &&& are_in_order(at)
    &&& forall|k: int| 0 <= k < at.len() ==> 0 <= #[trigger] at[k] < n && p(at[k])
    &&& forall|i: int| 0 <= i < n && #[trigger] p(i) ==> at.contains(i)
}

/// One position more is one more in the list, or none.
pub proof fn lemma_one_more(at: Seq<int>, n: int, p: spec_fn(int) -> bool)
    requires
        0 <= n,
        are_all_that(at, n, p),
    ensures
        are_all_that(
            if p(n) {
                at.push(n)
            } else {
                at
            },
            n + 1,
            p,
        ),
{
    let more = if p(n) {
        at.push(n)
    } else {
        at
    };
    assert forall|i: int| 0 <= i < n + 1 && #[trigger] p(i) implies more.contains(i) by {
        if i == n {
            assert(more[at.len() as int] == n);
        } else {
            let k = at.index_of(i);
            assert(at.contains(i));
            assert(more[k] == i);
        }
    }
}

/// A sort by key gives every position once, by key, and leaves those of one key in
/// order.
pub proof fn law_sort_is_stable(keys: Vec<i64>, order: Vec<usize>)
    requires
        call_ensures(stable_order, (&keys,), order),
    ensures
        order.len() == keys.len(),
        order@.no_duplicates(),
        forall|p: usize| p < keys.len() ==> order@.contains(p),
        forall|i: int| 0 <= i < order.len() ==> (#[trigger] order@[i]) < keys.len(),
        forall|i: int, j: int|
            0 <= i < j < order.len() ==> {
                let (p, q) = (#[trigger] order@[i], #[trigger] order@[j]);
                keys[p as int] <= keys[q as int] && (keys[p as int] == keys[q as int] ==> p < q)
            },
{
    assert forall|p: usize| p < keys.len() implies order@.contains(p) by {
        law_stable_order_is_a_permutation(keys@, order@, p);
    }
    assert(order@.no_duplicates()) by {
        assert forall|i: int, j: int| 0 <= i < j < order.len() implies order@[i] != order@[j] by {
            assert(comes_first(keys@, order@[i] as int, order@[j] as int));
        }
    }
}

} // verus!
