//! Stable sorting by an order that ties may occur in.

use vstd::prelude::*;

verus! {

/// `less` orders values up to ties.
pub open spec fn is_weak_order<T>(less: spec_fn(T, T) -> bool) -> bool {
    &&& forall|a: T| !#[trigger] less(a, a)
    &&& forall|a: T, b: T, c: T| #[trigger] less(a, b) && #[trigger] less(b, c) ==> less(a, c)
    &&& forall|a: T, b: T, c: T| #[trigger] less(a, c) ==> #[trigger] less(a, b) || less(b, c)
}

/// Position `a` comes before position `b`: its value is smaller, or the values
/// tie and it stands further left.
pub open spec fn precedes<T>(
    items: Seq<T>,
    less: spec_fn(T, T) -> bool,
    a: usize,
    b: usize,
) -> bool {
    ||| less(items[a as int], items[b as int])
    ||| !less(items[b as int], items[a as int]) && a < b
}

/// Each position comes before those behind it.
pub open spec fn is_ordered<T>(
    items: Seq<T>,
    less: spec_fn(T, T) -> bool,
    p: Seq<usize>,
) -> bool {
    forall|i: int, j: int|
        0 <= i < j < p.len() ==> precedes(items, less, #[trigger] p[i], #[trigger] p[j])
}

/// `p` lists the positions of `items` in stable order.
pub open spec fn is_stable_order<T>(
    items: Seq<T>,
    less: spec_fn(T, T) -> bool,
    p: Seq<usize>,
) -> bool {
    &&& p.len() == items.len()
    &&& p.no_duplicates()
    &&& forall|i: int| 0 <= i < p.len() ==> (#[trigger] p[i]) < items.len()
    &&& is_ordered(items, less, p)
}

/// The values at the positions that `p` lists.
pub open spec fn arranged<T>(items: Seq<T>, p: Seq<usize>) -> Seq<T> {
    Seq::new(p.len(), |i: int| items[p[i] as int])
}

/// `sorted` holds the values of `items` in stable order.
pub open spec fn is_stable_sort<T>(
    items: Seq<T>,
    less: spec_fn(T, T) -> bool,
    sorted: Seq<T>,
) -> bool {
    exists|p: Seq<usize>| #[trigger] is_stable_order(items, less, p) && sorted == arranged(items, p)
}

proof fn lemma_precedes_transitive<T>(
    items: Seq<T>,
    less: spec_fn(T, T) -> bool,
    a: usize,
    b: usize,
    c: usize,
)
    requires
        is_weak_order(less),
        precedes(items, less, a, b),
        precedes(items, less, b, c),
    ensures
        precedes(items, less, a, c),
{
    let x = items[a as int];
    let y = items[b as int];
    let z = items[c as int];
    if less(x, y) {
        assert(less(x, z) || less(z, y)) by {
            assert(less(x, y) ==> less(x, z) || less(z, y));
        }
        if less(y, z) {
            assert(less(x, z));
        }
    } else if less(y, z) {
        assert(less(y, z) ==> less(y, x) || less(x, z));
    } else {
        if less(z, x) {
            assert(less(z, x) ==> less(z, y) || less(y, x));
        }
    }
}

/// Merges the ordered positions `left` and `right`, all of `left` being smaller
/// than all of `right`.
fn merge<T, F: Fn(&T, &T) -> bool>(
    items: &Vec<T>,
    before: &F,
    left: &Vec<usize>,
    right: &Vec<usize>,
    Ghost(less): Ghost<spec_fn(T, T) -> bool>,
) -> (p: Vec<usize>)
    requires
        is_weak_order(less),
        forall|x: &T, y: &T| call_requires(*before, (x, y)),
        forall|x: &T, y: &T, r: bool| call_ensures(*before, (x, y), r) ==> r == less(*x, *y),
        forall|i: int| 0 <= i < left.len() ==> (#[trigger] left@[i]) < items.len(),
        forall|i: int| 0 <= i < right.len() ==> (#[trigger] right@[i]) < items.len(),
        forall|i: int, j: int|
            0 <= i < left.len() && 0 <= j < right.len() ==> #[trigger] left@[i]
                < #[trigger] right@[j],
        is_ordered(items@, less, left@),
        is_ordered(items@, less, right@),
        left.len() + right.len() <= usize::MAX,
    ensures
        p.len() == left.len() + right.len(),
        is_ordered(items@, less, p@),
        forall|x: usize| #[trigger] p@.contains(x) <==> left@.contains(x) || right@.contains(x),
{
    let mut p: Vec<usize> = Vec::new();
    let mut i: usize = 0;
    let mut j: usize = 0;
    while i < left.len() || j < right.len()
        invariant
            is_weak_order(less),
            forall|x: &T, y: &T| call_requires(*before, (x, y)),
            forall|x: &T, y: &T, r: bool| call_ensures(*before, (x, y), r) ==> r == less(*x, *y),
            forall|k: int| 0 <= k < left.len() ==> (#[trigger] left@[k]) < items.len(),
            forall|k: int| 0 <= k < right.len() ==> (#[trigger] right@[k]) < items.len(),
            forall|k: int, m: int|
                0 <= k < left.len() && 0 <= m < right.len() ==> #[trigger] left@[k]
                    < #[trigger] right@[m],
            is_ordered(items@, less, left@),
            is_ordered(items@, less, right@),
            left.len() + right.len() <= usize::MAX,
            i <= left.len(),
            j <= right.len(),
            p.len() == i + j,
            is_ordered(items@, less, p@),
            forall|k: int, m: int|
                0 <= k < p.len() && i <= m < left.len() ==> precedes(
                    items@,
                    less,
                    #[trigger] p@[k],
                    #[trigger] left@[m],
                ),
            forall|k: int, m: int|
                0 <= k < p.len() && j <= m < right.len() ==> precedes(
                    items@,
                    less,
                    #[trigger] p@[k],
                    #[trigger] right@[m],
                ),
            forall|x: usize| #[trigger]
                p@.contains(x) <==> left@.take(i as int).contains(x) || right@.take(
                    j as int,
                ).contains(x),
        decreases left.len() - i + right.len() - j,
    {
        let ghost done = p@;
        let take_right: bool = if i == left.len() {
            true
        } else if j == right.len() {
            false
        } else {
            before(&items[right[j]], &items[left[i]])
        };
        if take_right {
            let x: usize = right[j];
            proof {
                assert forall|m: int| i <= m < left.len() implies precedes(
                    items@,
                    less,
                    x,
                    #[trigger] left@[m],
                ) by {
                    if m > i {
                        lemma_precedes_transitive(items@, less, x, left@[i as int], left@[m]);
                    }
                }
                lemma_take_push(right@, j as int);
            }
            p.push(x);
            j += 1;
            proof {
                lemma_push_contains(done, x);
            }
        } else {
            let x: usize = left[i];
            proof {
                assert forall|m: int| j <= m < right.len() implies precedes(
                    items@,
                    less,
                    x,
                    #[trigger] right@[m],
                ) by {
                    assert(x < right@[j as int]);
                    assert(precedes(items@, less, x, right@[j as int]));
                    if m > j {
                        lemma_precedes_transitive(items@, less, x, right@[j as int], right@[m]);
                    }
                }
                lemma_take_push(left@, i as int);
            }
            p.push(x);
            i += 1;
            proof {
                lemma_push_contains(done, x);
            }
        }
    }
    assert(left@.take(i as int) =~= left@);
    assert(right@.take(j as int) =~= right@);
    p
}

proof fn lemma_push_contains(s: Seq<usize>, x: usize)
    ensures
        forall|y: usize| #[trigger] s.push(x).contains(y) <==> s.contains(y) || y == x,
{
    assert forall|y: usize| #[trigger] s.push(x).contains(y) <==> s.contains(y) || y == x by {
        if s.contains(y) {
            let k: int = choose|k: int| 0 <= k < s.len() && s[k] == y;
            assert(s.push(x)[k] == y);
        }
        if y == x {
            assert(s.push(x)[s.len() as int] == y);
        }
    }
}

proof fn lemma_take_push(s: Seq<usize>, i: int)
    requires
        0 <= i < s.len(),
    ensures
        forall|y: usize| #[trigger]
            s.take(i + 1).contains(y) <==> s.take(i).contains(y) || y == s[i],
{
    assert(s.take(i + 1) =~= s.take(i).push(s[i]));
    lemma_push_contains(s.take(i), s[i]);
}

/// The positions `lo` to `hi` in stable order.
fn order_range<T, F: Fn(&T, &T) -> bool>(
    items: &Vec<T>,
    before: &F,
    lo: usize,
    hi: usize,
    Ghost(less): Ghost<spec_fn(T, T) -> bool>,
) -> (p: Vec<usize>)
    requires
        lo <= hi <= items.len(),
        is_weak_order(less),
        forall|x: &T, y: &T| call_requires(*before, (x, y)),
        forall|x: &T, y: &T, r: bool| call_ensures(*before, (x, y), r) ==> r == less(*x, *y),
    ensures
        p.len() == hi - lo,
        is_ordered(items@, less, p@),
        forall|x: usize| #[trigger] p@.contains(x) <==> lo <= x < hi,
    decreases hi - lo,
{
    let mut p: Vec<usize> = Vec::new();
    if hi - lo == 0 {
        return p;
    }
    if hi - lo == 1 {
        p.push(lo);
        assert(p@[0] == lo);
        return p;
    }
    let mid: usize = lo + (hi - lo) / 2;
    let left = order_range(items, before, lo, mid, Ghost(less));
    let right = order_range(items, before, mid, hi, Ghost(less));
    proof {
        assert forall|i: int| 0 <= i < left.len() implies lo <= (#[trigger] left@[i]) < mid by {
            assert(left@.contains(left@[i]));
        }
        assert forall|i: int| 0 <= i < right.len() implies mid <= (#[trigger] right@[i]) < hi by {
            assert(right@.contains(right@[i]));
        }
    }
    merge(items, before, &left, &right, Ghost(less))
}

proof fn lemma_ordered_distinct<T>(items: Seq<T>, less: spec_fn(T, T) -> bool, p: Seq<usize>)
    requires
        is_weak_order(less),
        is_ordered(items, less, p),
    ensures
        p.no_duplicates(),
{
    assert forall|i: int, j: int| 0 <= i < p.len() && 0 <= j < p.len() && i != j implies p[i]
        != p[j] by {
        if i < j {
            assert(precedes(items, less, p[i], p[j]));
        } else {
            assert(precedes(items, less, p[j], p[i]));
        }
    }
}

/// The positions of `items` in stable order.
pub fn stable_order<T, F: Fn(&T, &T) -> bool>(
    items: &Vec<T>,
    before: &F,
    Ghost(less): Ghost<spec_fn(T, T) -> bool>,
) -> (p: Vec<usize>)
    requires
        is_weak_order(less),
        forall|x: &T, y: &T| call_requires(*before, (x, y)),
        forall|x: &T, y: &T, r: bool| call_ensures(*before, (x, y), r) ==> r == less(*x, *y),
    ensures
        is_stable_order(items@, less, p@),
{
    let p = order_range(items, before, 0, items.len(), Ghost(less));
    proof {
        lemma_ordered_distinct(items@, less, p@);
        assert forall|i: int| 0 <= i < p.len() implies (#[trigger] p@[i]) < items.len() by {
            assert(p@.contains(p@[i]));
        }
    }
    p
}

/// Moves the values to the positions that `p` gives them.
pub fn arrange<T>(items: Vec<T>, p: &Vec<usize>) -> (res: Vec<T>)
    requires
        p@.no_duplicates(),
        forall|i: int| 0 <= i < p.len() ==> (#[trigger] p@[i]) < items.len(),
    ensures
        res@ == arranged(items@, p@),
{
    let ghost all = items@;
    let mut slots: Vec<Option<T>> = Vec::new();
    let mut rest = items;
    while rest.len() > 0
        invariant
            rest.len() + slots.len() == all.len(),
            rest@ == all.take(rest.len() as int),
            forall|i: int|
                0 <= i < slots.len() ==> #[trigger] slots@[i] == Some(all[all.len() - 1 - i]),
        decreases rest.len(),
    {
        if let Some(x) = rest.pop() {
            slots.push(Some(x));
            assert(rest@ =~= all.take(rest.len() as int));
        }
    }
    let n: usize = slots.len();
    let mut res: Vec<T> = Vec::new();
    let mut k: usize = 0;
    while k < p.len()
        invariant
            n == slots.len(),
            n == all.len(),
            k <= p.len(),
            p@.no_duplicates(),
            forall|i: int| 0 <= i < p.len() ==> (#[trigger] p@[i]) < n,
            res@ == arranged(all, p@).take(k as int),
            forall|i: int|
                k <= i < p.len() ==> slots@[n - 1 - (#[trigger] p@[i])] == Some(
                    all[p@[i] as int],
                ),
        decreases p.len() - k,
    {
        let source: usize = p[k];
        let at: usize = n - 1 - source;
        let mut slot: Option<T> = None;
        std::mem::swap(&mut slot, &mut slots[at]);
        assert(slot == Some(all[p@[k as int] as int]));
        if let Some(x) = slot {
            res.push(x);
        }
        k += 1;
        assert(res@ =~= arranged(all, p@).take(k as int));
    }
    assert(res@ =~= arranged(all, p@));
    res
}

/// Sorts the values, ties staying in their order.
pub fn stable_sort<T, F: Fn(&T, &T) -> bool>(
    items: Vec<T>,
    before: &F,
    Ghost(less): Ghost<spec_fn(T, T) -> bool>,
) -> (sorted: Vec<T>)
    requires
        is_weak_order(less),
        forall|x: &T, y: &T| call_requires(*before, (x, y)),
        forall|x: &T, y: &T, r: bool| call_ensures(*before, (x, y), r) ==> r == less(*x, *y),
    ensures
        is_stable_sort(items@, less, sorted@),
{
    let ghost all = items@;
    let p = stable_order(&items, before, Ghost(less));
    let sorted = arrange(items, &p);
    assert(is_stable_order(all, less, p@) && sorted@ == arranged(all, p@));
    sorted
}

/// The ids in `ids`, each once, in ascending order.
pub open spec fn is_id_list_of(list: Seq<u32>, ids: Seq<u32>) -> bool {
    &&& forall|i: int, j: int|
        0 <= i < j < list.len() ==> (#[trigger] list[i]) < (#[trigger] list[j])
    &&& forall|id: u32| #[trigger] list.contains(id) <==> ids.contains(id)
}

/// Every value of a sequence is in its stable sort, and no other.
pub proof fn lemma_sort_keeps_values<T>(
    items: Seq<T>,
    less: spec_fn(T, T) -> bool,
    sorted: Seq<T>,
)
    requires
        is_stable_sort(items, less, sorted),
    ensures
        sorted.len() == items.len(),
        forall|x: T| #[trigger] sorted.contains(x) <==> items.contains(x),
        forall|i: int, j: int|
            0 <= i < j < sorted.len() ==> !less(#[trigger] sorted[j], #[trigger] sorted[i])
                || less(sorted[i], sorted[j]),
{
    let p = choose|p: Seq<usize>| #[trigger]
        is_stable_order(items, less, p) && sorted == arranged(items, p);
    assert forall|x: T| #[trigger] sorted.contains(x) <==> items.contains(x) by {
        if sorted.contains(x) {
            let i: int = choose|i: int| 0 <= i < sorted.len() && sorted[i] == x;
            assert(items[p[i] as int] == x);
        }
        if items.contains(x) {
            let k: int = choose|k: int| 0 <= k < items.len() && items[k] == x;
            lemma_position_found(p, items.len(), k);
            let i: int = choose|i: int| 0 <= i < p.len() && p[i] as int == k;
            assert(sorted[i] == x);
        }
    }
    assert forall|i: int, j: int| 0 <= i < j < sorted.len() implies !less(
        #[trigger] sorted[j],
        #[trigger] sorted[i],
    ) || less(sorted[i], sorted[j]) by {
        assert(precedes(items, less, p[i], p[j]));
    }
}

/// A list of `n` distinct positions below `n` misses none.
pub proof fn lemma_position_found(p: Seq<usize>, n: nat, k: int)
    requires
        p.len() == n,
        p.no_duplicates(),
        forall|i: int| 0 <= i < p.len() ==> (#[trigger] p[i]) < n,
        0 <= k < n,
    ensures
        exists|i: int| 0 <= i < p.len() && #[trigger] p[i] as int == k,
{
    let wide = p.map_values(|x: usize| x as int);
    assert(wide.no_duplicates());
    wide.unique_seq_to_set();
    let range = vstd::set_lib::set_int_range(0, n as int);
    vstd::set_lib::lemma_int_range(0, n as int);
    assert(wide.to_set().subset_of(range)) by {
        assert forall|x: int| wide.to_set().contains(x) implies range.contains(x) by {
            let i: int = choose|i: int| 0 <= i < wide.len() && wide[i] == x;
            assert(wide[i] == p[i] as int);
        }
    }
    vstd::set_lib::lemma_subset_equality(wide.to_set(), range);
    assert(range.contains(k));
    assert(wide.to_set().contains(k));
    let i: int = choose|i: int| 0 <= i < wide.len() && wide[i] == k;
    assert(p[i] as int == k);
}

/// Sorts the ids and drops the repeated ones.
pub fn sorted_distinct(ids: Vec<u32>) -> (list: Vec<u32>)
    ensures
        is_id_list_of(list@, ids@),
{
    let ghost less: spec_fn(u32, u32) -> bool = |a: u32, b: u32| a < b;
    let before = |a: &u32, b: &u32| -> (r: bool)
        ensures
            r == (*a < *b),
        { *a < *b };
    let ghost all = ids@;
    let sorted = stable_sort(ids, &before, Ghost(less));
    proof {
        lemma_sort_keeps_values(all, less, sorted@);
        assert forall|i: int, j: int| 0 <= i < j < sorted.len() implies #[trigger] sorted@[i]
            <= #[trigger] sorted@[j] by {
            assert(!less(sorted@[j], sorted@[i]) || less(sorted@[i], sorted@[j]));
        }
    }
    let mut list: Vec<u32> = Vec::new();
    let mut i: usize = 0;
    while i < sorted.len()
        invariant
            i <= sorted.len(),
            forall|a: int, b: int|
                0 <= a < b < sorted.len() ==> #[trigger] sorted@[a] <= #[trigger] sorted@[b],
            forall|a: int, b: int|
                0 <= a < b < list.len() ==> (#[trigger] list@[a]) < (#[trigger] list@[b]),
            forall|id: u32| #[trigger]
                list@.contains(id) <==> sorted@.take(i as int).contains(id),
            list.len() == 0 <==> i == 0,
            i > 0 ==> list@.last() == sorted@[i - 1],
        decreases sorted.len() - i,
    {
        let x: u32 = sorted[i];
        let ghost before_list = list@;
        let ghost taken = sorted@.take(i as int);
        assert(sorted@.take(i + 1) =~= taken.push(x));
        if list.len() == 0 || list[list.len() - 1] != x {
            list.push(x);
            proof {
                assert forall|id: u32| #[trigger] list@.contains(id) <==> sorted@.take(
                    i + 1,
                ).contains(id) by {
                    lemma_push_id(before_list, x, id);
                    lemma_push_id(taken, x, id);
                }
            }
        } else {
            proof {
                assert forall|id: u32| #[trigger] list@.contains(id) <==> sorted@.take(
                    i + 1,
                ).contains(id) by {
                    lemma_push_id(taken, x, id);
                    assert(list@.contains(list@.last()));
                }
            }
        }
        i += 1;
    }
    assert(sorted@.take(i as int) =~= sorted@);
    list
}

proof fn lemma_push_id(s: Seq<u32>, x: u32, y: u32)
    ensures
        s.push(x).contains(y) <==> s.contains(y) || y == x,
{
    if s.contains(y) {
        let k: int = choose|k: int| 0 <= k < s.len() && s[k] == y;
        assert(s.push(x)[k] == y);
    }
    if y == x {
        assert(s.push(x)[s.len() as int] == y);
    }
}

/// Whether the id is in the list.
pub fn contains_id(ids: &Vec<u32>, id: u32) -> (b: bool)
    ensures
        b == ids@.contains(id),
{
    let mut i: usize = 0;
    while i < ids.len()
        invariant
            i <= ids.len(),
            forall|j: int| 0 <= j < i ==> ids@[j] != id,
        decreases ids.len() - i,
    {
        if ids[i] == id {
            assert(ids@[i as int] == id);
            return true;
        }
        i += 1;
    }
    false
}

/// What holds of any two elements, the earlier one first, still holds of those that
/// are picked out.
pub proof fn lemma_filter_keeps_order<A>(
    s: Seq<A>,
    keep: spec_fn(A) -> bool,
    before: spec_fn(A, A) -> bool,
)
    requires
        forall|i: int, j: int|
            #![trigger s[i], s[j]]
            0 <= i < j < s.len() ==> before(s[i], s[j]),
    ensures
        forall|i: int, j: int|
            #![trigger s.filter(keep)[i], s.filter(keep)[j]]
            0 <= i < j < s.filter(keep).len() ==> before(s.filter(keep)[i], s.filter(keep)[j]),
    decreases s.len(),
{
    reveal(Seq::filter);
    if s.len() > 0 {
        let rest = s.drop_last();
        let kept = rest.filter(keep);
        assert forall|i: int, j: int|
            #![trigger rest[i], rest[j]]
            0 <= i < j < rest.len() implies before(rest[i], rest[j]) by {
            assert(rest[i] == s[i] && rest[j] == s[j]);
        }
        lemma_filter_keeps_order(rest, keep, before);
        assert forall|i: int, j: int|
            #![trigger s.filter(keep)[i], s.filter(keep)[j]]
            0 <= i < j < s.filter(keep).len() implies before(
            s.filter(keep)[i],
            s.filter(keep)[j],
        ) by {
            if j < kept.len() {
                assert(before(kept[i], kept[j]));
            } else {
                assert(kept.contains(kept[i]));
                rest.lemma_filter_contains_rev(keep, kept[i]);
                let k: int = rest.index_of(kept[i]);
                assert(s[k] == kept[i]);
                assert(before(s[k], s[s.len() - 1]));
            }
        }
    }
}

} // verus!
