//! The order in which the picker shows candidates: the selected ones pinned
//! on top in selection order, then the others; and what toggling does to the
//! selection.
use vstd::prelude::*;

verus! {

/// The elements of `xs` that `within` holds, in the order of `xs`.
pub open spec fn members_of(xs: Seq<usize>, within: Seq<usize>) -> Seq<usize>
    decreases xs.len(),
{
    if xs.len() == 0 {
        seq![]
    } else {
        let prev = members_of(xs.drop_last(), within);
        if within.contains(xs.last()) {
            prev.push(xs.last())
        } else {
            prev
        }
    }
}

/// The elements of `xs` that `excluded` does not hold, in the order of `xs`.
pub open spec fn outside_of(xs: Seq<usize>, excluded: Seq<usize>) -> Seq<usize>
    decreases xs.len(),
{
    if xs.len() == 0 {
        seq![]
    } else {
        let prev = outside_of(xs.drop_last(), excluded);
        if excluded.contains(xs.last()) {
            prev
        } else {
            prev.push(xs.last())
        }
    }
}

/// The shown candidates `filtered` with the selected ones pinned on top: the
/// selected candidates that are shown, in the order they were selected, then
/// the others in their order.
pub open spec fn pinned_order(filtered: Seq<usize>, selected: Seq<usize>) -> Seq<usize> {
    members_of(selected, filtered) + outside_of(filtered, selected)
}

/// Whether every element of `xs` is an index into a list of length `n`.
pub open spec fn indices_below(xs: Seq<usize>, n: nat) -> bool {
    forall|k: int| 0 <= k < xs.len() ==> #[trigger] xs[k] < n
}

/// `0, 1, ..., n - 1`.
pub open spec fn all_indices(n: nat) -> Seq<usize> {
    Seq::new(n, |i: int| i as usize)
}

/// `members_of` keeps exactly the elements of `xs` that `within` holds, and
/// keeps them free of repeats.
pub proof fn lemma_members_of(xs: Seq<usize>, within: Seq<usize>)
    ensures
        forall|x: usize| #[trigger] members_of(xs, within).contains(x) <==> (xs.contains(x) && within.contains(x)),
        xs.no_duplicates() ==> members_of(xs, within).no_duplicates(),
    decreases xs.len(),
{
    if xs.len() > 0 {
        let d = xs.drop_last();
        lemma_members_of(d, within);
        let prev = members_of(d, within);
        assert forall|x: usize| #[trigger] members_of(xs, within).contains(x) <==> (xs.contains(x)
            && within.contains(x)) by {
            if xs.contains(x) {
                let k = choose|k: int| 0 <= k < xs.len() && xs[k] == x;
                if k < xs.len() - 1 {
                    assert(d[k] == x);
                    assert(d.contains(x));
                }
            }
            if d.contains(x) {
                let k = choose|k: int| 0 <= k < d.len() && d[k] == x;
                assert(xs[k] == x);
            }
            if within.contains(xs.last()) {
                assert(prev.push(xs.last())[prev.len() as int] == xs.last());
                if prev.contains(x) {
                    let k = choose|k: int| 0 <= k < prev.len() && prev[k] == x;
                    assert(prev.push(xs.last())[k] == x);
                }
                if prev.push(xs.last()).contains(x) {
                    let k = choose|k: int| 0 <= k < prev.len() + 1 && prev.push(xs.last())[k] == x;
                    if k < prev.len() {
                        assert(prev[k] == x);
                    }
                }
            }
        }
        if xs.no_duplicates() && within.contains(xs.last()) {
            assert(d.no_duplicates());
            assert(!d.contains(xs.last())) by {
                if d.contains(xs.last()) {
                    let k = choose|k: int| 0 <= k < d.len() && d[k] == xs.last();
                    assert(xs[k] == xs[xs.len() - 1]);
                }
            }
            assert(!prev.contains(xs.last()));
            let n = prev.push(xs.last());
            assert forall|i: int, j: int| 0 <= i < n.len() && 0 <= j < n.len() && i != j implies n[i]
                != n[j] by {
                if i == prev.len() {
                    assert(prev.contains(n[j]));
                } else if j == prev.len() {
                    assert(prev.contains(n[i]));
                }
            }
        }
    }
}

/// `outside_of` keeps exactly the elements of `xs` that `excluded` does not
/// hold, and keeps them free of repeats.
pub proof fn lemma_outside_of(xs: Seq<usize>, excluded: Seq<usize>)
    ensures
        forall|x: usize| #[trigger] outside_of(xs, excluded).contains(x) <==> (xs.contains(x)
            && !excluded.contains(x)),
        xs.no_duplicates() ==> outside_of(xs, excluded).no_duplicates(),
    decreases xs.len(),
{
    if xs.len() > 0 {
        let d = xs.drop_last();
        lemma_outside_of(d, excluded);
        let prev = outside_of(d, excluded);
        assert forall|x: usize| #[trigger] outside_of(xs, excluded).contains(x) <==> (xs.contains(
            x,
        ) && !excluded.contains(x)) by {
            if xs.contains(x) {
                let k = choose|k: int| 0 <= k < xs.len() && xs[k] == x;
                if k < xs.len() - 1 {
                    assert(d[k] == x);
                    assert(d.contains(x));
                }
            }
            if d.contains(x) {
                let k = choose|k: int| 0 <= k < d.len() && d[k] == x;
                assert(xs[k] == x);
            }
            if !excluded.contains(xs.last()) {
                assert(prev.push(xs.last())[prev.len() as int] == xs.last());
                if prev.contains(x) {
                    let k = choose|k: int| 0 <= k < prev.len() && prev[k] == x;
                    assert(prev.push(xs.last())[k] == x);
                }
                if prev.push(xs.last()).contains(x) {
                    let k = choose|k: int| 0 <= k < prev.len() + 1 && prev.push(xs.last())[k] == x;
                    if k < prev.len() {
                        assert(prev[k] == x);
                    }
                }
            }
        }
        if xs.no_duplicates() && !excluded.contains(xs.last()) {
            assert(d.no_duplicates());
            assert(!d.contains(xs.last())) by {
                if d.contains(xs.last()) {
                    let k = choose|k: int| 0 <= k < d.len() && d[k] == xs.last();
                    assert(xs[k] == xs[xs.len() - 1]);
                }
            }
            assert(!prev.contains(xs.last()));
            let n = prev.push(xs.last());
            assert forall|i: int, j: int| 0 <= i < n.len() && 0 <= j < n.len() && i != j implies n[i]
                != n[j] by {
                if i == prev.len() {
                    assert(prev.contains(n[j]));
                } else if j == prev.len() {
                    assert(prev.contains(n[i]));
                }
            }
        }
    }
}

/// Pinning the selected candidates on top only reorders the shown ones.
pub proof fn lemma_pinned_order(filtered: Seq<usize>, selected: Seq<usize>)
    requires
        filtered.no_duplicates(),
        selected.no_duplicates(),
    ensures
        pinned_order(filtered, selected).no_duplicates(),
        forall|x: usize| #[trigger] pinned_order(filtered, selected).contains(x) <==> filtered.contains(x),
        pinned_order(filtered, selected).len() == filtered.len(),
{
    let a = members_of(selected, filtered);
    let b = outside_of(filtered, selected);
    let p = a + b;
    lemma_members_of(selected, filtered);
    lemma_outside_of(filtered, selected);
    assert forall|x: usize| #[trigger] p.contains(x) <==> filtered.contains(x) by {
        if p.contains(x) {
            let k = choose|k: int| 0 <= k < p.len() && p[k] == x;
            if k < a.len() {
                assert(a[k] == x);
                assert(a.contains(x));
            } else {
                assert(b[k - a.len()] == x);
                assert(b.contains(x));
            }
        }
        if filtered.contains(x) {
            if selected.contains(x) {
                assert(a.contains(x));
                let k = choose|k: int| 0 <= k < a.len() && a[k] == x;
                assert(p[k] == x);
            } else {
                assert(b.contains(x));
                let k = choose|k: int| 0 <= k < b.len() && b[k] == x;
                assert(p[k + a.len()] == x);
            }
        }
    }
    assert forall|i: int, j: int| 0 <= i < p.len() && 0 <= j < p.len() && i != j implies p[i]
        != p[j] by {
        if i < a.len() && j < a.len() {
        } else if i >= a.len() && j >= a.len() {
            assert(p[i] == b[i - a.len()] && p[j] == b[j - a.len()]);
        } else if i < a.len() {
            assert(a.contains(p[i]));
            assert(p[j] == b[j - a.len()]);
            assert(b.contains(p[j]));
        } else {
            assert(a.contains(p[j]));
            assert(p[i] == b[i - a.len()]);
            assert(b.contains(p[i]));
        }
    }
    assert(p.to_set() =~= filtered.to_set());
    p.unique_seq_to_set();
    filtered.unique_seq_to_set();
}

/// Whether `xs` holds `x`.
pub fn contains_index(xs: &Vec<usize>, x: usize) -> (b: bool)
    ensures
        b == xs@.contains(x),
{
    let mut k: usize = 0;
    while k < xs.len()
        invariant
            k <= xs.len(),
            forall|j: int| 0 <= j < k ==> xs@[j] != x,
        decreases xs.len() - k,
    {
        if xs[k] == x {
            return true;
        }
        k += 1;
    }
    false
}

/// `0, 1, ..., n - 1`.
pub fn index_range(n: usize) -> (r: Vec<usize>)
    ensures
        r@ == all_indices(n as nat),
{
    let mut r: Vec<usize> = Vec::new();
    let mut i: usize = 0;
    while i < n
        invariant
            i <= n,
            r@ =~= all_indices(i as nat),
        decreases n - i,
    {
        r.push(i);
        i += 1;
    }
    r
}

/// The selection after toggling `idx`: removed (its first occurrence) when
/// selected, else added at the end.
pub open spec fn toggled(selected: Seq<usize>, idx: usize) -> Seq<usize> {
    if selected.contains(idx) {
        selected.remove_value(idx)
    } else {
        selected.push(idx)
    }
}

/// The position of `x` in `xs` (which holds `x` once).
pub open spec fn position_of(xs: Seq<usize>, x: usize) -> usize {
    (choose|k: int| 0 <= k < xs.len() && xs[k] == x) as usize
}

/// Deselecting a candidate deletes it where it stands and keeps the others
/// in the order they were selected; selecting one appends it at the end.
pub proof fn lemma_toggled_keeps_order(selected: Seq<usize>, idx: usize)
    ensures
        forall|p: int|
            0 <= p < selected.len() && #[trigger] selected[p] == idx && (forall|j: int|
                0 <= j < p ==> selected[j] != idx) ==> toggled(selected, idx) == selected.subrange(
                0,
                p,
            ) + selected.subrange(p + 1, selected.len() as int),
        !selected.contains(idx) ==> toggled(selected, idx) == selected.push(idx),
{
    assert forall|p: int|
        0 <= p < selected.len() && #[trigger] selected[p] == idx && (forall|j: int|
            0 <= j < p ==> selected[j] != idx) implies toggled(selected, idx) == selected.subrange(
        0,
        p,
    ) + selected.subrange(p + 1, selected.len() as int) by {
        selected.index_of_first_ensures(idx);
        assert(selected.contains(idx));
        let i = selected.index_of_first(idx)->0;
        assert(i == p) by {
            if i < p {
                assert(selected[i] == idx);
            }
            if p < i {
                assert(selected[p] != idx);
            }
        }
    }
}

/// Whether any two elements of `m` stand in `xs` in the same order: where
/// `xs` holds `m[a]` and `m[b]`, with `a < b`, it holds `m[a]` first.
pub open spec fn in_order_of(m: Seq<usize>, xs: Seq<usize>) -> bool {
    forall|a: int, b: int, i: int, j: int|
        0 <= a < b < m.len() && 0 <= i < xs.len() && 0 <= j < xs.len() && #[trigger] xs[i]
            == #[trigger] m[a] && #[trigger] xs[j] == #[trigger] m[b] ==> i < j
}

/// `members_of` keeps the order of `xs`.
proof fn lemma_members_of_order(xs: Seq<usize>, within: Seq<usize>)
    requires
        xs.no_duplicates(),
    ensures
        in_order_of(members_of(xs, within), xs),
    decreases xs.len(),
{
    if xs.len() > 0 {
        let d = xs.drop_last();
        let n = xs.len() - 1;
        lemma_members_of_order(d, within);
        lemma_members_of(d, within);
        let m = members_of(xs, within);
        let md = members_of(d, within);
        assert forall|a: int, b: int, i: int, j: int|
            0 <= a < b < m.len() && 0 <= i < xs.len() && 0 <= j < xs.len() && #[trigger] xs[i]
                == #[trigger] m[a] && #[trigger] xs[j] == #[trigger] m[b] implies i < j by {
            assert(m[a] == md[a]);
            assert(md.contains(md[a]));
            let ka = choose|k: int| 0 <= k < d.len() && d[k] == md[a];
            assert(xs[ka] == d[ka]);
            assert(i == ka);
            if b < md.len() {
                assert(m[b] == md[b]);
                assert(md.contains(md[b]));
                let kb = choose|k: int| 0 <= k < d.len() && d[k] == md[b];
                assert(xs[kb] == d[kb]);
                assert(j == kb);
                assert(d[i] == md[a] && d[j] == md[b]);
            } else {
                assert(m[b] == xs[n]);
                assert(j == n);
            }
        }
    }
}

/// `outside_of` keeps the order of `xs`.
proof fn lemma_outside_of_order(xs: Seq<usize>, excluded: Seq<usize>)
    requires
        xs.no_duplicates(),
    ensures
        in_order_of(outside_of(xs, excluded), xs),
    decreases xs.len(),
{
    if xs.len() > 0 {
        let d = xs.drop_last();
        let n = xs.len() - 1;
        lemma_outside_of_order(d, excluded);
        lemma_outside_of(d, excluded);
        let m = outside_of(xs, excluded);
        let md = outside_of(d, excluded);
        assert forall|a: int, b: int, i: int, j: int|
            0 <= a < b < m.len() && 0 <= i < xs.len() && 0 <= j < xs.len() && #[trigger] xs[i]
                == #[trigger] m[a] && #[trigger] xs[j] == #[trigger] m[b] implies i < j by {
            assert(m[a] == md[a]);
            assert(md.contains(md[a]));
            let ka = choose|k: int| 0 <= k < d.len() && d[k] == md[a];
            assert(xs[ka] == d[ka]);
            assert(i == ka);
            if b < md.len() {
                assert(m[b] == md[b]);
                assert(md.contains(md[b]));
                let kb = choose|k: int| 0 <= k < d.len() && d[k] == md[b];
                assert(xs[kb] == d[kb]);
                assert(j == kb);
                assert(d[i] == md[a] && d[j] == md[b]);
            } else {
                assert(m[b] == xs[n]);
                assert(j == n);
            }
        }
    }
}

/// How the pinned list is ordered: the selected candidates come before all
/// the others; the selected ones stand in the order they were selected, and
/// the others in the order of the list they were shown in.
pub proof fn lemma_pinned_order_shape(filtered: Seq<usize>, selected: Seq<usize>)
    requires
        filtered.no_duplicates(),
        selected.no_duplicates(),
    ensures
        forall|a: int, b: int|
            0 <= a < b < pinned_order(filtered, selected).len() && selected.contains(
                #[trigger] pinned_order(filtered, selected)[b],
            ) ==> selected.contains(#[trigger] pinned_order(filtered, selected)[a]),
        forall|a: int, b: int, i: int, j: int|
            0 <= a < b < pinned_order(filtered, selected).len() && 0 <= i < selected.len() && 0 <= j
                < selected.len() && #[trigger] selected[i] == #[trigger] pinned_order(
                filtered,
                selected,
            )[a] && #[trigger] selected[j] == #[trigger] pinned_order(filtered, selected)[b] ==> i
                < j,
        forall|a: int, b: int, i: int, j: int|
            0 <= a < b < pinned_order(filtered, selected).len() && 0 <= i < filtered.len() && 0 <= j
                < filtered.len() && !selected.contains(pinned_order(filtered, selected)[a])
                && !selected.contains(pinned_order(filtered, selected)[b]) && #[trigger] filtered[i]
                == #[trigger] pinned_order(filtered, selected)[a] && #[trigger] filtered[j]
                == #[trigger] pinned_order(filtered, selected)[b] ==> i < j,
{
    let ma = members_of(selected, filtered);
    let ob = outside_of(filtered, selected);
    let f = pinned_order(filtered, selected);
    lemma_members_of(selected, filtered);
    lemma_outside_of(filtered, selected);
    lemma_members_of_order(selected, filtered);
    lemma_outside_of_order(filtered, selected);
    assert forall|k: int| 0 <= k < ma.len() implies selected.contains(#[trigger] f[k]) by {
        assert(f[k] == ma[k]);
        assert(ma.contains(ma[k]));
    }
    assert forall|k: int| ma.len() <= k < f.len() implies !selected.contains(#[trigger] f[k]) by {
        assert(f[k] == ob[k - ma.len()]);
        assert(ob.contains(ob[k - ma.len()]));
    }
    assert forall|a: int, b: int, i: int, j: int|
        0 <= a < b < f.len() && 0 <= i < selected.len() && 0 <= j < selected.len()
            && #[trigger] selected[i] == #[trigger] f[a] && #[trigger] selected[j] == #[trigger] f[b]
            implies i < j by {
        assert(selected.contains(f[b]));
        if b >= ma.len() {
            assert(!selected.contains(f[b]));
        }
        assert(f[a] == ma[a] && f[b] == ma[b]);
    }
    assert forall|a: int, b: int, i: int, j: int|
        0 <= a < b < f.len() && 0 <= i < filtered.len() && 0 <= j < filtered.len()
            && !selected.contains(f[a]) && !selected.contains(f[b]) && #[trigger] filtered[i]
            == #[trigger] f[a] && #[trigger] filtered[j] == #[trigger] f[b] implies i < j by {
        if a < ma.len() {
            assert(selected.contains(f[a]));
        }
        let a0 = a - ma.len();
        let b0 = b - ma.len();
        assert(f[a] == ob[a0] && f[b] == ob[b0]);
    }
    assert forall|a: int, b: int|
        0 <= a < b < f.len() && selected.contains(#[trigger] f[b]) implies selected.contains(
        #[trigger] f[a],
    ) by {
        if a >= ma.len() {
            assert(b >= ma.len());
        }
    }
}

/// Toggling removes the first occurrence of a selected candidate or appends
/// an unselected one; the selection stays free of repeats.
pub proof fn lemma_toggled(selected: Seq<usize>, idx: usize)
    requires
        selected.no_duplicates(),
    ensures
        toggled(selected, idx).no_duplicates(),
        toggled(selected, idx).contains(idx) == !selected.contains(idx),
        forall|x: usize| x != idx ==> (#[trigger] toggled(selected, idx).contains(x) == selected.contains(x)),
        !selected.contains(idx) ==> toggled(selected, idx) == selected.push(idx),
{
    let t = toggled(selected, idx);
    if selected.contains(idx) {
        selected.index_of_first_ensures(idx);
        let p = selected.index_of_first(idx)->0;
        selected.remove_ensures(p);
        assert(t == selected.remove(p));
        assert forall|a: int, b: int| 0 <= a < t.len() && 0 <= b < t.len() && a != b implies t[a]
            != t[b] by {
            let a0 = if a < p { a } else { a + 1 };
            let b0 = if b < p { b } else { b + 1 };
            assert(t[a] == selected[a0] && t[b] == selected[b0]);
        }
        assert forall|x: usize| #[trigger] t.contains(x) == (selected.contains(x) && x != idx) by {
            if t.contains(x) {
                let k = choose|k: int| 0 <= k < t.len() && t[k] == x;
                let k0 = if k < p { k } else { k + 1 };
                assert(t[k] == selected[k0]);
                assert(k0 != p);
            }
            if selected.contains(x) && x != idx {
                let k = choose|k: int| 0 <= k < selected.len() && selected[k] == x;
                assert(k != p);
                if k < p {
                    assert(t[k] == x);
                } else {
                    assert(t[k - 1] == x);
                }
            }
        }
    } else {
        assert forall|a: int, b: int| 0 <= a < t.len() && 0 <= b < t.len() && a != b implies t[a]
            != t[b] by {
            if a == selected.len() {
                assert(selected.contains(t[b]));
            } else if b == selected.len() {
                assert(selected.contains(t[a]));
            }
        }
        assert(t[selected.len() as int] == idx);
        assert forall|x: usize| x != idx implies #[trigger] t.contains(x) == selected.contains(x) by {
            if t.contains(x) {
                let k = choose|k: int| 0 <= k < t.len() && t[k] == x;
                assert(k < selected.len());
                assert(selected[k] == x);
            }
            if selected.contains(x) {
                let k = choose|k: int| 0 <= k < selected.len() && selected[k] == x;
                assert(t[k] == x);
            }
        }
    }
}

/// Pinning twice changes nothing more than pinning once.
pub proof fn lemma_pinned_order_settled(filtered: Seq<usize>, selected: Seq<usize>)
    requires
        filtered.no_duplicates(),
        selected.no_duplicates(),
    ensures
        pinned_order(pinned_order(filtered, selected), selected) == pinned_order(filtered, selected),
{
    let p = pinned_order(filtered, selected);
    let a = members_of(selected, filtered);
    let b = outside_of(filtered, selected);
    lemma_pinned_order(filtered, selected);
    lemma_members_of(selected, filtered);
    lemma_outside_of(filtered, selected);
    lemma_members_same_elements(selected, filtered, p);
    assert forall|k: int| 0 <= k < b.len() implies !selected.contains(#[trigger] b[k]) by {
        assert(b.contains(b[k]));
    }
    assert forall|k: int| 0 <= k < a.len() implies selected.contains(#[trigger] a[k]) by {
        assert(a.contains(a[k]));
    }
    lemma_outside_of_all_kept(b, selected);
    lemma_outside_of_append(a, b, selected);
    lemma_outside_of_none_kept(a, selected);
    assert(outside_of(a, selected) =~= Seq::<usize>::empty());
    assert(outside_of(p, selected) =~= b);
}

/// `members_of` depends on `within` only through its elements.
pub proof fn lemma_members_same_elements(xs: Seq<usize>, w1: Seq<usize>, w2: Seq<usize>)
    requires
        forall|x: usize| w1.contains(x) <==> w2.contains(x),
    ensures
        members_of(xs, w1) == members_of(xs, w2),
    decreases xs.len(),
{
    if xs.len() > 0 {
        lemma_members_same_elements(xs.drop_last(), w1, w2);
    }
}

/// Excluding what a sequence does not hold keeps all of it.
pub proof fn lemma_outside_of_all_kept(xs: Seq<usize>, excluded: Seq<usize>)
    requires
        forall|k: int| 0 <= k < xs.len() ==> !excluded.contains(#[trigger] xs[k]),
    ensures
        outside_of(xs, excluded) == xs,
    decreases xs.len(),
{
    if xs.len() > 0 {
        lemma_outside_of_all_kept(xs.drop_last(), excluded);
        assert(xs.drop_last().push(xs.last()) =~= xs);
    }
}

/// Excluding everything a sequence holds leaves nothing.
pub proof fn lemma_outside_of_none_kept(xs: Seq<usize>, excluded: Seq<usize>)
    requires
        forall|k: int| 0 <= k < xs.len() ==> excluded.contains(#[trigger] xs[k]),
    ensures
        outside_of(xs, excluded) == Seq::<usize>::empty(),
    decreases xs.len(),
{
    if xs.len() > 0 {
        lemma_outside_of_none_kept(xs.drop_last(), excluded);
    }
}

/// `outside_of` distributes over concatenation.
pub proof fn lemma_outside_of_append(a: Seq<usize>, b: Seq<usize>, excluded: Seq<usize>)
    ensures
        outside_of(a + b, excluded) == outside_of(a, excluded) + outside_of(b, excluded),
    decreases b.len(),
{
    if b.len() == 0 {
        assert(a + b =~= a);
        assert(outside_of(a, excluded) + outside_of(b, excluded) =~= outside_of(a, excluded));
    } else {
        lemma_outside_of_append(a, b.drop_last(), excluded);
        assert((a + b).drop_last() =~= a + b.drop_last());
        assert((a + b).last() == b.last());
    }
}

/// Excluding nothing keeps everything.
pub proof fn lemma_outside_everything(xs: Seq<usize>)
    ensures
        outside_of(xs, seq![]) == xs,
    decreases xs.len(),
{
    if xs.len() > 0 {
        lemma_outside_everything(xs.drop_last());
        assert(xs.drop_last().push(xs.last()) =~= xs);
    }
}

} // verus!
