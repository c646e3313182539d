//! In-place quicksort of the three columns of a table, keyed by the first.
use vstd::prelude::*;

use crate::morton_key::MortonKey;
use crate::{Point, Value};

verus! {

broadcast use vstd::multiset::group_multiset_axioms;

/// Owned key, position and value columns.
pub type Columns = (Vec<MortonKey>, Vec<Point>, Vec<Value>);

/// The rows `(position, value)` of two columns.
pub open spec fn pairs(positions: Seq<Point>, values: Seq<Value>) -> Seq<(Point, Value)> {
    Seq::new(positions.len(), |i: int| (positions[i], values[i]))
}

/// Each key is the Morton key of the position in its row.
pub open spec fn keyed(keys: Seq<MortonKey>, positions: Seq<Point>) -> bool {
    keys.len() == positions.len() && forall|i: int|
        0 <= i < keys.len() ==> #[trigger] keys[i].0 == positions[i].key()
}

/// The keys are non-decreasing.
pub open spec fn keys_sorted(keys: Seq<MortonKey>) -> bool {
    forall|i: int, j: int| 0 <= i <= j < keys.len() ==> keys[i].0 <= keys[j].0
}

/// The rows `(key, position, value)` of three columns.
pub open spec fn rows(keys: Seq<MortonKey>, positions: Seq<Point>, values: Seq<Value>) -> Seq<
    (MortonKey, Point, Value),
> {
    Seq::new(keys.len(), |i: int| (keys[i], positions[i], values[i]))
}

/// The three columns have one length.
pub open spec fn same_len(keys: Seq<MortonKey>, positions: Seq<Point>, values: Seq<Value>) -> bool {
    keys.len() == positions.len() && values.len() == positions.len()
}

/// The three columns have one length and each key belongs to its row.
pub open spec fn columns(keys: Seq<MortonKey>, positions: Seq<Point>, values: Seq<Value>) -> bool {
    keyed(keys, positions) && values.len() == positions.len()
}

/// Exchanging two elements keeps the multiset of a sequence.
proof fn lemma_swap_multiset<A>(s: Seq<A>, i: int, j: int)
    requires
        0 <= i < s.len(),
        0 <= j < s.len(),
    ensures
        s.update(i, s[j]).update(j, s[i]).to_multiset() == s.to_multiset(),
{
    let t = s.update(i, s[j]);
    let m = s.to_multiset();
    vstd::seq_lib::to_multiset_update(s, i, s[j]);
    vstd::seq_lib::to_multiset_update(t, j, s[i]);
    assert(t[j] == s[j]);
    assert(m.insert(s[j]).remove(s[i]).insert(s[i]) =~= m.insert(s[j])) by {
        vstd::seq_lib::to_multiset_contains(s, s[i]);
        assert(s.contains(s[i]));
    }
    assert(m.insert(s[j]).remove(s[j]) =~= m);
}

/// Exchanges rows `i` and `j` in all three columns.
fn swap_rows(
    keys: &mut Vec<MortonKey>,
    positions: &mut Vec<Point>,
    values: &mut Vec<Value>,
    i: usize,
    j: usize,
)
    requires
        same_len(old(keys)@, old(positions)@, old(values)@),
        i < old(keys)@.len(),
        j < old(keys)@.len(),
    ensures
        same_len(final(keys)@, final(positions)@, final(values)@),
        final(keys)@ == old(keys)@.update(i as int, old(keys)@[j as int]).update(
            j as int,
            old(keys)@[i as int],
        ),
        rows(final(keys)@, final(positions)@, final(values)@).to_multiset() == rows(
            old(keys)@,
            old(positions)@,
            old(values)@,
        ).to_multiset(),
{
    let ghost s = rows(keys@, positions@, values@);
    let ki = keys[i];
    let kj = keys[j];
    keys.set(i, kj);
    keys.set(j, ki);
    let pi = positions[i];
    let pj = positions[j];
    positions.set(i, pj);
    positions.set(j, pi);
    let vi = values[i];
    let vj = values[j];
    values.set(i, vj);
    values.set(j, vi);
    proof {
        lemma_swap_multiset(s, i as int, j as int);
        assert(rows(keys@, positions@, values@) =~= s.update(i as int, s[j as int]).update(
            j as int,
            s[i as int],
        ));
    }
}

/// Partitions the rows around a pivot chosen as the median of the first, middle and last keys.
/// Returns the pivot's final index: every key before it is smaller, every key after it is not.
fn sort_partition(keys: &mut Vec<MortonKey>, positions: &mut Vec<Point>, values: &mut Vec<Value>) -> (r: usize)
    requires
        same_len(old(keys)@, old(positions)@, old(values)@),
        old(keys)@.len() > 0,
    ensures
        same_len(final(keys)@, final(positions)@, final(values)@),
        final(keys)@.len() == old(keys)@.len(),
        rows(final(keys)@, final(positions)@, final(values)@).to_multiset() == rows(
            old(keys)@,
            old(positions)@,
            old(values)@,
        ).to_multiset(),
        r < final(keys)@.len(),
        forall|k: int| 0 <= k < r ==> #[trigger] final(keys)@[k].0 < final(keys)@[r as int].0,
        forall|k: int|
            r < k < final(keys)@.len() ==> #[trigger] final(keys)@[k].0 >= final(keys)@[r as int].0,
{
    let ghost m = rows(keys@, positions@, values@).to_multiset();
    let len = keys.len();
    let lim = len - 1;

    // choose the median of the first, middle and last elements as the pivot
    let mut first: usize = 0;
    let mut last: usize = lim;
    let mut median: usize = len / 2;
    if keys[last].0 < keys[median].0 {
        let t = median;
        median = last;
        last = t;
    }
    if keys[last].0 < keys[first].0 {
        let t = last;
        last = first;
        first = t;
    }
    if keys[median].0 < keys[first].0 {
        let t = median;
        median = first;
        first = t;
    }
    let pivot = keys[median].0;
    swap_rows(keys, positions, values, median, lim);

    let mut i: usize = 0;  // index of the first row whose key is not below the pivot
    let mut j: usize = 0;
    while j < lim
        invariant
            same_len(keys@, positions@, values@),
            keys@.len() == len,
            lim == len - 1,
            rows(keys@, positions@, values@).to_multiset() == m,
            i <= j <= lim,
            keys@[lim as int].0 == pivot,
            forall|k: int| 0 <= k < i ==> #[trigger] keys@[k].0 < pivot,
            forall|k: int| i <= k < j ==> #[trigger] keys@[k].0 >= pivot,
        decreases lim - j,
    {
        if keys[j].0 < pivot {
            swap_rows(keys, positions, values, i, j);
            i += 1;
        }
        j += 1;
    }
    swap_rows(keys, positions, values, i, lim);
    i
}

/// Relies on rayon::join: it runs both closures, possibly in parallel, and returns the pair of
/// their results.
pub assume_specification<A, B, RA, RB>[ rayon::join ](oper_a: A, oper_b: B) -> (r: (RA, RB))
    where
        A: FnOnce() -> RA + Send,
        B: FnOnce() -> RB + Send,
        RA: Send,
        RB: Send,
    requires
        oper_a.requires(()),
        oper_b.requires(()),
    ensures
        oper_a.ensures((), r.0),
        oper_b.ensures((), r.1),
;

/// `(keys, positions, values)` is a sorted rearrangement of the rows of `(k0, p0, v0)`.
pub open spec fn sorted_from(
    k0: Seq<MortonKey>,
    p0: Seq<Point>,
    v0: Seq<Value>,
    keys: Seq<MortonKey>,
    positions: Seq<Point>,
    values: Seq<Value>,
) -> bool {
    &&& same_len(keys, positions, values)
    &&& keys.len() == k0.len()
    &&& keys_sorted(keys)
    &&& rows(keys, positions, values).to_multiset() == rows(k0, p0, v0).to_multiset()
}

/// The columns `r` are a sorted rearrangement of the rows of `(k0, p0, v0)`.
pub open spec fn sorted_result(
    k0: Seq<MortonKey>,
    p0: Seq<Point>,
    v0: Seq<Value>,
    r: Columns,
) -> bool {
    sorted_from(k0, p0, v0, r.0@, r.1@, r.2@)
}

/// A bound on the keys carries over to any rearrangement of the rows.
proof fn lemma_keys_bound(
    k0: Seq<MortonKey>,
    p0: Seq<Point>,
    v0: Seq<Value>,
    k1: Seq<MortonKey>,
    p1: Seq<Point>,
    v1: Seq<Value>,
    bound: u32,
    below: bool,
)
    requires
        same_len(k0, p0, v0),
        same_len(k1, p1, v1),
        rows(k1, p1, v1).to_multiset() == rows(k0, p0, v0).to_multiset(),
        below ==> forall|k: int| 0 <= k < k0.len() ==> #[trigger] k0[k].0 < bound,
        !below ==> forall|k: int| 0 <= k < k0.len() ==> #[trigger] k0[k].0 >= bound,
    ensures
        below ==> forall|k: int| 0 <= k < k1.len() ==> #[trigger] k1[k].0 < bound,
        !below ==> forall|k: int| 0 <= k < k1.len() ==> #[trigger] k1[k].0 >= bound,
{
    assert forall|k: int| 0 <= k < k1.len() implies (if below {
        #[trigger] k1[k].0 < bound
    } else {
        k1[k].0 >= bound
    }) by {
        let e = rows(k1, p1, v1)[k];
        assert(rows(k1, p1, v1).contains(e));
        vstd::seq_lib::to_multiset_contains(rows(k1, p1, v1), e);
        vstd::seq_lib::to_multiset_contains(rows(k0, p0, v0), e);
        let idx = choose|idx: int| 0 <= idx < k0.len() && rows(k0, p0, v0)[idx] == e;
        assert(k0[idx] == e.0);
    }
}

/// Sorts the rows of the three columns by key; the two halves around the pivot are sorted in
/// parallel.
pub fn sort(keys: &mut Vec<MortonKey>, positions: &mut Vec<Point>, values: &mut Vec<Value>)
    requires
        same_len(old(keys)@, old(positions)@, old(values)@),
    ensures
        sorted_from(
            old(keys)@,
            old(positions)@,
            old(values)@,
            final(keys)@,
            final(positions)@,
            final(values)@,
        ),
    decreases old(keys)@.len(),
{
    if keys.len() < 2 {
        return;
    }
    let ghost m0 = rows(keys@, positions@, values@).to_multiset();
    let pivot = sort_partition(keys, positions, values);
    let ghost k1 = keys@;
    let ghost p1 = positions@;
    let ghost v1 = values@;

    let khi = keys.split_off(pivot + 1);
    let phi = positions.split_off(pivot + 1);
    let vhi = values.split_off(pivot + 1);
    let kp = keys[pivot];
    let pp = positions[pivot];
    let vp = values[pivot];
    keys.truncate(pivot);
    positions.truncate(pivot);
    values.truncate(pivot);
    let klo = keys.split_off(0);
    let plo = positions.split_off(0);
    let vlo = values.split_off(0);
    let ghost (klo0, plo0, vlo0, khi0, phi0, vhi0) = (klo@, plo@, vlo@, khi@, phi@, vhi@);
    assert(same_len(klo0, plo0, vlo0));
    assert(same_len(khi0, phi0, vhi0));

    let (lo, hi) = rayon::join(
        (move || -> (r: Columns)
            requires
                same_len(klo@, plo@, vlo@),
            ensures
                sorted_result(klo0, plo0, vlo0, r),
            {
                let mut k = klo;
                let mut p = plo;
                let mut v = vlo;
                sort(&mut k, &mut p, &mut v);
                (k, p, v)
            }),
        (move || -> (r: Columns)
            requires
                same_len(khi@, phi@, vhi@),
            ensures
                sorted_result(khi0, phi0, vhi0, r),
            {
                let mut k = khi;
                let mut p = phi;
                let mut v = vhi;
                sort(&mut k, &mut p, &mut v);
                (k, p, v)
            }),
    );
    let (mut klo, mut plo, mut vlo) = lo;
    let (mut khi, mut phi, mut vhi) = hi;
    proof {
        lemma_keys_bound(klo0, plo0, vlo0, klo@, plo@, vlo@, kp.0, true);
        lemma_keys_bound(khi0, phi0, vhi0, khi@, phi@, vhi@, kp.0, false);
    }
    let ghost (klo1, plo1, vlo1, khi1, phi1, vhi1) = (klo@, plo@, vlo@, khi@, phi@, vhi@);
    keys.append(&mut klo);
    keys.push(kp);
    keys.append(&mut khi);
    positions.append(&mut plo);
    positions.push(pp);
    positions.append(&mut phi);
    values.append(&mut vlo);
    values.push(vp);
    values.append(&mut vhi);
    proof {
        let pv = seq![(kp, pp, vp)];
        assert(rows(k1, p1, v1) =~= rows(klo0, plo0, vlo0) + pv + rows(khi0, phi0, vhi0));
        assert(rows(keys@, positions@, values@) =~= rows(klo1, plo1, vlo1) + pv + rows(
            khi1,
            phi1,
            vhi1,
        ));
        vstd::seq_lib::lemma_multiset_commutative(rows(klo0, plo0, vlo0) + pv, rows(khi0, phi0, vhi0));
        vstd::seq_lib::lemma_multiset_commutative(rows(klo0, plo0, vlo0), pv);
        vstd::seq_lib::lemma_multiset_commutative(rows(klo1, plo1, vlo1) + pv, rows(khi1, phi1, vhi1));
        vstd::seq_lib::lemma_multiset_commutative(rows(klo1, plo1, vlo1), pv);
        assert(keys@ =~= klo1 + seq![kp] + khi1);
        assert forall|i: int, j: int| 0 <= i <= j < keys@.len() implies keys@[i].0 <= keys@[
            j
        ].0 by {
            let n = klo1.len() as int;
            if i < n && j > n {
                assert(keys@[i] == klo1[i]);
                assert(keys@[j] == khi1[j - n - 1]);
            }
        }
    }
}

/// Mapping two sequences that hold the same elements gives sequences that hold the same
/// elements.
proof fn lemma_map_multiset<A, B>(a: Seq<A>, b: Seq<A>, f: spec_fn(A) -> B)
    requires
        a.to_multiset() == b.to_multiset(),
    ensures
        a.map_values(f).to_multiset() == b.map_values(f).to_multiset(),
    decreases a.len(),
{
    vstd::seq_lib::to_multiset_len(a);
    vstd::seq_lib::to_multiset_len(b);
    if a.len() == 0 {
        assert(a.map_values(f) =~= b.map_values(f));
    } else {
        let x = a.last();
        let a1 = a.drop_last();
        assert(a =~= a1.push(x));
        vstd::seq_lib::to_multiset_build(a1, x);
        vstd::seq_lib::to_multiset_contains(a, x);
        vstd::seq_lib::to_multiset_contains(b, x);
        let k = choose|k: int| 0 <= k < b.len() && b[k] == x;
        let b1 = b.remove(k);
        vstd::seq_lib::to_multiset_remove(b, k);
        assert(a1.to_multiset() =~= b1.to_multiset());
        lemma_map_multiset(a1, b1, f);
        assert(a.map_values(f) =~= a1.map_values(f).push(f(x)));
        vstd::seq_lib::to_multiset_build(a1.map_values(f), f(x));
        assert(b.map_values(f).remove(k) =~= b1.map_values(f));
        vstd::seq_lib::to_multiset_remove(b.map_values(f), k);
        vstd::seq_lib::to_multiset_contains(b.map_values(f), f(x));
        assert(b.map_values(f)[k] == f(x));
        assert(b.map_values(f).to_multiset() =~= b1.map_values(f).to_multiset().insert(f(x)));
    }
}

/// A rearrangement of keyed rows is keyed, holds the same `(position, value)` pairs, and
/// takes each position from the original rows.
pub proof fn lemma_rearranged_rows(
    k0: Seq<MortonKey>,
    p0: Seq<Point>,
    v0: Seq<Value>,
    k1: Seq<MortonKey>,
    p1: Seq<Point>,
    v1: Seq<Value>,
)
    requires
        columns(k0, p0, v0),
        same_len(k1, p1, v1),
        rows(k1, p1, v1).to_multiset() == rows(k0, p0, v0).to_multiset(),
    ensures
        columns(k1, p1, v1),
        pairs(p1, v1).to_multiset() == pairs(p0, v0).to_multiset(),
        forall|i: int| 0 <= i < p1.len() ==> p0.contains(#[trigger] p1[i]),
{
    let (r0, r1) = (rows(k0, p0, v0), rows(k1, p1, v1));
    assert forall|i: int| 0 <= i < p1.len() implies #[trigger] k1[i].0 == p1[i].key() && p0.contains(
        p1[i],
    ) by {
        let e = r1[i];
        assert(r1.contains(e));
        vstd::seq_lib::to_multiset_contains(r1, e);
        vstd::seq_lib::to_multiset_contains(r0, e);
        let j = choose|j: int| 0 <= j < r0.len() && r0[j] == e;
        assert(k0[j].0 == p0[j].key());
        assert(p0[j] == p1[i]);
    }
    assert forall|i: int| 0 <= i < p1.len() implies p0.contains(#[trigger] p1[i]) by {
        assert(k1[i].0 == p1[i].key());
    }
    let f = |t: (MortonKey, Point, Value)| (t.1, t.2);
    lemma_map_multiset(r1, r0, f);
    assert(r1.map_values(f) =~= pairs(p1, v1));
    assert(r0.map_values(f) =~= pairs(p0, v0));
}

} // verus!
