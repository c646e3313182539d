//! The linear Z-order table: rows kept sorted by Morton key in three columns, with a skip
//! index that narrows each lookup to a short window.
use vstd::prelude::*;

use crate::litmax_bigmin::{avoids_gap, in_aabb, litmax_bigmin};
use crate::morton_key::{
    MortonKey,
    key_x,
    key_y,
    lemma_decode_encode,
    lemma_encode_decode,
    lemma_morton_injective,
    lemma_morton_monotone,
};
use crate::sorting::{columns, keys_sorted, lemma_rearranged_rows, pairs, sort};
use crate::{DOMAIN, Point, Value, sq_dist};

verus! {

broadcast use vstd::multiset::group_multiset_axioms, vstd::array::group_array_axioms;

// at most 15 bits long non-negative integers
// having the 16th bit set might create problems in find_key
const POS_MASK: u32 = 0b0111111111111111;

/// Number of samples in the skip index.
pub const SKIP_LEN: usize = 8;

/// Row index of skip sample `i` when the samples are `step` rows apart in `n` rows.
pub open spec fn sample_index(i: int, step: int, n: int) -> int {
    if (i + 1) * step < n {
        (i + 1) * step
    } else {
        n - 1
    }
}

/// Every key before row `i` is below `key`, and no key from row `i` on is.
pub open spec fn is_lower_bound(keys: Seq<MortonKey>, key: int, i: int) -> bool {
    &&& 0 <= i <= keys.len()
    &&& forall|j: int| 0 <= j < i ==> #[trigger] keys[j].0 < key
    &&& forall|j: int| i <= j < keys.len() ==> #[trigger] keys[j].0 >= key
}

/// `r` is `Ok(i)` with `i` the first row holding `key`, or `Err(i)` with `i` the row where
/// `key` would be inserted, when no row holds it.
pub open spec fn search_result(keys: Seq<MortonKey>, key: u32, r: Result<usize, usize>) -> bool {
    match r {
        Ok(i) => is_lower_bound(keys, key as int, i as int) && i < keys.len() && keys[i as int].0 == key,
        Err(i) => is_lower_bound(keys, key as int, i as int) && (i == keys.len() || keys[i as int].0
            != key),
    }
}

/// The samples are taken at non-decreasing rows inside the table; all but the last are
/// `step` rows apart.
proof fn lemma_sample_index(step: int, n: int)
    requires
        step > 0,
        step == n / 8,
    ensures
        forall|i: int| 0 <= i < 7 ==> #[trigger] sample_index(i, step, n) == (i + 1) * step,
        forall|i: int| 0 <= i < 8 ==> 0 <= #[trigger] sample_index(i, step, n) < n,
        forall|i: int, j: int|
            0 <= i <= j < 8 ==> sample_index(i, step, n) <= sample_index(j, step, n),
{
    assert forall|i: int| 0 <= i < 8 implies 0 <= #[trigger] sample_index(i, step, n) < n && (i
        < 7 ==> sample_index(i, step, n) == (i + 1) * step) by {
        assert((i + 1) * step <= 8 * step) by (nonlinear_arith)
            requires
                i < 8,
                step > 0,
        ;
        assert(i < 7 ==> (i + 1) * step <= 7 * step) by (nonlinear_arith)
            requires
                step > 0,
        ;
        assert(0 <= (i + 1) * step) by (nonlinear_arith)
            requires
                i >= 0,
                step > 0,
        ;
    }
    assert forall|i: int, j: int| 0 <= i <= j < 8 implies sample_index(i, step, n)
        <= sample_index(j, step, n) by {
        assert((i + 1) * step <= (j + 1) * step) by (nonlinear_arith)
            requires
                i <= j,
                step > 0,
        ;
    }
}

/// The row where `key` would be inserted before any equal key.
pub open spec fn lower_bound(keys: Seq<MortonKey>, key: int) -> int {
    choose|i: int| is_lower_bound(keys, key, i)
}

/// The results of a range query, read through their references.
pub open spec fn found<'a>(out: Seq<(Point, &'a Value)>) -> Seq<(Point, Value)> {
    out.map_values(|e: (Point, &'a Value)| (e.0, *e.1))
}

/// A lower bound is unique in sorted keys.
proof fn lemma_lower_bound(keys: Seq<MortonKey>, key: int, i: int)
    requires
        keys_sorted(keys),
        is_lower_bound(keys, key, i),
    ensures
        lower_bound(keys, key) == i,
{
    let l = lower_bound(keys, key);
    assert(is_lower_bound(keys, key, l));
    if l < i {
        assert(keys[l].0 < key);
    } else if l > i {
        assert(keys[i].0 < key);
    }
}

/// The filter of a run of entries none of which passes is empty.
pub(crate) proof fn lemma_filter_none(s: Seq<(Point, Value)>, pred: spec_fn((Point, Value)) -> bool)
    requires
        forall|j: int| 0 <= j < s.len() ==> !pred(#[trigger] s[j]),
    ensures
        s.filter(pred) == Seq::<(Point, Value)>::empty(),
{
    s.lemma_all_neg_filter_empty(pred);
    assert(s.filter(pred) =~= Seq::<(Point, Value)>::empty());
}

/// A point closer than `radius` to `center` lies in the open box of half-width `radius`.
proof fn lemma_within_box(p: Point, center: Point, radius: u32)
    requires
        sq_dist(p, center) < radius * radius,
    ensures
        center.x() - radius < p.x() < center.x() + radius,
        center.y() - radius < p.y() < center.y() + radius,
{
    let dx = p.x() - center.x();
    let dy = p.y() - center.y();
    let r = radius as int;
    assert(dx * dx < r * r && dy * dy < r * r) by (nonlinear_arith)
        requires
            dx * dx + dy * dy < r * r,
    ;
    assert(-r < dx < r) by (nonlinear_arith)
        requires
            dx * dx < r * r,
            r >= 0,
    ;
    assert(-r < dy < r) by (nonlinear_arith)
        requires
            dy * dy < r * r,
            r >= 0,
    ;
}

/// The rounded-down distance is below `radius` exactly when the point is within `radius`.
proof fn lemma_dist_below(d: u32, sq: int, radius: u32)
    requires
        d * d <= sq < (d + 1) * (d + 1),
    ensures
        (d < radius) == (sq < radius * radius),
{
    if d < radius {
        assert((d + 1) * (d + 1) <= radius * radius) by (nonlinear_arith)
            requires
                d + 1 <= radius,
        ;
    } else {
        assert(radius * radius <= d * d) by (nonlinear_arith)
            requires
                radius <= d,
        ;
    }
}

/// Some entry holds the point `p`.
pub open spec fn holds_point(entries: Seq<(Point, Value)>, p: Point) -> bool {
    exists|i: int| 0 <= i < entries.len() && #[trigger] entries[i].0 == p
}

/// The value of the first entry that holds the point `p`, if any.
pub open spec fn first_value(entries: Seq<(Point, Value)>, p: Point) -> Option<Value>
    decreases entries.len(),
{
    if entries.len() == 0 {
        None
    } else if entries[0].0 == p {
        Some(entries[0].1)
    } else {
        first_value(entries.drop_first(), p)
    }
}

/// When the entry at `i` is the first to hold `p`, its value is the first value of `p`.
pub proof fn lemma_first_value(entries: Seq<(Point, Value)>, p: Point, i: int)
    requires
        0 <= i < entries.len(),
        entries[i].0 == p,
        forall|j: int| 0 <= j < i ==> #[trigger] entries[j].0 != p,
    ensures
        first_value(entries, p) == Some(entries[i].1),
    decreases i,
{
    if i > 0 {
        let rest = entries.drop_first();
        assert forall|j: int| 0 <= j < i - 1 implies #[trigger] rest[j].0 != p by {
            assert(rest[j] == entries[j + 1]);
        }
        lemma_first_value(rest, p, i - 1);
    }
}

/// A point that no entry holds has no first value.
pub proof fn lemma_first_value_none(entries: Seq<(Point, Value)>, p: Point)
    requires
        !holds_point(entries, p),
    ensures
        first_value(entries, p) is None,
    decreases entries.len(),
{
    if entries.len() > 0 {
        let rest = entries.drop_first();
        assert(entries[0].0 != p);
        assert forall|j: int| 0 <= j < rest.len() implies #[trigger] rest[j].0 != p by {
            assert(rest[j] == entries[j + 1]);
        }
        lemma_first_value_none(rest, p);
    }
}

/// Two points of `[0, 2^16)²` with the same Morton key are equal.
proof fn lemma_point_of_key(p: Point, q: Point)
    requires
        p.x() < 0x10000,
        p.y() < 0x10000,
        q.x() < 0x10000,
        q.y() < 0x10000,
        p.key() == q.key(),
    ensures
        p == q,
{
    lemma_morton_injective(p.x(), p.y(), q.x(), q.y());
    assert(p.0 =~= q.0);
}

/// A point is held by some entry exactly when it has a first value.
pub proof fn lemma_contains_iff_found(entries: Seq<(Point, Value)>, p: Point)
    ensures
        holds_point(entries, p) <==> first_value(entries, p) is Some,
    decreases entries.len(),
{
    if !holds_point(entries, p) {
        lemma_first_value_none(entries, p);
    } else if entries.len() > 0 && entries[0].0 != p {
        let rest = entries.drop_first();
        let i = choose|i: int| 0 <= i < entries.len() && #[trigger] entries[i].0 == p;
        assert(rest[i - 1].0 == p);
        lemma_contains_iff_found(rest, p);
    }
}

/// The first value of a point comes from an entry holding that point.
pub proof fn lemma_first_value_held(entries: Seq<(Point, Value)>, p: Point)
    ensures
        first_value(entries, p) matches Some(v) ==> entries.contains((p, v)),
    decreases entries.len(),
{
    if entries.len() > 0 {
        if entries[0].0 == p {
            assert(entries[0] == (p, entries[0].1));
        } else {
            let rest = entries.drop_first();
            lemma_first_value_held(rest, p);
            if first_value(rest, p) is Some {
                let j = choose|j: int| 0 <= j < rest.len() && rest[j] == (p, first_value(rest, p)->Some_0);
                assert(entries[j + 1] == rest[j]);
            }
        }
    }
}

/// Rows that hold the same entries as `items`, in any order, give for every point of
/// `items` a value that `items` pairs with that point.
pub proof fn lemma_built_rows_find_items(entries: Seq<(Point, Value)>, items: Seq<(Point, Value)>, p: Point, v: Value)
    requires
        entries.to_multiset() == items.to_multiset(),
        items.contains((p, v)),
    ensures
        first_value(entries, p) matches Some(w) && items.contains((p, w)),
{
    vstd::seq_lib::to_multiset_contains(items, (p, v));
    vstd::seq_lib::to_multiset_contains(entries, (p, v));
    let i = choose|i: int| 0 <= i < entries.len() && entries[i] == (p, v);
    assert(entries[i].0 == p);
    lemma_contains_iff_found(entries, p);
    lemma_first_value_held(entries, p);
    let w = first_value(entries, p)->Some_0;
    vstd::seq_lib::to_multiset_contains(entries, (p, w));
    vstd::seq_lib::to_multiset_contains(items, (p, w));
}

/// An entry lies strictly closer to `center` than `radius`.
pub open spec fn within(center: Point, radius: u32) -> spec_fn((Point, Value)) -> bool {
    |e: (Point, Value)| sq_dist(e.0, center) < radius * radius
}

/// A spatial index over points of `[0, 2^15)²`, kept as three columns sorted by Morton key.
///
/// The fields are public so that benchmarks can flush the columns from the cache and callers
/// can state properties of them; every method requires and keeps `wf`.
#[derive(Debug, Clone)]
pub struct MortonTable {
    pub skipstep: usize,
    pub skiplist: [u32; SKIP_LEN],
    pub keys: Vec<MortonKey>,
    pub positions: Vec<Point>,
    pub values: Vec<Value>,
}

impl View for MortonTable {
    type V = Seq<(Point, Value)>;

    /// The rows `(point, value)` in stored order.
    open spec fn view(&self) -> Seq<(Point, Value)> {
        pairs(self.positions@, self.values@)
    }
}

impl MortonTable {
    /// The three columns have one length, and each key is the Morton key of its row's point.
    pub open spec fn columns_aligned(&self) -> bool {
        columns(self.keys@, self.positions@, self.values@)
    }

    /// The keys are non-decreasing.
    pub open spec fn keys_non_decreasing(&self) -> bool {
        keys_sorted(self.keys@)
    }

    /// Every stored point lies in `[0, 2^15)²`.
    pub open spec fn points_in_domain(&self) -> bool {
        forall|i: int| 0 <= i < self.positions@.len() ==> #[trigger] self.positions@[i].in_domain()
    }

    /// The skip index samples the keys: with `n` rows, `step` is `n / 8`; when `step` is zero
    /// the first sample is the last key (or zero) and the others are zero, otherwise sample
    /// `i` is the key at row `(i + 1) * step`, the last sample falling back to the last row.
    pub open spec fn skip_index_consistent(&self) -> bool {
        let n = self.keys@.len() as int;
        let step = self.skipstep as int;
        &&& step == n / 8
        &&& step == 0 ==> {
            &&& self.skiplist[0] == (if n > 0 {
                self.keys@[n - 1].0
            } else {
                0
            })
            &&& forall|i: int| 1 <= i < 8 ==> #[trigger] self.skiplist[i] == 0
        }
        &&& step > 0 ==> forall|i: int|
            0 <= i < 8 ==> #[trigger] self.skiplist[i] == self.keys@[sample_index(
                i,
                step,
                n,
            )].0
    }

    /// The table's invariant.
    pub open spec fn wf(&self) -> bool {
        &&& self.columns_aligned()
        &&& self.keys_non_decreasing()
        &&& self.points_in_domain()
        &&& self.skip_index_consistent()
    }

    /// An empty table.
    pub fn new() -> (r: Self)
        ensures
            r.wf(),
            r@ == Seq::<(Point, Value)>::empty(),
    {
        let r = Self {
            skiplist: [0u32; SKIP_LEN],
            skipstep: 0,
            keys: vec![],
            values: vec![],
            positions: vec![],
        };
        assert(r@ =~= Seq::<(Point, Value)>::empty());
        r
    }

    /// Removes every row and zeroes the skip index.
    pub fn clear(&mut self)
        ensures
            final(self).wf(),
            final(self)@ == Seq::<(Point, Value)>::empty(),
    {
        self.keys.clear();
        self.skiplist = [0u32; SKIP_LEN];
        self.skipstep = 0;
        self.values.clear();
        self.positions.clear();
        assert(self@ =~= Seq::<(Point, Value)>::empty());
    }

    /// Recomputes the skip index from the keys.
    fn rebuild_skip_list(&mut self)
        requires
            old(self).columns_aligned(),
            old(self).keys_non_decreasing(),
            old(self).points_in_domain(),
        ensures
            final(self).wf(),
            final(self).keys@ == old(self).keys@,
            final(self).positions@ == old(self).positions@,
            final(self).values@ == old(self).values@,
    {
        let len = self.keys.len();
        let step = len / SKIP_LEN;
        self.skipstep = step;
        let mut list = [0u32; SKIP_LEN];
        if step == 0 {
            if len > 0 {
                list[0] = self.keys[len - 1].0;
            }
        } else {
            proof {
                lemma_sample_index(step as int, len as int);
            }
            let mut i: usize = 0;
            while i < SKIP_LEN
                invariant
                    step > 0,
                    step == len / 8,
                    len == self.keys@.len(),
                    forall|j: int| 0 <= j < 8 ==> 0 <= #[trigger] sample_index(j, step as int, len as int) < len,
                    forall|j: int| 0 <= j < i ==> #[trigger] list[j] == self.keys@[sample_index(
                        j,
                        step as int,
                        len as int,
                    )].0,
                decreases SKIP_LEN - i,
            {
                assert((i + 1) * step <= 8 * step) by (nonlinear_arith)
                    requires
                        i < 8,
                ;
                let mut k = (i + 1) * step;
                if k >= len {
                    k = len - 1;
                }
                list[i] = self.keys[k].0;
                i += 1;
            }
        }
        self.skiplist = list;
    }

    /// The bucket of the skip index where `key` may reside: the number of samples below `key`.
    fn find_key_partition(&self, key: &MortonKey) -> (r: usize)
        requires
            self.wf(),
            self.skipstep > 0,
        ensures
            r <= SKIP_LEN,
            forall|i: int| 0 <= i < r ==> #[trigger] self.skiplist[i] < key.0,
            forall|i: int| r <= i < SKIP_LEN ==> #[trigger] self.skiplist[i] >= key.0,
    {
        proof {
            lemma_sample_index(self.skipstep as int, self.keys@.len() as int);
        }
        let mut count: usize = 0;
        let mut i: usize = 0;
        while i < SKIP_LEN
            invariant
                self.wf(),
                self.skipstep > 0,
                count <= i <= SKIP_LEN,
                forall|j: int, k: int|
                    0 <= j <= k < 8 ==> sample_index(j, self.skipstep as int, self.keys@.len() as int)
                        <= sample_index(k, self.skipstep as int, self.keys@.len() as int),
                forall|j: int|
                    0 <= j < 8 ==> 0 <= #[trigger] sample_index(j, self.skipstep as int, self.keys@.len() as int)
                        < self.keys@.len(),
                forall|j: int| 0 <= j < count ==> #[trigger] self.skiplist[j] < key.0,
                forall|j: int| count <= j < i ==> #[trigger] self.skiplist[j] >= key.0,
            decreases SKIP_LEN - i,
        {
            if self.skiplist[i] < key.0 {
                if count < i {
                    let ghost n = self.keys@.len() as int;
                    let ghost st = self.skipstep as int;
                    assert(self.skiplist[count as int] <= self.skiplist[i as int]) by {
                        assert(sample_index(count as int, st, n) <= sample_index(i as int, st, n));
                    }
                }
                count += 1;
            }
            i += 1;
        }
        count
    }

    /// The first row in `[begin, end)` whose key is not below `key`, as a search result. Rows
    /// before `begin` must be below `key`, and the last row of the window must not be, unless
    /// the window ends the table.
    fn search(&self, key: u32, begin: usize, end: usize) -> (r: Result<usize, usize>)
        requires
            self.columns_aligned(),
            self.keys_non_decreasing(),
            begin <= end <= self.keys@.len(),
            forall|j: int| 0 <= j < begin ==> #[trigger] self.keys@[j].0 < key,
            end == self.keys@.len() || (begin < end && self.keys@[end - 1].0 >= key),
        ensures
            search_result(self.keys@, key, r),
    {
        let mut lo = begin;
        let mut hi = end;
        while lo < hi
            invariant
                self.columns_aligned(),
                self.keys_non_decreasing(),
                begin <= lo <= hi <= end <= self.keys@.len(),
                forall|j: int| 0 <= j < lo ==> #[trigger] self.keys@[j].0 < key,
                forall|j: int| hi <= j < end ==> #[trigger] self.keys@[j].0 >= key,
            decreases hi - lo,
        {
            let mid = lo + (hi - lo) / 2;
            if self.keys[mid].0 < key {
                lo = mid + 1;
            } else {
                hi = mid;
            }
        }
        let n = self.keys.len();
        proof {
            if lo < n {
                if lo < end {
                    assert(self.keys@[lo as int].0 >= key);
                } else {
                    assert(self.keys@[end - 1].0 >= key);
                }
                assert forall|j: int| lo <= j < n implies #[trigger] self.keys@[j].0 >= key by {
                    assert(self.keys@[lo as int].0 <= self.keys@[j].0);
                }
            }
        }
        if lo < n && self.keys[lo].0 == key {
            Ok(lo)
        } else {
            Err(lo)
        }
    }

    /// Finds the first row holding `key`, or the row where it would be inserted, searching
    /// only the window of the skip index's bucket for `key`.
    fn find_key_morton(&self, key: &MortonKey) -> (r: Result<usize, usize>)
        requires
            self.wf(),
        ensures
            search_result(self.keys@, key.0, r),
    {
        let step = self.skipstep;
        let len = self.keys.len();
        if step == 0 {
            return self.search(key.0, 0, len);
        }
        let index = self.find_key_partition(key);
        proof {
            lemma_sample_index(step as int, len as int);
            assert(index * step <= 8 * step) by (nonlinear_arith)
                requires
                    index <= 8,
            ;
            assert(8 * step <= len);
        }
        let begin = index * step;
        let end = if index < SKIP_LEN {
            assert(index * step + step <= 8 * step) by (nonlinear_arith)
                requires
                    index < 8,
            ;
            if begin + step < len {
                begin + step + 1
            } else {
                len
            }
        } else {
            len
        };
        proof {
            let n = len as int;
            let st = step as int;
            if index > 0 {
                let b = index - 1;
                assert(self.skiplist[b] < key.0);
                if b < 7 {
                    assert(sample_index(b, st, n) == begin);
                    assert(self.keys@[begin as int].0 < key.0);
                } else {
                    assert(sample_index(7, st, n) == begin || sample_index(7, st, n) == n - 1);
                    assert(self.keys@[sample_index(7, st, n)].0 < key.0);
                }
                assert forall|j: int| 0 <= j < begin implies #[trigger] self.keys@[j].0 < key.0 by {
                    assert(self.keys@[j].0 <= self.keys@[sample_index(b, st, n)].0);
                }
            }
            if end < len {
                assert(self.skiplist[index as int] >= key.0);
                assert((index + 1) * st == index * st + st) by (nonlinear_arith);
                assert(sample_index(index as int, st, n) == end - 1);
            }
        }
        self.search(key.0, begin, end)
    }

    /// Finds the first row holding the point `id`, or the row where it would be inserted.
    fn find_key(&self, id: &Point) -> (r: Result<usize, usize>)
        requires
            self.wf(),
            id.in_domain(),
        ensures
            search_result(self.keys@, id.key(), r),
    {
        let key = MortonKey::new(id.0[0] as u16, id.0[1] as u16);
        self.find_key_morton(&key)
    }

    /// What a search for the key of `id` says about the rows holding `id`.
    proof fn lemma_search_point(&self, id: Point, r: Result<usize, usize>)
        requires
            self.wf(),
            id.in_domain(),
            search_result(self.keys@, id.key(), r),
        ensures
            r is Ok <==> holds_point(self@, id),
            r matches Ok(i) ==> self.positions@[i as int] == id && first_value(self@, id) == Some(
                self.values@[i as int],
            ),
            r is Err ==> first_value(self@, id) is None,
    {
        let n = self.keys@.len() as int;
        let key = id.key();
        assert forall|j: int| 0 <= j < n implies (#[trigger] self@[j].0 == id <==> self.keys@[j].0
            == key) by {
            assert(self@[j].0 == self.positions@[j]);
            assert(self.positions@[j].in_domain());
            if self.keys@[j].0 == key {
                lemma_point_of_key(self.positions@[j], id);
            }
        }
        match r {
            Ok(i) => {
                assert(self@[i as int].0 == id);
                assert forall|j: int| 0 <= j < i implies #[trigger] self@[j].0 != id by {
                    assert(self.keys@[j].0 < key);
                }
                lemma_first_value(self@, id, i as int);
            },
            Err(i) => {
                assert forall|j: int| 0 <= j < n implies #[trigger] self@[j].0 != id by {
                    if j >= i {
                        assert(self.keys@[i as int].0 <= self.keys@[j].0);
                    }
                }
                lemma_first_value_none(self@, id);
            },
        }
    }

    /// Whether `point` lies in `[0, 2^15)²`, the bounds of this table.
    pub fn intersects(&self, point: &Point) -> (r: bool)
        ensures
            r == point.in_domain(),
    {
        let x = point.0[0];
        let y = point.0[1];
        assert((x & POS_MASK) == x <==> x < 0x8000) by (bit_vector);
        assert((y & POS_MASK) == y <==> y < 0x8000) by (bit_vector);
        (x & POS_MASK) == x && (y & POS_MASK) == y
    }

    /// The bounds `[min, max)` of this table.
    pub fn bounds(&self) -> (r: (Point, Point))
        ensures
            r.0.x() == 0 && r.0.y() == 0,
            r.1.x() == DOMAIN && r.1.y() == DOMAIN,
    {
        let max = POS_MASK + 1;
        (Point::new(0, 0), Point::new(max, max))
    }

    /// The value of the first row holding `id`, if any.
    pub fn get_by_id<'a>(&'a self, id: &Point) -> (r: Option<&'a Value>)
        requires
            self.wf(),
        ensures
            r matches Some(v) ==> first_value(self@, *id) == Some(*v),
            r is None ==> first_value(self@, *id) is None,
    {
        if !self.intersects(id) {
            proof {
                assert forall|j: int| 0 <= j < self@.len() implies #[trigger] self@[j].0 != *id by {
                    assert(self.positions@[j].in_domain());
                }
                lemma_first_value_none(self@, *id);
            }
            return None;
        }
        let r = self.find_key(id);
        proof {
            self.lemma_search_point(*id, r);
        }
        match r {
            Ok(ind) => Some(&self.values[ind]),
            Err(_) => None,
        }
    }

    /// Whether some row holds `id`.
    pub fn contains_key(&self, id: &Point) -> (r: bool)
        requires
            self.wf(),
        ensures
            r == holds_point(self@, *id),
    {
        if !self.intersects(id) {
            proof {
                assert forall|j: int| 0 <= j < self@.len() implies #[trigger] self@[j].0 != *id by {
                    assert(self.positions@[j].in_domain());
                }
            }
            return false;
        }
        let r = self.find_key(id);
        proof {
            self.lemma_search_point(*id, r);
        }
        r.is_ok()
    }

    /// Adds the row `(id, row)` at its sorted place. Fails, handing `id` back, when `id` lies
    /// outside `[0, 2^15)²`. Prefer `extend` to add many rows.
    pub fn insert(&mut self, id: Point, row: Value) -> (r: Result<(), Point>)
        requires
            old(self).wf(),
        ensures
            final(self).wf(),
            id.in_domain() ==> r == Ok::<(), Point>(()) && final(self)@.to_multiset() == old(
                self,
            )@.to_multiset().insert((id, row)),
            id.in_domain() ==> exists|k: int|
                0 <= k <= old(self)@.len() && final(self)@ == old(self)@.insert(k, (id, row)),
            !id.in_domain() ==> r == Err::<(), Point>(id) && final(self)@ == old(self)@,
    {
        if !self.intersects(&id) {
            return Err(id);
        }
        let x = id.0[0];
        let y = id.0[1];
        let key = MortonKey::new_u32(x, y);
        let n = self.keys.len();
        let ind = match self.search(key.0, 0, n) {
            Ok(i) => i,
            Err(i) => i,
        };
        let ghost old_pairs = self@;
        self.keys.insert(ind, key);
        self.positions.insert(ind, id);
        self.values.insert(ind, row);
        proof {
            assert(self@ =~= old_pairs.insert(ind as int, (id, row)));
            vstd::seq_lib::to_multiset_insert(old_pairs, ind as int, (id, row));
            assert forall|i: int, j: int| 0 <= i <= j < self.keys@.len() implies self.keys@[i].0
                <= self.keys@[j].0 by {
                let ok = old(self).keys@;
                if j < ind {
                } else if i > ind {
                    assert(ok[i - 1].0 <= ok[j - 1].0);
                } else if i < ind && j > ind {
                    assert(ok[i].0 <= ok[j - 1].0);
                }
            }
        }
        self.rebuild_skip_list();
        Ok(())
    }

    /// Removes the first row holding `id` and returns its value, or returns `None` when no row
    /// holds `id`.
    pub fn delete(&mut self, id: &Point) -> (r: Option<Value>)
        requires
            old(self).wf(),
        ensures
            final(self).wf(),
            r == first_value(old(self)@, *id),
            r is None ==> final(self)@ == old(self)@,
            r matches Some(v) ==> final(self)@.to_multiset() == old(self)@.to_multiset().remove(
                (*id, v),
            ),
            r is Some ==> exists|k: int|
                0 <= k < old(self)@.len() && old(self)@[k] == (*id, r->Some_0) && final(self)@
                    == old(self)@.remove(k),
    {
        if !self.contains_key(id) {
            proof {
                lemma_first_value_none(self@, *id);
            }
            return None;
        }
        let r = self.find_key(id);
        proof {
            self.lemma_search_point(*id, r);
        }
        match r {
            Ok(ind) => {
                let ghost old_pairs = self@;
                self.keys.remove(ind);
                self.positions.remove(ind);
                let v = self.values.remove(ind);
                proof {
                    assert(self@ =~= old_pairs.remove(ind as int));
                    vstd::seq_lib::to_multiset_remove(old_pairs, ind as int);
                    assert forall|i: int, j: int|
                        0 <= i <= j < self.keys@.len() implies self.keys@[i].0
                        <= self.keys@[j].0 by {
                        let ok = old(self).keys@;
                        if i >= ind {
                            assert(ok[i + 1].0 <= ok[j + 1].0);
                        } else if j >= ind {
                            assert(ok[i].0 <= ok[j + 1].0);
                        } else {
                            assert(ok[i].0 <= ok[j].0);
                        }
                    }
                }
                self.rebuild_skip_list();
                Some(v)
            },
            Err(_) => None,
        }
    }

    /// A table holding the given rows.
    pub fn from_iterator(items: Vec<(Point, Value)>) -> (r: Self)
        requires
            forall|i: int| 0 <= i < items@.len() ==> (#[trigger] items@[i]).0.in_domain(),
        ensures
            r.wf(),
            r@.to_multiset() == items@.to_multiset(),
    {
        let mut res = Self::new();
        res.extend(items);
        proof {
            let e = Seq::<(Point, Value)>::empty();
            vstd::seq_lib::to_multiset_len(e);
            vstd::multiset::lemma_multiset_empty_len(e.to_multiset());
        }
        res
    }

    /// Adds all the given rows: appends them unsorted, then sorts the columns once. Every point
    /// must lie in `[0, 2^15)²`.
    pub fn extend(&mut self, items: Vec<(Point, Value)>)
        requires
            old(self).wf(),
            forall|i: int| 0 <= i < items@.len() ==> (#[trigger] items@[i]).0.in_domain(),
        ensures
            final(self).wf(),
            final(self)@.to_multiset() == old(self)@.to_multiset().add(items@.to_multiset()),
    {
        let ghost old_pairs = self@;
        let mut i: usize = 0;
        while i < items.len()
            invariant
                self.columns_aligned(),
                self.points_in_domain(),
                i <= items@.len(),
                forall|k: int| 0 <= k < items@.len() ==> (#[trigger] items@[k]).0.in_domain(),
                self@ == old_pairs + items@.subrange(0, i as int),
            decreases items@.len() - i,
        {
            let (id, value) = items[i];
            assert(id.in_domain()) by {
                assert(items@[i as int].0.in_domain());
            }
            let key = MortonKey::new_u32(id.0[0], id.0[1]);
            let ghost prev = self@;
            self.keys.push(key);
            self.positions.push(id);
            self.values.push(value);
            i += 1;
            proof {
                assert(items@[i - 1] == (id, value));
                assert(self@ =~= prev.push((id, value)));
                assert(items@.subrange(0, i as int) =~= items@.subrange(0, i - 1).push((id, value)));
                assert(self@ =~= old_pairs + items@.subrange(0, i as int));
            }
        }
        proof {
            assert(items@.subrange(0, i as int) =~= items@);
            vstd::seq_lib::lemma_multiset_commutative(old_pairs, items@);
        }
        let ghost (k0, p0, v0) = (self.keys@, self.positions@, self.values@);
        sort(&mut self.keys, &mut self.positions, &mut self.values);
        proof {
            lemma_rearranged_rows(k0, p0, v0, self.keys@, self.positions@, self.values@);
            assert forall|k: int| 0 <= k < self.positions@.len() implies #[trigger] self.positions@[
                k
            ].in_domain() by {
                assert(p0.contains(self.positions@[k]));
                let j = choose|j: int| 0 <= j < p0.len() && p0[j] == self.positions@[k];
                assert(p0[j].in_domain());
            }
        }
        self.rebuild_skip_list();
    }

    /// Appends to `out` every row whose point lies strictly closer to `center` than `radius`,
    /// in the order of the rows.
    pub fn find_in_range<'a>(
        &'a self,
        center: &Point,
        radius: u32,
        out: &mut Vec<(Point, &'a Value)>,
    )
        requires
            self.wf(),
            center.in_domain(),
            radius < DOMAIN,
        ensures
            found(final(out)@) == found(old(out)@) + self@.filter(within(*center, radius)),
    {
        let x = center.0[0];
        let y = center.0[1];
        let minx = if x >= radius {
            x - radius
        } else {
            0
        };
        let miny = if y >= radius {
            y - radius
        } else {
            0
        };
        let maxx = x + radius;
        let maxy = y + radius;
        let min = MortonKey::new(minx as u16, miny as u16);
        let max = MortonKey::new(maxx as u16, maxy as u16);
        proof {
            lemma_decode_encode(minx, miny);
            lemma_decode_encode(maxx, maxy);
            lemma_morton_monotone(minx, miny, maxx, maxy);
            self.lemma_circle_in_box(*center, radius, min.0, max.0);
        }
        self.find_in_range_impl(center, radius, min, max, out);
        proof {
            self.lemma_bracket_holds_circle(*center, radius, min.0, max.0);
        }
    }

    /// Rows within `radius` of `center` lie in the box of half-width `radius` around it, and
    /// their keys between the keys of its corners.
    proof fn lemma_circle_in_box(&self, center: Point, radius: u32, min: u32, max: u32)
        requires
            self.wf(),
            center.in_domain(),
            radius < DOMAIN,
            key_x(min) == (if center.x() >= radius {
                center.x() - radius
            } else {
                0
            }),
            key_y(min) == (if center.y() >= radius {
                center.y() - radius
            } else {
                0
            }),
            key_x(max) == center.x() + radius,
            key_y(max) == center.y() + radius,
        ensures
            forall|j: int|
                0 <= j < self.keys@.len() && within(center, radius)(self@[j]) ==> in_aabb(
                    #[trigger] self.positions@[j].x(),
                    self.positions@[j].y(),
                    key_x(min),
                    key_y(min),
                    key_x(max),
                    key_y(max),
                ) && min <= self.keys@[j].0 <= max,
    {
        lemma_encode_decode(min);
        lemma_encode_decode(max);
        assert forall|j: int| 0 <= j < self.keys@.len() && within(center, radius)(self@[j]) implies in_aabb(
            #[trigger] self.positions@[j].x(),
            self.positions@[j].y(),
            key_x(min),
            key_y(min),
            key_x(max),
            key_y(max),
        ) && min <= self.keys@[j].0 <= max by {
            let p = self.positions@[j];
            assert(self@[j].0 == p);
            assert(p.in_domain());
            lemma_within_box(p, center, radius);
            lemma_morton_monotone(key_x(min), key_y(min), p.x(), p.y());
            lemma_morton_monotone(p.x(), p.y(), key_x(max), key_y(max));
        }
    }

    /// When every row within reach has its key in `[min, max]`, the rows of that interval
    /// hold all that the filter keeps.
    proof fn lemma_bracket_holds_circle(&self, center: Point, radius: u32, min: u32, max: u32)
        requires
            self.wf(),
            0 <= lower_bound(self.keys@, min as int) <= lower_bound(self.keys@, max + 1)
                <= self.keys@.len(),
            is_lower_bound(self.keys@, min as int, lower_bound(self.keys@, min as int)),
            is_lower_bound(self.keys@, max + 1, lower_bound(self.keys@, max + 1)),
            forall|j: int|
                0 <= j < self.keys@.len() && within(center, radius)(self@[j]) ==> min
                    <= #[trigger] self.keys@[j].0 <= max,
        ensures
            self@.subrange(lower_bound(self.keys@, min as int), lower_bound(self.keys@, max + 1)).filter(
                within(center, radius),
            ) == self@.filter(within(center, radius)),
    {
        let w = within(center, radius);
        let n = self.keys@.len() as int;
        let lo = lower_bound(self.keys@, min as int);
        let hi = lower_bound(self.keys@, max + 1);
        let s = self@;
        assert forall|j: int| 0 <= j < s.subrange(0, lo).len() implies !w(
            #[trigger] s.subrange(0, lo)[j],
        ) by {
            assert(s.subrange(0, lo)[j] == s[j]);
            assert(self.keys@[j].0 < min);
        }
        assert forall|j: int| 0 <= j < s.subrange(hi, n).len() implies !w(
            #[trigger] s.subrange(hi, n)[j],
        ) by {
            assert(s.subrange(hi, n)[j] == s[hi + j]);
            assert(self.keys@[hi + j].0 >= max + 1);
        }
        assert(s =~= s.subrange(0, lo) + s.subrange(lo, hi) + s.subrange(hi, n));
        lemma_filter_none(s.subrange(0, lo), w);
        lemma_filter_none(s.subrange(hi, n), w);
        Seq::filter_distributes_over_add(s.subrange(0, lo) + s.subrange(lo, hi), s.subrange(hi, n), w);
        Seq::filter_distributes_over_add(s.subrange(0, lo), s.subrange(lo, hi), w);
        assert(s.subrange(lo, hi).filter(w) =~= s.filter(w));
    }

    /// The rows holding keys of `[min, max]`: the first of them and the one past the last,
    /// with the points of `min` and `max`.
    fn find_bracket(&self, min: MortonKey, max: MortonKey) -> (r: (usize, [u32; 2], usize, [u32; 2]))
        requires
            self.wf(),
            min.0 <= max.0,
        ensures
            r.0 == lower_bound(self.keys@, min.0 as int),
            r.2 == lower_bound(self.keys@, max.0 + 1),
            is_lower_bound(self.keys@, min.0 as int, r.0 as int),
            is_lower_bound(self.keys@, max.0 + 1, r.2 as int),
            r.0 <= r.2,
            r.1[0] == key_x(min.0) && r.1[1] == key_y(min.0),
            r.3[0] == key_x(max.0) && r.3[1] == key_y(max.0),
    {
        let ghost keys = self.keys@;
        let len = self.keys.len();
        let rmin = self.find_key_morton(&min);
        let (imin, pmin) = match rmin {
            Ok(i) => {
                proof {
                    assert(self.positions@[i as int].in_domain());
                    lemma_decode_encode(self.positions@[i as int].x(), self.positions@[i as int].y());
                }
                (i, self.positions[i].0)
            },
            Err(i) => (i, min.as_point()),
        };
        let rmax = self.find_key_morton(&max);
        let (imax, pmax) = match rmax {
            Ok(i) => {
                // include every row holding `max`
                let mut j = i + 1;
                while j < len && self.keys[j].0 == max.0
                    invariant
                        self.wf(),
                        len == self.keys@.len(),
                        i < j <= len,
                        forall|k: int| 0 <= k < j ==> #[trigger] self.keys@[k].0 <= max.0,
                        forall|k: int| j <= k < len ==> #[trigger] self.keys@[k].0 >= max.0,
                    decreases len - j,
                {
                    j += 1;
                }
                proof {
                    assert(self.positions@[i as int].in_domain());
                    lemma_decode_encode(self.positions@[i as int].x(), self.positions@[i as int].y());
                    assert forall|k: int| j <= k < len implies #[trigger] self.keys@[k].0 >= max.0
                        + 1 by {
                        assert(self.keys@[j as int].0 <= self.keys@[k].0);
                    }
                }
                (j, self.positions[i].0)
            },
            Err(i) => {
                proof {
                    assert forall|k: int| i <= k < len implies #[trigger] self.keys@[k].0 >= max.0
                        + 1 by {
                        assert(self.keys@[i as int].0 <= self.keys@[k].0);
                    }
                }
                (i, max.as_point())
            },
        };
        proof {
            lemma_lower_bound(keys, min.0 as int, imin as int);
            lemma_lower_bound(keys, max.0 + 1, imax as int);
            if imax < imin {
                assert(keys[imax as int].0 >= min.0);
            }
        }
        (imin, pmin, imax, pmax)
    }

    /// Appends the rows of `[begin, end)` that lie within `radius` of `center`.
    fn scan<'a>(
        &'a self,
        center: &Point,
        radius: u32,
        begin: usize,
        end: usize,
        out: &mut Vec<(Point, &'a Value)>,
    )
        requires
            self.wf(),
            center.in_domain(),
            begin <= end <= self.keys@.len(),
        ensures
            found(final(out)@) == found(old(out)@) + self@.subrange(begin as int, end as int).filter(
                within(*center, radius),
            ),
    {
        let ghost w = within(*center, radius);
        let mut i = begin;
        while i < end
            invariant
                self.wf(),
                center.in_domain(),
                begin <= i <= end <= self.keys@.len(),
                found(out@) == found(old(out)@) + self@.subrange(begin as int, i as int).filter(w),
                w == within(*center, radius),
            decreases end - i,
        {
            let ghost prev = out@;
            let id = self.positions[i];
            proof {
                assert(id.in_domain());
                assert(sq_dist(*center, id) < 0x8000_0000) by (nonlinear_arith)
                    requires
                        center.x() < 0x8000,
                        center.y() < 0x8000,
                        id.x() < 0x8000,
                        id.y() < 0x8000,
                ;
            }
            let d = center.dist(&id);
            proof {
                lemma_dist_below(d, sq_dist(*center, id), radius);
                assert(sq_dist(*center, id) == sq_dist(id, *center)) by (nonlinear_arith);
                let s = self@;
                assert(s[i as int] == (id, self.values@[i as int]));
                assert(s.subrange(begin as int, i + 1) =~= s.subrange(begin as int, i as int).push(
                    s[i as int],
                ));
                s.subrange(begin as int, i as int).lemma_filter_push(s[i as int], w);
            }
            if d < radius {
                out.push((id, &self.values[i]));
                proof {
                    assert(found(out@) =~= found(prev).push((id, self.values@[i as int])));
                }
            }
            i += 1;
        }
    }

    /// The rows near enough to `center` in each half of a split lie in that half's box.
    proof fn lemma_split_boxes(
        &self,
        center: Point,
        radius: u32,
        min: u32,
        max: u32,
        litmax: u32,
        bigmin: u32,
    )
        requires
            self.wf(),
            min <= litmax < bigmin <= max,
            forall|x: u32, y: u32|
                #[trigger] in_aabb(x, y, key_x(min), key_y(min), key_x(max), key_y(max)) ==> in_aabb(
                    x,
                    y,
                    key_x(min),
                    key_y(min),
                    key_x(litmax),
                    key_y(litmax),
                ) || in_aabb(x, y, key_x(bigmin), key_y(bigmin), key_x(max), key_y(max)),
            forall|j: int|
                0 <= j < self.keys@.len() && within(center, radius)(self@[j]) && min
                    <= #[trigger] self.keys@[j].0 <= max ==> in_aabb(
                    self.positions@[j].x(),
                    self.positions@[j].y(),
                    key_x(min),
                    key_y(min),
                    key_x(max),
                    key_y(max),
                ),
        ensures
            forall|j: int|
                0 <= j < self.keys@.len() && within(center, radius)(self@[j]) && min
                    <= #[trigger] self.keys@[j].0 <= litmax ==> in_aabb(
                    self.positions@[j].x(),
                    self.positions@[j].y(),
                    key_x(min),
                    key_y(min),
                    key_x(litmax),
                    key_y(litmax),
                ),
            forall|j: int|
                0 <= j < self.keys@.len() && within(center, radius)(self@[j]) && bigmin
                    <= #[trigger] self.keys@[j].0 <= max ==> in_aabb(
                    self.positions@[j].x(),
                    self.positions@[j].y(),
                    key_x(bigmin),
                    key_y(bigmin),
                    key_x(max),
                    key_y(max),
                ),
            forall|j: int|
                0 <= j < self.keys@.len() && within(center, radius)(self@[j]) && min
                    <= #[trigger] self.keys@[j].0 <= max ==> avoids_gap(self.keys@[j].0, litmax, bigmin),
    {
        lemma_encode_decode(litmax);
        lemma_encode_decode(bigmin);
        assert forall|j: int|
            0 <= j < self.keys@.len() && within(center, radius)(self@[j]) && min
                <= #[trigger] self.keys@[j].0 <= max implies (self.keys@[j].0 <= litmax ==> in_aabb(
            self.positions@[j].x(),
            self.positions@[j].y(),
            key_x(min),
            key_y(min),
            key_x(litmax),
            key_y(litmax),
        )) && (bigmin <= self.keys@[j].0 ==> in_aabb(
            self.positions@[j].x(),
            self.positions@[j].y(),
            key_x(bigmin),
            key_y(bigmin),
            key_x(max),
            key_y(max),
        )) && avoids_gap(self.keys@[j].0, litmax, bigmin) by {
            let p = self.positions@[j];
            assert(p.in_domain());
            if in_aabb(p.x(), p.y(), key_x(min), key_y(min), key_x(litmax), key_y(litmax)) {
                lemma_morton_monotone(p.x(), p.y(), key_x(litmax), key_y(litmax));
            } else {
                assert(in_aabb(p.x(), p.y(), key_x(min), key_y(min), key_x(max), key_y(max)));
                lemma_morton_monotone(key_x(bigmin), key_y(bigmin), p.x(), p.y());
            }
        }
    }

    /// The results of the two halves of a split, one after the other, are those of the whole
    /// interval: the rows between the halves are out of reach.
    proof fn lemma_split_result(
        &self,
        center: Point,
        radius: u32,
        min: u32,
        max: u32,
        litmax: u32,
        bigmin: u32,
    )
        requires
            self.wf(),
            min <= litmax < bigmin <= max,
            forall|j: int|
                0 <= j < self.keys@.len() && within(center, radius)(self@[j]) && min
                    <= #[trigger] self.keys@[j].0 <= max ==> avoids_gap(self.keys@[j].0, litmax, bigmin),
            0 <= lower_bound(self.keys@, min as int) <= lower_bound(self.keys@, litmax + 1),
            lower_bound(self.keys@, bigmin as int) <= lower_bound(self.keys@, max + 1)
                <= self.keys@.len(),
            is_lower_bound(self.keys@, litmax + 1, lower_bound(self.keys@, litmax + 1)),
            is_lower_bound(self.keys@, bigmin as int, lower_bound(self.keys@, bigmin as int)),
            is_lower_bound(self.keys@, min as int, lower_bound(self.keys@, min as int)),
            is_lower_bound(self.keys@, max + 1, lower_bound(self.keys@, max + 1)),
        ensures
            self@.subrange(lower_bound(self.keys@, min as int), lower_bound(self.keys@, litmax + 1)).filter(
                within(center, radius),
            ) + self@.subrange(lower_bound(self.keys@, bigmin as int), lower_bound(self.keys@, max + 1)).filter(
                within(center, radius),
            ) == self@.subrange(lower_bound(self.keys@, min as int), lower_bound(self.keys@, max + 1)).filter(
                within(center, radius),
            ),
    {
        let keys = self.keys@;
        let w = within(center, radius);
        let a = lower_bound(keys, min as int);
        let b = lower_bound(keys, litmax + 1);
        let c = lower_bound(keys, bigmin as int);
        let d = lower_bound(keys, max + 1);
        if c < b {
            assert(keys[c].0 < litmax + 1);
        }
        let s = self@;
        assert forall|j: int| 0 <= j < s.subrange(b, c).len() implies !w(
            #[trigger] s.subrange(b, c)[j],
        ) by {
            let k = b + j;
            assert(s.subrange(b, c)[j] == s[k]);
            assert(keys[k].0 >= litmax + 1);
            assert(keys[k].0 < bigmin);
            if a <= k {
                assert(keys[k].0 >= min);
            }
            if k < d {
                assert(keys[k].0 <= max);
            }
        }
        lemma_filter_none(s.subrange(b, c), w);
        assert(s.subrange(a, d) =~= s.subrange(a, b) + s.subrange(b, c) + s.subrange(c, d));
        Seq::filter_distributes_over_add(s.subrange(a, b) + s.subrange(b, c), s.subrange(c, d), w);
        Seq::filter_distributes_over_add(s.subrange(a, b), s.subrange(b, c), w);
        assert(s.subrange(a, b).filter(w) + s.subrange(b, c).filter(w) =~= s.subrange(a, b).filter(w));
    }

    /// The range query on the Z-order interval `[min, max]`, whose points span the box from
    /// the point of `min` to the point of `max`: every row near enough to `center` with a key in
    /// the interval lies in that box.
    fn find_in_range_impl<'a>(
        &'a self,
        center: &Point,
        radius: u32,
        min: MortonKey,
        max: MortonKey,
        out: &mut Vec<(Point, &'a Value)>,
    )
        requires
            self.wf(),
            center.in_domain(),
            radius < DOMAIN,
            min.0 <= max.0,
            key_x(min.0) <= key_x(max.0),
            key_y(min.0) <= key_y(max.0),
            forall|j: int|
                0 <= j < self.keys@.len() && within(*center, radius)(self@[j]) && min.0
                    <= #[trigger] self.keys@[j].0 <= max.0 ==> in_aabb(
                    self.positions@[j].x(),
                    self.positions@[j].y(),
                    key_x(min.0),
                    key_y(min.0),
                    key_x(max.0),
                    key_y(max.0),
                ),
        ensures
            0 <= lower_bound(self.keys@, min.0 as int) <= lower_bound(self.keys@, max.0 + 1)
                <= self.keys@.len(),
            is_lower_bound(self.keys@, min.0 as int, lower_bound(self.keys@, min.0 as int)),
            is_lower_bound(self.keys@, max.0 + 1, lower_bound(self.keys@, max.0 + 1)),
            found(final(out)@) == found(old(out)@) + self@.subrange(
                lower_bound(self.keys@, min.0 as int),
                lower_bound(self.keys@, max.0 + 1),
            ).filter(within(*center, radius)),
        decreases max.0 - min.0,
    {
        let (imin, pmin, imax, pmax) = self.find_bracket(min, max);
        if imax <= imin {
            proof {
                assert(self@.subrange(imin as int, imax as int).filter(within(*center, radius))
                    =~= Seq::<(Point, Value)>::empty());
                assert(found(out@) =~= found(out@) + Seq::<(Point, Value)>::empty());
            }
            return;
        }
        if imax - imin > 16 && min.0 < max.0 {
            let lb = litmax_bigmin(min.0, pmin, max.0, pmax);
            let litmax = lb[0];
            let bigmin = lb[1];
            proof {
                self.lemma_split_boxes(*center, radius, min.0, max.0, litmax.0, bigmin.0);
            }
            // split and recurse
            self.find_in_range_impl(center, radius, min, litmax, out);
            self.find_in_range_impl(center, radius, bigmin, max, out);
            proof {
                self.lemma_split_result(*center, radius, min.0, max.0, litmax.0, bigmin.0);
            }
            return;
        }
        self.scan(center, radius, imin, imax, out);
    }
}

impl Default for MortonTable {
    fn default() -> (r: Self)
        ensures
            r.wf(),
            r@ == Seq::<(Point, Value)>::empty(),
    {
        Self::new()
    }
}
} // verus!
