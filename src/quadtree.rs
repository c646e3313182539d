//! A region quadtree with the same contract as the Z-order table: each node owns a box and
//! either a bounded bucket of rows or four children that split the box into quadrants.
use vstd::prelude::*;

use arrayvec::ArrayVec;

use crate::morton_table::{
    first_value,
    holds_point,
    lemma_contains_iff_found,
    lemma_first_value_held,
    lemma_first_value,
    lemma_filter_none,
    lemma_first_value_none,
    within,
};
use crate::{Point, Value, sq_dist};

verus! {

broadcast use vstd::multiset::group_multiset_axioms, vstd::array::group_array_axioms;

/// Capacity of a leaf's bucket.
pub const LEN_CHILDREN: usize = 16;

/// A leaf's bounded bucket of rows, held in an `ArrayVec`.
#[verifier::external_body]
pub struct Bucket {
    items: ArrayVec<[(Point, Value); LEN_CHILDREN]>,
}

/// The rows a bucket holds, in order.
pub uninterp spec fn bucket_rows(b: Bucket) -> Seq<(Point, Value)>;

/// Relies on arrayvec's `ArrayVec::new`: a new vector holds nothing.
#[verifier::external_body]
fn bucket_new() -> (r: Bucket)
    ensures
        bucket_rows(r) == Seq::<(Point, Value)>::empty(),
{
    Bucket { items: ArrayVec::new() }
}

/// Relies on `ArrayVec::try_push`: below capacity the row is appended, at capacity nothing
/// changes; the length never exceeds the capacity.
#[verifier::external_body]
fn bucket_try_push(b: &mut Bucket, row: (Point, Value)) -> (r: bool)
    ensures
        bucket_rows(*old(b)).len() < LEN_CHILDREN ==> r && bucket_rows(*final(b)) == bucket_rows(
            *old(b),
        ).push(row),
        bucket_rows(*old(b)).len() >= LEN_CHILDREN ==> !r && bucket_rows(*final(b))
            == bucket_rows(*old(b)),
{
    b.items.try_push(row).is_ok()
}

/// Relies on `ArrayVec::len`: the number of rows held.
#[verifier::external_body]
fn bucket_len(b: &Bucket) -> (r: usize)
    ensures
        r == bucket_rows(*b).len(),
{
    b.items.len()
}

/// Relies on indexing an `ArrayVec` through its slice: a reference to row `i`.
#[verifier::external_body]
fn bucket_get(b: &Bucket, i: usize) -> (r: &(Point, Value))
    requires
        i < bucket_rows(*b).len(),
    ensures
        *r == bucket_rows(*b)[i as int],
{
    &b.items[i]
}

/// Relies on `ArrayVec::remove`: takes out row `i`, shifting the later rows down.
#[verifier::external_body]
fn bucket_remove(b: &mut Bucket, i: usize) -> (r: (Point, Value))
    requires
        i < bucket_rows(*old(b)).len(),
    ensures
        r == bucket_rows(*old(b))[i as int],
        bucket_rows(*final(b)) == bucket_rows(*old(b)).remove(i as int),
{
    b.items.remove(i)
}

/// Relies on `ArrayVec::clear`: afterwards the bucket holds nothing.
#[verifier::external_body]
fn bucket_clear(b: &mut Bucket)
    ensures
        bucket_rows(*final(b)) == Seq::<(Point, Value)>::empty(),
{
    b.items.clear()
}

/// `p` lies in the box `[from, to]`, bounds included.
pub open spec fn in_box(p: Point, from: Point, to: Point) -> bool {
    from.x() <= p.x() <= to.x() && from.y() <= p.y() <= to.y()
}

/// Lower end of the upper half of `[lo, hi]`: the halves `[lo, lo + (hi - lo) / 2]` and
/// `[upper_start(lo, hi), hi]` cover `[lo, hi]`, and both are shorter unless `lo == hi`.
pub open spec fn upper_start(lo: u32, hi: u32) -> u32 {
    if lo < hi {
        (lo + (hi - lo) / 2 + 1) as u32
    } else {
        lo
    }
}

/// Upper end of the lower half of `[lo, hi]`.
pub open spec fn lower_end(lo: u32, hi: u32) -> u32 {
    (lo + (hi - lo) / 2) as u32
}

/// The box of quadrant `i` of `[from, to]`:
/// ```text
/// | child2 | child1 |
/// | ------ | ------ |
/// | child3 | child0 |
/// ```
pub open spec fn quadrant(i: int, from: Point, to: Point) -> (Point, Point) {
    let (xl, xh) = (lower_end(from.x(), to.x()), upper_start(from.x(), to.x()));
    let (yl, yh) = (lower_end(from.y(), to.y()), upper_start(from.y(), to.y()));
    if i == 0 {
        (Point([xh, from.y()]), Point([to.x(), yl]))
    } else if i == 1 {
        (Point([xh, yh]), Point([to.x(), to.y()]))
    } else if i == 2 {
        (Point([from.x(), yh]), Point([xl, to.y()]))
    } else {
        (Point([from.x(), from.y()]), Point([xl, yl]))
    }
}

/// The quadrants of a box of more than one point are non-empty boxes inside it, each with a
/// smaller extent, and together they cover it.
proof fn lemma_quadrants(from: Point, to: Point)
    requires
        from.x() <= to.x(),
        from.y() <= to.y(),
        (to.x() - from.x()) + (to.y() - from.y()) > 0,
    ensures
        forall|i: int|
            0 <= i < 4 ==> {
                let (lo, hi) = #[trigger] quadrant(i, from, to);
                &&& lo.x() <= hi.x() && lo.y() <= hi.y()
                &&& from.x() <= lo.x() && hi.x() <= to.x()
                &&& from.y() <= lo.y() && hi.y() <= to.y()
                &&& (hi.x() - lo.x()) + (hi.y() - lo.y()) < (to.x() - from.x()) + (to.y()
                    - from.y())
            },
        forall|p: Point|
            #[trigger] in_box(p, from, to) ==> in_box(p, quadrant(0, from, to).0, quadrant(0, from, to).1)
                || in_box(p, quadrant(1, from, to).0, quadrant(1, from, to).1) || in_box(
                p,
                quadrant(2, from, to).0,
                quadrant(2, from, to).1,
            ) || in_box(p, quadrant(3, from, to).0, quadrant(3, from, to).1),
{
}

/// A point is held by a concatenation when it is held by either part.
proof fn lemma_holds_concat(a: Seq<(Point, Value)>, b: Seq<(Point, Value)>, p: Point)
    ensures
        holds_point(a + b, p) == (holds_point(a, p) || holds_point(b, p)),
{
    if holds_point(a, p) {
        let i = choose|i: int| 0 <= i < a.len() && #[trigger] a[i].0 == p;
        assert((a + b)[i].0 == p);
    }
    if holds_point(b, p) {
        let i = choose|i: int| 0 <= i < b.len() && #[trigger] b[i].0 == p;
        assert((a + b)[a.len() + i].0 == p);
    }
    if holds_point(a + b, p) {
        let i = choose|i: int| 0 <= i < (a + b).len() && #[trigger] (a + b)[i].0 == p;
        if i < a.len() {
            assert(a[i].0 == p);
        } else {
            assert(b[i - a.len()].0 == p);
        }
    }
}

/// The first value of a point in a concatenation comes from the first part that holds it.
proof fn lemma_first_value_concat(a: Seq<(Point, Value)>, b: Seq<(Point, Value)>, p: Point)
    ensures
        first_value(a + b, p) == if first_value(a, p) is Some {
            first_value(a, p)
        } else {
            first_value(b, p)
        },
    decreases a.len(),
{
    if a.len() > 0 {
        assert((a + b)[0] == a[0]);
        if a[0].0 != p {
            assert((a + b).drop_first() =~= a.drop_first() + b);
            lemma_first_value_concat(a.drop_first(), b, p);
        }
    } else {
        assert(a + b =~= b);
    }
}

/// The results of a range query, read through their references.
pub open spec fn found_rows<'a>(out: Seq<&'a (Point, Value)>) -> Seq<(Point, Value)> {
    out.map_values(|e: &'a (Point, Value)| *e)
}

/// Whether `p` lies in the box `[from, to]`.
fn in_box_exec(p: &Point, from: &Point, to: &Point) -> (r: bool)
    ensures
        r == in_box(*p, *from, *to),
{
    from.0[0] <= p.0[0] && p.0[0] <= to.0[0] && from.0[1] <= p.0[1] && p.0[1] <= to.0[1]
}

/// Whether `p` lies strictly closer to `center` than `radius`.
fn is_within(p: &Point, center: &Point, radius: u32) -> (r: bool)
    ensures
        r == (sq_dist(*p, *center) < radius * radius),
{
    let dx: u128 = if p.0[0] >= center.0[0] {
        (p.0[0] - center.0[0]) as u128
    } else {
        (center.0[0] - p.0[0]) as u128
    };
    let dy: u128 = if p.0[1] >= center.0[1] {
        (p.0[1] - center.0[1]) as u128
    } else {
        (center.0[1] - p.0[1]) as u128
    };
    assert(dx * dx + dy * dy == sq_dist(*p, *center)) by (nonlinear_arith)
        requires
            dx == p.x() - center.x() || dx == center.x() - p.x(),
            dy == p.y() - center.y() || dy == center.y() - p.y(),
    ;
    assert(dx * dx <= 0xffff_ffff * 0xffff_ffff && dy * dy <= 0xffff_ffff * 0xffff_ffff) by (
    nonlinear_arith)
        requires
            dx <= 0xffff_ffff,
            dy <= 0xffff_ffff,
    ;
    let r = radius as u128;
    assert(r * r <= 0xffff_ffff * 0xffff_ffff) by (nonlinear_arith)
        requires
            r <= 0xffff_ffff,
    ;
    dx * dx + dy * dy < r * r
}

/// A point closer than `radius` to `center` lies in the box of half-width `radius`, clipped
/// to the coordinate range.
proof fn lemma_within_clipped_box(p: Point, center: Point, radius: u32, lo: Point, hi: Point)
    requires
        sq_dist(p, center) < radius * radius,
        lo.x() == (if center.x() >= radius { center.x() - radius } else { 0 }),
        lo.y() == (if center.y() >= radius { center.y() - radius } else { 0 }),
        hi.x() == (if center.x() + radius <= u32::MAX { center.x() + radius } else { u32::MAX as int }),
        hi.y() == (if center.y() + radius <= u32::MAX { center.y() + radius } else { u32::MAX as int }),
    ensures
        in_box(p, lo, hi),
{
    let dx = p.x() - center.x();
    let dy = p.y() - center.y();
    let r = radius as int;
    assert(dx * dx < r * r && dy * dy < r * r) by (nonlinear_arith)
        requires
            dx * dx + dy * dy < r * r,
    ;
    assert(-r < dx < r) by (nonlinear_arith)
        requires
            dx * dx < r * r,
            r >= 0,
    ;
    assert(-r < dy < r) by (nonlinear_arith)
        requires
            dy * dy < r * r,
            r >= 0,
    ;
}

/// How often a row occurs in a filtered sequence.
proof fn lemma_filter_count(
    s: Seq<(Point, Value)>,
    pred: spec_fn((Point, Value)) -> bool,
    e: (Point, Value),
)
    ensures
        s.filter(pred).to_multiset().count(e) == if pred(e) {
            s.to_multiset().count(e)
        } else {
            0
        },
    decreases s.len(),
{
    if s.len() == 0 {
        lemma_filter_none(s, pred);
        vstd::seq_lib::to_multiset_len(s);
        vstd::multiset::lemma_multiset_empty_len(s.to_multiset());
        vstd::seq_lib::to_multiset_len(s.filter(pred));
        vstd::multiset::lemma_multiset_empty_len(s.filter(pred).to_multiset());
    } else {
        let t = s.drop_last();
        let x = s.last();
        assert(s =~= t.push(x));
        t.lemma_filter_push(x, pred);
        vstd::seq_lib::to_multiset_build(t, x);
        vstd::seq_lib::to_multiset_build(t.filter(pred), x);
        lemma_filter_count(t, pred, e);
    }
}

/// Two structures holding the same rows, in any order, answer alike: they hold the same
/// points; a point's first value in either is paired with that point in both; and a range
/// query returns the same rows, up to order.
pub proof fn lemma_same_rows_same_answers(
    a: Seq<(Point, Value)>,
    b: Seq<(Point, Value)>,
    p: Point,
    center: Point,
    radius: u32,
)
    requires
        a.to_multiset() == b.to_multiset(),
    ensures
        holds_point(a, p) == holds_point(b, p),
        first_value(a, p) is Some <==> first_value(b, p) is Some,
        first_value(a, p) matches Some(v) ==> b.contains((p, v)),
        first_value(b, p) matches Some(v) ==> a.contains((p, v)),
        a.filter(within(center, radius)).to_multiset() == b.filter(
            within(center, radius),
        ).to_multiset(),
{
    if holds_point(a, p) {
        let i = choose|i: int| 0 <= i < a.len() && #[trigger] a[i].0 == p;
        vstd::seq_lib::to_multiset_contains(a, a[i]);
        vstd::seq_lib::to_multiset_contains(b, a[i]);
        let j = choose|j: int| 0 <= j < b.len() && b[j] == a[i];
        assert(b[j].0 == p);
    }
    if holds_point(b, p) {
        let i = choose|i: int| 0 <= i < b.len() && #[trigger] b[i].0 == p;
        vstd::seq_lib::to_multiset_contains(b, b[i]);
        vstd::seq_lib::to_multiset_contains(a, b[i]);
        let j = choose|j: int| 0 <= j < a.len() && a[j] == b[i];
        assert(a[j].0 == p);
    }
    lemma_contains_iff_found(a, p);
    lemma_contains_iff_found(b, p);
    lemma_first_value_held(a, p);
    lemma_first_value_held(b, p);
    if first_value(a, p) is Some {
        let v = first_value(a, p)->Some_0;
        vstd::seq_lib::to_multiset_contains(a, (p, v));
        vstd::seq_lib::to_multiset_contains(b, (p, v));
    }
    if first_value(b, p) is Some {
        let v = first_value(b, p)->Some_0;
        vstd::seq_lib::to_multiset_contains(b, (p, v));
        vstd::seq_lib::to_multiset_contains(a, (p, v));
    }
    let w = within(center, radius);
    assert forall|e: (Point, Value)|
        a.filter(w).to_multiset().count(e) == b.filter(w).to_multiset().count(e) by {
        lemma_filter_count(a, w, e);
        lemma_filter_count(b, w, e);
    }
    assert(a.filter(w).to_multiset() =~= b.filter(w).to_multiset());
}

/// Removing row `k` of part `j` of a four-part concatenation removes one row of the whole.
proof fn lemma_remove_from_part(
    r0: Seq<(Point, Value)>,
    r1: Seq<(Point, Value)>,
    r2: Seq<(Point, Value)>,
    r3: Seq<(Point, Value)>,
    j: int,
    k: int,
    n0: Seq<(Point, Value)>,
    n1: Seq<(Point, Value)>,
    n2: Seq<(Point, Value)>,
    n3: Seq<(Point, Value)>,
)
    requires
        0 <= j < 4,
        n0 == if j == 0 { r0.remove(k) } else { r0 },
        n1 == if j == 1 { r1.remove(k) } else { r1 },
        n2 == if j == 2 { r2.remove(k) } else { r2 },
        n3 == if j == 3 { r3.remove(k) } else { r3 },
        j == 0 ==> 0 <= k < r0.len(),
        j == 1 ==> 0 <= k < r1.len(),
        j == 2 ==> 0 <= k < r2.len(),
        j == 3 ==> 0 <= k < r3.len(),
    ensures
        exists|g: int|
            0 <= g < (r0 + r1 + r2 + r3).len() && (r0 + r1 + r2 + r3)[g] == (if j == 0 {
                r0[k]
            } else if j == 1 {
                r1[k]
            } else if j == 2 {
                r2[k]
            } else {
                r3[k]
            }) && n0 + n1 + n2 + n3 == (r0 + r1 + r2 + r3).remove(g),
{
    let o = r0 + r1 + r2 + r3;
    let (l0, l1, l2) = (r0.len() as int, r1.len() as int, r2.len() as int);
    let g = if j == 0 {
        k
    } else if j == 1 {
        l0 + k
    } else if j == 2 {
        l0 + l1 + k
    } else {
        l0 + l1 + l2 + k
    };
    assert(n0 + n1 + n2 + n3 =~= o.remove(g));
}

/// What a node holds: four children that split its box, or a bucket of rows.
pub enum Body {
    Children(Box<Quadtree>, Box<Quadtree>, Box<Quadtree>, Box<Quadtree>),
    Items(Box<Bucket>),
    /// The rows of a leaf whose box is a single point, once they outgrow a bucket.
    Cell(Vec<(Point, Value)>),
}

/// A node of the region quadtree: its box `[from, to]` and its body.
pub struct Quadtree {
    // bounds as an AABB
    from: Point,
    to: Point,
    body: Body,
}

impl View for Quadtree {
    type V = Seq<(Point, Value)>;

    closed spec fn view(&self) -> Seq<(Point, Value)> {
        self.rows()
    }
}

impl Quadtree {
    /// The rows of the leaves below this node, from child 0 to child 3.
    pub closed spec fn rows(&self) -> Seq<(Point, Value)>
        decreases self,
    {
        match self.body {
            Body::Items(b) => bucket_rows(*b),
            Body::Cell(v) => v@,
            Body::Children(c0, c1, c2, c3) => c0.rows() + c1.rows() + c2.rows() + c3.rows(),
        }
    }

    /// Lower corner of this node's box.
    pub closed spec fn lower(&self) -> Point {
        self.from
    }

    /// Upper corner of this node's box.
    pub closed spec fn upper(&self) -> Point {
        self.to
    }

    /// The sum of the box's side lengths; it shrinks from a node to its children.
    pub closed spec fn extent(&self) -> int {
        (self.to.x() - self.from.x()) + (self.to.y() - self.from.y())
    }

    /// The node's invariant: the box is not empty; a bucket leaf holds at most `LEN_CHILDREN`
    /// rows, all inside its box; a cell leaf's box is a single point and holds any number of
    /// rows of it; an inner node's box is more than one point and its children are the four
    /// quadrants of it.
    pub closed spec fn wf(&self) -> bool
        decreases self,
    {
        &&& self.from.x() <= self.to.x()
        &&& self.from.y() <= self.to.y()
        &&& match self.body {
            Body::Items(b) => {
                &&& bucket_rows(*b).len() <= LEN_CHILDREN
                &&& forall|i: int|
                    0 <= i < bucket_rows(*b).len() ==> in_box(
                        #[trigger] bucket_rows(*b)[i].0,
                        self.from,
                        self.to,
                    )
            },
            Body::Cell(v) => {
                &&& self.extent() == 0
                &&& forall|i: int| 0 <= i < v@.len() ==> in_box(#[trigger] v@[i].0, self.from, self.to)
            },
            Body::Children(c0, c1, c2, c3) => {
                &&& self.extent() > 0
                &&& c0.wf() && (c0.from, c0.to) == quadrant(0, self.from, self.to)
                &&& c1.wf() && (c1.from, c1.to) == quadrant(1, self.from, self.to)
                &&& c2.wf() && (c2.from, c2.to) == quadrant(2, self.from, self.to)
                &&& c3.wf() && (c3.from, c3.to) == quadrant(3, self.from, self.to)
            },
        }
    }

    /// A leaf with the box `[from, to]`.
    pub fn new(from: Point, to: Point) -> (r: Self)
        requires
            from.x() <= to.x(),
            from.y() <= to.y(),
        ensures
            r.wf(),
            r@ == Seq::<(Point, Value)>::empty(),
            r.lower() == from,
            r.upper() == to,
    {
        Self { from, to, body: Body::Items(Box::new(bucket_new())) }
    }

    /// Whether `point` lies in this node's box.
    pub fn intersects(&self, point: &Point) -> (r: bool)
        ensures
            r == in_box(*point, self.lower(), self.upper()),
    {
        let x = point.0[0];
        let y = point.0[1];
        self.from.0[0] <= x && self.from.0[1] <= y && x <= self.to.0[0] && y <= self.to.0[1]
    }

    /// Whether this node's box meets the box `[from, to]`.
    pub fn intersects_aabb(&self, from: &Point, to: &Point) -> (r: bool)
        ensures
            r == (self.lower().x() <= to.x() && from.x() <= self.upper().x() && self.lower().y()
                <= to.y() && from.y() <= self.upper().y()),
    {
        // separating axis test
        if self.to.0[0] < from.0[0] || self.from.0[0] > to.0[0] {
            return false;
        }
        if self.to.0[1] < from.0[1] || self.from.0[1] > to.0[1] {
            return false;
        }
        true
    }

    /// Every row below a node lies in the node's box.
    proof fn lemma_rows_in_box(&self)
        requires
            self.wf(),
        ensures
            forall|i: int|
                0 <= i < self.rows().len() ==> in_box(
                    #[trigger] self.rows()[i].0,
                    self.from,
                    self.to,
                ),
        decreases self,
    {
        match self.body {
            Body::Items(b) => {},
            Body::Cell(v) => {},
            Body::Children(c0, c1, c2, c3) => {
                lemma_quadrants(self.from, self.to);
                c0.lemma_rows_in_box();
                c1.lemma_rows_in_box();
                c2.lemma_rows_in_box();
                c3.lemma_rows_in_box();
                let (r0, r1, r2, r3) = (c0.rows(), c1.rows(), c2.rows(), c3.rows());
                assert forall|i: int| 0 <= i < self.rows().len() implies in_box(
                    #[trigger] self.rows()[i].0,
                    self.from,
                    self.to,
                ) by {
                    let s = self.rows();
                    assert(s == r0 + r1 + r2 + r3);
                    let (n0, n1, n2) = (r0.len() as int, r1.len() as int, r2.len() as int);
                    if i < n0 {
                        assert(s[i] == r0[i]);
                    } else if i < n0 + n1 {
                        assert(s[i] == r1[i - n0]);
                    } else if i < n0 + n1 + n2 {
                        assert(s[i] == r2[i - n0 - n1]);
                    } else {
                        assert(s[i] == r3[i - n0 - n1 - n2]);
                    }
                }
            },
        }
    }

    /// A node holds no point outside its box.
    proof fn lemma_outside_not_held(&self, p: Point)
        requires
            self.wf(),
            !in_box(p, self.from, self.to),
        ensures
            !holds_point(self.rows(), p),
            first_value(self.rows(), p) is None,
    {
        self.lemma_rows_in_box();
        lemma_first_value_none(self.rows(), p);
    }

    /// In a node whose box is the single point `p`, every row holds `p`.
    proof fn lemma_single_point_rows(&self, p: Point)
        requires
            self.wf(),
            self.extent() == 0,
            in_box(p, self.from, self.to),
        ensures
            forall|i: int| 0 <= i < self.rows().len() ==> #[trigger] self.rows()[i].0 == p,
    {
        self.lemma_rows_in_box();
        assert forall|i: int| 0 <= i < self.rows().len() implies #[trigger] self.rows()[i].0 == p by {
            assert(in_box(self.rows()[i].0, self.from, self.to));
            assert(self.rows()[i].0.0 =~= p.0);
        }
    }

    /// Whether some row holds `point`.
    pub fn contains_key(&self, point: &Point) -> (r: bool)
        requires
            self.wf(),
        ensures
            r == holds_point(self@, *point),
        decreases self,
    {
        if !self.intersects(point) {
            proof {
                self.lemma_outside_not_held(*point);
            }
            return false;
        }
        match &self.body {
            Body::Items(items) => {
                // if this node contains this point then we're done
                let n = bucket_len(items);
                let mut i: usize = 0;
                while i < n
                    invariant
                        n == bucket_rows(**items).len(),
                        self.rows() == bucket_rows(**items),
                        i <= n,
                        forall|j: int| 0 <= j < i ==> #[trigger] bucket_rows(**items)[j].0 != *point,
                    decreases n - i,
                {
                    let p = bucket_get(items, i);
                    if p.0.same(point) {
                        return true;
                    }
                    i += 1;
                }
                false
            },
            Body::Cell(v) => {
                proof {
                    self.lemma_single_point_rows(*point);
                    if v@.len() > 0 {
                        assert(self.rows()[0].0 == *point);
                    }
                }
                v.len() > 0
            },
            Body::Children(c0, c1, c2, c3) => {
                proof {
                    lemma_holds_concat(c0.rows(), c1.rows(), *point);
                    lemma_holds_concat(c0.rows() + c1.rows(), c2.rows(), *point);
                    lemma_holds_concat(c0.rows() + c1.rows() + c2.rows(), c3.rows(), *point);
                }
                // this node did not contain the key, check the children
                c0.contains_key(point) || c1.contains_key(point) || c2.contains_key(point)
                    || c3.contains_key(point)
            },
        }
    }

    /// The value of the first row holding `point`, if any.
    pub fn get_by_id<'a>(&'a self, point: &Point) -> (r: Option<&'a Value>)
        requires
            self.wf(),
        ensures
            r matches Some(v) ==> first_value(self@, *point) == Some(*v),
            r is None ==> first_value(self@, *point) is None,
        decreases self,
    {
        if !self.intersects(point) {
            proof {
                self.lemma_outside_not_held(*point);
            }
            return None;
        }
        match &self.body {
            Body::Items(items) => {
                let n = bucket_len(items);
                let mut i: usize = 0;
                while i < n
                    invariant
                        n == bucket_rows(**items).len(),
                        self.rows() == bucket_rows(**items),
                        i <= n,
                        forall|j: int| 0 <= j < i ==> #[trigger] bucket_rows(**items)[j].0 != *point,
                    decreases n - i,
                {
                    let p = bucket_get(items, i);
                    if p.0.same(point) {
                        proof {
                            lemma_first_value(self.rows(), *point, i as int);
                        }
                        return Some(&p.1);
                    }
                    i += 1;
                }
                proof {
                    lemma_first_value_none(self.rows(), *point);
                }
                None
            },
            Body::Cell(v) => {
                proof {
                    self.lemma_single_point_rows(*point);
                }
                if v.len() > 0 {
                    proof {
                        lemma_first_value(self.rows(), *point, 0);
                    }
                    Some(&v[0].1)
                } else {
                    proof {
                        lemma_first_value_none(self.rows(), *point);
                    }
                    None
                }
            },
            Body::Children(c0, c1, c2, c3) => {
                proof {
                    lemma_first_value_concat(c0.rows(), c1.rows(), *point);
                    lemma_first_value_concat(c0.rows() + c1.rows(), c2.rows(), *point);
                    lemma_first_value_concat(c0.rows() + c1.rows() + c2.rows(), c3.rows(), *point);
                }
                if let Some(v) = c0.get_by_id(point) {
                    return Some(v);
                }
                if let Some(v) = c1.get_by_id(point) {
                    return Some(v);
                }
                if let Some(v) = c2.get_by_id(point) {
                    return Some(v);
                }
                c3.get_by_id(point)
            },
        }
    }

    /// Appends to `out` every row whose point lies strictly closer to `center` than `radius`,
    /// in the order of the rows.
    pub fn find_in_range<'a>(
        &'a self,
        center: &Point,
        radius: u32,
        out: &mut Vec<&'a (Point, Value)>,
    )
        requires
            self.wf(),
        ensures
            found_rows(final(out)@) == found_rows(old(out)@) + self@.filter(within(*center, radius)),
    {
        // the bounding box of the circle
        let lo = Point::new(
            if center.0[0] >= radius {
                center.0[0] - radius
            } else {
                0
            },
            if center.0[1] >= radius {
                center.0[1] - radius
            } else {
                0
            },
        );
        let hi = Point::new(
            center.0[0].saturating_add(radius),
            center.0[1].saturating_add(radius),
        );
        proof {
            assert forall|p: Point| sq_dist(p, *center) < radius * radius implies in_box(
                p,
                lo,
                hi,
            ) by {
                lemma_within_clipped_box(p, *center, radius, lo, hi);
            }
        }
        self.find_in_range_impl(center, radius, &lo, &hi, out);
    }

    fn find_in_range_impl<'a>(
        &'a self,
        center: &Point,
        radius: u32,
        lo: &Point,
        hi: &Point,
        out: &mut Vec<&'a (Point, Value)>,
    )
        requires
            self.wf(),
            forall|p: Point| sq_dist(p, *center) < radius * radius ==> #[trigger] in_box(p, *lo, *hi),
        ensures
            found_rows(final(out)@) == found_rows(old(out)@) + self.rows().filter(
                within(*center, radius),
            ),
        decreases self,
    {
        let ghost w = within(*center, radius);
        if !self.intersects_aabb(lo, hi) {
            // a node that misses the box of the circle misses the circle
            proof {
                self.lemma_rows_in_box();
                assert forall|j: int| 0 <= j < self.rows().len() implies !w(
                    #[trigger] self.rows()[j],
                ) by {
                    let p = self.rows()[j].0;
                    assert(in_box(p, self.from, self.to));
                    if w(self.rows()[j]) {
                        assert(in_box(p, *lo, *hi));
                    }
                }
                lemma_filter_none(self.rows(), w);
                assert(found_rows(out@) + Seq::<(Point, Value)>::empty() =~= found_rows(out@));
            }
            return;
        }
        match &self.body {
            Body::Items(items) => {
                // every row of the bucket that lies within the circle
                let n = bucket_len(items);
                let mut i: usize = 0;
                while i < n
                    invariant
                        n == bucket_rows(**items).len(),
                        self.rows() == bucket_rows(**items),
                        i <= n,
                        w == within(*center, radius),
                        found_rows(out@) == found_rows(old(out)@) + bucket_rows(**items).subrange(
                            0,
                            i as int,
                        ).filter(w),
                    decreases n - i,
                {
                    let ghost prev = out@;
                    let p = bucket_get(items, i);
                    proof {
                        let s = bucket_rows(**items);
                        assert(s.subrange(0, i + 1) =~= s.subrange(0, i as int).push(s[i as int]));
                        s.subrange(0, i as int).lemma_filter_push(s[i as int], w);
                    }
                    if is_within(&p.0, center, radius) {
                        out.push(p);
                        proof {
                            assert(found_rows(out@) =~= found_rows(prev).push(*p));
                        }
                    }
                    i += 1;
                }
                proof {
                    assert(bucket_rows(**items).subrange(0, n as int) =~= bucket_rows(**items));
                }
            },
            Body::Cell(v) => {
                let n = v.len();
                let mut i: usize = 0;
                while i < n
                    invariant
                        n == v@.len(),
                        self.rows() == v@,
                        i <= n,
                        w == within(*center, radius),
                        found_rows(out@) == found_rows(old(out)@) + v@.subrange(0, i as int).filter(w),
                    decreases n - i,
                {
                    let ghost prev = out@;
                    let p = &v[i];
                    proof {
                        assert(v@.subrange(0, i + 1) =~= v@.subrange(0, i as int).push(v@[i as int]));
                        v@.subrange(0, i as int).lemma_filter_push(v@[i as int], w);
                    }
                    if is_within(&p.0, center, radius) {
                        out.push(p);
                        proof {
                            assert(found_rows(out@) =~= found_rows(prev).push(*p));
                        }
                    }
                    i += 1;
                }
                proof {
                    assert(v@.subrange(0, n as int) =~= v@);
                }
            },
            Body::Children(c0, c1, c2, c3) => {
                // repeat the procedure for all children
                c0.find_in_range_impl(center, radius, lo, hi, out);
                c1.find_in_range_impl(center, radius, lo, hi, out);
                c2.find_in_range_impl(center, radius, lo, hi, out);
                c3.find_in_range_impl(center, radius, lo, hi, out);
                proof {
                    let (r0, r1, r2, r3) = (c0.rows(), c1.rows(), c2.rows(), c3.rows());
                    Seq::filter_distributes_over_add(r0 + r1 + r2, r3, w);
                    Seq::filter_distributes_over_add(r0 + r1, r2, w);
                    Seq::filter_distributes_over_add(r0, r1, w);
                    assert(found_rows(out@) =~= found_rows(old(out)@) + self.rows().filter(w));
                }
            },
        }
    }

    /// A leaf of the box `[from, to]` holding the rows of `b`.
    fn leaf(from: Point, to: Point, b: Bucket) -> (r: Self)
        ensures
            r.from == from,
            r.to == to,
            r.body == Body::Items(Box::new(b)),
            r.rows() == bucket_rows(b),
    {
        Self { from, to, body: Body::Items(Box::new(b)) }
    }

    /// Turns a full leaf into an inner node: its rows move to the first quadrant holding them.
    fn split(&mut self)
        requires
            old(self).wf(),
            old(self).body is Items,
            old(self).extent() > 0,
        ensures
            final(self).wf(),
            final(self).body is Children,
            final(self).from == old(self).from,
            final(self).to == old(self).to,
            final(self).rows().to_multiset() == old(self).rows().to_multiset(),
    {
        let ghost old_rows = self.rows();
        let ghost (from, to) = (self.from, self.to);
        let fromx = self.from.0[0];
        let fromy = self.from.0[1];
        let tox = self.to.0[0];
        let toy = self.to.0[1];

        let radius_x = (tox - fromx) / 2;
        let radius_y = (toy - fromy) / 2;
        let xl = fromx + radius_x;
        let yl = fromy + radius_y;
        let xh = if fromx < tox {
            xl + 1
        } else {
            fromx
        };
        let yh = if fromy < toy {
            yl + 1
        } else {
            fromy
        };

        // split each axis of the bounds in half.
        // | child2 | child1 |
        // | ------ | ------ |
        // | child3 | child0 |
        let boxes = [
            (Point::new(xh, fromy), Point::new(tox, yl)),
            (Point::new(xh, yh), Point::new(tox, toy)),
            (Point::new(fromx, yh), Point::new(xl, toy)),
            (Point::new(fromx, fromy), Point::new(xl, yl)),
        ];
        proof {
            lemma_quadrants(from, to);
            assert(forall|i: int| 0 <= i < 4 ==> #[trigger] boxes[i] == quadrant(i, from, to));
            self.lemma_rows_in_box();
        }

        let mut body = Body::Items(Box::new(bucket_new()));
        std::mem::swap(&mut body, &mut self.body);
        let items = match body {
            Body::Items(items) => *items,
            _ => {
                proof {
                    assert(false);
                }
                bucket_new()
            },
        };
        assert(bucket_rows(items) == old_rows);
        let mut b0 = bucket_new();
        let mut b1 = bucket_new();
        let mut b2 = bucket_new();
        let mut b3 = bucket_new();
        let n = bucket_len(&items);
        let mut i: usize = 0;
        proof {
            let e = Seq::<(Point, Value)>::empty();
            vstd::seq_lib::to_multiset_len(e);
            vstd::multiset::lemma_multiset_empty_len(e.to_multiset());
            assert(old_rows.subrange(0, 0) =~= e);
        }
        while i < n
            invariant
                n == bucket_rows(items).len(),
                n <= LEN_CHILDREN,
                i <= n,
                bucket_rows(items) == old_rows,
                forall|k: int| 0 <= k < n ==> in_box(#[trigger] bucket_rows(items)[k].0, from, to),
                forall|k: int| 0 <= k < 4 ==> #[trigger] boxes[k] == quadrant(k, from, to),
                forall|p: Point|
                    #[trigger] in_box(p, from, to) ==> in_box(p, boxes[0].0, boxes[0].1) || in_box(
                        p,
                        boxes[1].0,
                        boxes[1].1,
                    ) || in_box(p, boxes[2].0, boxes[2].1) || in_box(p, boxes[3].0, boxes[3].1),
                bucket_rows(b0).len() + bucket_rows(b1).len() + bucket_rows(b2).len() + bucket_rows(
                    b3,
                ).len() == i,
                forall|k: int|
                    0 <= k < bucket_rows(b0).len() ==> in_box(
                        #[trigger] bucket_rows(b0)[k].0,
                        boxes[0].0,
                        boxes[0].1,
                    ),
                forall|k: int|
                    0 <= k < bucket_rows(b1).len() ==> in_box(
                        #[trigger] bucket_rows(b1)[k].0,
                        boxes[1].0,
                        boxes[1].1,
                    ),
                forall|k: int|
                    0 <= k < bucket_rows(b2).len() ==> in_box(
                        #[trigger] bucket_rows(b2)[k].0,
                        boxes[2].0,
                        boxes[2].1,
                    ),
                forall|k: int|
                    0 <= k < bucket_rows(b3).len() ==> in_box(
                        #[trigger] bucket_rows(b3)[k].0,
                        boxes[3].0,
                        boxes[3].1,
                    ),
                bucket_rows(b0).to_multiset().add(bucket_rows(b1).to_multiset()).add(
                    bucket_rows(b2).to_multiset(),
                ).add(bucket_rows(b3).to_multiset()) == old_rows.subrange(0, i as int).to_multiset(),
            decreases n - i,
        {
            let row = *bucket_get(&items, i);
            let ghost prefix = old_rows.subrange(0, i as int);
            proof {
                assert(old_rows.subrange(0, i + 1) =~= prefix.push(row));
                vstd::seq_lib::to_multiset_build(prefix, row);
                assert(in_box(row.0, from, to));
            }
            let ghost (s0, s1, s2, s3) = (bucket_rows(b0), bucket_rows(b1), bucket_rows(b2), bucket_rows(b3));
            if in_box_exec(&row.0, &boxes[0].0, &boxes[0].1) {
                bucket_try_push(&mut b0, row);
                proof {
                    vstd::seq_lib::to_multiset_build(s0, row);
                }
            } else if in_box_exec(&row.0, &boxes[1].0, &boxes[1].1) {
                bucket_try_push(&mut b1, row);
                proof {
                    vstd::seq_lib::to_multiset_build(s1, row);
                }
            } else if in_box_exec(&row.0, &boxes[2].0, &boxes[2].1) {
                bucket_try_push(&mut b2, row);
                proof {
                    vstd::seq_lib::to_multiset_build(s2, row);
                }
            } else {
                bucket_try_push(&mut b3, row);
                proof {
                    vstd::seq_lib::to_multiset_build(s3, row);
                }
            }
            i += 1;
        }
        let c0 = Self::leaf(boxes[0].0, boxes[0].1, b0);
        let c1 = Self::leaf(boxes[1].0, boxes[1].1, b1);
        let c2 = Self::leaf(boxes[2].0, boxes[2].1, b2);
        let c3 = Self::leaf(boxes[3].0, boxes[3].1, b3);
        assert(c0.wf());
        assert(c1.wf());
        assert(c2.wf());
        assert(c3.wf());
        self.body = Body::Children(Box::new(c0), Box::new(c1), Box::new(c2), Box::new(c3));
        proof {
            let (r0, r1, r2, r3) = (bucket_rows(b0), bucket_rows(b1), bucket_rows(b2), bucket_rows(b3));
            assert(old_rows.subrange(0, n as int) =~= old_rows);
            assert(self.rows() == r0 + r1 + r2 + r3);
            vstd::seq_lib::lemma_multiset_commutative(r0 + r1 + r2, r3);
            vstd::seq_lib::lemma_multiset_commutative(r0 + r1, r2);
            vstd::seq_lib::lemma_multiset_commutative(r0, r1);
        }
    }

    /// Adds the row `(point, value)` to the first leaf whose box holds `point`, splitting a
    /// full leaf; a leaf whose box is a single point keeps every row it is given. Fails, handing
    /// `point` back and keeping the rows, exactly when `point` lies outside this node's box.
    pub fn insert(&mut self, point: Point, value: Value) -> (r: Result<(), Point>)
        requires
            old(self).wf(),
        ensures
            final(self).wf(),
            final(self).lower() == old(self).lower(),
            final(self).upper() == old(self).upper(),
            r is Err <==> !in_box(point, old(self).lower(), old(self).upper()),
            r is Err ==> r == Err::<(), Point>(point) && final(self)@ == old(self)@,
            r is Ok ==> final(self)@.to_multiset() == old(self)@.to_multiset().insert((point, value)),
        decreases old(self).extent(),
    {
        if !self.intersects(&point) {
            // point is out of bounds
            return Err(point);
        }
        let mut body = Body::Items(Box::new(bucket_new()));
        std::mem::swap(&mut body, &mut self.body);
        match body {
            Body::Items(items) => {
                let mut items = *items;
                let ghost before = bucket_rows(items);
                if bucket_try_push(&mut items, (point, value)) {
                    // there was capacity left in this node. We're done.
                    self.body = Body::Items(Box::new(items));
                    proof {
                        vstd::seq_lib::to_multiset_build(before, (point, value));
                        assert forall|i: int|
                            0 <= i < bucket_rows(items).len() implies in_box(
                            #[trigger] bucket_rows(items)[i].0,
                            self.from,
                            self.to,
                        ) by {
                            if i < before.len() {
                                assert(bucket_rows(items)[i] == before[i]);
                            }
                        }
                    }
                    return Ok(());
                }
                if self.from.0[0] == self.to.0[0] && self.from.0[1] == self.to.0[1] {
                    // a single point cannot be split: its rows move to a vector
                    let mut rows: Vec<(Point, Value)> = Vec::new();
                    let n = bucket_len(&items);
                    let mut i: usize = 0;
                    while i < n
                        invariant
                            n == bucket_rows(items).len(),
                            before == bucket_rows(items),
                            i <= n,
                            rows@ == before.subrange(0, i as int),
                        decreases n - i,
                    {
                        rows.push(*bucket_get(&items, i));
                        i += 1;
                        proof {
                            assert(rows@ =~= before.subrange(0, i as int));
                        }
                    }
                    rows.push((point, value));
                    self.body = Body::Cell(rows);
                    proof {
                        assert(before.subrange(0, n as int) =~= before);
                        vstd::seq_lib::to_multiset_build(before, (point, value));
                        assert forall|k: int| 0 <= k < rows@.len() implies in_box(
                            #[trigger] rows@[k].0,
                            self.from,
                            self.to,
                        ) by {
                            if k < before.len() {
                                assert(rows@[k] == before[k]);
                                assert(in_box(old(self).rows()[k].0, self.from, self.to));
                            }
                        }
                    }
                    return Ok(());
                }
                self.body = Body::Items(Box::new(items));
                proof {
                    assert(self.rows() == old(self).rows());
                }
                self.split();
                self.insert_into_children(point, value)
            },
            Body::Cell(mut rows) => {
                let ghost before = rows@;
                rows.push((point, value));
                self.body = Body::Cell(rows);
                proof {
                    vstd::seq_lib::to_multiset_build(before, (point, value));
                    assert forall|k: int| 0 <= k < rows@.len() implies in_box(
                        #[trigger] rows@[k].0,
                        self.from,
                        self.to,
                    ) by {
                        if k < before.len() {
                            assert(rows@[k] == before[k]);
                        }
                    }
                }
                Ok(())
            },
            Body::Children(c0, c1, c2, c3) => {
                self.body = Body::Children(c0, c1, c2, c3);
                proof {
                    assert(self.rows() == old(self).rows());
                }
                self.insert_into_children(point, value)
            },
        }
    }

    /// Inserts into the first child whose box holds `point`.
    fn insert_into_children(&mut self, point: Point, value: Value) -> (r: Result<(), Point>)
        requires
            old(self).wf(),
            old(self).body is Children,
            in_box(point, old(self).lower(), old(self).upper()),
        ensures
            final(self).wf(),
            final(self).lower() == old(self).lower(),
            final(self).upper() == old(self).upper(),
            r is Ok,
            final(self)@.to_multiset() == old(self)@.to_multiset().insert((point, value)),
        decreases old(self).extent(), 0int,
    {
        proof {
            lemma_quadrants(self.from, self.to);
        }
        let mut body = Body::Items(Box::new(bucket_new()));
        std::mem::swap(&mut body, &mut self.body);
        match body {
            Body::Children(mut c0, mut c1, mut c2, mut c3) => {
                let ghost (r0, r1, r2, r3) = (c0.rows(), c1.rows(), c2.rows(), c3.rows());
                let ghost (o0, o1, o2, o3) = (*c0, *c1, *c2, *c3);
                assert((o0.from, o0.to) == quadrant(0, old(self).from, old(self).to));
                assert((o1.from, o1.to) == quadrant(1, old(self).from, old(self).to));
                assert((o2.from, o2.to) == quadrant(2, old(self).from, old(self).to));
                assert((o3.from, o3.to) == quadrant(3, old(self).from, old(self).to));
                assert(in_box(point, o0.from, o0.to) || in_box(point, o1.from, o1.to) || in_box(
                    point,
                    o2.from,
                    o2.to,
                ) || in_box(point, o3.from, o3.to));
                // insert into the first child that accepts the point
                let mut r = c0.insert(point, value);
                if r.is_err() {
                    r = c1.insert(point, value);
                    if r.is_err() {
                        r = c2.insert(point, value);
                        if r.is_err() {
                            r = c3.insert(point, value);
                        }
                    }
                }
                self.body = Body::Children(c0, c1, c2, c3);
                proof {
                    let (n0, n1, n2, n3) = (c0.rows(), c1.rows(), c2.rows(), c3.rows());
                    assert(c0.wf() && c1.wf() && c2.wf() && c3.wf());
                    assert(self.rows() == n0 + n1 + n2 + n3);
                    assert(old(self).rows() == r0 + r1 + r2 + r3);
                    vstd::seq_lib::lemma_multiset_commutative(r0 + r1 + r2, r3);
                    vstd::seq_lib::lemma_multiset_commutative(r0 + r1, r2);
                    vstd::seq_lib::lemma_multiset_commutative(r0, r1);
                    vstd::seq_lib::lemma_multiset_commutative(n0 + n1 + n2, n3);
                    vstd::seq_lib::lemma_multiset_commutative(n0 + n1, n2);
                    vstd::seq_lib::lemma_multiset_commutative(n0, n1);
                }
                r
            },
            _ => {
                proof {
                    assert(false);
                }
                Err(point)
            },
        }
    }

    /// Empties every leaf; the shape of the tree stays.
    pub fn clear(&mut self)
        requires
            old(self).wf(),
        ensures
            final(self).wf(),
            final(self)@ == Seq::<(Point, Value)>::empty(),
            final(self).lower() == old(self).lower(),
            final(self).upper() == old(self).upper(),
        decreases old(self).extent(),
    {
        let mut body = Body::Items(Box::new(bucket_new()));
        std::mem::swap(&mut body, &mut self.body);
        match body {
            Body::Items(items) => {
                let mut b = *items;
                bucket_clear(&mut b);
                self.body = Body::Items(Box::new(b));
            },
            Body::Cell(mut rows) => {
                rows.clear();
                self.body = Body::Cell(rows);
                proof {
                    assert(self.rows() =~= Seq::<(Point, Value)>::empty());
                }
            },
            Body::Children(mut c0, mut c1, mut c2, mut c3) => {
                proof {
                    lemma_quadrants(self.from, self.to);
                }
                c0.clear();
                c1.clear();
                c2.clear();
                c3.clear();
                self.body = Body::Children(c0, c1, c2, c3);
                proof {
                    assert(c0.wf() && c1.wf() && c2.wf() && c3.wf());
                    assert(self.rows() =~= Seq::<(Point, Value)>::empty());
                }
            },
        }
    }

    /// Adds all the given rows. Every point must lie in this node's box.
    pub fn extend(&mut self, items: Vec<(Point, Value)>)
        requires
            old(self).wf(),
            forall|i: int|
                0 <= i < items@.len() ==> in_box(
                    (#[trigger] items@[i]).0,
                    old(self).lower(),
                    old(self).upper(),
                ),
        ensures
            final(self).wf(),
            final(self)@.to_multiset() == old(self)@.to_multiset().add(items@.to_multiset()),
            final(self).lower() == old(self).lower(),
            final(self).upper() == old(self).upper(),
    {
        let ghost start = self@;
        let mut i: usize = 0;
        proof {
            let e = Seq::<(Point, Value)>::empty();
            vstd::seq_lib::to_multiset_len(e);
            vstd::multiset::lemma_multiset_empty_len(e.to_multiset());
            assert(items@.subrange(0, 0) =~= e);
            assert(start.to_multiset().add(e.to_multiset()) =~= start.to_multiset());
        }
        while i < items.len()
            invariant
                self.wf(),
                self.lower() == old(self).lower(),
                self.upper() == old(self).upper(),
                start == old(self)@,
                i <= items@.len(),
                forall|k: int|
                    0 <= k < items@.len() ==> in_box(
                        (#[trigger] items@[k]).0,
                        old(self).lower(),
                        old(self).upper(),
                    ),
                self@.to_multiset() == start.to_multiset().add(
                    items@.subrange(0, i as int).to_multiset(),
                ),
            decreases items@.len() - i,
        {
            let (p, v) = items[i];
            let ghost prefix = items@.subrange(0, i as int);
            proof {
                assert(items@.subrange(0, i + 1) =~= prefix.push((p, v)));
                assert(in_box(items@[i as int].0, old(self).lower(), old(self).upper()));
            }
            match self.insert(p, v) {
                Ok(()) => {},
                Err(_) => {
                    proof {
                        assert(false);
                    }
                },
            }
            i += 1;
            proof {
                vstd::seq_lib::to_multiset_build(prefix, (p, v));
                assert(self@.to_multiset() =~= start.to_multiset().add(
                    items@.subrange(0, i as int).to_multiset(),
                ));
            }
        }
        proof {
            assert(items@.subrange(0, i as int) =~= items@);
        }
    }

    /// A tree over the smallest box holding the given points (the box `[0, 2^15)²` when there
    /// are none) with the given rows.
    pub fn from_iterator(items: Vec<(Point, Value)>) -> (r: Self)
        ensures
            r.wf(),
            r@.to_multiset() == items@.to_multiset(),
            items@.len() == 0 ==> r.lower().x() == 0 && r.lower().y() == 0 && r.upper().x()
                == 0x7fff && r.upper().y() == 0x7fff,
            forall|i: int|
                0 <= i < items@.len() ==> in_box((#[trigger] items@[i]).0, r.lower(), r.upper()),
            items@.len() > 0 ==> {
                &&& exists|i: int| 0 <= i < items@.len() && (#[trigger] items@[i]).0.x() == r.lower().x()
                &&& exists|i: int| 0 <= i < items@.len() && (#[trigger] items@[i]).0.y() == r.lower().y()
                &&& exists|i: int| 0 <= i < items@.len() && (#[trigger] items@[i]).0.x() == r.upper().x()
                &&& exists|i: int| 0 <= i < items@.len() && (#[trigger] items@[i]).0.y() == r.upper().y()
            },
    {
        if items.len() == 0 {
            let r = Self::default();
            proof {
                let e = Seq::<(Point, Value)>::empty();
                vstd::seq_lib::to_multiset_len(e);
                vstd::multiset::lemma_multiset_empty_len(e.to_multiset());
                assert(items@ =~= e);
            }
            return r;
        }
        // calculate the minimum bounding box to get a more balanced tree
        let mut minx = items[0].0.0[0];
        let mut miny = items[0].0.0[1];
        let mut maxx = minx;
        let mut maxy = miny;
        let ghost mut witnesses: (int, int, int, int) = (0, 0, 0, 0);
        let mut i: usize = 1;
        while i < items.len()
            invariant
                1 <= i <= items@.len(),
                minx <= maxx,
                miny <= maxy,
                forall|k: int|
                    0 <= k < i ==> in_box(
                        (#[trigger] items@[k]).0,
                        Point([minx, miny]),
                        Point([maxx, maxy]),
                    ),
                0 <= witnesses.0 < i && items@[witnesses.0].0.x() == minx,
                0 <= witnesses.1 < i && items@[witnesses.1].0.y() == miny,
                0 <= witnesses.2 < i && items@[witnesses.2].0.x() == maxx,
                0 <= witnesses.3 < i && items@[witnesses.3].0.y() == maxy,
            decreases items@.len() - i,
        {
            let p = items[i].0;
            if p.0[0] < minx {
                minx = p.0[0];
                proof {
                    witnesses.0 = i as int;
                }
            }
            if p.0[1] < miny {
                miny = p.0[1];
                proof {
                    witnesses.1 = i as int;
                }
            }
            if p.0[0] > maxx {
                maxx = p.0[0];
                proof {
                    witnesses.2 = i as int;
                }
            }
            if p.0[1] > maxy {
                maxy = p.0[1];
                proof {
                    witnesses.3 = i as int;
                }
            }
            i += 1;
        }
        let mut tree = Self::new(Point::new(minx, miny), Point::new(maxx, maxy));
        proof {
            let e = Seq::<(Point, Value)>::empty();
            vstd::seq_lib::to_multiset_len(e);
            vstd::multiset::lemma_multiset_empty_len(e.to_multiset());
            assert(tree@ == e);
            assert(e.to_multiset().add(items@.to_multiset()) =~= items@.to_multiset());
        }
        tree.extend(items);
        proof {
            assert(items@[witnesses.0].0.x() == tree.lower().x());
            assert(items@[witnesses.1].0.y() == tree.lower().y());
            assert(items@[witnesses.2].0.x() == tree.upper().x());
            assert(items@[witnesses.3].0.y() == tree.upper().y());
        }
        tree
    }

    /// The box `[from, to]` of this node, bounds included.
    pub fn bounds(&self) -> (r: (Point, Point))
        ensures
            r == (self.lower(), self.upper()),
    {
        (self.from, self.to)
    }

    /// Removes the first row holding `point` and returns its value, or returns `None` when no
    /// row holds `point`.
    pub fn delete(&mut self, point: &Point) -> (r: Option<Value>)
        requires
            old(self).wf(),
        ensures
            final(self).wf(),
            final(self).lower() == old(self).lower(),
            final(self).upper() == old(self).upper(),
            r == first_value(old(self)@, *point),
            r is None ==> final(self)@ == old(self)@,
            r matches Some(v) ==> final(self)@.to_multiset() == old(self)@.to_multiset().remove(
                (*point, v),
            ),
            r is Some ==> exists|k: int|
                0 <= k < old(self)@.len() && old(self)@[k] == (*point, r->Some_0) && final(self)@
                    == old(self)@.remove(k),
        decreases old(self).extent(),
    {
        if !self.intersects(point) {
            proof {
                self.lemma_outside_not_held(*point);
            }
            return None;
        }
        let mut body = Body::Items(Box::new(bucket_new()));
        std::mem::swap(&mut body, &mut self.body);
        match body {
            Body::Items(items) => {
                let mut b = *items;
                let ghost rows = bucket_rows(b);
                let n = bucket_len(&b);
                let mut i: usize = 0;
                while i < n
                    invariant
                        n == bucket_rows(b).len(),
                        rows == bucket_rows(b),
                        rows == old(self).rows(),
                        self.from == old(self).from,
                        self.to == old(self).to,
                        old(self).wf(),
                        old(self).body is Items,
                        i <= n,
                        forall|j: int| 0 <= j < i ==> #[trigger] rows[j].0 != *point,
                    decreases n - i,
                {
                    if bucket_get(&b, i).0.same(point) {
                        let row = bucket_remove(&mut b, i);
                        self.body = Body::Items(Box::new(b));
                        proof {
                            lemma_first_value(rows, *point, i as int);
                            vstd::seq_lib::to_multiset_remove(rows, i as int);
                            assert(self.rows() == rows.remove(i as int));
                            assert forall|k: int| 0 <= k < bucket_rows(b).len() implies in_box(
                                #[trigger] bucket_rows(b)[k].0,
                                self.from,
                                self.to,
                            ) by {
                                if k < i {
                                    assert(bucket_rows(b)[k] == rows[k]);
                                } else {
                                    assert(bucket_rows(b)[k] == rows[k + 1]);
                                }
                            }
                        }
                        return Some(row.1);
                    }
                    i += 1;
                }
                self.body = Body::Items(Box::new(b));
                proof {
                    lemma_first_value_none(rows, *point);
                }
                None
            },
            Body::Cell(mut v) => {
                proof {
                    old(self).lemma_single_point_rows(*point);
                }
                if v.len() == 0 {
                    self.body = Body::Cell(v);
                    proof {
                        lemma_first_value_none(old(self).rows(), *point);
                    }
                    return None;
                }
                let ghost rows = v@;
                let row = v.remove(0);
                self.body = Body::Cell(v);
                proof {
                    lemma_first_value(rows, *point, 0);
                    vstd::seq_lib::to_multiset_remove(rows, 0);
                    assert(self.rows() == rows.remove(0));
                    assert forall|k: int| 0 <= k < v@.len() implies in_box(
                        #[trigger] v@[k].0,
                        self.from,
                        self.to,
                    ) by {
                        assert(v@[k] == rows[k + 1]);
                    }
                }
                Some(row.1)
            },
            Body::Children(mut c0, mut c1, mut c2, mut c3) => {
                let ghost (r0, r1, r2, r3) = (c0.rows(), c1.rows(), c2.rows(), c3.rows());
                proof {
                    lemma_quadrants(self.from, self.to);
                    lemma_first_value_concat(r0, r1, *point);
                    lemma_first_value_concat(r0 + r1, r2, *point);
                    lemma_first_value_concat(r0 + r1 + r2, r3, *point);
                }
                let mut r = c0.delete(point);
                if r.is_none() {
                    r = c1.delete(point);
                    if r.is_none() {
                        r = c2.delete(point);
                        if r.is_none() {
                            r = c3.delete(point);
                        }
                    }
                }
                self.body = Body::Children(c0, c1, c2, c3);
                proof {
                    let (n0, n1, n2, n3) = (c0.rows(), c1.rows(), c2.rows(), c3.rows());
                    assert(c0.wf() && c1.wf() && c2.wf() && c3.wf());
                    assert(self.rows() == n0 + n1 + n2 + n3);
                    vstd::seq_lib::lemma_multiset_commutative(r0 + r1 + r2, r3);
                    vstd::seq_lib::lemma_multiset_commutative(r0 + r1, r2);
                    vstd::seq_lib::lemma_multiset_commutative(r0, r1);
                    vstd::seq_lib::lemma_multiset_commutative(n0 + n1 + n2, n3);
                    vstd::seq_lib::lemma_multiset_commutative(n0 + n1, n2);
                    vstd::seq_lib::lemma_multiset_commutative(n0, n1);
                    if r is Some {
                        let e = (*point, r->Some_0);
                        if n0 != r0 {
                            let k = choose|k: int| 0 <= k < r0.len() && r0[k] == e && n0 == r0.remove(k);
                            lemma_remove_from_part(r0, r1, r2, r3, 0, k, n0, n1, n2, n3);
                        } else if n1 != r1 {
                            let k = choose|k: int| 0 <= k < r1.len() && r1[k] == e && n1 == r1.remove(k);
                            lemma_remove_from_part(r0, r1, r2, r3, 1, k, n0, n1, n2, n3);
                        } else if n2 != r2 {
                            let k = choose|k: int| 0 <= k < r2.len() && r2[k] == e && n2 == r2.remove(k);
                            lemma_remove_from_part(r0, r1, r2, r3, 2, k, n0, n1, n2, n3);
                        } else {
                            let k = choose|k: int| 0 <= k < r3.len() && r3[k] == e && n3 == r3.remove(k);
                            lemma_remove_from_part(r0, r1, r2, r3, 3, k, n0, n1, n2, n3);
                        }
                        let e = (*point, r->Some_0);
                        lemma_first_value_held(r0, *point);
                        lemma_first_value_held(r1, *point);
                        lemma_first_value_held(r2, *point);
                        lemma_first_value_held(r3, *point);
                        vstd::seq_lib::to_multiset_contains(r0, e);
                        vstd::seq_lib::to_multiset_contains(r1, e);
                        vstd::seq_lib::to_multiset_contains(r2, e);
                        vstd::seq_lib::to_multiset_contains(r3, e);
                        lemma_first_value_held(old(self).rows(), *point);
                        vstd::seq_lib::to_multiset_contains(old(self).rows(), e);
                        assert(self.rows().to_multiset() =~= old(self).rows().to_multiset().remove(e));
                    }
                }
                r
            },
        }
    }
}

impl Default for Quadtree {
    /// A leaf covering `[0, 2^15)²`.
    fn default() -> (r: Self)
        ensures
            r.wf(),
            r@ == Seq::<(Point, Value)>::empty(),
            r.lower().x() == 0 && r.lower().y() == 0,
            r.upper().x() == 0x7fff && r.upper().y() == 0x7fff,
    {
        Self::new(Point::new(0, 0), Point::new(0x7fff, 0x7fff))
    }
}
} // verus!
