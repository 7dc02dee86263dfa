//! Triangle coverage on the pixel grid.
//!
//! Vertices are points of the grid, so every edge function is an exact
//! integer and the three barycentric weights of a pixel are integers that
//! add up to twice the signed area of the triangle.

use vstd::prelude::*;

verus! {

/// A point of the pixel grid: a vertex after the viewport transform, snapped
/// to the nearest pixel centre.
#[derive(Clone, Copy, Debug, PartialEq, Eq, Structural)]
pub struct ScreenPoint {
    pub x: i32,
    pub y: i32,
}

/// The edge function of the directed edge `a -> b` at the pixel `(x, y)`:
/// twice the signed area of the triangle `a`, `b`, `(x, y)`.
pub open spec fn edge(a: ScreenPoint, b: ScreenPoint, x: int, y: int) -> int {
    (b.x - a.x) * (y - a.y) - (b.y - a.y) * (x - a.x)
}

/// Twice the signed area of the triangle `v0`, `v1`, `v2`.
pub open spec fn doubled_area(v0: ScreenPoint, v1: ScreenPoint, v2: ScreenPoint) -> int {
    edge(v0, v1, v2.x as int, v2.y as int)
}

/// The product of two differences of grid coordinates fits in 65 bits.
proof fn lemma_product_bound(d: int, p: int)
    requires
        -0x1_0000_0000 < d < 0x1_0000_0000,
        -0x1_0000_0000 < p < 0x1_0000_0000,
    ensures
        -0x1_0000_0000_0000_0000 < d * p < 0x1_0000_0000_0000_0000,
{
    assert(-0x1_0000_0000_0000_0000 < d * p < 0x1_0000_0000_0000_0000) by (nonlinear_arith)
        requires
            -0x1_0000_0000 < d < 0x1_0000_0000,
            -0x1_0000_0000 < p < 0x1_0000_0000,
    ;
}

/// Every edge function value on the grid fits in 66 bits.
pub proof fn lemma_edge_bound(a: ScreenPoint, b: ScreenPoint, x: int, y: int)
    requires
        i32::MIN <= x <= i32::MAX,
        i32::MIN <= y <= i32::MAX,
    ensures
        -0x2_0000_0000_0000_0000 < edge(a, b, x, y) < 0x2_0000_0000_0000_0000,
{
    lemma_product_bound(b.x - a.x, y - a.y);
    lemma_product_bound(b.y - a.y, x - a.x);
}

/// Computes the edge function of `a -> b` at the pixel `(x, y)`.
pub fn edge_value(a: ScreenPoint, b: ScreenPoint, x: i32, y: i32) -> (e: i128)
    ensures
        e == edge(a, b, x as int, y as int),
{
    let dx: i128 = b.x as i128 - a.x as i128;
    let dy: i128 = b.y as i128 - a.y as i128;
    let px: i128 = x as i128 - a.x as i128;
    let py: i128 = y as i128 - a.y as i128;
    proof {
        lemma_product_bound(dx as int, py as int);
        lemma_product_bound(dy as int, px as int);
    }
    dx * py - dy * px
}

/// A candidate pixel produced by rasterizing one triangle. It carries the
/// three barycentric weights of the pixel, unnormalized: each is an edge
/// function value, and their common denominator is twice the signed area of
/// the triangle. Depth and the other per-vertex attributes are interpolated
/// from them.
#[derive(Clone, Copy, Debug, PartialEq, Eq, Structural)]
pub struct Fragment {
    pub x: i32,
    pub y: i32,
    /// Weight of the first vertex: the edge function of `v1 -> v2`.
    pub w0: i128,
    /// Weight of the second vertex: the edge function of `v2 -> v0`.
    pub w1: i128,
    /// Weight of the third vertex: the edge function of `v0 -> v1`.
    pub w2: i128,
}

impl Fragment {
    /// A fragment at the pixel `(x, y)` with the given weights.
    pub fn new(x: i32, y: i32, w0: i128, w1: i128, w2: i128) -> (f: Fragment)
        ensures
            f == (Fragment { x, y, w0, w1, w2 }),
    {
        Fragment { x, y, w0, w1, w2 }
    }

    /// The common denominator of the three weights.
    pub open spec fn weight_sum(self) -> int {
        self.w0 + self.w1 + self.w2
    }
}

/// The weight of `v0` at the pixel `(x, y)`.
pub open spec fn weight0(v0: ScreenPoint, v1: ScreenPoint, v2: ScreenPoint, x: int, y: int) -> int {
    edge(v1, v2, x, y)
}

/// The weight of `v1` at the pixel `(x, y)`.
pub open spec fn weight1(v0: ScreenPoint, v1: ScreenPoint, v2: ScreenPoint, x: int, y: int) -> int {
    edge(v2, v0, x, y)
}

/// The weight of `v2` at the pixel `(x, y)`.
pub open spec fn weight2(v0: ScreenPoint, v1: ScreenPoint, v2: ScreenPoint, x: int, y: int) -> int {
    edge(v0, v1, x, y)
}

/// Whether the pixel `(x, y)` lies in the triangle or on its border: the
/// three weights are all non-negative or all non-positive, so that either
/// winding is accepted.
pub open spec fn covered(v0: ScreenPoint, v1: ScreenPoint, v2: ScreenPoint, x: int, y: int) -> bool {
    let w0 = weight0(v0, v1, v2, x, y);
    let w1 = weight1(v0, v1, v2, x, y);
    let w2 = weight2(v0, v1, v2, x, y);
    (w0 >= 0 && w1 >= 0 && w2 >= 0) || (w0 <= 0 && w1 <= 0 && w2 <= 0)
}

/// The fragment that the triangle yields at the pixel `(x, y)`.
pub open spec fn fragment_at(v0: ScreenPoint, v1: ScreenPoint, v2: ScreenPoint, x: int, y: int) -> Fragment {
    Fragment {
        x: x as i32,
        y: y as i32,
        w0: weight0(v0, v1, v2, x, y) as i128,
        w1: weight1(v0, v1, v2, x, y) as i128,
        w2: weight2(v0, v1, v2, x, y) as i128,
    }
}

/// The least of three integers.
pub open spec fn min3(a: int, b: int, c: int) -> int {
    if a <= b && a <= c {
        a
    } else if b <= c {
        b
    } else {
        c
    }
}

/// The greatest of three integers.
pub open spec fn max3(a: int, b: int, c: int) -> int {
    if a >= b && a >= c {
        a
    } else if b >= c {
        b
    } else {
        c
    }
}

/// Left column of the bounding box.
pub open spec fn min_x(v0: ScreenPoint, v1: ScreenPoint, v2: ScreenPoint) -> int {
    min3(v0.x as int, v1.x as int, v2.x as int)
}

/// Right column of the bounding box.
pub open spec fn max_x(v0: ScreenPoint, v1: ScreenPoint, v2: ScreenPoint) -> int {
    max3(v0.x as int, v1.x as int, v2.x as int)
}

/// Top row of the bounding box.
pub open spec fn min_y(v0: ScreenPoint, v1: ScreenPoint, v2: ScreenPoint) -> int {
    min3(v0.y as int, v1.y as int, v2.y as int)
}

/// Bottom row of the bounding box.
pub open spec fn max_y(v0: ScreenPoint, v1: ScreenPoint, v2: ScreenPoint) -> int {
    max3(v0.y as int, v1.y as int, v2.y as int)
}

/// Whether the pixel `(x, y)` lies in the bounding box of the triangle.
pub open spec fn in_bounding_box(v0: ScreenPoint, v1: ScreenPoint, v2: ScreenPoint, x: int, y: int) -> bool {
    min_x(v0, v1, v2) <= x <= max_x(v0, v1, v2) && min_y(v0, v1, v2) <= y <= max_y(v0, v1, v2)
}

/// The fragments of row `y` in the columns `lo .. hi`, left to right.
pub open spec fn row_fragments(
    v0: ScreenPoint,
    v1: ScreenPoint,
    v2: ScreenPoint,
    y: int,
    lo: int,
    hi: int,
) -> Seq<Fragment>
    decreases hi - lo,
{
    if hi <= lo {
        Seq::empty()
    } else {
        let left = row_fragments(v0, v1, v2, y, lo, hi - 1);
        if covered(v0, v1, v2, hi - 1, y) {
            left.push(fragment_at(v0, v1, v2, hi - 1, y))
        } else {
            left
        }
    }
}

/// The fragments of the rows `lo .. hi` of the bounding box, top to bottom.
pub open spec fn rows_fragments(
    v0: ScreenPoint,
    v1: ScreenPoint,
    v2: ScreenPoint,
    lo: int,
    hi: int,
) -> Seq<Fragment>
    decreases hi - lo,
{
    if hi <= lo {
        Seq::empty()
    } else {
        rows_fragments(v0, v1, v2, lo, hi - 1) + row_fragments(
            v0,
            v1,
            v2,
            hi - 1,
            min_x(v0, v1, v2),
            max_x(v0, v1, v2) + 1,
        )
    }
}

/// The fragments of a triangle: none if its area is zero, otherwise one for
/// each covered pixel of its bounding box, in row-major order.
pub open spec fn fragments(v0: ScreenPoint, v1: ScreenPoint, v2: ScreenPoint) -> Seq<Fragment> {
    if doubled_area(v0, v1, v2) == 0 {
        Seq::empty()
    } else {
        rows_fragments(v0, v1, v2, min_y(v0, v1, v2), max_y(v0, v1, v2) + 1)
    }
}

fn least(a: i32, b: i32, c: i32) -> (m: i32)
    ensures
        m == min3(a as int, b as int, c as int),
{
    if a <= b && a <= c {
        a
    } else if b <= c {
        b
    } else {
        c
    }
}

fn greatest(a: i32, b: i32, c: i32) -> (m: i32)
    ensures
        m == max3(a as int, b as int, c as int),
{
    if a >= b && a >= c {
        a
    } else if b >= c {
        b
    } else {
        c
    }
}

/// Rasterizes the triangle `v0`, `v1`, `v2`: visits the pixels of its
/// bounding box row by row and yields a fragment for each covered one. A
/// triangle of zero area yields nothing.
pub fn rasterize(v0: ScreenPoint, v1: ScreenPoint, v2: ScreenPoint) -> (out: Vec<Fragment>)
    ensures
        out@ == fragments(v0, v1, v2),
        out@.len() == 0 <==> doubled_area(v0, v1, v2) == 0,
        forall|i: int|
            0 <= i < out@.len() ==> is_fragment_of(v0, v1, v2, #[trigger] out@[i]) && out@[i].weight_sum()
                == doubled_area(v0, v1, v2),
{
    proof {
        if doubled_area(v0, v1, v2) != 0 {
            lemma_positive_area_nonempty(v0, v1, v2);
        }
        assert forall|i: int| 0 <= i < fragments(v0, v1, v2).len() implies is_fragment_of(
            v0,
            v1,
            v2,
            #[trigger] fragments(v0, v1, v2)[i],
        ) && fragments(v0, v1, v2)[i].weight_sum() == doubled_area(v0, v1, v2) by {
            lemma_fragment_sound(v0, v1, v2, i);
        }
    }
    let mut out: Vec<Fragment> = Vec::new();
    let area: i128 = edge_value(v0, v1, v2.x, v2.y);
    if area == 0 {
        return out;
    }
    let left: i32 = least(v0.x, v1.x, v2.x);
    let right: i32 = greatest(v0.x, v1.x, v2.x);
    let top: i32 = least(v0.y, v1.y, v2.y);
    let bottom: i32 = greatest(v0.y, v1.y, v2.y);
    let mut y: i64 = top as i64;
    while y <= bottom as i64
        invariant
            left == min_x(v0, v1, v2),
            right == max_x(v0, v1, v2),
            top == min_y(v0, v1, v2),
            top <= y <= bottom + 1,
            out@ == rows_fragments(v0, v1, v2, top as int, y as int),
        decreases bottom + 1 - y,
    {
        let ghost above = out@;
        let mut x: i64 = left as i64;
        while x <= right as i64
            invariant
                left <= x <= right + 1,
                top <= y <= bottom,
                out@ == above + row_fragments(v0, v1, v2, y as int, left as int, x as int),
            decreases right + 1 - x,
        {
            let w0: i128 = edge_value(v1, v2, x as i32, y as i32);
            let w1: i128 = edge_value(v2, v0, x as i32, y as i32);
            let w2: i128 = edge_value(v0, v1, x as i32, y as i32);
            if (w0 >= 0 && w1 >= 0 && w2 >= 0) || (w0 <= 0 && w1 <= 0 && w2 <= 0) {
                out.push(Fragment::new(x as i32, y as i32, w0, w1, w2));
            }
            proof {
                lemma_edge_bound(v1, v2, x as int, y as int);
                lemma_edge_bound(v2, v0, x as int, y as int);
                lemma_edge_bound(v0, v1, x as int, y as int);
                let row = row_fragments(v0, v1, v2, y as int, left as int, x as int);
                let next = row_fragments(v0, v1, v2, y as int, left as int, x + 1);
                if covered(v0, v1, v2, x as int, y as int) {
                    assert(above + next =~= (above + row).push(fragment_at(v0, v1, v2, x as int, y as int)));
                }
            }
            x = x + 1;
        }
        y = y + 1;
    }
    out
}

/// Whether `f` is the fragment of a covered pixel in row `y`, columns `lo .. hi`.
pub open spec fn is_row_fragment(
    v0: ScreenPoint,
    v1: ScreenPoint,
    v2: ScreenPoint,
    y: int,
    lo: int,
    hi: int,
    f: Fragment,
) -> bool {
    &&& lo <= f.x < hi
    &&& f.y == y
    &&& covered(v0, v1, v2, f.x as int, y)
    &&& f == fragment_at(v0, v1, v2, f.x as int, y)
}

proof fn lemma_row(v0: ScreenPoint, v1: ScreenPoint, v2: ScreenPoint, y: int, lo: int, hi: int)
    requires
        i32::MIN <= y <= i32::MAX,
        i32::MIN <= lo,
        hi <= i32::MAX + 1,
    ensures
        forall|i: int|
            0 <= i < row_fragments(v0, v1, v2, y, lo, hi).len() ==> is_row_fragment(
                v0,
                v1,
                v2,
                y,
                lo,
                hi,
                #[trigger] row_fragments(v0, v1, v2, y, lo, hi)[i],
            ),
        forall|i: int, j: int|
            0 <= i < j < row_fragments(v0, v1, v2, y, lo, hi).len() ==> (#[trigger] row_fragments(
                v0,
                v1,
                v2,
                y,
                lo,
                hi,
            )[i]).x < (#[trigger] row_fragments(v0, v1, v2, y, lo, hi)[j]).x,
        forall|x: int|
            lo <= x < hi && covered(v0, v1, v2, x, y) ==> row_fragments(v0, v1, v2, y, lo, hi).contains(
                #[trigger] fragment_at(v0, v1, v2, x, y),
            ),
    decreases hi - lo,
{
    let row = row_fragments(v0, v1, v2, y, lo, hi);
    if hi > lo {
        lemma_row(v0, v1, v2, y, lo, hi - 1);
        let left = row_fragments(v0, v1, v2, y, lo, hi - 1);
        let last = fragment_at(v0, v1, v2, hi - 1, y);
        assert forall|i: int| 0 <= i < row.len() implies is_row_fragment(v0, v1, v2, y, lo, hi, #[trigger] row[i]) by {
            if i < left.len() {
                assert(is_row_fragment(v0, v1, v2, y, lo, hi - 1, left[i]));
            }
        }
        assert forall|i: int, j: int| 0 <= i < j < row.len() implies (#[trigger] row[i]).x < (#[trigger] row[j]).x by {
            assert(is_row_fragment(v0, v1, v2, y, lo, hi - 1, left[i]));
        }
        assert forall|x: int| lo <= x < hi && covered(v0, v1, v2, x, y) implies row.contains(
            #[trigger] fragment_at(v0, v1, v2, x, y),
        ) by {
            if x == hi - 1 {
                assert(row[row.len() - 1] == last);
            } else {
                let f = fragment_at(v0, v1, v2, x, y);
                assert(left.contains(f));
                let i = choose|i: int| 0 <= i < left.len() && left[i] == f;
                assert(row[i] == f);
            }
        }
    }
}

/// Whether `f` is the fragment that the triangle yields at a covered pixel
/// of its bounding box.
pub open spec fn is_fragment_of(v0: ScreenPoint, v1: ScreenPoint, v2: ScreenPoint, f: Fragment) -> bool {
    &&& in_bounding_box(v0, v1, v2, f.x as int, f.y as int)
    &&& covered(v0, v1, v2, f.x as int, f.y as int)
    &&& f == fragment_at(v0, v1, v2, f.x as int, f.y as int)
}

/// Whether `f` comes before `g` in row-major order.
pub open spec fn precedes(f: Fragment, g: Fragment) -> bool {
    f.y < g.y || (f.y == g.y && f.x < g.x)
}

proof fn lemma_rows(v0: ScreenPoint, v1: ScreenPoint, v2: ScreenPoint, lo: int, hi: int)
    requires
        min_y(v0, v1, v2) <= lo,
        hi <= max_y(v0, v1, v2) + 1,
    ensures
        forall|i: int|
            0 <= i < rows_fragments(v0, v1, v2, lo, hi).len() ==> {
                let f = #[trigger] rows_fragments(v0, v1, v2, lo, hi)[i];
                is_fragment_of(v0, v1, v2, f) && lo <= f.y < hi
            },
        forall|i: int, j: int|
            0 <= i < j < rows_fragments(v0, v1, v2, lo, hi).len() ==> precedes(
                #[trigger] rows_fragments(v0, v1, v2, lo, hi)[i],
                #[trigger] rows_fragments(v0, v1, v2, lo, hi)[j],
            ),
        forall|x: int, y: int|
            lo <= y < hi && min_x(v0, v1, v2) <= x <= max_x(v0, v1, v2) && covered(v0, v1, v2, x, y)
                ==> rows_fragments(v0, v1, v2, lo, hi).contains(#[trigger] fragment_at(v0, v1, v2, x, y)),
    decreases hi - lo,
{
    let rows = rows_fragments(v0, v1, v2, lo, hi);
    if hi > lo {
        let left = min_x(v0, v1, v2);
        let right = max_x(v0, v1, v2);
        lemma_rows(v0, v1, v2, lo, hi - 1);
        lemma_row(v0, v1, v2, hi - 1, left, right + 1);
        let above = rows_fragments(v0, v1, v2, lo, hi - 1);
        let row = row_fragments(v0, v1, v2, hi - 1, left, right + 1);
        assert(rows == above + row);
        assert forall|i: int| 0 <= i < rows.len() implies {
            let f = #[trigger] rows[i];
            is_fragment_of(v0, v1, v2, f) && lo <= f.y < hi
        } by {
            if i >= above.len() {
                assert(is_row_fragment(v0, v1, v2, hi - 1, left, right + 1, row[i - above.len()]));
            }
        }
        assert forall|i: int, j: int| 0 <= i < j < rows.len() implies precedes(
            #[trigger] rows[i],
            #[trigger] rows[j],
        ) by {
            if j >= above.len() {
                assert(is_row_fragment(v0, v1, v2, hi - 1, left, right + 1, row[j - above.len()]));
                if i >= above.len() {
                    assert(row[i - above.len()].x < row[j - above.len()].x);
                    assert(is_row_fragment(v0, v1, v2, hi - 1, left, right + 1, row[i - above.len()]));
                }
            }
        }
        assert forall|x: int, y: int|
            lo <= y < hi && left <= x <= right && covered(v0, v1, v2, x, y) implies rows.contains(
            #[trigger] fragment_at(v0, v1, v2, x, y),
        ) by {
            let f = fragment_at(v0, v1, v2, x, y);
            if y == hi - 1 {
                assert(row.contains(f));
                let i = choose|i: int| 0 <= i < row.len() && row[i] == f;
                assert(rows[above.len() + i] == f);
            } else {
                assert(above.contains(f));
                let i = choose|i: int| 0 <= i < above.len() && above[i] == f;
                assert(rows[i] == f);
            }
        }
    }
}

/// The three weights of any pixel add up to twice the signed area of the
/// triangle: divided by it, they sum to one.
pub proof fn lemma_weights_sum(v0: ScreenPoint, v1: ScreenPoint, v2: ScreenPoint, x: int, y: int)
    ensures
        weight0(v0, v1, v2, x, y) + weight1(v0, v1, v2, x, y) + weight2(v0, v1, v2, x, y)
            == doubled_area(v0, v1, v2),
{
    let (ax, ay) = (v0.x as int, v0.y as int);
    let (bx, by) = (v1.x as int, v1.y as int);
    let (cx, cy) = (v2.x as int, v2.y as int);
    lemma_product_of_differences(cx, bx, y, by);
    lemma_product_of_differences(cy, by, x, bx);
    lemma_product_of_differences(ax, cx, y, cy);
    lemma_product_of_differences(ay, cy, x, cx);
    lemma_product_of_differences(bx, ax, y, ay);
    lemma_product_of_differences(by, ay, x, ax);
    lemma_product_of_differences(bx, ax, cy, ay);
    lemma_product_of_differences(by, ay, cx, ax);
}

proof fn lemma_product_of_differences(a: int, b: int, c: int, d: int)
    ensures
        (a - b) * (c - d) == a * c - a * d - b * c + b * d,
{
    assert((a - b) * (c - d) == a * c - a * d - b * c + b * d) by (nonlinear_arith);
}

/// Every fragment of a triangle belongs to a covered pixel of its bounding
/// box, carries that pixel's weights, and its weights add up to twice the
/// signed area, which is not zero.
pub proof fn lemma_fragment_sound(v0: ScreenPoint, v1: ScreenPoint, v2: ScreenPoint, i: int)
    requires
        0 <= i < fragments(v0, v1, v2).len(),
    ensures
        doubled_area(v0, v1, v2) != 0,
        is_fragment_of(v0, v1, v2, fragments(v0, v1, v2)[i]),
        fragments(v0, v1, v2)[i].weight_sum() == doubled_area(v0, v1, v2),
{
    let f = fragments(v0, v1, v2)[i];
    lemma_rows(v0, v1, v2, min_y(v0, v1, v2), max_y(v0, v1, v2) + 1);
    lemma_weights_sum(v0, v1, v2, f.x as int, f.y as int);
    lemma_edge_bound(v1, v2, f.x as int, f.y as int);
    lemma_edge_bound(v2, v0, f.x as int, f.y as int);
    lemma_edge_bound(v0, v1, f.x as int, f.y as int);
}

/// Each weight of a fragment has the sign of the area and is no larger in
/// size: divided by twice the signed area, the weights lie between zero and
/// one.
pub proof fn lemma_weights_in_range(v0: ScreenPoint, v1: ScreenPoint, v2: ScreenPoint, i: int)
    requires
        0 <= i < fragments(v0, v1, v2).len(),
    ensures
        ({
            let f = fragments(v0, v1, v2)[i];
            let area = doubled_area(v0, v1, v2);
            if area > 0 {
                0 <= f.w0 <= area && 0 <= f.w1 <= area && 0 <= f.w2 <= area
            } else {
                area <= f.w0 <= 0 && area <= f.w1 <= 0 && area <= f.w2 <= 0
            }
        }),
{
    lemma_fragment_sound(v0, v1, v2, i);
    let f = fragments(v0, v1, v2)[i];
    lemma_edge_bound(v1, v2, f.x as int, f.y as int);
    lemma_edge_bound(v2, v0, f.x as int, f.y as int);
    lemma_edge_bound(v0, v1, f.x as int, f.y as int);
    lemma_weights_sum(v0, v1, v2, f.x as int, f.y as int);
}

/// Every covered pixel of the bounding box of a triangle whose area is not
/// zero has its fragment among the fragments of the triangle.
pub proof fn lemma_fragment_complete(v0: ScreenPoint, v1: ScreenPoint, v2: ScreenPoint, x: int, y: int)
    requires
        doubled_area(v0, v1, v2) != 0,
        in_bounding_box(v0, v1, v2, x, y),
        covered(v0, v1, v2, x, y),
    ensures
        fragments(v0, v1, v2).contains(fragment_at(v0, v1, v2, x, y)),
{
    lemma_rows(v0, v1, v2, min_y(v0, v1, v2), max_y(v0, v1, v2) + 1);
}

/// Fragments come in row-major order, so no pixel yields two of them.
pub proof fn lemma_fragments_ordered(v0: ScreenPoint, v1: ScreenPoint, v2: ScreenPoint, i: int, j: int)
    requires
        0 <= i < j < fragments(v0, v1, v2).len(),
    ensures
        precedes(fragments(v0, v1, v2)[i], fragments(v0, v1, v2)[j]),
{
    lemma_rows(v0, v1, v2, min_y(v0, v1, v2), max_y(v0, v1, v2) + 1);
}

/// A triangle whose area is not zero yields at least one fragment: its first
/// vertex is a pixel that it covers.
pub proof fn lemma_positive_area_nonempty(v0: ScreenPoint, v1: ScreenPoint, v2: ScreenPoint)
    requires
        doubled_area(v0, v1, v2) != 0,
    ensures
        fragments(v0, v1, v2).len() > 0,
        fragments(v0, v1, v2).contains(fragment_at(v0, v1, v2, v0.x as int, v0.y as int)),
{
    let (x, y) = (v0.x as int, v0.y as int);
    lemma_weights_sum(v0, v1, v2, x, y);
    assert(weight1(v0, v1, v2, x, y) == 0) by (nonlinear_arith)
        requires
            x == v0.x,
            y == v0.y,
    ;
    assert(weight2(v0, v1, v2, x, y) == 0) by (nonlinear_arith)
        requires
            x == v0.x,
            y == v0.y,
    ;
    lemma_fragment_complete(v0, v1, v2, x, y);
}

/// A triangle in which two vertices coincide, or all three lie on a line,
/// has zero area and yields no fragment.
pub proof fn lemma_degenerate_empty(v0: ScreenPoint, v1: ScreenPoint, v2: ScreenPoint)
    ensures
        doubled_area(v0, v1, v2) == 0 ==> fragments(v0, v1, v2).len() == 0,
        v0 == v1 || v1 == v2 || v0 == v2 ==> doubled_area(v0, v1, v2) == 0,
{
    let (ax, ay) = (v0.x as int, v0.y as int);
    let (bx, by) = (v1.x as int, v1.y as int);
    let (cx, cy) = (v2.x as int, v2.y as int);
    assert(ax == bx && ay == by ==> (bx - ax) * (cy - ay) - (by - ay) * (cx - ax) == 0) by (nonlinear_arith);
    assert(bx == cx && by == cy ==> (bx - ax) * (cy - ay) - (by - ay) * (cx - ax) == 0) by (nonlinear_arith);
    assert(ax == cx && ay == cy ==> (bx - ax) * (cy - ay) - (by - ay) * (cx - ax) == 0) by (nonlinear_arith);
}

} // verus!
