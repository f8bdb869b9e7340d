use vstd::prelude::*;

verus! {

/// One sampled pointer position, in whole device pixels.
#[derive(Clone, Copy, Debug, PartialEq, Eq, Structural)]
pub struct Point {
    pub x: i32,
    pub y: i32,
}

impl Point {
    pub fn new(x: i32, y: i32) -> (r: Point)
        ensures
            r.x == x,
            r.y == y,
    {
        Point { x, y }
    }
}

/// Index of the vertex that follows vertex `i` on the closed polygon.
pub open spec fn next_index(len: int, i: int) -> int {
    if i + 1 >= len {
        0
    } else {
        i + 1
    }
}

/// The edge `a -> b` crosses the horizontal line at height `y`
/// (one endpoint at or below `y`, the other strictly above).
pub open spec fn crosses_row(a: Point, b: Point, y: int) -> bool {
    (a.y <= y && b.y > y) || (b.y <= y && a.y > y)
}

/// The crossing abscissa of a crossing edge is `cross_num / cross_den`,
/// with a positive denominator.
pub open spec fn cross_num(a: Point, b: Point, y: int) -> int {
    let n = a.x * (b.y - a.y) + (y - a.y) * (b.x - a.x);
    if b.y > a.y {
        n
    } else {
        -n
    }
}

pub open spec fn cross_den(a: Point, b: Point) -> int {
    if b.y > a.y {
        b.y - a.y
    } else {
        a.y - b.y
    }
}

pub open spec fn edge_start(poly: Seq<Point>, i: int) -> Point {
    poly[i]
}

pub open spec fn edge_end(poly: Seq<Point>, i: int) -> Point {
    poly[next_index(poly.len() as int, i)]
}

/// Edge `i` crosses row `y`.
pub open spec fn edge_crosses(poly: Seq<Point>, i: int, y: int) -> bool {
    crosses_row(edge_start(poly, i), edge_end(poly, i), y)
}

/// Edge `i` crosses row `y` strictly left of `x`.
pub open spec fn edge_left_of(poly: Seq<Point>, i: int, x: int, y: int) -> bool {
    let (a, b) = (edge_start(poly, i), edge_end(poly, i));
    crosses_row(a, b, y) && cross_num(a, b, y) < x * cross_den(a, b)
}

/// Edge `i` crosses row `y` strictly right of `x`.
pub open spec fn edge_right_of(poly: Seq<Point>, i: int, x: int, y: int) -> bool {
    let (a, b) = (edge_start(poly, i), edge_end(poly, i));
    crosses_row(a, b, y) && cross_num(a, b, y) > x * cross_den(a, b)
}

/// Edge `i` crosses row `y` exactly at `x`.
pub open spec fn edge_meets(poly: Seq<Point>, i: int, x: int, y: int) -> bool {
    let (a, b) = (edge_start(poly, i), edge_end(poly, i));
    crosses_row(a, b, y) && cross_num(a, b, y) == x * cross_den(a, b)
}

/// Number of the first `n` edges that cross row `y`.
pub open spec fn count_crossings(poly: Seq<Point>, y: int, n: nat) -> nat
    decreases n,
{
    if n == 0 {
        0
    } else {
        count_crossings(poly, y, (n - 1) as nat) + if edge_crosses(poly, n - 1, y) {
            1nat
        } else {
            0nat
        }
    }
}

/// Number of the first `n` edges that cross row `y` left of `x`.
pub open spec fn count_left(poly: Seq<Point>, x: int, y: int, n: nat) -> nat
    decreases n,
{
    if n == 0 {
        0
    } else {
        count_left(poly, x, y, (n - 1) as nat) + if edge_left_of(poly, n - 1, x, y) {
            1nat
        } else {
            0nat
        }
    }
}

/// Number of the first `n` edges that cross row `y` right of `x`.
pub open spec fn count_right(poly: Seq<Point>, x: int, y: int, n: nat) -> nat
    decreases n,
{
    if n == 0 {
        0
    } else {
        count_right(poly, x, y, (n - 1) as nat) + if edge_right_of(poly, n - 1, x, y) {
            1nat
        } else {
            0nat
        }
    }
}

/// Number of the first `n` edges that cross row `y` exactly at `x`.
pub open spec fn count_meets(poly: Seq<Point>, x: int, y: int, n: nat) -> nat
    decreases n,
{
    if n == 0 {
        0
    } else {
        count_meets(poly, x, y, (n - 1) as nat) + if edge_meets(poly, n - 1, x, y) {
            1nat
        } else {
            0nat
        }
    }
}

/// Ray-casting membership: an empty polygon places no constraint, one or
/// two points enclose nothing, otherwise the number of edge crossings
/// strictly right of the point is odd.
pub open spec fn point_inside(poly: Seq<Point>, x: int, y: int) -> bool {
    if poly.len() == 0 {
        true
    } else if poly.len() < 3 {
        false
    } else {
        count_right(poly, x, y, poly.len()) % 2 == 1
    }
}

/// Even-odd scanline coverage of the integer point `(x, y)`: once the
/// crossings of row `y` are sorted, `x` lies in a closed span between the
/// first and second, third and fourth, ... crossing. Equivalently an odd
/// number of crossings lie strictly left of `x`, or one lies exactly on it.
pub open spec fn covered(poly: Seq<Point>, x: int, y: int) -> bool {
    count_left(poly, x, y, poly.len()) % 2 == 1 || count_meets(poly, x, y, poly.len()) > 0
}

/// Crossing abscissa of `a -> b` on row `y`, as a fraction with a positive
/// denominator.
pub fn crossing(a: Point, b: Point, y: i32) -> (r: (i128, i128))
    requires
        crosses_row(a, b, y as int),
    ensures
        r.0 == cross_num(a, b, y as int),
        r.1 == cross_den(a, b),
        0 < r.1 <= 0x1_0000_0000,
        -0x4_0000_0000_0000_0000 <= r.0 <= 0x4_0000_0000_0000_0000,
{
    let ax = a.x as i128;
    let ay = a.y as i128;
    let bx = b.x as i128;
    let by = b.y as i128;
    let yy = y as i128;
    let dy = by - ay;
    let dx = bx - ax;
    let ry = yy - ay;
    assert(-0x1_0000_0000_0000_0000 <= ax * dy <= 0x1_0000_0000_0000_0000) by (nonlinear_arith)
        requires
            -0x8000_0000 <= ax < 0x8000_0000,
            -0x1_0000_0000 <= dy <= 0x1_0000_0000,
    ;
    assert(-0x1_0000_0000_0000_0000 <= ry * dx <= 0x1_0000_0000_0000_0000) by (nonlinear_arith)
        requires
            -0x1_0000_0000 <= ry <= 0x1_0000_0000,
            -0x1_0000_0000 <= dx <= 0x1_0000_0000,
    ;
    let n = ax * dy + ry * dx;
    if b.y > a.y {
        (n, dy)
    } else {
        (-n, -dy)
    }
}

/// Counting the crossings of a closed polygon on any row gives an even number.
pub proof fn lemma_crossings_even(poly: Seq<Point>, y: int)
    requires
        poly.len() >= 1,
    ensures
        count_crossings(poly, y, poly.len()) % 2 == 0,
{
    let len = poly.len();
    lemma_crossings_parity(poly, y, (len - 1) as nat);
    assert(count_crossings(poly, y, len) == count_crossings(poly, y, (len - 1) as nat) + if edge_crosses(poly, len - 1, y) { 1nat } else { 0nat });
}

proof fn lemma_crossings_parity(poly: Seq<Point>, y: int, n: nat)
    requires
        n < poly.len(),
    ensures
        count_crossings(poly, y, n) % 2 == if (poly[0].y > y) != (poly[n as int].y > y) { 1int } else { 0int },
    decreases n,
{
    if n > 0 {
        lemma_crossings_parity(poly, y, (n - 1) as nat);
    }
}

/// Every crossing lies left of, right of, or exactly at `x`.
pub proof fn lemma_crossings_split(poly: Seq<Point>, x: int, y: int, n: nat)
    ensures
        count_left(poly, x, y, n) + count_right(poly, x, y, n) + count_meets(poly, x, y, n)
            == count_crossings(poly, y, n),
    decreases n,
{
    if n > 0 {
        lemma_crossings_split(poly, x, y, (n - 1) as nat);
    }
}

} // verus!
