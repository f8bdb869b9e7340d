use vstd::prelude::*;
use crate::geometry::{crossing, count_right, point_inside, Point};

verus! {

/// Ray-casting test of whether `q` lies inside `polygon`.
pub fn point_in_polygon(polygon: &Vec<Point>, q: Point) -> (r: bool)
    ensures
        r == point_inside(polygon@, q.x as int, q.y as int),
{
    let len = polygon.len();
    if len == 0 {
        return true;
    }
    if len < 3 {
        return false;
    }
    let mut inside = false;
    let mut i: usize = 0;
    while i < len
        invariant
            len == polygon.len(),
            len >= 3,
            i <= len,
            inside == (count_right(polygon@, q.x as int, q.y as int, i as nat) % 2 == 1),
        decreases len - i,
    {
        let j: usize = if i + 1 >= len { 0 } else { i + 1 };
        let a = polygon[i];
        let b = polygon[j];
        if (a.y > q.y) != (b.y > q.y) {
            let (num, den) = crossing(a, b, q.y);
            assert(-0x8000_0000 * den <= (q.x as i128) * den <= 0x8000_0000 * den) by (nonlinear_arith)
                requires
                    -0x8000_0000 <= q.x < 0x8000_0000,
                    den > 0,
            ;
            if num > (q.x as i128) * den {
                inside = !inside;
            }
        }
        i += 1;
    }
    inside
}

} // verus!
