//! What the comparison keeps of a pixel diff: how many pixels differ and the
//! smallest box holding them.
use vstd::prelude::*;

use crate::result::DiffBounds;

verus! {

/// Every point lies in the box.
pub open spec fn box_holds(points: Seq<(u32, u32)>, b: DiffBounds) -> bool {
    forall|i: int|
        0 <= i < points.len() ==> b.x <= (#[trigger] points[i]).0 < b.x + b.width && b.y
            <= points[i].1 < b.y + b.height
}

/// The box is the smallest one holding every point: each of its four edges
/// touches a point.
pub open spec fn box_is_tight(points: Seq<(u32, u32)>, b: DiffBounds) -> bool {
    &&& b.width > 0
    &&& b.height > 0
    &&& exists|i: int| 0 <= i < points.len() && (#[trigger] points[i]).0 == b.x
    &&& exists|i: int| 0 <= i < points.len() && (#[trigger] points[i]).0 == b.x + b.width - 1
    &&& exists|i: int| 0 <= i < points.len() && (#[trigger] points[i]).1 == b.y
    &&& exists|i: int| 0 <= i < points.len() && (#[trigger] points[i]).1 == b.y + b.height - 1
}

/// The number of differing pixels and their bounding box (none when no pixel
/// differs), given the `(x, y)` of each differing pixel.
pub fn diff_summary(points: &Vec<(u32, u32)>) -> (r: (u64, Option<DiffBounds>))
    requires
        points.len() <= u64::MAX,
        forall|i: int| 0 <= i < points.len() ==> (#[trigger] points[i]).0 < u32::MAX && points[i].1
            < u32::MAX,
    ensures
        r.0 == points.len(),
        r.1 is None <==> points.len() == 0,
        r.1 matches Some(b) ==> box_holds(points@, b) && box_is_tight(points@, b),
{
    if points.len() == 0 {
        return (0, None);
    }
    let mut x0 = points[0].0;
    let mut x1 = points[0].0;
    let mut y0 = points[0].1;
    let mut y1 = points[0].1;
    let ghost mut ix0: int = 0;
    let ghost mut ix1: int = 0;
    let ghost mut iy0: int = 0;
    let ghost mut iy1: int = 0;
    let mut i: usize = 1;
    while i < points.len()
        invariant
            1 <= i <= points.len(),
            forall|j: int| 0 <= j < points.len() ==> (#[trigger] points[j]).0 < u32::MAX
                && points[j].1 < u32::MAX,
            forall|j: int|
                0 <= j < i ==> x0 <= (#[trigger] points[j]).0 <= x1 && y0 <= points[j].1 <= y1,
            0 <= ix0 < i && points[ix0].0 == x0,
            0 <= ix1 < i && points[ix1].0 == x1,
            0 <= iy0 < i && points[iy0].1 == y0,
            0 <= iy1 < i && points[iy1].1 == y1,
        decreases points.len() - i,
    {
        let (x, y) = points[i];
        if x < x0 {
            x0 = x;
            proof {
                ix0 = i as int;
            }
        }
        if x > x1 {
            x1 = x;
            proof {
                ix1 = i as int;
            }
        }
        if y < y0 {
            y0 = y;
            proof {
                iy0 = i as int;
            }
        }
        if y > y1 {
            y1 = y;
            proof {
                iy1 = i as int;
            }
        }
        i = i + 1;
    }
    let b = DiffBounds { x: x0, y: y0, width: x1 - x0 + 1, height: y1 - y0 + 1 };
    assert(points[ix0].0 == b.x);
    assert(points[ix1].0 == b.x + b.width - 1);
    assert(points[iy0].1 == b.y);
    assert(points[iy1].1 == b.y + b.height - 1);
    (points.len() as u64, Some(b))
}

} // verus!
