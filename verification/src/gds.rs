//! Geometry support for layout ingestion: the bounding box of a polygon
//! point set.
//!
//! Reading layout files and converting their units is left to unverified
//! callers; they extract the raw integer points of a cell's boundary
//! polygons and obtain the exact bounding box here, from which an
//! enclosure can be derived.

use vstd::prelude::*;

verus! {

/// Errors that can occur during layout processing.
#[derive(Debug, Clone, PartialEq)]
pub enum GdsError {
    /// The requested cell was not found in the layout library.
    InvalidCell(String),
    /// The inspected element contains no geometry.
    EmptyElement(String),
}

/// The bounding box of a nonempty point set: minimal and maximal
/// coordinates per axis, as `((min_x, min_y), (max_x, max_y))`.
pub fn bounding_box(pts: &Vec<(i64, i64)>) -> (r: Option<((i64, i64), (i64, i64))>)
    ensures
        match r {
            None => pts@.len() == 0,
            Some(bb) => {
                &&& pts@.len() > 0
                &&& forall|i: int|
                    0 <= i < pts@.len() ==> bb.0.0 <= (#[trigger] pts@[i]).0 <= bb.1.0 && bb.0.1
                        <= pts@[i].1 <= bb.1.1
                &&& exists|i: int| 0 <= i < pts@.len() && (#[trigger] pts@[i]).0 == bb.0.0
                &&& exists|i: int| 0 <= i < pts@.len() && (#[trigger] pts@[i]).0 == bb.1.0
                &&& exists|i: int| 0 <= i < pts@.len() && (#[trigger] pts@[i]).1 == bb.0.1
                &&& exists|i: int| 0 <= i < pts@.len() && (#[trigger] pts@[i]).1 == bb.1.1
            },
        },
{
    if pts.len() == 0 {
        return None;
    }
    let first = pts[0];
    let mut min_x = first.0;
    let mut max_x = first.0;
    let mut min_y = first.1;
    let mut max_y = first.1;
    let mut i: usize = 1;
    while i < pts.len()
        invariant
            1 <= i <= pts@.len(),
            forall|k: int|
                0 <= k < i ==> min_x <= (#[trigger] pts@[k]).0 <= max_x && min_y <= pts@[k].1
                    <= max_y,
            exists|k: int| 0 <= k < i && (#[trigger] pts@[k]).0 == min_x,
            exists|k: int| 0 <= k < i && (#[trigger] pts@[k]).0 == max_x,
            exists|k: int| 0 <= k < i && (#[trigger] pts@[k]).1 == min_y,
            exists|k: int| 0 <= k < i && (#[trigger] pts@[k]).1 == max_y,
        decreases pts@.len() - i,
    {
        let p = pts[i];
        if p.0 < min_x {
            min_x = p.0;
        }
        if p.0 > max_x {
            max_x = p.0;
        }
        if p.1 < min_y {
            min_y = p.1;
        }
        if p.1 > max_y {
            max_y = p.1;
        }
        i = i + 1;
    }
    Some(((min_x, min_y), (max_x, max_y)))
}

} // verus!
