//! MemEA: layout-informed memory-macro peripheral area estimation.
//!
//! Given a catalog of available physical components (core cells, logic
//! blocks, switches, ADCs) and a configuration describing one memory array,
//! the library selects, for each peripheral requirement the configuration
//! implies, the smallest-area catalog component that satisfies the
//! requirement, and tabulates the results into an itemized area report.
//!
//! All physical quantities are plain integers in caller-chosen fixed-point
//! units (for example micrometers stored in nanometer units), so every
//! comparison and every area is exact.  Reading catalogs and configurations
//! from files, interactive catalog construction and report export are left
//! to unverified callers; the data model, the selector and the tabulator
//! live here and carry full functional contracts.

use crate::frac::{frac_one, scale_wf, Frac};
use vstd::prelude::*;

pub mod config;
pub mod db;
pub mod export;
pub mod frac;
pub mod gds;
pub mod lef;
pub mod tabulate;

verus! {

/// A tiling geometry: `(rows, columns)` instance counts used to compute one
/// peripheral role's aggregate area.
pub type Mosaic = (u64, u64);

/// Default answer of a yes/no question put to the user by an interactive
/// front end.  Pure data; the prompting itself is not part of the library.
#[derive(Debug, Clone, Copy, PartialEq, Eq, Structural)]
pub enum QueryDefault {
    /// An empty answer means yes.
    Yes,
    /// An empty answer means no.
    No,
    /// An empty answer is not accepted.
    Neither,
}

/// Relative transistor area factor of a recognized technology node, in
/// units of 1/10000 of the baseline; `None` for an unrecognized node.
pub open spec fn spec_node_factor(n: usize) -> Option<u64> {
    if n == 65 {
        Some(5200)
    } else if n == 28 {
        Some(1200)
    } else if n == 22 {
        Some(950)
    } else if n == 16 {
        Some(740)
    } else if n == 10 {
        Some(420)
    } else if n == 7 {
        Some(270)
    } else if n == 5 {
        Some(210)
    } else if n == 3 {
        Some(1999)
    } else {
        None
    }
}

/// Looks up a technology node's built-in area factor.
fn get_scale(n: usize) -> (r: Option<u64>)
    ensures
        r == spec_node_factor(n),
{
    if n == 65 {
        Some(5200)
    } else if n == 28 {
        Some(1200)
    } else if n == 22 {
        Some(950)
    } else if n == 16 {
        Some(740)
    } else if n == 10 {
        Some(420)
    } else if n == 7 {
        Some(270)
    } else if n == 5 {
        Some(210)
    } else if n == 3 {
        Some(1999)
    } else {
        None
    }
}

/// The exact area scale factor from one technology node to another, from
/// the built-in node table: the ratio of the two nodes' area factors.
/// When either node is unrecognized, the factor is 1.
pub fn scale(from: usize, to: usize) -> (r: Frac)
    ensures
        match (spec_node_factor(from), spec_node_factor(to)) {
            (Some(a), Some(b)) => r.num == b && r.den == a,
            (Some(_), None) => r == frac_one(),
            (None, _) => r == frac_one(),
        },
        scale_wf(r),
{
    match (get_scale(from), get_scale(to)) {
        (Some(a), Some(b)) => Frac { num: b as u128, den: a as u128 },
        _ => Frac { num: 1, den: 1 },
    }
}

} // verus!
