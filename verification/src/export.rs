//! Report reduction: the exact total area of a report, and the scaling
//! law that relates reports tabulated under different scale factors.
//! Formatting and file export are left to unverified callers; the numbers
//! they print come from here.

use crate::frac::{frac_eq_scaled, frac_one, scale_wf, Frac};
use crate::tabulate::{model_bounded, reports_match, scale_report, Report, Reports};
use vstd::prelude::*;

verus! {

/// Sum of the area numerators of a report's entries.
pub open spec fn spec_total_num(rs: Seq<Report>) -> int
    decreases rs.len(),
{
    if rs.len() == 0 {
        0
    } else {
        spec_total_num(rs.drop_last()) + rs.last().area.num
    }
}

/// Every entry carries the denominator `d`.
pub open spec fn uniform_den(rs: Seq<Report>, d: u128) -> bool {
    forall|i: int| 0 <= i < rs.len() ==> (#[trigger] rs[i].area).den == d
}

/// A prefix never sums to more than the whole report.
proof fn lemma_total_prefix(rs: Seq<Report>, j: int)
    requires
        0 <= j <= rs.len(),
    ensures
        spec_total_num(rs.take(j)) <= spec_total_num(rs),
    decreases rs.len(),
{
    if j < rs.len() {
        assert(rs.take(rs.len() as int - 1) =~= rs.drop_last());
        assert(rs.drop_last().take(j) =~= rs.take(j));
        lemma_total_prefix(rs.drop_last(), j);
        assert(rs.last().area.num >= 0);
    } else {
        assert(rs.take(j) =~= rs);
    }
}

/// Computes the total area of a report: the exact rational sum of all
/// entry areas.  Every report the tabulator produces carries one shared
/// denominator (the scale factor's), so the sum is just the numerator sum
/// over that denominator.  Returns `None` exactly when the entries do not
/// share one denominator or the numerator sum exceeds the 128-bit range;
/// an empty report totals zero.
pub fn area(reports: &Reports) -> (r: Option<Frac>)
    ensures
        match r {
            Some(f) => {
                &&& reports@.len() == 0 ==> f == (Frac { num: 0u128, den: 1u128 })
                &&& reports@.len() > 0 ==> f.den == reports@[0].area.den && uniform_den(
                    reports@,
                    f.den,
                ) && f.num == spec_total_num(reports@)
            },
            None => reports@.len() > 0 && (!uniform_den(reports@, reports@[0].area.den)
                || spec_total_num(reports@) > u128::MAX),
        },
{
    if reports.len() == 0 {
        return Some(Frac { num: 0, den: 1 });
    }
    let d = reports[0].area.den;
    let ghost s = reports@;
    let mut total: u128 = 0;
    let mut i: usize = 0;
    proof {
        assert(s.take(0) =~= Seq::<Report>::empty());
    }
    while i < reports.len()
        invariant
            0 <= i <= s.len(),
            s == reports@,
            s.len() > 0,
            d == s[0].area.den,
            total == spec_total_num(s.take(i as int)),
            forall|k: int| 0 <= k < i ==> (#[trigger] s[k].area).den == d,
        decreases s.len() - i,
    {
        proof {
            assert(s.take(i + 1).drop_last() =~= s.take(i as int));
            assert(s.take(i + 1).last() == s[i as int]);
        }
        let e = &reports[i];
        if e.area.den != d {
            return None;
        }
        if e.area.num > u128::MAX - total {
            proof {
                lemma_total_prefix(s, i + 1);
            }
            return None;
        }
        total = total + e.area.num;
        i = i + 1;
    }
    proof {
        assert(s.take(s.len() as int) =~= s);
    }
    Some(Frac { num: total, den: d })
}

/// The numerator total of a scaled report is the scale numerator times the
/// numerator total of the unit-scale model.
proof fn lemma_total_scaled(v: Seq<Report>, m: Seq<Report>, s: Frac)
    requires
        scale_wf(s),
        model_bounded(m),
        reports_match(v, m, s),
    ensures
        spec_total_num(v) == s.num * spec_total_num(m),
    decreases m.len(),
{
    if m.len() == 0 {
        assert(spec_total_num(v) == 0);
        assert(s.num * 0 == 0) by (nonlinear_arith);
    } else {
        let vp = v.drop_last();
        let mp = m.drop_last();
        assert(reports_match(vp, mp, s)) by {
            assert(forall|i: int| 0 <= i < mp.len() ==> vp[i] == #[trigger] v[i]);
            assert(forall|i: int| 0 <= i < mp.len() ==> mp[i] == #[trigger] m[i]);
        }
        lemma_total_scaled(vp, mp, s);
        let last = m.len() - 1;
        assert(v[last] == scale_report(m[last], s));
        assert(m[last].area.num * s.num < 2475880078570760549798248448 * 1048577) by (
        nonlinear_arith)
            requires
                m[last].area.num < 2475880078570760549798248448u128,
                s.num <= 1048576u128,
        ;
        assert(v.last().area.num == m.last().area.num * s.num);
        assert(s.num * (spec_total_num(mp) + m.last().area.num) == s.num * spec_total_num(mp)
            + m.last().area.num * s.num) by (nonlinear_arith);
    }
}

/// Scaling linearity: if one report was tabulated from a unit-scale model
/// under scale factor `s` and another from the same model under the unit
/// scale, then they have the same shape, every entry area of the first is
/// exactly `s` times the corresponding entry area of the second, and the
/// numerator total of the first is exactly `s.num` times that of the
/// second (both reports carry their scale's denominator, so the total area
/// of the first is exactly `s` times the total area of the second).
pub proof fn lemma_scaling_linearity(v: Seq<Report>, u: Seq<Report>, m: Seq<Report>, s: Frac)
    requires
        scale_wf(s),
        model_bounded(m),
        reports_match(v, m, s),
        reports_match(u, m, frac_one()),
    ensures
        v.len() == u.len(),
        forall|i: int| 0 <= i < v.len() ==> frac_eq_scaled(#[trigger] v[i].area, s, u[i].area),
        spec_total_num(v) == s.num * spec_total_num(u),
{
    assert forall|i: int| 0 <= i < v.len() implies frac_eq_scaled(
        #[trigger] v[i].area,
        s,
        u[i].area,
    ) by {
        assert(v[i] == scale_report(m[i], s));
        assert(u[i] == scale_report(m[i], frac_one()));
        let mn = m[i].area.num;
        assert(mn * s.num < 2475880078570760549798248448 * 1048577) by (nonlinear_arith)
            requires
                mn < 2475880078570760549798248448u128,
                s.num <= 1048576u128,
        ;
        assert((mn * s.num) * (s.den * 1) == (s.num * (mn * 1)) * s.den) by (nonlinear_arith);
    }
    lemma_total_scaled(v, m, s);
    lemma_total_scaled(u, m, frac_one());
    assert(spec_total_num(u) == 1 * spec_total_num(m));
    assert(s.num * (1 * spec_total_num(m)) == s.num * spec_total_num(m)) by (nonlinear_arith);
}

} // verus!
