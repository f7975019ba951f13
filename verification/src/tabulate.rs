//! Best-fit selection and area tabulation.
//!
//! The selector scans one kind's candidate collection in sequence order and
//! keeps the candidate with the smallest tiled area that satisfies the
//! kind's capability predicate; a later candidate whose area equals the
//! current best replaces it, so exact ties go to the last qualifying
//! candidate in iteration order.  The tabulator runs one selection per
//! peripheral requirement implied by a configuration and assembles the
//! itemized report.

use crate::config::Config;
use crate::db::{
    cells_wf, core_lookup, lemma_area_bound, lemma_core_lookup_wf, ADC, Cell, CellList, CellType,
    Core, DBError, Database, Logic, Requirement, Switch, MAX_DRIVE_DEN, MAX_RAIL, MAX_RAW_AREA,
    MAX_TILE,
};
use crate::frac::{scale_wf, Frac};
use crate::Mosaic;
use vstd::arithmetic::power2::{lemma2_to64, lemma_pow2_unfold, pow2};
use vstd::prelude::*;

verus! {

/// Rail location tag of a report entry.
#[derive(Debug, Clone, Copy, PartialEq, Eq, Structural)]
pub enum Location {
    /// The core array itself.
    Array,
    /// Wordline periphery.
    WL,
    /// Bitline periphery.
    BL,
    /// Well-bias periphery.
    Well,
}

impl Location {
    /// The tag's display name.
    pub open spec fn spec_label(self) -> Seq<char> {
        match self {
            Location::Array => "Array"@,
            Location::WL => "WL"@,
            Location::BL => "BL"@,
            Location::Well => "Well"@,
        }
    }

    /// Returns the tag's display name.
    pub fn label(&self) -> (s: String)
        ensures
            s@ == self.spec_label(),
    {
        match self {
            Location::Array => "Array".to_string(),
            Location::WL => "WL".to_string(),
            Location::BL => "BL".to_string(),
            Location::Well => "Well".to_string(),
        }
    }
}

/// One line of an area report: a selected component, how often it is
/// replicated, and the exact scaled area of its tiled block.
#[derive(Debug, Clone, PartialEq)]
pub struct Report {
    /// Name of the selected component.
    pub name: String,
    /// Number of replicas of the component.
    pub count: u64,
    /// Kind of the selected component.
    pub celltype: CellType,
    /// Rail location the component serves.
    pub loc: Location,
    /// Scaled area of the component's tiled block.
    pub area: Frac,
}

/// The report entries for one configuration, in emission order.
pub type Reports = Vec<Report>;

/// Every candidate's dimensions are within the supported range.
pub open spec fn cands_wf(s: Seq<(String, Cell)>) -> bool {
    forall|i: int| 0 <= i < s.len() ==> (#[trigger] s[i].1).wf()
}

/// Raw (unscaled) tiled area of a component at the given geometry.
pub open spec fn raw_area(c: Cell, mos: Mosaic) -> int {
    c.spec_dims().spec_area(mos)
}

/// The index the selector picks from `cands` under capability predicate
/// `pred` at tiling `mos`: scanning in sequence order, the first qualifying
/// candidate becomes the current best, and any later qualifying candidate
/// whose area is less than or equal to the best's area replaces it.
pub open spec fn select_model(
    cands: Seq<(String, Cell)>,
    pred: spec_fn(Cell) -> bool,
    mos: Mosaic,
) -> Option<int>
    decreases cands.len(),
{
    if cands.len() == 0 {
        None
    } else {
        let rest = select_model(cands.drop_last(), pred, mos);
        let last = cands.len() - 1;
        let replaces = match rest {
            None => true,
            Some(j) => raw_area(cands[last].1, mos) <= raw_area(cands[j].1, mos),
        };
        if pred(cands[last].1) && replaces {
            Some(last)
        } else {
            rest
        }
    }
}

/// What selection guarantees: a selected candidate qualifies, its area is
/// minimal among qualifying candidates, and it is the last candidate with
/// that minimal area; when nothing is selected, no candidate qualifies.
pub proof fn lemma_select_props(
    cands: Seq<(String, Cell)>,
    pred: spec_fn(Cell) -> bool,
    mos: Mosaic,
)
    ensures
        match select_model(cands, pred, mos) {
            Some(i) => {
                &&& 0 <= i < cands.len()
                &&& pred(cands[i].1)
                &&& forall|j: int|
                    0 <= j < cands.len() && pred(#[trigger] cands[j].1) ==> raw_area(
                        cands[i].1,
                        mos,
                    ) <= raw_area(cands[j].1, mos)
                &&& forall|j: int|
                    i < j < cands.len() && pred(#[trigger] cands[j].1) ==> raw_area(
                        cands[i].1,
                        mos,
                    ) < raw_area(cands[j].1, mos)
            },
            None => forall|j: int| 0 <= j < cands.len() ==> !pred(#[trigger] cands[j].1),
        },
    decreases cands.len(),
{
    if cands.len() > 0 {
        lemma_select_props(cands.drop_last(), pred, mos);
        assert(forall|j: int|
            0 <= j < cands.len() - 1 ==> cands.drop_last()[j] == #[trigger] cands[j]);
    }
}

/// Capability predicate for logic blocks: drive strength at least
/// `dx.num / dx.den` and at least `bits` decodable bits.
pub open spec fn logic_pred(dx: Frac, bits: u64) -> spec_fn(Cell) -> bool {
    |c: Cell| c matches Cell::Logic(l) && l.dx * dx.den >= dx.num && l.bits >= bits
}

/// Capability predicate for switches: drive strength at least
/// `dx.num / dx.den` and the voltage within the supported range.
pub open spec fn switch_pred(voltage: i64, dx: Frac) -> spec_fn(Cell) -> bool {
    |c: Cell|
        c matches Cell::Switch(s) && s.dx * dx.den >= dx.num && s.voltage.0 <= voltage && voltage
            <= s.voltage.1
}

/// Capability predicate for converters: sample rate at least `fs` and at
/// least `bits` resolution bits.
pub open spec fn adc_pred(fs: u64, bits: u64) -> spec_fn(Cell) -> bool {
    |c: Cell| c matches Cell::ADC(a) && a.fs >= fs && a.enob >= bits
}

/// Everything `locate_logic` promises of its result: the selected entry's
/// name and component when the selection model picks a candidate, the
/// typed error naming the unmet requirement when it picks none.
pub open spec fn locate_logic_post(
    cands: Seq<(String, Cell)>,
    dx: Frac,
    bits: u64,
    mos: Mosaic,
    r: Result<(String, Logic), DBError>,
) -> bool {
    match select_model(cands, logic_pred(dx, bits), mos) {
        Some(i) => r matches Ok(p) && p.0 == cands[i].0 && Cell::Logic(p.1) == cands[i].1,
        None => r matches Err(e) && e == DBError::NoSuitableCells(
            Requirement::Logic { dx, bits },
        ),
    }
}

/// Finds the minimal-area logic block with drive strength at least
/// `dx.num / dx.den` and at least `bits` decodable bits, at tiling `mos`.
pub fn locate_logic(cands: &CellList, dx: Frac, bits: u64, mos: Mosaic) -> (r: Result<
    (String, Logic),
    DBError,
>)
    requires
        cands_wf(cands@),
        1 <= dx.den <= MAX_DRIVE_DEN,
        mos.0 <= MAX_TILE,
        mos.1 <= MAX_TILE,
    ensures
        locate_logic_post(cands@, dx, bits, mos, r),
{
    let ghost pred = logic_pred(dx, bits);
    let mut best: Option<usize> = None;
    let mut i: usize = 0;
    proof {
        assert(cands@.take(0) =~= Seq::<(String, Cell)>::empty());
    }
    while i < cands.len()
        invariant
            0 <= i <= cands@.len(),
            cands_wf(cands@),
            1 <= dx.den <= MAX_DRIVE_DEN,
            mos.0 <= MAX_TILE,
            mos.1 <= MAX_TILE,
            pred == logic_pred(dx, bits),
            match best {
                None => select_model(cands@.take(i as int), pred, mos) is None,
                Some(b) => b < i && select_model(cands@.take(i as int), pred, mos) == Some(
                    b as int,
                ),
            },
        decreases cands@.len() - i,
    {
        let c = &cands[i];
        let qualifies = match c.1 {
            Cell::Logic(l) => {
                proof {
                    assert(l.dx * dx.den <= 18446744073709551615 * 4294967296) by (nonlinear_arith)
                        requires
                            l.dx <= 18446744073709551615u64,
                            dx.den <= 4294967296u128,
                    ;
                }
                (l.dx as u128) * dx.den >= dx.num && l.bits >= bits
            },
            _ => false,
        };
        proof {
            assert(cands@.take(i + 1).drop_last() =~= cands@.take(i as int));
            assert(cands@.take(i + 1).last() == cands@[i as int]);
            assert(qualifies == pred(cands@[i as int].1));
        }
        if qualifies {
            let replace = match best {
                None => true,
                Some(b) => {
                    let ab = cands[b].1.area(mos);
                    let ai = cands[i].1.area(mos);
                    ai <= ab
                },
            };
            if replace {
                best = Some(i);
            }
        }
        i = i + 1;
    }
    proof {
        assert(cands@.take(cands@.len() as int) =~= cands@);
        lemma_select_props(cands@, pred, mos);
    }
    match best {
        None => Err(DBError::NoSuitableCells(Requirement::Logic { dx, bits })),
        Some(b) => {
            let entry = &cands[b];
            match entry.1 {
                Cell::Logic(l) => Ok((entry.0.clone(), l)),
                _ => {
                    proof {
                        assert(false);
                    }
                    Err(DBError::NoSuitableCells(Requirement::Logic { dx, bits }))
                },
            }
        },
    }
}

/// Everything `locate_switch` promises of its result.
pub open spec fn locate_switch_post(
    cands: Seq<(String, Cell)>,
    voltage: i64,
    dx: Frac,
    mos: Mosaic,
    r: Result<(String, Switch), DBError>,
) -> bool {
    match select_model(cands, switch_pred(voltage, dx), mos) {
        Some(i) => r matches Ok(p) && p.0 == cands[i].0 && Cell::Switch(p.1) == cands[i].1,
        None => r matches Err(e) && e == DBError::NoSuitableCells(
            Requirement::Switch { voltage, dx },
        ),
    }
}

/// Finds the minimal-area switch with drive strength at least
/// `dx.num / dx.den` whose voltage range covers `voltage`, at tiling `mos`.
pub fn locate_switch(cands: &CellList, voltage: i64, dx: Frac, mos: Mosaic) -> (r: Result<
    (String, Switch),
    DBError,
>)
    requires
        cands_wf(cands@),
        1 <= dx.den <= MAX_DRIVE_DEN,
        mos.0 <= MAX_TILE,
        mos.1 <= MAX_TILE,
    ensures
        locate_switch_post(cands@, voltage, dx, mos, r),
{
    let ghost pred = switch_pred(voltage, dx);
    let mut best: Option<usize> = None;
    let mut i: usize = 0;
    proof {
        assert(cands@.take(0) =~= Seq::<(String, Cell)>::empty());
    }
    while i < cands.len()
        invariant
            0 <= i <= cands@.len(),
            cands_wf(cands@),
            1 <= dx.den <= MAX_DRIVE_DEN,
            mos.0 <= MAX_TILE,
            mos.1 <= MAX_TILE,
            pred == switch_pred(voltage, dx),
            match best {
                None => select_model(cands@.take(i as int), pred, mos) is None,
                Some(b) => b < i && select_model(cands@.take(i as int), pred, mos) == Some(
                    b as int,
                ),
            },
        decreases cands@.len() - i,
    {
        let c = &cands[i];
        let qualifies = match c.1 {
            Cell::Switch(s) => {
                proof {
                    assert(s.dx * dx.den <= 18446744073709551615 * 4294967296) by (nonlinear_arith)
                        requires
                            s.dx <= 18446744073709551615u64,
                            dx.den <= 4294967296u128,
                    ;
                }
                (s.dx as u128) * dx.den >= dx.num && s.voltage.0 <= voltage && voltage
                    <= s.voltage.1
            },
            _ => false,
        };
        proof {
            assert(cands@.take(i + 1).drop_last() =~= cands@.take(i as int));
            assert(cands@.take(i + 1).last() == cands@[i as int]);
            assert(qualifies == pred(cands@[i as int].1));
        }
        if qualifies {
            let replace = match best {
                None => true,
                Some(b) => {
                    let ab = cands[b].1.area(mos);
                    let ai = cands[i].1.area(mos);
                    ai <= ab
                },
            };
            if replace {
                best = Some(i);
            }
        }
        i = i + 1;
    }
    proof {
        assert(cands@.take(cands@.len() as int) =~= cands@);
        lemma_select_props(cands@, pred, mos);
    }
    match best {
        None => Err(DBError::NoSuitableCells(Requirement::Switch { voltage, dx })),
        Some(b) => {
            let entry = &cands[b];
            match entry.1 {
                Cell::Switch(s) => Ok((entry.0.clone(), s)),
                _ => {
                    proof {
                        assert(false);
                    }
                    Err(DBError::NoSuitableCells(Requirement::Switch { voltage, dx }))
                },
            }
        },
    }
}

/// Everything `locate_adc` promises of its result.
pub open spec fn locate_adc_post(
    cands: Seq<(String, Cell)>,
    fs: u64,
    bits: u64,
    mos: Mosaic,
    r: Result<(String, ADC), DBError>,
) -> bool {
    match select_model(cands, adc_pred(fs, bits), mos) {
        Some(i) => r matches Ok(p) && p.0 == cands[i].0 && Cell::ADC(p.1) == cands[i].1,
        None => r matches Err(e) && e == DBError::NoSuitableCells(Requirement::Adc { fs, bits }),
    }
}

/// Finds the minimal-area converter with sample rate at least `fs` and at
/// least `bits` resolution bits, at tiling `mos`.
pub fn locate_adc(cands: &CellList, fs: u64, bits: u64, mos: Mosaic) -> (r: Result<
    (String, ADC),
    DBError,
>)
    requires
        cands_wf(cands@),
        mos.0 <= MAX_TILE,
        mos.1 <= MAX_TILE,
    ensures
        locate_adc_post(cands@, fs, bits, mos, r),
{
    let ghost pred = adc_pred(fs, bits);
    let mut best: Option<usize> = None;
    let mut i: usize = 0;
    proof {
        assert(cands@.take(0) =~= Seq::<(String, Cell)>::empty());
    }
    while i < cands.len()
        invariant
            0 <= i <= cands@.len(),
            cands_wf(cands@),
            mos.0 <= MAX_TILE,
            mos.1 <= MAX_TILE,
            pred == adc_pred(fs, bits),
            match best {
                None => select_model(cands@.take(i as int), pred, mos) is None,
                Some(b) => b < i && select_model(cands@.take(i as int), pred, mos) == Some(
                    b as int,
                ),
            },
        decreases cands@.len() - i,
    {
        let c = &cands[i];
        let qualifies = match c.1 {
            Cell::ADC(a) => a.fs >= fs && a.enob >= bits,
            _ => false,
        };
        proof {
            assert(cands@.take(i + 1).drop_last() =~= cands@.take(i as int));
            assert(cands@.take(i + 1).last() == cands@[i as int]);
            assert(qualifies == pred(cands@[i as int].1));
        }
        if qualifies {
            let replace = match best {
                None => true,
                Some(b) => {
                    let ab = cands[b].1.area(mos);
                    let ai = cands[i].1.area(mos);
                    ai <= ab
                },
            };
            if replace {
                best = Some(i);
            }
        }
        i = i + 1;
    }
    proof {
        assert(cands@.take(cands@.len() as int) =~= cands@);
        lemma_select_props(cands@, pred, mos);
    }
    match best {
        None => Err(DBError::NoSuitableCells(Requirement::Adc { fs, bits })),
        Some(b) => {
            let entry = &cands[b];
            match entry.1 {
                Cell::ADC(a) => Ok((entry.0.clone(), a)),
                _ => {
                    proof {
                        assert(false);
                    }
                    Err(DBError::NoSuitableCells(Requirement::Adc { fs, bits }))
                },
            }
        },
    }
}

/// The report entry for one selected component at unit scale: the raw
/// tiled area with denominator 1.
pub open spec fn model_entry(
    name: String,
    cell: Cell,
    count: u64,
    loc: Location,
    mos: Mosaic,
) -> Report {
    Report {
        name,
        count,
        celltype: cell.kind(),
        loc,
        area: Frac { num: raw_area(cell, mos) as u128, den: 1 },
    }
}

/// `m` scaled by `s`: the same entry with its area multiplied by `s`.
pub open spec fn scale_report(m: Report, s: Frac) -> Report {
    Report {
        name: m.name,
        count: m.count,
        celltype: m.celltype,
        loc: m.loc,
        area: Frac { num: (m.area.num * s.num) as u128, den: s.den },
    }
}

/// `v` is exactly the unit-scale report `m` with every area multiplied by
/// the scale factor `s`.
pub open spec fn reports_match(v: Seq<Report>, m: Seq<Report>, s: Frac) -> bool {
    v.len() == m.len() && forall|i: int| 0 <= i < m.len() ==> #[trigger] v[i] == scale_report(
        m[i],
        s,
    )
}

/// Unit-scale entries for one rail's switches: one minimal-area switch per
/// voltage, in list order; the first voltage with no suitable switch aborts
/// with its error.
pub open spec fn switches_model(
    cands: Seq<(String, Cell)>,
    volts: Seq<i64>,
    dx: Frac,
    mos: Mosaic,
    count: u64,
    loc: Location,
) -> Result<Seq<Report>, DBError>
    decreases volts.len(),
{
    if volts.len() == 0 {
        Ok(Seq::empty())
    } else {
        match select_model(cands, switch_pred(volts[0], dx), mos) {
            None => Err(DBError::NoSuitableCells(Requirement::Switch { voltage: volts[0], dx })),
            Some(i) => match switches_model(cands, volts.drop_first(), dx, mos, count, loc) {
                Err(e) => Err(e),
                Ok(rest) => Ok(seq![model_entry(cands[i].0, cands[i].1, count, loc, mos)] + rest),
            },
        }
    }
}

/// Unit-scale entries for one complete rail: the switch entries, then one
/// decoder logic block whose drive requirement is half the rail's and whose
/// bit requirement is the decode width of the voltage list.
pub open spec fn rail_model(
    sw: Seq<(String, Cell)>,
    lg: Seq<(String, Cell)>,
    volts: Seq<i64>,
    dx: Frac,
    mos: Mosaic,
    count: u64,
    lmos: Mosaic,
    lcount: u64,
    loc: Location,
) -> Result<Seq<Report>, DBError> {
    match switches_model(sw, volts, dx, mos, count, loc) {
        Err(e) => Err(e),
        Ok(entries) => {
            let ldx = Frac { num: dx.num, den: (dx.den * 2) as u128 };
            let bits = spec_ceil_log2(volts.len() as int) as u64;
            match select_model(lg, logic_pred(ldx, bits), lmos) {
                None => Err(DBError::NoSuitableCells(Requirement::Logic { dx: ldx, bits })),
                Some(i) => Ok(entries.push(model_entry(lg[i].0, lg[i].1, lcount, loc, lmos))),
            }
        },
    }
}

/// The number of decode bits needed to select one of `n` values:
/// ceil(log2(n)), with one value needing 0 bits; 2 values need 1 bit,
/// 3 or 4 need 2, 5 through 8 need 3.
pub open spec fn spec_ceil_log2(n: int) -> int
    decreases n,
{
    if n <= 1 {
        0
    } else {
        1 + spec_ceil_log2((n + 1) / 2)
    }
}

/// The bit width grows far slower than the value itself.
pub proof fn lemma_ceil_log2_bound(n: int)
    requires
        1 <= n,
    ensures
        0 <= spec_ceil_log2(n) <= n - 1,
    decreases n,
{
    if n > 1 {
        lemma_ceil_log2_bound((n + 1) / 2);
    }
}

/// The decode bit width is exactly the ceiling base-2 logarithm: `n`
/// values can be told apart by `spec_ceil_log2(n)` bits, and, unless only
/// one value exists, not by one bit fewer.
pub proof fn lemma_ceil_log2_pow2(n: int)
    requires
        1 <= n,
    ensures
        n <= pow2(spec_ceil_log2(n) as nat),
        spec_ceil_log2(n) > 0 ==> pow2((spec_ceil_log2(n) - 1) as nat) < n,
    decreases n,
{
    lemma_ceil_log2_bound(n);
    if n == 1 {
        lemma2_to64();
    } else {
        let m = (n + 1) / 2;
        assert(1 <= m < n);
        lemma_ceil_log2_pow2(m);
        lemma_ceil_log2_bound(m);
        let b = spec_ceil_log2(m);
        assert(spec_ceil_log2(n) == 1 + b);
        assert(n <= 2 * m);
        assert(2 * m - 1 <= n);
        lemma_pow2_unfold((b + 1) as nat);
        assert(pow2((b + 1) as nat) == 2 * pow2(b as nat));
        assert(m <= pow2(b as nat));
        if b == 0 {
            lemma2_to64();
            assert(pow2(0) == 1 < n);
        } else {
            assert(pow2((b - 1) as nat) < m);
            lemma_pow2_unfold(b as nat);
            assert(pow2(b as nat) == 2 * pow2((b - 1) as nat));
            assert(pow2(b as nat) <= 2 * (m - 1));
            assert(2 * (m - 1) < n);
        }
    }
}

/// Computes the number of decode bits needed to select one of `n` values.
pub fn ceil_log2(n: u64) -> (r: u64)
    requires
        1 <= n,
    ensures
        r == spec_ceil_log2(n as int),
    decreases n,
{
    proof {
        lemma_ceil_log2_bound(n as int);
    }
    if n <= 1 {
        0
    } else {
        let m = (n - 1) / 2 + 1;
        proof {
            assert(m == (n + 1) / 2);
            lemma_ceil_log2_bound(m as int);
        }
        1 + ceil_log2(m)
    }
}

/// Unit-scale entries for one optional rail: an absent voltage list skips
/// the rail, and so does a present but empty one; a nonempty list needs the
/// switch and logic sections of the database.
pub open spec fn rail_step(
    db: Database,
    volts_opt: Option<Vec<i64>>,
    dx: Frac,
    mos: Mosaic,
    count: u64,
    lmos: Mosaic,
    lcount: u64,
    loc: Location,
) -> Result<Seq<Report>, DBError> {
    match volts_opt {
        None => Ok(Seq::empty()),
        Some(v) => if v@.len() == 0 {
            Ok(Seq::empty())
        } else {
            match db.switch {
                None => Err(DBError::InvalidDatabase(CellType::Switch)),
                Some(sw) => match db.logic {
                    None => Err(DBError::InvalidDatabase(CellType::Logic)),
                    Some(lg) => rail_model(sw@, lg@, v@, dx, mos, count, lmos, lcount, loc),
                },
            }
        },
    }
}

/// Unit-scale entry for the converter bank: emitted only when resolution
/// bits, sample rate and converter count are all present; a partial
/// specification skips the bank without error.
pub open spec fn adc_step(db: Database, config: Config) -> Result<Seq<Report>, DBError> {
    match (config.bits, config.fs, config.adcs) {
        (Some(bits), Some(fs), Some(adcs)) => match db.adc {
            None => Err(DBError::InvalidDatabase(CellType::ADC)),
            Some(ad) => {
                let mos = (1u64, adcs);
                match select_model(ad@, adc_pred(fs, bits), mos) {
                    None => Err(DBError::NoSuitableCells(Requirement::Adc { fs, bits })),
                    Some(i) => Ok(seq![model_entry(ad@[i].0, ad@[i].1, adcs, Location::BL, mos)]),
                }
            },
        },
        _ => Ok(Seq::empty()),
    }
}

/// The wordline rail's drive requirement: one wordline drives every cell
/// of its row, so it needs `columns * drive_wordline`.
pub open spec fn wl_drive(config: Config, core: Core) -> Frac {
    Frac { num: (config.m * core.dx_wl) as u128, den: 1 }
}

/// The bitline rail's drive requirement: one bitline drives every cell of
/// its column, so it needs `rows * drive_bitline`.
pub open spec fn bl_drive(config: Config, core: Core) -> Frac {
    Frac { num: (config.n * core.dx_bl) as u128, den: 1 }
}

/// The well rail's drive requirement: a quarter of the mean of the two
/// cell drives, times the number of columns, kept as the exact fraction
/// `columns * (drive_bitline + drive_wordline) / 8`.
pub open spec fn well_drive(config: Config, core: Core) -> Frac {
    Frac { num: (config.m * (core.dx_wl + core.dx_bl)) as u128, den: 8 }
}

/// The complete unit-scale report for one configuration: the mandatory
/// core array entry, then the wordline, bitline and well rails (each only
/// if its voltage list is present and nonempty), then the converter bank
/// (only if fully specified).  The first failure aborts the whole
/// tabulation with its error; no partial report is produced.
pub open spec fn tabulate_model(config: Config, db: Database) -> Result<Seq<Report>, DBError> {
    match core_lookup(db, config.cell@) {
        None => Err(DBError::MissingCell(config.cell)),
        Some(core) => {
            let core_entry = model_entry(
                config.cell,
                Cell::Core(core),
                (config.n * config.m) as u64,
                Location::Array,
                (config.n, config.m),
            );
            match rail_step(
                db,
                config.wl,
                wl_drive(config, core),
                (config.n, 1),
                config.n,
                (config.n, 1),
                config.n,
                Location::WL,
            ) {
                Err(e) => Err(e),
                Ok(wl_entries) => match rail_step(
                    db,
                    config.bl,
                    bl_drive(config, core),
                    (1, config.m),
                    config.m,
                    (1, config.m),
                    config.m,
                    Location::BL,
                ) {
                    Err(e) => Err(e),
                    Ok(bl_entries) => match rail_step(
                        db,
                        config.well,
                        well_drive(config, core),
                        (1, config.m),
                        config.m,
                        (1, 1),
                        1,
                        Location::Well,
                    ) {
                        Err(e) => Err(e),
                        Ok(well_entries) => match adc_step(db, config) {
                            Err(e) => Err(e),
                            Ok(adc_entries) => Ok(
                                seq![core_entry] + wl_entries + bl_entries + well_entries
                                    + adc_entries,
                            ),
                        },
                    },
                },
            }
        },
    }
}

/// Multiplies a raw area by the scale factor, exactly.
fn apply_scale(raw: u128, s: Frac) -> (f: Frac)
    requires
        raw < MAX_RAW_AREA,
        scale_wf(s),
    ensures
        f.num == raw * s.num,
        f.den == s.den,
{
    proof {
        assert(raw * s.num < 2475880078570760549798248448 * 1048577) by (nonlinear_arith)
            requires
                raw < 2475880078570760549798248448u128,
                s.num <= 1048576u128,
        ;
    }
    Frac { num: raw * s.num, den: s.den }
}

/// Appending one matching entry to a matching report keeps it matching.
proof fn lemma_match_push(v: Seq<Report>, m: Seq<Report>, e: Report, me: Report, s: Frac)
    requires
        reports_match(v, m, s),
        e == scale_report(me, s),
    ensures
        reports_match(v.push(e), m.push(me), s),
{
    assert forall|i: int| 0 <= i < m.push(me).len() implies #[trigger] v.push(e)[i]
        == scale_report(m.push(me)[i], s) by {
        if i < m.len() {
            assert(v.push(e)[i] == v[i]);
            assert(m.push(me)[i] == m[i]);
        } else {
            assert(v.push(e)[i] == e);
            assert(m.push(me)[i] == me);
        }
    }
}

/// Appending a matching block to a matching report keeps it matching.
proof fn lemma_match_append(
    v_old: Seq<Report>,
    v_new: Seq<Report>,
    m_old: Seq<Report>,
    m_add: Seq<Report>,
    s: Frac,
)
    requires
        reports_match(v_old, m_old, s),
        v_new.len() == v_old.len() + m_add.len(),
        forall|k: int| 0 <= k < v_old.len() ==> #[trigger] v_new[k] == v_old[k],
        reports_match(v_new.skip(v_old.len() as int), m_add, s),
    ensures
        reports_match(v_new, m_old + m_add, s),
{
    let m = m_old + m_add;
    assert forall|i: int| 0 <= i < m.len() implies #[trigger] v_new[i] == scale_report(
        m[i],
        s,
    ) by {
        if i < m_old.len() {
            assert(v_new[i] == v_old[i]);
            assert(m[i] == m_old[i]);
        } else {
            assert(v_new.skip(v_old.len() as int)[i - m_old.len()] == v_new[i]);
            assert(m[i] == m_add[i - m_old.len()]);
        }
    }
}

/// Runs one rail: selects one switch per voltage and the rail's decoder
/// logic block, and appends the scaled entries to `results`.
fn run_rail(
    results: &mut Reports,
    sw: &CellList,
    lg: &CellList,
    volts: &Vec<i64>,
    dx: Frac,
    mos: Mosaic,
    count: u64,
    lmos: Mosaic,
    lcount: u64,
    loc: Location,
    scale: Frac,
) -> (r: Result<(), DBError>)
    requires
        cands_wf(sw@),
        cands_wf(lg@),
        1 <= dx.den,
        dx.den * 2 <= MAX_DRIVE_DEN,
        mos.0 <= MAX_TILE,
        mos.1 <= MAX_TILE,
        lmos.0 <= MAX_TILE,
        lmos.1 <= MAX_TILE,
        1 <= volts@.len() <= MAX_RAIL,
        scale_wf(scale),
    ensures
        match rail_model(sw@, lg@, volts@, dx, mos, count, lmos, lcount, loc) {
            Ok(entries) => {
                &&& r is Ok
                &&& final(results)@.len() == old(results)@.len() + entries.len()
                &&& (forall|k: int|
                    0 <= k < old(results)@.len() ==> #[trigger] final(results)@[k] == old(
                        results,
                    )@[k])
                &&& reports_match(
                    final(results)@.skip(old(results)@.len() as int),
                    entries,
                    scale,
                )
            },
            Err(e) => r matches Err(e2) && e2 == e,
        },
{
    let ghost old_len = old(results)@.len();
    let ghost full = switches_model(sw@, volts@, dx, mos, count, loc);
    let ghost mut done: Seq<Report> = Seq::empty();
    proof {
        assert(volts@.skip(0) =~= volts@);
        assert(results@.skip(old_len as int) =~= Seq::<Report>::empty());
    }
    let mut vi: usize = 0;
    while vi < volts.len()
        invariant
            cands_wf(sw@),
            1 <= dx.den <= MAX_DRIVE_DEN,
            mos.0 <= MAX_TILE,
            mos.1 <= MAX_TILE,
            scale_wf(scale),
            0 <= vi <= volts@.len(),
            full == switches_model(sw@, volts@, dx, mos, count, loc),
            results@.len() == old_len + done.len(),
            forall|k: int|
                0 <= k < old_len ==> #[trigger] results@[k] == old(results)@[k],
            reports_match(results@.skip(old_len as int), done, scale),
            match switches_model(sw@, volts@.skip(vi as int), dx, mos, count, loc) {
                Err(e) => full == Err::<Seq<Report>, DBError>(e),
                Ok(rest) => full == Ok::<Seq<Report>, DBError>(done + rest),
            },
        decreases volts@.len() - vi,
    {
        proof {
            assert(volts@.skip(vi as int)[0] == volts@[vi as int]);
            assert(volts@.skip(vi as int).drop_first() =~= volts@.skip(vi + 1));
        }
        let v = volts[vi];
        match locate_switch(sw, v, dx, mos) {
            Err(e) => {
                return Err(e);
            },
            Ok((name, swc)) => {
                let ghost sel = select_model(sw@, switch_pred(v, dx), mos);
                let ghost i = sel->0;
                proof {
                    lemma_select_props(sw@, switch_pred(v, dx), mos);
                    assert(sel is Some);
                    assert(0 <= i < sw@.len());
                    assert(sw@[i].1.wf());
                    assert(swc.dims == sw@[i].1.spec_dims());
                    lemma_area_bound(swc.dims, mos);
                }
                let raw = swc.dims.area(mos);
                let entry = Report {
                    name,
                    count,
                    celltype: CellType::Switch,
                    loc,
                    area: apply_scale(raw, scale),
                };
                let ghost mid = results@;
                let ghost me = model_entry(sw@[i].0, sw@[i].1, count, loc, mos);
                results.push(entry);
                proof {
                    assert(entry == scale_report(me, scale));
                    assert(results@.skip(old_len as int) =~= mid.skip(old_len as int).push(
                        entry,
                    ));
                    lemma_match_push(mid.skip(old_len as int), done, entry, me, scale);
                    let rest1 = switches_model(sw@, volts@.skip(vi + 1), dx, mos, count, loc);
                    match rest1 {
                        Err(_) => {
                        },
                        Ok(rest) => {
                            assert(done.push(me) + rest =~= done + (seq![me] + rest));
                        },
                    }
                    done = done.push(me);
                }
            },
        }
        vi = vi + 1;
    }
    proof {
        assert(volts@.skip(volts@.len() as int) =~= Seq::<i64>::empty());
        assert(done + Seq::<Report>::empty() =~= done);
        assert(full == Ok::<Seq<Report>, DBError>(done));
    }
    let bits = ceil_log2(volts.len() as u64);
    proof {
        lemma_ceil_log2_bound(volts@.len() as int);
    }
    let ldx = Frac { num: dx.num, den: dx.den * 2 };
    match locate_logic(lg, ldx, bits, lmos) {
        Err(e) => Err(e),
        Ok((lname, lgc)) => {
            let ghost sel = select_model(lg@, logic_pred(ldx, bits), lmos);
            let ghost li = sel->0;
            proof {
                lemma_select_props(lg@, logic_pred(ldx, bits), lmos);
                assert(sel is Some);
                assert(0 <= li < lg@.len());
                assert(lg@[li].1.wf());
                assert(lgc.dims == lg@[li].1.spec_dims());
                lemma_area_bound(lgc.dims, lmos);
            }
            let lraw = lgc.dims.area(lmos);
            let lentry = Report {
                name: lname,
                count: lcount,
                celltype: CellType::Logic,
                loc,
                area: apply_scale(lraw, scale),
            };
            let ghost mid = results@;
            let ghost lme = model_entry(lg@[li].0, lg@[li].1, lcount, loc, lmos);
            results.push(lentry);
            proof {
                assert(lentry == scale_report(lme, scale));
                assert(results@.skip(old_len as int) =~= mid.skip(old_len as int).push(lentry));
                lemma_match_push(mid.skip(old_len as int), done, lentry, lme, scale);
            }
            Ok(())
        },
    }
}

/// A section that is well formed for its kind has well-formed candidates.
proof fn lemma_section_cands_wf(s: Seq<(String, Cell)>, kind: CellType)
    requires
        cells_wf(s, kind),
    ensures
        cands_wf(s),
{
    assert forall|i: int| 0 <= i < s.len() implies (#[trigger] s[i].1).wf() by {
        assert(s[i].1.kind() == kind);
    }
}

/// Tabulates the itemized area report for one configuration against a
/// catalog: the mandatory core array entry, then, for each voltage list
/// that is present and nonempty, one minimal-area switch per voltage and
/// one decoder logic block, then one converter bank entry if the converter
/// specification is complete.  Every area is the exact raw tiled area
/// multiplied by `scale`.  The first unsatisfiable selection or a missing
/// core cell aborts with a typed error and no partial report.
#[verifier::rlimit(60)]
pub fn tabulate(config: &Config, db: &Database, scale: Frac) -> (r: Result<Reports, DBError>)
    requires
        config.wf(),
        db.wf(),
        scale_wf(scale),
    ensures
        match tabulate_model(*config, *db) {
            Ok(m) => r matches Ok(v) && reports_match(v@, m, scale),
            Err(e) => r matches Err(e2) && e2 == e,
        },
{
    let mut results: Reports = Vec::new();

    // Core array (mandatory).
    let core = match db.get_core(&config.cell) {
        Ok(c) => c,
        Err(e) => {
            return Err(e);
        },
    };
    proof {
        assert(core_lookup(*db, config.cell@) == Some(core));
        lemma_core_lookup_wf(*db, config.cell@);
        assert(config.n * config.m <= 1048576 * 1048576) by (nonlinear_arith)
            requires
                config.n <= 1048576u64,
                config.m <= 1048576u64,
        ;
        lemma_area_bound(core.dims, (config.n, config.m));
    }
    let count = config.n * config.m;
    let raw = core.dims.area((config.n, config.m));
    let core_entry = Report {
        name: config.cell.clone(),
        count,
        celltype: CellType::Core,
        loc: Location::Array,
        area: apply_scale(raw, scale),
    };
    results.push(core_entry);
    let ghost m_core = model_entry(
        config.cell,
        Cell::Core(core),
        (config.n * config.m) as u64,
        Location::Array,
        (config.n, config.m),
    );
    let ghost mut acc: Seq<Report> = seq![m_core];
    let ghost mut g_wl: Seq<Report> = Seq::empty();
    let ghost mut g_bl: Seq<Report> = Seq::empty();
    let ghost mut g_well: Seq<Report> = Seq::empty();
    let ghost mut g_adc: Seq<Report> = Seq::empty();
    proof {
        assert(core_entry == scale_report(m_core, scale));
        assert(reports_match(results@, acc, scale));
    }

    // Wordline rail.
    match &config.wl {
        None => {
        },
        Some(v) => if v.len() > 0 {
            let sw = match &db.switch {
                Some(x) => x,
                None => {
                    return Err(DBError::InvalidDatabase(CellType::Switch));
                },
            };
            let lg = match &db.logic {
                Some(x) => x,
                None => {
                    return Err(DBError::InvalidDatabase(CellType::Logic));
                },
            };
            proof {
                lemma_section_cands_wf(sw@, CellType::Switch);
                lemma_section_cands_wf(lg@, CellType::Logic);
                assert(config.m * core.dx_wl <= 1048576 * 18446744073709551615) by (
                nonlinear_arith)
                    requires
                        config.m <= 1048576u64,
                        core.dx_wl <= 18446744073709551615u64,
                ;
            }
            let dx = Frac { num: (config.m as u128) * (core.dx_wl as u128), den: 1 };
            let ghost pre = results@;
            match run_rail(
                &mut results,
                sw,
                lg,
                v,
                dx,
                (config.n, 1),
                config.n,
                (config.n, 1),
                config.n,
                Location::WL,
                scale,
            ) {
                Err(e) => {
                    return Err(e);
                },
                Ok(_) => {
                    proof {
                        let wl_m = rail_model(
                            sw@,
                            lg@,
                            v@,
                            dx,
                            (config.n, 1),
                            config.n,
                            (config.n, 1),
                            config.n,
                            Location::WL,
                        );
                        match wl_m {
                            Ok(entries) => {
                                lemma_match_append(pre, results@, acc, entries, scale);
                                acc = acc + entries;
                                g_wl = entries;
                            },
                            Err(_) => {
                                assert(false);
                            },
                        }
                    }
                },
            }
        },
    }

    // Bitline rail.
    match &config.bl {
        None => {
        },
        Some(v) => if v.len() > 0 {
            let sw = match &db.switch {
                Some(x) => x,
                None => {
                    return Err(DBError::InvalidDatabase(CellType::Switch));
                },
            };
            let lg = match &db.logic {
                Some(x) => x,
                None => {
                    return Err(DBError::InvalidDatabase(CellType::Logic));
                },
            };
            proof {
                lemma_section_cands_wf(sw@, CellType::Switch);
                lemma_section_cands_wf(lg@, CellType::Logic);
                assert(config.n * core.dx_bl <= 1048576 * 18446744073709551615) by (
                nonlinear_arith)
                    requires
                        config.n <= 1048576u64,
                        core.dx_bl <= 18446744073709551615u64,
                ;
            }
            let dx = Frac { num: (config.n as u128) * (core.dx_bl as u128), den: 1 };
            let ghost pre = results@;
            match run_rail(
                &mut results,
                sw,
                lg,
                v,
                dx,
                (1, config.m),
                config.m,
                (1, config.m),
                config.m,
                Location::BL,
                scale,
            ) {
                Err(e) => {
                    return Err(e);
                },
                Ok(_) => {
                    proof {
                        let bl_m = rail_model(
                            sw@,
                            lg@,
                            v@,
                            dx,
                            (1, config.m),
                            config.m,
                            (1, config.m),
                            config.m,
                            Location::BL,
                        );
                        match bl_m {
                            Ok(entries) => {
                                lemma_match_append(pre, results@, acc, entries, scale);
                                acc = acc + entries;
                                g_bl = entries;
                            },
                            Err(_) => {
                                assert(false);
                            },
                        }
                    }
                },
            }
        },
    }

    // Well rail.
    match &config.well {
        None => {
        },
        Some(v) => if v.len() > 0 {
            let sw = match &db.switch {
                Some(x) => x,
                None => {
                    return Err(DBError::InvalidDatabase(CellType::Switch));
                },
            };
            let lg = match &db.logic {
                Some(x) => x,
                None => {
                    return Err(DBError::InvalidDatabase(CellType::Logic));
                },
            };
            proof {
                lemma_section_cands_wf(sw@, CellType::Switch);
                lemma_section_cands_wf(lg@, CellType::Logic);
                assert(config.m * (core.dx_wl + core.dx_bl) <= 1048576 * 36893488147419103230)
                    by (nonlinear_arith)
                    requires
                        config.m <= 1048576u64,
                        core.dx_wl <= 18446744073709551615u64,
                        core.dx_bl <= 18446744073709551615u64,
                ;
            }
            let dx = Frac {
                num: (config.m as u128) * (core.dx_wl as u128 + core.dx_bl as u128),
                den: 8,
            };
            let ghost pre = results@;
            match run_rail(
                &mut results,
                sw,
                lg,
                v,
                dx,
                (1, config.m),
                config.m,
                (1, 1),
                1,
                Location::Well,
                scale,
            ) {
                Err(e) => {
                    return Err(e);
                },
                Ok(_) => {
                    proof {
                        let well_m = rail_model(
                            sw@,
                            lg@,
                            v@,
                            dx,
                            (1, config.m),
                            config.m,
                            (1, 1),
                            1,
                            Location::Well,
                        );
                        match well_m {
                            Ok(entries) => {
                                lemma_match_append(pre, results@, acc, entries, scale);
                                acc = acc + entries;
                                g_well = entries;
                            },
                            Err(_) => {
                                assert(false);
                            },
                        }
                    }
                },
            }
        },
    }

    // Converter bank: only when fully specified.
    match (config.bits, config.fs, config.adcs) {
        (Some(bits), Some(fs), Some(adcs)) => {
            let ad = match &db.adc {
                Some(x) => x,
                None => {
                    return Err(DBError::InvalidDatabase(CellType::ADC));
                },
            };
            proof {
                lemma_section_cands_wf(ad@, CellType::ADC);
            }
            let mos = (1u64, adcs);
            match locate_adc(ad, fs, bits, mos) {
                Err(e) => {
                    return Err(e);
                },
                Ok((aname, adcc)) => {
                    let ghost sel = select_model(ad@, adc_pred(fs, bits), mos);
                    let ghost ai = sel->0;
                    proof {
                        lemma_select_props(ad@, adc_pred(fs, bits), mos);
                        assert(sel is Some);
                        assert(0 <= ai < ad@.len());
                        assert(ad@[ai].1.wf());
                        assert(adcc.dims == ad@[ai].1.spec_dims());
                        lemma_area_bound(adcc.dims, mos);
                    }
                    let araw = adcc.dims.area(mos);
                    let aentry = Report {
                        name: aname,
                        count: adcs,
                        celltype: CellType::ADC,
                        loc: Location::BL,
                        area: apply_scale(araw, scale),
                    };
                    let ghost mid = results@;
                    let ghost ame = model_entry(ad@[ai].0, ad@[ai].1, adcs, Location::BL, mos);
                    results.push(aentry);
                    proof {
                        assert(aentry == scale_report(ame, scale));
                        lemma_match_push(mid, acc, aentry, ame, scale);
                        acc = acc.push(ame);
                        g_adc = seq![ame];
                    }
                },
            }
        },
        _ => {
        },
    }

    proof {
        assert(acc =~= seq![m_core] + g_wl + g_bl + g_well + g_adc);
        assert(tabulate_model(*config, *db) == Ok::<Seq<Report>, DBError>(
            seq![m_core] + g_wl + g_bl + g_well + g_adc,
        ));
    }
    Ok(results)
}

/// Every entry of a unit-scale model report: the raw area is below the
/// global bound and the denominator is 1.
pub open spec fn model_bounded(m: Seq<Report>) -> bool {
    forall|i: int|
        0 <= i < m.len() ==> (#[trigger] m[i].area).num < MAX_RAW_AREA && m[i].area.den == 1
}

/// One rail's switch entries are bounded.
proof fn lemma_switches_model_bounded(
    cands: Seq<(String, Cell)>,
    volts: Seq<i64>,
    dx: Frac,
    mos: Mosaic,
    count: u64,
    loc: Location,
)
    requires
        cands_wf(cands),
        mos.0 <= MAX_TILE,
        mos.1 <= MAX_TILE,
    ensures
        match switches_model(cands, volts, dx, mos, count, loc) {
            Ok(es) => model_bounded(es),
            Err(_) => true,
        },
    decreases volts.len(),
{
    if volts.len() > 0 {
        lemma_select_props(cands, switch_pred(volts[0], dx), mos);
        match select_model(cands, switch_pred(volts[0], dx), mos) {
            None => {
            },
            Some(i) => {
                lemma_area_bound(cands[i].1.spec_dims(), mos);
                lemma_switches_model_bounded(cands, volts.drop_first(), dx, mos, count, loc);
            },
        }
    }
}

/// One complete rail's entries are bounded.
proof fn lemma_rail_model_bounded(
    sw: Seq<(String, Cell)>,
    lg: Seq<(String, Cell)>,
    volts: Seq<i64>,
    dx: Frac,
    mos: Mosaic,
    count: u64,
    lmos: Mosaic,
    lcount: u64,
    loc: Location,
)
    requires
        cands_wf(sw),
        cands_wf(lg),
        mos.0 <= MAX_TILE,
        mos.1 <= MAX_TILE,
        lmos.0 <= MAX_TILE,
        lmos.1 <= MAX_TILE,
    ensures
        match rail_model(sw, lg, volts, dx, mos, count, lmos, lcount, loc) {
            Ok(es) => model_bounded(es),
            Err(_) => true,
        },
{
    lemma_switches_model_bounded(sw, volts, dx, mos, count, loc);
    let ldx = Frac { num: dx.num, den: (dx.den * 2) as u128 };
    let bits = spec_ceil_log2(volts.len() as int) as u64;
    lemma_select_props(lg, logic_pred(ldx, bits), lmos);
    match select_model(lg, logic_pred(ldx, bits), lmos) {
        None => {
        },
        Some(i) => {
            lemma_area_bound(lg[i].1.spec_dims(), lmos);
        },
    }
}

/// The complete unit-scale report of a well-formed configuration against a
/// well-formed catalog is bounded: every raw area is below `MAX_RAW_AREA`
/// and every denominator is 1.
pub proof fn lemma_model_bounded(config: Config, db: Database)
    requires
        config.wf(),
        db.wf(),
    ensures
        match tabulate_model(config, db) {
            Ok(m) => model_bounded(m),
            Err(_) => true,
        },
{
    lemma_core_lookup_wf(db, config.cell@);
    match core_lookup(db, config.cell@) {
        None => {
        },
        Some(core) => {
            lemma_area_bound(core.dims, (config.n, config.m));
            if db.switch is Some {
                lemma_section_cands_wf(db.switch->0@, CellType::Switch);
            }
            if db.logic is Some {
                lemma_section_cands_wf(db.logic->0@, CellType::Logic);
            }
            if db.adc is Some {
                lemma_section_cands_wf(db.adc->0@, CellType::ADC);
            }
            match config.wl {
                None => {
                },
                Some(v) => if v@.len() > 0 && db.switch is Some && db.logic is Some {
                    lemma_rail_model_bounded(
                        db.switch->0@,
                        db.logic->0@,
                        v@,
                        wl_drive(config, core),
                        (config.n, 1),
                        config.n,
                        (config.n, 1),
                        config.n,
                        Location::WL,
                    );
                },
            }
            match config.bl {
                None => {
                },
                Some(v) => if v@.len() > 0 && db.switch is Some && db.logic is Some {
                    lemma_rail_model_bounded(
                        db.switch->0@,
                        db.logic->0@,
                        v@,
                        bl_drive(config, core),
                        (1, config.m),
                        config.m,
                        (1, config.m),
                        config.m,
                        Location::BL,
                    );
                },
            }
            match config.well {
                None => {
                },
                Some(v) => if v@.len() > 0 && db.switch is Some && db.logic is Some {
                    lemma_rail_model_bounded(
                        db.switch->0@,
                        db.logic->0@,
                        v@,
                        well_drive(config, core),
                        (1, config.m),
                        config.m,
                        (1, 1),
                        1,
                        Location::Well,
                    );
                },
            }
            match (config.bits, config.fs, config.adcs) {
                (Some(bits), Some(fs), Some(adcs)) => {
                    if db.adc is Some {
                        let ad = db.adc->0@;
                        let mos = (1u64, adcs);
                        lemma_select_props(ad, adc_pred(fs, bits), mos);
                        match select_model(ad, adc_pred(fs, bits), mos) {
                            None => {
                            },
                            Some(i) => {
                                lemma_area_bound(ad[i].1.spec_dims(), mos);
                            },
                        }
                    }
                },
                _ => {
                },
            }
        },
    }
}

/// Selector determinism: two logic-block selections that both satisfy the
/// selector's contract for identical inputs (including the candidate
/// ordering, which is the sequence order) return the identical name and
/// component, or the identical error.
pub proof fn lemma_locate_logic_deterministic(
    cands: Seq<(String, Cell)>,
    dx: Frac,
    bits: u64,
    mos: Mosaic,
    r1: Result<(String, Logic), DBError>,
    r2: Result<(String, Logic), DBError>,
)
    requires
        locate_logic_post(cands, dx, bits, mos, r1),
        locate_logic_post(cands, dx, bits, mos, r2),
    ensures
        r1 == r2,
{
    match select_model(cands, logic_pred(dx, bits), mos) {
        Some(i) => {
            let p1 = r1->Ok_0;
            let p2 = r2->Ok_0;
            assert(Cell::Logic(p1.1) == Cell::Logic(p2.1));
            assert(p1 == p2);
        },
        None => {
        },
    }
}

/// Selector determinism for switch selection.
pub proof fn lemma_locate_switch_deterministic(
    cands: Seq<(String, Cell)>,
    voltage: i64,
    dx: Frac,
    mos: Mosaic,
    r1: Result<(String, Switch), DBError>,
    r2: Result<(String, Switch), DBError>,
)
    requires
        locate_switch_post(cands, voltage, dx, mos, r1),
        locate_switch_post(cands, voltage, dx, mos, r2),
    ensures
        r1 == r2,
{
    match select_model(cands, switch_pred(voltage, dx), mos) {
        Some(i) => {
            let p1 = r1->Ok_0;
            let p2 = r2->Ok_0;
            assert(Cell::Switch(p1.1) == Cell::Switch(p2.1));
            assert(p1 == p2);
        },
        None => {
        },
    }
}

/// Selector determinism for converter selection.
pub proof fn lemma_locate_adc_deterministic(
    cands: Seq<(String, Cell)>,
    fs: u64,
    bits: u64,
    mos: Mosaic,
    r1: Result<(String, ADC), DBError>,
    r2: Result<(String, ADC), DBError>,
)
    requires
        locate_adc_post(cands, fs, bits, mos, r1),
        locate_adc_post(cands, fs, bits, mos, r2),
    ensures
        r1 == r2,
{
    match select_model(cands, adc_pred(fs, bits), mos) {
        Some(i) => {
            let p1 = r1->Ok_0;
            let p2 = r2->Ok_0;
            assert(Cell::ADC(p1.1) == Cell::ADC(p2.1));
            assert(p1 == p2);
        },
        None => {
        },
    }
}

/// Every switch entry of a rail carries the rail's location tag and the
/// switch kind.
proof fn lemma_switches_model_locs(
    cands: Seq<(String, Cell)>,
    volts: Seq<i64>,
    dx: Frac,
    mos: Mosaic,
    count: u64,
    loc: Location,
)
    ensures
        match switches_model(cands, volts, dx, mos, count, loc) {
            Ok(es) => forall|i: int|
                0 <= i < es.len() ==> (#[trigger] es[i]).loc == loc && es[i].celltype
                    == CellType::Switch,
            Err(_) => true,
        },
    decreases volts.len(),
{
    if volts.len() > 0 {
        lemma_select_props(cands, switch_pred(volts[0], dx), mos);
        match select_model(cands, switch_pred(volts[0], dx), mos) {
            None => {
            },
            Some(i) => {
                lemma_switches_model_locs(cands, volts.drop_first(), dx, mos, count, loc);
            },
        }
    }
}

/// Every entry of a rail carries the rail's location tag, and is a switch
/// or a logic block.
proof fn lemma_rail_model_locs(
    sw: Seq<(String, Cell)>,
    lg: Seq<(String, Cell)>,
    volts: Seq<i64>,
    dx: Frac,
    mos: Mosaic,
    count: u64,
    lmos: Mosaic,
    lcount: u64,
    loc: Location,
)
    ensures
        match rail_model(sw, lg, volts, dx, mos, count, lmos, lcount, loc) {
            Ok(es) => forall|i: int|
                0 <= i < es.len() ==> (#[trigger] es[i]).loc == loc && (es[i].celltype
                    == CellType::Switch || es[i].celltype == CellType::Logic),
            Err(_) => true,
        },
{
    lemma_switches_model_locs(sw, volts, dx, mos, count, loc);
    let ldx = Frac { num: dx.num, den: (dx.den * 2) as u128 };
    let bits = spec_ceil_log2(volts.len() as int) as u64;
    lemma_select_props(lg, logic_pred(ldx, bits), lmos);
}

/// An absent voltage list adds nothing: when a rail's list is missing
/// from the configuration, the tabulated report holds no driver or
/// decoder entry tagged with that rail's location, and the rail itself
/// raises no error.  (The converter bank's entry is tagged with the
/// bitline location but has the converter kind, so it is not a bitline
/// driver entry.)
pub proof fn lemma_absent_rail_skipped(config: Config, db: Database)
    ensures
        match tabulate_model(config, db) {
            Ok(m) => {
                &&& config.wl is None ==> forall|i: int|
                    0 <= i < m.len() ==> (#[trigger] m[i]).loc != Location::WL
                &&& config.bl is None ==> forall|i: int|
                    0 <= i < m.len() ==> !((#[trigger] m[i]).loc == Location::BL && (m[i].celltype
                        == CellType::Switch || m[i].celltype == CellType::Logic))
                &&& config.well is None ==> forall|i: int|
                    0 <= i < m.len() ==> (#[trigger] m[i]).loc != Location::Well
            },
            Err(_) => true,
        },
{
    let r = tabulate_model(config, db);
    if r is Ok {
        let m = r->Ok_0;
        let core = core_lookup(db, config.cell@)->0;
        let core_entry = model_entry(
            config.cell,
            Cell::Core(core),
            (config.n * config.m) as u64,
            Location::Array,
            (config.n, config.m),
        );
        let wl_r = rail_step(
            db,
            config.wl,
            wl_drive(config, core),
            (config.n, 1),
            config.n,
            (config.n, 1),
            config.n,
            Location::WL,
        );
        let bl_r = rail_step(
            db,
            config.bl,
            bl_drive(config, core),
            (1, config.m),
            config.m,
            (1, config.m),
            config.m,
            Location::BL,
        );
        let well_r = rail_step(
            db,
            config.well,
            well_drive(config, core),
            (1, config.m),
            config.m,
            (1, 1),
            1,
            Location::Well,
        );
        let adc_r = adc_step(db, config);
        let wl_es = wl_r->Ok_0;
        let bl_es = bl_r->Ok_0;
        let well_es = well_r->Ok_0;
        let adc_es = adc_r->Ok_0;
        assert(m == seq![core_entry] + wl_es + bl_es + well_es + adc_es);

        lemma_rail_step_locs(
            db,
            config.wl,
            wl_drive(config, core),
            (config.n, 1),
            config.n,
            (config.n, 1),
            config.n,
            Location::WL,
        );
        lemma_rail_step_locs(
            db,
            config.bl,
            bl_drive(config, core),
            (1, config.m),
            config.m,
            (1, config.m),
            config.m,
            Location::BL,
        );
        lemma_rail_step_locs(
            db,
            config.well,
            well_drive(config, core),
            (1, config.m),
            config.m,
            (1, 1),
            1,
            Location::Well,
        );
        lemma_adc_step_tags(db, config);

        assert forall|i: int| 0 <= i < m.len() implies ((config.wl is None ==> (#[trigger] m[i]).loc
            != Location::WL) && (config.bl is None ==> !(m[i].loc == Location::BL && (m[i].celltype
            == CellType::Switch || m[i].celltype == CellType::Logic))) && (config.well is None
            ==> m[i].loc != Location::Well)) by {
            if i == 0 {
                assert(m[i] == core_entry);
            } else if i < 1 + wl_es.len() {
                assert(m[i] == wl_es[i - 1]);
                assert(config.wl is Some);
            } else if i < 1 + wl_es.len() + bl_es.len() {
                assert(m[i] == bl_es[i - 1 - wl_es.len()]);
                assert(config.bl is Some);
            } else if i < 1 + wl_es.len() + bl_es.len() + well_es.len() {
                assert(m[i] == well_es[i - 1 - wl_es.len() - bl_es.len()]);
                assert(config.well is Some);
            } else {
                assert(m[i] == adc_es[i - 1 - wl_es.len() - bl_es.len() - well_es.len()]);
            }
        }
    }
}

/// Every entry an optional rail contributes carries the rail's location
/// tag, and is a switch or a logic block; an absent or empty list
/// contributes nothing.
proof fn lemma_rail_step_locs(
    db: Database,
    volts_opt: Option<Vec<i64>>,
    dx: Frac,
    mos: Mosaic,
    count: u64,
    lmos: Mosaic,
    lcount: u64,
    loc: Location,
)
    ensures
        match rail_step(db, volts_opt, dx, mos, count, lmos, lcount, loc) {
            Ok(es) => forall|i: int|
                0 <= i < es.len() ==> (#[trigger] es[i]).loc == loc && (es[i].celltype
                    == CellType::Switch || es[i].celltype == CellType::Logic),
            Err(_) => true,
        },
{
    match volts_opt {
        None => {
        },
        Some(v) => if v@.len() > 0 && db.switch is Some && db.logic is Some {
            lemma_rail_model_locs(
                db.switch->0@,
                db.logic->0@,
                v@,
                dx,
                mos,
                count,
                lmos,
                lcount,
                loc,
            );
        },
    }
}

/// The converter bank contributes at most one entry, tagged with the
/// bitline location and the converter kind.
proof fn lemma_adc_step_tags(db: Database, config: Config)
    ensures
        match adc_step(db, config) {
            Ok(es) => forall|i: int|
                0 <= i < es.len() ==> (#[trigger] es[i]).loc == Location::BL && es[i].celltype
                    == CellType::ADC,
            Err(_) => true,
        },
{
    match (config.bits, config.fs, config.adcs) {
        (Some(bits), Some(fs), Some(adcs)) => {
            if db.adc is Some {
                let ad = db.adc->0@;
                let mos = (1u64, adcs);
                lemma_select_props(ad, adc_pred(fs, bits), mos);
            }
        },
        _ => {
        },
    }
}

} // verus!
