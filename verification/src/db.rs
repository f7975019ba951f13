//! The component catalog: typed component variants and the database that
//! stores them by kind and name.
//!
//! All physical quantities are plain integers in caller-chosen fixed-point
//! units.  Lengths (`Dims`) and tiling counts are bounded so that every
//! tiled area fits comfortably in a `u128`; drive strengths, voltages,
//! sample rates and bit counts are only ever compared, so they carry no
//! bound.

use crate::frac::Frac;
use crate::Mosaic;
use vstd::prelude::*;

verus! {

/// Upper bound on each `Dims` length (width, height, enclosure).
pub const MAX_DIM: u64 = 16777216;

/// Upper bound on each tiling count (rows, columns, converter count).
pub const MAX_TILE: u64 = 1048576;

/// Upper bound on the number of voltages in one rail's list.
pub const MAX_RAIL: usize = 65536;

/// Upper bound on the denominator of a drive-strength requirement.
pub const MAX_DRIVE_DEN: u128 = 4294967296;

/// Strict upper bound on any tiled raw area under the caps above: 2^91.
pub const MAX_RAW_AREA: u128 = 2475880078570760549798248448;

/// A numeric requirement that no catalog member satisfied.
#[derive(Debug, Clone, Copy, PartialEq)]
pub enum Requirement {
    /// A switch for the given voltage with the given drive strength.
    Switch { voltage: i64, dx: Frac },
    /// A logic block with the given drive strength and decodable bits.
    Logic { dx: Frac, bits: u64 },
    /// A converter with the given sample rate and resolution bits.
    Adc { fs: u64, bits: u64 },
}

/// Errors that can occur during catalog operations.
#[derive(Debug, Clone, PartialEq)]
pub enum DBError {
    /// The requested cell was not found in the database.
    MissingCell(String),
    /// No catalog member meets the given requirement.
    NoSuitableCells(Requirement),
    /// An entire component-kind section is missing from the database.
    InvalidDatabase(CellType),
}

/// The component kinds available in the database.
#[derive(Debug, Clone, Copy, PartialEq, Eq, Hash, Structural)]
pub enum CellType {
    /// Memory core cell.
    Core,
    /// Decode/driver logic block.
    Logic,
    /// Analog-to-digital converter.
    ADC,
    /// Rail driver / pass gate.
    Switch,
}

impl CellType {
    /// The kind's display name.
    pub open spec fn spec_label(self) -> Seq<char> {
        match self {
            CellType::Core => "Core"@,
            CellType::Logic => "Logic"@,
            CellType::ADC => "ADC"@,
            CellType::Switch => "Switch"@,
        }
    }

    /// Returns the kind's display name.
    pub fn label(&self) -> (s: String)
        ensures
            s@ == self.spec_label(),
    {
        match self {
            CellType::Core => "Core".to_string(),
            CellType::Logic => "Logic".to_string(),
            CellType::ADC => "ADC".to_string(),
            CellType::Switch => "Switch".to_string(),
        }
    }
}

/// Physical dimensions of a component: core size and the enclosure (spacing)
/// required around a tiled block of such components.
#[derive(Debug, Clone, Copy, PartialEq, Eq)]
pub struct Dims {
    /// Width and height of the component, as `(width, height)`.
    pub size: (u64, u64),
    /// Horizontal and vertical enclosure, as `(enc_x, enc_y)`.
    pub enc: (u64, u64),
}

impl Dims {
    /// All four lengths are within the supported range.
    pub open spec fn wf(self) -> bool {
        self.size.0 <= MAX_DIM && self.size.1 <= MAX_DIM && self.enc.0 <= MAX_DIM && self.enc.1
            <= MAX_DIM
    }

    /// Area of an `(n rows, m columns)` tiling: the tiled block spans
    /// `m * width + 2 * enc_x` horizontally and `n * height + 2 * enc_y`
    /// vertically; the area is the product of the two spans.
    pub open spec fn spec_area(self, mos: Mosaic) -> int {
        (mos.1 * self.size.0 + 2 * self.enc.0) * (mos.0 * self.size.1 + 2 * self.enc.1)
    }

    /// Creates zero dimensions.
    pub fn new() -> (d: Dims)
        ensures
            d == (Dims { size: (0, 0), enc: (0, 0) }),
            d.wf(),
    {
        Dims { size: (0, 0), enc: (0, 0) }
    }

    /// Creates dimensions from the four lengths.
    pub fn from(width: u64, height: u64, enc_x: u64, enc_y: u64) -> (d: Dims)
        ensures
            d == (Dims { size: (width, height), enc: (enc_x, enc_y) }),
    {
        Dims { size: (width, height), enc: (enc_x, enc_y) }
    }

    /// Checks that all four lengths are within the supported range, so
    /// that callers building dimensions from untrusted input can reject
    /// out-of-range ones.
    pub fn check(&self) -> (b: bool)
        ensures
            b == self.wf(),
    {
        self.size.0 <= MAX_DIM && self.size.1 <= MAX_DIM && self.enc.0 <= MAX_DIM && self.enc.1
            <= MAX_DIM
    }

    /// Computes the total area occupied by an `(n rows, m columns)` tiling,
    /// including enclosures.
    pub fn area(&self, mos: Mosaic) -> (r: u128)
        requires
            self.wf(),
            mos.0 <= MAX_TILE,
            mos.1 <= MAX_TILE,
        ensures
            r == self.spec_area(mos),
    {
        proof {
            lemma_area_bound(*self, mos);
            assert(mos.1 * self.size.0 <= 1048576 * 16777216) by (nonlinear_arith)
                requires
                    mos.1 <= 1048576,
                    self.size.0 <= 16777216,
            ;
            assert(mos.0 * self.size.1 <= 1048576 * 16777216) by (nonlinear_arith)
                requires
                    mos.0 <= 1048576,
                    self.size.1 <= 16777216,
            ;
        }
        let x: u128 = mos.1 as u128 * self.size.0 as u128 + 2 * self.enc.0 as u128;
        let y: u128 = mos.0 as u128 * self.size.1 as u128 + 2 * self.enc.1 as u128;
        proof {
            assert(x * y < MAX_RAW_AREA) by (nonlinear_arith)
                requires
                    x < 35184372088832u128,
                    y < 35184372088832u128,
                    MAX_RAW_AREA == 2475880078570760549798248448u128,
            ;
        }
        x * y
    }
}

impl Default for Dims {
    /// The default dimensions are zero.
    fn default() -> (d: Dims)
        ensures
            d == (Dims { size: (0, 0), enc: (0, 0) }),
    {
        Dims::new()
    }
}

/// Under the caps, every tiled raw area is below `MAX_RAW_AREA`.
pub proof fn lemma_area_bound(d: Dims, mos: Mosaic)
    requires
        d.wf(),
        mos.0 <= MAX_TILE,
        mos.1 <= MAX_TILE,
    ensures
        0 <= d.spec_area(mos) < MAX_RAW_AREA,
{
    assert(0 <= d.spec_area(mos) < 2475880078570760549798248448) by (nonlinear_arith)
        requires
            d.size.0 <= 16777216,
            d.size.1 <= 16777216,
            d.enc.0 <= 16777216,
            d.enc.1 <= 16777216,
            mos.0 <= 1048576,
            mos.1 <= 1048576,
            d.spec_area(mos) == (mos.1 * d.size.0 + 2 * d.enc.0) * (mos.0 * d.size.1 + 2
                * d.enc.1),
    ;
}

/// Memory core cell: the elementary bit cell, tiled rows x columns times.
#[derive(Debug, Clone, Copy, PartialEq)]
pub struct Core {
    /// Drive strength required per wordline.
    pub dx_wl: u64,
    /// Drive strength required per bitline.
    pub dx_bl: u64,
    /// Physical dimensions of the core cell.
    pub dims: Dims,
}

/// Logic block: decode/driver logic.
#[derive(Debug, Clone, Copy, PartialEq)]
pub struct Logic {
    /// Drive strength of the logic block.
    pub dx: u64,
    /// Number of bits this logic block can decode.
    pub bits: u64,
    /// Maximum operating frequency.
    pub fs: u64,
    /// Physical dimensions of the logic block.
    pub dims: Dims,
}

/// Switch: a rail driver / pass gate with a supported voltage range.
#[derive(Debug, Clone, Copy, PartialEq)]
pub struct Switch {
    /// Drive strength of the switch.
    pub dx: u64,
    /// Supported voltage range, as `(minimum, maximum)`.
    pub voltage: (i64, i64),
    /// Physical dimensions of the switch.
    pub dims: Dims,
}

/// Analog-to-digital converter.
#[derive(Debug, Clone, Copy, PartialEq)]
pub struct ADC {
    /// Resolution, as a whole number of effective bits.
    pub enob: u64,
    /// Maximum sampling frequency.
    pub fs: u64,
    /// Physical dimensions of the converter.
    pub dims: Dims,
}

/// One catalog component of any kind: a closed tagged variant, so that the
/// four kinds share dimension and area access.
#[derive(Debug, Clone, Copy, PartialEq)]
pub enum Cell {
    /// A memory core cell.
    Core(Core),
    /// A logic block.
    Logic(Logic),
    /// An analog-to-digital converter.
    ADC(ADC),
    /// A switch.
    Switch(Switch),
}

impl Cell {
    /// The kind tag of this component.
    pub open spec fn kind(self) -> CellType {
        match self {
            Cell::Core(_) => CellType::Core,
            Cell::Logic(_) => CellType::Logic,
            Cell::ADC(_) => CellType::ADC,
            Cell::Switch(_) => CellType::Switch,
        }
    }

    /// The component's physical dimensions.
    pub open spec fn spec_dims(self) -> Dims {
        match self {
            Cell::Core(c) => c.dims,
            Cell::Logic(l) => l.dims,
            Cell::ADC(a) => a.dims,
            Cell::Switch(s) => s.dims,
        }
    }

    /// The component's dimensions are within the supported range.
    pub open spec fn wf(self) -> bool {
        self.spec_dims().wf()
    }

    /// Returns the component's physical dimensions.
    pub fn dims(&self) -> (d: Dims)
        ensures
            d == self.spec_dims(),
    {
        match self {
            Cell::Core(c) => c.dims,
            Cell::Logic(l) => l.dims,
            Cell::ADC(a) => a.dims,
            Cell::Switch(s) => s.dims,
        }
    }

    /// Returns the kind tag of this component.
    pub fn celltype(&self) -> (k: CellType)
        ensures
            k == self.kind(),
    {
        match self {
            Cell::Core(_) => CellType::Core,
            Cell::Logic(_) => CellType::Logic,
            Cell::ADC(_) => CellType::ADC,
            Cell::Switch(_) => CellType::Switch,
        }
    }

    /// Computes the component's tiled area for the given geometry.
    pub fn area(&self, mos: Mosaic) -> (r: u128)
        requires
            self.wf(),
            mos.0 <= MAX_TILE,
            mos.1 <= MAX_TILE,
        ensures
            r == self.spec_dims().spec_area(mos),
    {
        self.dims().area(mos)
    }
}

/// One kind's collection of components, each under its name.  The sequence
/// order is the candidate iteration order of the selector, so it is explicit
/// and deterministic; loaders that want a canonical order insert names in
/// sorted order.
pub type CellList = Vec<(String, Cell)>;

/// Every component in the sequence has the given kind and bounded
/// dimensions.
pub open spec fn cells_wf(s: Seq<(String, Cell)>, kind: CellType) -> bool {
    forall|i: int| 0 <= i < s.len() ==> (#[trigger] s[i].1).kind() == kind && s[i].1.wf()
}

/// Index of the first entry whose name matches, if any.
pub open spec fn find_named(s: Seq<(String, Cell)>, name: Seq<char>) -> Option<int>
    decreases s.len(),
{
    if s.len() == 0 {
        None
    } else if s[0].0@ == name {
        Some(0int)
    } else {
        match find_named(s.drop_first(), name) {
            None => None,
            Some(i) => Some(i + 1),
        }
    }
}

/// Index of the first core cell under the given name, if any.
pub open spec fn find_core(s: Seq<(String, Cell)>, name: Seq<char>) -> Option<int>
    decreases s.len(),
{
    if s.len() == 0 {
        None
    } else if s[0].0@ == name && s[0].1 is Core {
        Some(0int)
    } else {
        match find_core(s.drop_first(), name) {
            None => None,
            Some(i) => Some(i + 1),
        }
    }
}

/// Component database: one optional section per component kind.  A section
/// that is `None` is missing from the database (as opposed to present but
/// empty), and looking it up fails with `DBError::InvalidDatabase`.
#[derive(Debug)]
pub struct Database {
    /// Memory core cells, by name.
    pub core: Option<CellList>,
    /// Logic blocks, by name.
    pub logic: Option<CellList>,
    /// Switches, by name.
    pub switch: Option<CellList>,
    /// Converters, by name.
    pub adc: Option<CellList>,
}

/// The section, if present, holds only components of its kind, with bounded
/// dimensions.
pub open spec fn section_wf(sec: Option<CellList>, kind: CellType) -> bool {
    match sec {
        None => true,
        Some(v) => cells_wf(v@, kind),
    }
}

impl Database {
    /// Every section holds only components of its kind, with bounded
    /// dimensions.
    pub open spec fn wf(self) -> bool {
        &&& section_wf(self.core, CellType::Core)
        &&& section_wf(self.logic, CellType::Logic)
        &&& section_wf(self.switch, CellType::Switch)
        &&& section_wf(self.adc, CellType::ADC)
    }

    /// The section for a kind.
    pub open spec fn spec_section(self, kind: CellType) -> Option<CellList> {
        match kind {
            CellType::Core => self.core,
            CellType::Logic => self.logic,
            CellType::ADC => self.adc,
            CellType::Switch => self.switch,
        }
    }

    /// Creates a database with all four sections present and empty.
    pub fn new() -> (db: Database)
        ensures
            db.core matches Some(v) && v@ =~= Seq::<(String, Cell)>::empty(),
            db.logic matches Some(v) && v@ =~= Seq::<(String, Cell)>::empty(),
            db.switch matches Some(v) && v@ =~= Seq::<(String, Cell)>::empty(),
            db.adc matches Some(v) && v@ =~= Seq::<(String, Cell)>::empty(),
            db.wf(),
    {
        Database { core: Some(Vec::new()), logic: Some(Vec::new()), switch: Some(Vec::new()), adc: Some(Vec::new()) }
    }

    /// Returns the read-only collection for a kind, or
    /// `DBError::InvalidDatabase` if that kind's section is missing (never
    /// an empty view in its place).
    pub fn retrieve(&self, kind: CellType) -> (r: Result<&CellList, DBError>)
        ensures
            match self.spec_section(kind) {
                Some(v) => r matches Ok(c) && c == &v,
                None => r matches Err(e) && e == DBError::InvalidDatabase(kind),
            },
    {
        let sec = match kind {
            CellType::Core => &self.core,
            CellType::Logic => &self.logic,
            CellType::ADC => &self.adc,
            CellType::Switch => &self.switch,
        };
        match sec {
            Some(v) => Ok(v),
            None => Err(DBError::InvalidDatabase(kind)),
        }
    }

    /// Looks up the core cell stored under `name`, failing with
    /// `DBError::MissingCell` when no such cell exists (in particular when
    /// the core section is missing altogether).
    pub fn get_core(&self, name: &String) -> (r: Result<Core, DBError>)
        ensures
            match core_lookup(*self, name@) {
                Some(c) => r matches Ok(found) && found == c,
                None => r matches Err(e) && e == DBError::MissingCell(*name),
            },
    {
        let sec = match &self.core {
            Some(v) => v,
            None => {
                return Err(DBError::MissingCell(name.clone()));
            },
        };
        let ghost s = sec@;
        proof {
            assert(self.core matches Some(v) && v@ == s);
            assert(s.skip(0) =~= s);
        }
        let mut i: usize = 0;
        while i < sec.len()
            invariant
                0 <= i <= s.len(),
                s == sec@,
                self.core matches Some(v) && v@ == s,
                find_core(s, name@) == match find_core(s.skip(i as int), name@) {
                    None => None::<int>,
                    Some(j) => Some(j + i),
                },
            decreases s.len() - i,
        {
            let entry = &sec[i];
            let hit = match entry.1 {
                Cell::Core(_) => entry.0 == *name,
                _ => false,
            };
            proof {
                assert(s.skip(i as int)[0] == s[i as int]);
                assert(s.skip(i as int).drop_first() =~= s.skip(i + 1));
            }
            if hit {
                match entry.1 {
                    Cell::Core(c) => {
                        proof {
                            assert(find_core(s, name@) == Some(i as int));
                        }
                        return Ok(c);
                    },
                    _ => {
                        proof {
                            assert(false);
                        }
                    },
                }
            }
            i = i + 1;
        }
        proof {
            assert(s.skip(s.len() as int) =~= Seq::<(String, Cell)>::empty());
        }
        Err(DBError::MissingCell(name.clone()))
    }
}

impl Default for Database {
    /// The default database has all four sections present and empty.
    fn default() -> (db: Database)
        ensures
            db.core matches Some(v) && v@ =~= Seq::<(String, Cell)>::empty(),
            db.logic matches Some(v) && v@ =~= Seq::<(String, Cell)>::empty(),
            db.switch matches Some(v) && v@ =~= Seq::<(String, Cell)>::empty(),
            db.adc matches Some(v) && v@ =~= Seq::<(String, Cell)>::empty(),
            db.wf(),
    {
        Database::new()
    }
}

/// Checks one optional section against its kind.
fn section_check(sec: &Option<CellList>, kind: CellType) -> (b: bool)
    ensures
        b == section_wf(*sec, kind),
{
    match sec {
        None => true,
        Some(v) => {
            let ghost s = v@;
            let mut i: usize = 0;
            while i < v.len()
                invariant
                    0 <= i <= s.len(),
                    s == v@,
                    *sec matches Some(vv) && vv@ == s,
                    forall|k: int|
                        0 <= k < i ==> (#[trigger] s[k].1).kind() == kind && s[k].1.wf(),
                decreases s.len() - i,
            {
                let entry = &v[i];
                if !(entry.1.celltype() == kind && entry.1.dims().check()) {
                    proof {
                        assert(!((#[trigger] s[i as int].1).kind() == kind && s[i as int].1.wf()));
                        assert(!cells_wf(s, kind));
                    }
                    return false;
                }
                i = i + 1;
            }
            true
        },
    }
}

/// Relates a section's contents before and after storing `(name, cell)`:
/// the first entry under the same name, if any, is removed, and the new
/// entry is appended, so a re-added name moves to the end of the iteration
/// order.
pub open spec fn upserted(
    old_s: Seq<(String, Cell)>,
    name: Seq<char>,
    cell: Cell,
    new_s: Seq<(String, Cell)>,
) -> bool {
    match find_named(old_s, name) {
        None => {
            &&& new_s.len() == old_s.len() + 1
            &&& (forall|k: int| 0 <= k < old_s.len() ==> new_s[k] == old_s[k])
            &&& new_s.last().0@ == name
            &&& new_s.last().1 == cell
        },
        Some(j) => {
            &&& new_s.len() == old_s.len()
            &&& (forall|k: int| 0 <= k < j ==> new_s[k] == old_s[k])
            &&& (forall|k: int| j <= k < old_s.len() - 1 ==> new_s[k] == old_s[k + 1])
            &&& new_s.last().0@ == name
            &&& new_s.last().1 == cell
        },
    }
}

/// Relates an optional section before and after storing `(name, cell)`: a
/// missing section is created with the one entry.
pub open spec fn section_upserted(
    old_sec: Option<CellList>,
    name: Seq<char>,
    cell: Cell,
    new_sec: Option<CellList>,
) -> bool {
    match old_sec {
        None => new_sec matches Some(v) && v@.len() == 1 && v@[0].0@ == name && v@[0].1 == cell,
        Some(o) => new_sec matches Some(v) && upserted(o@, name, cell, v@),
    }
}

/// Storing a component of the section's kind keeps the section well formed.
pub proof fn lemma_upserted_wf(
    old_sec: Option<CellList>,
    name: Seq<char>,
    cell: Cell,
    new_sec: Option<CellList>,
    kind: CellType,
)
    requires
        section_upserted(old_sec, name, cell, new_sec),
        section_wf(old_sec, kind),
        cell.kind() == kind,
        cell.wf(),
    ensures
        section_wf(new_sec, kind),
{
    match old_sec {
        None => {
        },
        Some(o) => {
            let v = new_sec->0;
            match find_named(o@, name) {
                None => {
                    assert forall|i: int| 0 <= i < v@.len() implies (#[trigger] v@[i].1).kind()
                        == kind && v@[i].1.wf() by {
                        if i < o@.len() {
                            assert(v@[i] == o@[i]);
                        } else {
                            assert(v@[i] == v@.last());
                        }
                    }
                },
                Some(j) => {
                    assert forall|i: int| 0 <= i < v@.len() implies (#[trigger] v@[i].1).kind()
                        == kind && v@[i].1.wf() by {
                        if i < j {
                            assert(v@[i] == o@[i]);
                        } else if i < o@.len() - 1 {
                            assert(v@[i] == o@[i + 1]);
                        } else {
                            assert(v@[i] == v@.last());
                        }
                    }
                },
            }
        },
    }
}

/// Finds the first entry stored under `name`.
fn find_entry(v: &CellList, name: &String) -> (r: Option<usize>)
    ensures
        match find_named(v@, name@) {
            None => r is None,
            Some(j) => r matches Some(u) && u == j && 0 <= j < v@.len(),
        },
{
    let ghost s = v@;
    proof {
        assert(s.skip(0) =~= s);
    }
    let mut i: usize = 0;
    while i < v.len()
        invariant
            0 <= i <= s.len(),
            s == v@,
            find_named(s, name@) == match find_named(s.skip(i as int), name@) {
                None => None::<int>,
                Some(j) => Some(j + i),
            },
        decreases s.len() - i,
    {
        proof {
            assert(s.skip(i as int)[0] == s[i as int]);
            assert(s.skip(i as int).drop_first() =~= s.skip(i + 1));
        }
        if v[i].0 == *name {
            return Some(i);
        }
        i = i + 1;
    }
    proof {
        assert(s.skip(s.len() as int) =~= Seq::<(String, Cell)>::empty());
    }
    None
}

/// Stores `(name, cell)` in an optional section, creating the section if it
/// is missing and replacing any previous entry under the same name.
fn section_upsert(sec: &mut Option<CellList>, name: &String, cell: Cell)
    ensures
        section_upserted(*old(sec), name@, cell, *final(sec)),
{
    match sec {
        None => {
            let mut v: CellList = Vec::new();
            v.push((name.clone(), cell));
            *sec = Some(v);
        },
        Some(v) => {
            let ghost o = v@;
            if let Some(j) = find_entry(v, name) {
                v.remove(j);
                proof {
                    assert(v@ =~= o.subrange(0, j as int) + o.subrange(j + 1, o.len() as int));
                }
            }
            v.push((name.clone(), cell));
        },
    }
}

impl Database {
    /// Stores a component under a name, in the section of the component's
    /// kind.  A previous entry under the same name in that section is
    /// replaced; the other sections are untouched.
    pub fn update(&mut self, name: &String, cell: Cell)
        ensures
            match cell.kind() {
                CellType::Core => section_upserted(old(self).core, name@, cell, final(self).core)
                    && final(self).logic == old(self).logic && final(self).switch == old(
                    self,
                ).switch && final(self).adc == old(self).adc,
                CellType::Logic => section_upserted(old(self).logic, name@, cell, final(self).logic)
                    && final(self).core == old(self).core && final(self).switch == old(
                    self,
                ).switch && final(self).adc == old(self).adc,
                CellType::ADC => section_upserted(old(self).adc, name@, cell, final(self).adc)
                    && final(self).core == old(self).core && final(self).logic == old(self).logic
                    && final(self).switch == old(self).switch,
                CellType::Switch => section_upserted(
                    old(self).switch,
                    name@,
                    cell,
                    final(self).switch,
                ) && final(self).core == old(self).core && final(self).logic == old(self).logic
                    && final(self).adc == old(self).adc,
            },
            old(self).wf() && cell.wf() ==> final(self).wf(),
    {
        match cell {
            Cell::Core(_) => section_upsert(&mut self.core, name, cell),
            Cell::Logic(_) => section_upsert(&mut self.logic, name, cell),
            Cell::ADC(_) => section_upsert(&mut self.adc, name, cell),
            Cell::Switch(_) => section_upsert(&mut self.switch, name, cell),
        }
        proof {
            if old(self).wf() && cell.wf() {
                match cell.kind() {
                    CellType::Core => lemma_upserted_wf(
                        old(self).core,
                        name@,
                        cell,
                        self.core,
                        CellType::Core,
                    ),
                    CellType::Logic => lemma_upserted_wf(
                        old(self).logic,
                        name@,
                        cell,
                        self.logic,
                        CellType::Logic,
                    ),
                    CellType::ADC => lemma_upserted_wf(
                        old(self).adc,
                        name@,
                        cell,
                        self.adc,
                        CellType::ADC,
                    ),
                    CellType::Switch => lemma_upserted_wf(
                        old(self).switch,
                        name@,
                        cell,
                        self.switch,
                        CellType::Switch,
                    ),
                }
            }
        }
    }

    /// Checks that every section holds only components of its kind, with
    /// bounded dimensions, so that a caller that built a database from
    /// untrusted input can reject one the tabulator does not admit.
    pub fn check(&self) -> (b: bool)
        ensures
            b == self.wf(),
    {
        section_check(&self.core, CellType::Core) && section_check(&self.logic, CellType::Logic)
            && section_check(&self.switch, CellType::Switch) && section_check(
            &self.adc,
            CellType::ADC,
        )
    }

    /// Stores a core cell under a name.
    pub fn add_core(&mut self, name: &String, core: Core)
        ensures
            section_upserted(old(self).core, name@, Cell::Core(core), final(self).core),
            final(self).logic == old(self).logic,
            final(self).switch == old(self).switch,
            final(self).adc == old(self).adc,
            old(self).wf() && core.dims.wf() ==> final(self).wf(),
    {
        self.update(name, Cell::Core(core));
    }

    /// Stores a logic block under a name.
    pub fn add_logic(&mut self, name: &String, logic: Logic)
        ensures
            section_upserted(old(self).logic, name@, Cell::Logic(logic), final(self).logic),
            final(self).core == old(self).core,
            final(self).switch == old(self).switch,
            final(self).adc == old(self).adc,
            old(self).wf() && logic.dims.wf() ==> final(self).wf(),
    {
        self.update(name, Cell::Logic(logic));
    }

    /// Stores a switch under a name.
    pub fn add_switch(&mut self, name: &String, switch: Switch)
        ensures
            section_upserted(old(self).switch, name@, Cell::Switch(switch), final(self).switch),
            final(self).core == old(self).core,
            final(self).logic == old(self).logic,
            final(self).adc == old(self).adc,
            old(self).wf() && switch.dims.wf() ==> final(self).wf(),
    {
        self.update(name, Cell::Switch(switch));
    }

    /// Stores a converter under a name.
    pub fn add_adc(&mut self, name: &String, adc: ADC)
        ensures
            section_upserted(old(self).adc, name@, Cell::ADC(adc), final(self).adc),
            final(self).core == old(self).core,
            final(self).logic == old(self).logic,
            final(self).switch == old(self).switch,
            old(self).wf() && adc.dims.wf() ==> final(self).wf(),
    {
        self.update(name, Cell::ADC(adc));
    }
}

/// Index of the last path separator in `s`, or -1 if there is none.
pub open spec fn last_sep(s: Seq<char>) -> int
    decreases s.len(),
{
    if s.len() == 0 {
        -1
    } else if s.last() == '/' {
        s.len() - 1
    } else {
        last_sep(s.drop_last())
    }
}

/// Index of the last dot in `s`, or -1 if there is none.
pub open spec fn last_dot(s: Seq<char>) -> int
    decreases s.len(),
{
    if s.len() == 0 {
        -1
    } else if s.last() == '.' {
        s.len() - 1
    } else {
        last_dot(s.drop_last())
    }
}

/// ASCII lowercase of one character; other characters pass unchanged.
pub open spec fn ascii_lower_char(c: char) -> char {
    if 'A' <= c && c <= 'Z' {
        (((c as u8) + 32) as char)
    } else {
        c
    }
}

/// ASCII lowercase of a character sequence.
pub open spec fn ascii_lower(s: Seq<char>) -> Seq<char> {
    s.map_values(|c: char| ascii_lower_char(c))
}

/// Whether a path carries a database file extension: the file name (after
/// the last `/`) has a suffix after its last dot, that dot is not the file
/// name's leading character, and the suffix is `yaml`, `yml` or `json` up
/// to ASCII case.
pub open spec fn valid_ext_spec(s: Seq<char>) -> bool {
    last_dot(s) > last_sep(s) + 1 && {
        let e = ascii_lower(s.skip(last_dot(s) + 1));
        e == "yaml"@ || e == "yml"@ || e == "json"@
    }
}

/// Lowercases one ASCII letter.
fn lower_char(c: char) -> (r: char)
    ensures
        r == ascii_lower_char(c),
{
    if 'A' <= c && c <= 'Z' {
        ((c as u8) + 32) as char
    } else {
        c
    }
}

/// Compares the suffix of `path` starting at `start`, lowercased, against
/// `word`.
fn suffix_lower_eq(path: &str, start: usize, word: &str) -> (b: bool)
    requires
        start <= path@.len(),
    ensures
        b == (ascii_lower(path@.skip(start as int)) == word@),
{
    let ghost e = ascii_lower(path@.skip(start as int));
    let plen = path.unicode_len();
    let wlen = word.unicode_len();
    if plen - start != wlen {
        proof {
            assert(e.len() == path@.skip(start as int).len());
        }
        return false;
    }
    let mut j: usize = 0;
    while j < wlen
        invariant
            0 <= j <= wlen,
            plen == path@.len(),
            start + wlen == plen,
            wlen == word@.len(),
            e == ascii_lower(path@.skip(start as int)),
            e.len() == wlen,
            forall|k: int| 0 <= k < j ==> e[k] == word@[k],
        decreases wlen - j,
    {
        let pc = lower_char(path.get_char(start + j));
        let wc = word.get_char(j);
        proof {
            assert(e[j as int] == ascii_lower_char(path@.skip(start as int)[j as int]));
            assert(path@.skip(start as int)[j as int] == path@[start + j]);
        }
        if pc != wc {
            return false;
        }
        j = j + 1;
    }
    proof {
        assert(e =~= word@);
    }
    true
}

/// Checks whether a file path has a supported database extension:
/// `yaml`, `yml` or `json`, compared without regard to ASCII case.  The
/// extension is the part of the file name after its last dot; a file name
/// whose only dot is its leading character has none.
pub fn valid_ext(path: &str) -> (b: bool)
    ensures
        b == valid_ext_spec(path@),
{
    let ghost s = path@;
    let len = path.unicode_len();
    let mut last_s: Option<usize> = None;
    let mut last_d: Option<usize> = None;
    let mut i: usize = 0;
    proof {
        assert(s.take(0) =~= Seq::<char>::empty());
    }
    while i < len
        invariant
            0 <= i <= len,
            len == s.len(),
            s == path@,
            last_sep(s.take(i as int)) == match last_s {
                None => -1,
                Some(j) => j as int,
            },
            last_dot(s.take(i as int)) == match last_d {
                None => -1,
                Some(j) => j as int,
            },
            last_s matches Some(j) ==> j < i,
            last_d matches Some(j) ==> j < i,
        decreases len - i,
    {
        let c = path.get_char(i);
        proof {
            assert(s.take(i + 1).drop_last() =~= s.take(i as int));
            assert(s.take(i + 1).last() == s[i as int]);
        }
        if c == '/' {
            last_s = Some(i);
        }
        if c == '.' {
            last_d = Some(i);
        }
        i = i + 1;
    }
    proof {
        assert(s.take(len as int) =~= s);
    }
    match last_d {
        None => false,
        Some(d) => {
            let sep_ok = match last_s {
                None => d >= 1,
                Some(sp) => d > sp + 1,
            };
            if !sep_ok {
                false
            } else {
                let start = d + 1;
                suffix_lower_eq(path, start, "yaml") || suffix_lower_eq(path, start, "yml")
                    || suffix_lower_eq(path, start, "json")
            }
        },
    }
}

/// A found core index is in range and points at a core entry under the
/// given name.
pub proof fn lemma_find_core_props(s: Seq<(String, Cell)>, name: Seq<char>)
    ensures
        match find_core(s, name) {
            Some(i) => 0 <= i < s.len() && s[i].0@ == name && s[i].1 is Core,
            None => true,
        },
    decreases s.len(),
{
    if s.len() > 0 && !(s[0].0@ == name && s[0].1 is Core) {
        lemma_find_core_props(s.drop_first(), name);
        assert(forall|j: int| 0 <= j < s.len() - 1 ==> s.drop_first()[j] == #[trigger] s[j + 1]);
    }
}

/// A core cell looked up in a well-formed database has bounded dimensions.
pub proof fn lemma_core_lookup_wf(db: Database, name: Seq<char>)
    requires
        db.wf(),
    ensures
        match core_lookup(db, name) {
            Some(c) => c.dims.wf(),
            None => true,
        },
{
    match db.core {
        None => {
        },
        Some(v) => {
            lemma_find_core_props(v@, name);
            match find_core(v@, name) {
                Some(i) => {
                    assert(v@[i].1.wf());
                },
                None => {
                },
            }
        },
    }
}

/// The core cell stored under `name`, if any: the first core entry of the
/// core section whose name matches.
pub open spec fn core_lookup(db: Database, name: Seq<char>) -> Option<Core> {
    match db.core {
        None => None,
        Some(v) => match find_core(v@, name) {
            None => None,
            Some(i) => match v@[i].1 {
                Cell::Core(c) => Some(c),
                _ => None,
            },
        },
    }
}

} // verus!
