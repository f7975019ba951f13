use memea::config::Config;
use memea::db::{valid_ext, Cell, CellType, Core, DBError, Database, Dims, Logic, Switch, ADC};
use memea::export::area;
use memea::frac::Frac;
use memea::gds::bounding_box;
use memea::scale;
use memea::tabulate::{Location, Report};

fn dims(w: u64, h: u64, ex: u64, ey: u64) -> Dims {
    Dims { size: (w, h), enc: (ex, ey) }
}

#[test]
fn retrieve_missing_section_is_invalid_database() {
    let db = Database {
        core: Some(Vec::new()),
        logic: Some(Vec::new()),
        switch: Some(Vec::new()),
        adc: None,
    };
    let r = db.retrieve(CellType::ADC);
    assert!(matches!(r, Err(DBError::InvalidDatabase(CellType::ADC))));
    // A present-but-empty section is a successful (empty) view instead.
    let v = db.retrieve(CellType::Logic).unwrap();
    assert_eq!(v.len(), 0);
}

#[test]
fn retrieve_returns_the_kinds_own_section() {
    let mut db = Database::new();
    db.add_switch(
        &"s".to_string(),
        Switch { dx: 1, voltage: (0, 1), dims: dims(1, 1, 0, 0) },
    );
    db.add_logic(&"l".to_string(), Logic { dx: 1, bits: 1, fs: 0, dims: dims(1, 1, 0, 0) });
    let sw = db.retrieve(CellType::Switch).unwrap();
    assert_eq!(sw.len(), 1);
    assert_eq!(sw[0].0, "s");
    let lg = db.retrieve(CellType::Logic).unwrap();
    assert_eq!(lg.len(), 1);
    assert_eq!(lg[0].0, "l");
}

#[test]
fn get_core_finds_and_misses() {
    let mut db = Database::new();
    let core = Core { dx_wl: 3, dx_bl: 7, dims: dims(2, 2, 1, 1) };
    db.add_core(&"sram".to_string(), core);
    let found = db.get_core(&"sram".to_string()).unwrap();
    assert_eq!(found, core);
    let missing = db.get_core(&"dram".to_string());
    assert_eq!(missing, Err(DBError::MissingCell("dram".to_string())));
}

#[test]
fn get_core_on_missing_section() {
    let db = Database { core: None, logic: None, switch: None, adc: None };
    let r = db.get_core(&"x".to_string());
    assert_eq!(r, Err(DBError::MissingCell("x".to_string())));
}

#[test]
fn update_replaces_and_moves_to_end() {
    let mut db = Database::new();
    let a1 = Core { dx_wl: 1, dx_bl: 1, dims: dims(1, 1, 0, 0) };
    let b = Core { dx_wl: 2, dx_bl: 2, dims: dims(1, 1, 0, 0) };
    let a2 = Core { dx_wl: 9, dx_bl: 9, dims: dims(1, 1, 0, 0) };
    db.add_core(&"a".to_string(), a1);
    db.add_core(&"b".to_string(), b);
    db.add_core(&"a".to_string(), a2);
    let sec = db.retrieve(CellType::Core).unwrap();
    assert_eq!(sec.len(), 2);
    assert_eq!(sec[0].0, "b");
    assert_eq!(sec[1].0, "a");
    assert_eq!(db.get_core(&"a".to_string()).unwrap(), a2);
}

#[test]
fn update_dispatches_by_kind() {
    let mut db = Database::new();
    db.update(&"x".to_string(), Cell::ADC(ADC { enob: 1, fs: 1, dims: dims(1, 1, 0, 0) }));
    db.update(&"x".to_string(), Cell::Core(Core { dx_wl: 1, dx_bl: 1, dims: dims(1, 1, 0, 0) }));
    assert_eq!(db.retrieve(CellType::ADC).unwrap().len(), 1);
    assert_eq!(db.retrieve(CellType::Core).unwrap().len(), 1);
    assert_eq!(db.retrieve(CellType::Switch).unwrap().len(), 0);
}

#[test]
fn dims_area_applies_enclosure_on_both_axes() {
    let d = Dims::from(2, 3, 1, 4);
    // (cols*w + 2*enc_x) * (rows*h + 2*enc_y) at 5 rows, 7 columns.
    assert_eq!(d.area((5, 7)), (7 * 2 + 2) * (5 * 3 + 8));
    assert_eq!(Dims::new().area((3, 3)), 0);
}

#[test]
fn cell_area_matches_its_dims() {
    let c = Cell::Logic(Logic { dx: 1, bits: 1, fs: 0, dims: dims(2, 3, 1, 1) });
    assert_eq!(c.area((1, 1)), (1 * 2 + 2) * (1 * 3 + 2));
    assert_eq!(c.dims(), dims(2, 3, 1, 1));
}

#[test]
fn kind_labels() {
    assert_eq!(CellType::Core.label(), "Core");
    assert_eq!(CellType::Logic.label(), "Logic");
    assert_eq!(CellType::ADC.label(), "ADC");
    assert_eq!(CellType::Switch.label(), "Switch");
    assert_eq!(Location::Array.label(), "Array");
    assert_eq!(Location::WL.label(), "WL");
    assert_eq!(Location::BL.label(), "BL");
    assert_eq!(Location::Well.label(), "Well");
}

#[test]
fn valid_ext_accepts_database_extensions() {
    assert!(valid_ext("db.yaml"));
    assert!(valid_ext("db.yml"));
    assert!(valid_ext("db.json"));
    assert!(valid_ext("DB.YAML"));
    assert!(valid_ext("path/to/components.Json"));
    assert!(valid_ext("a.b/c.d.yml"));
}

#[test]
fn valid_ext_rejects_everything_else() {
    assert!(!valid_ext("db.txt"));
    assert!(!valid_ext("noextension"));
    assert!(!valid_ext(".yaml"));
    assert!(!valid_ext("dir/.json"));
    assert!(!valid_ext("dir.json/file"));
    assert!(!valid_ext("db.jsonx"));
    assert!(!valid_ext("db.yml."));
    assert!(!valid_ext(""));
}

#[test]
fn technology_scale_is_an_exact_ratio() {
    let s = scale(65, 22);
    assert_eq!(s, Frac { num: 950, den: 5200 });
    let unknown = scale(65, 99);
    assert_eq!(unknown, Frac { num: 1, den: 1 });
    let unknown2 = scale(99, 22);
    assert_eq!(unknown2, Frac { num: 1, den: 1 });
}

#[test]
fn total_area_sums_shared_denominator() {
    let entry = |num: u128, den: u128| Report {
        name: "x".to_string(),
        count: 1,
        celltype: CellType::Core,
        loc: Location::Array,
        area: Frac { num, den },
    };
    let empty: Vec<Report> = Vec::new();
    assert_eq!(area(&empty), Some(Frac { num: 0, den: 1 }));
    let uniform = vec![entry(3, 2), entry(5, 2)];
    assert_eq!(area(&uniform), Some(Frac { num: 8, den: 2 }));
    let mixed = vec![entry(3, 2), entry(5, 4)];
    assert_eq!(area(&mixed), None);
    let overflowing = vec![entry(u128::MAX, 1), entry(1, 1)];
    assert_eq!(area(&overflowing), None);
}

#[test]
fn bounding_box_of_points() {
    let empty: Vec<(i64, i64)> = Vec::new();
    assert_eq!(bounding_box(&empty), None);
    let pts = vec![(3, -1), (0, 4), (-2, 2), (5, 0)];
    assert_eq!(bounding_box(&pts), Some(((-2, -1), (5, 4))));
    let single = vec![(7, 7)];
    assert_eq!(bounding_box(&single), Some(((7, 7), (7, 7))));
}

#[test]
fn wellformedness_checks() {
    let mut db = Database::new();
    assert!(db.check());
    db.add_core(&"c".to_string(), Core { dx_wl: 1, dx_bl: 1, dims: dims(1, 1, 0, 0) });
    assert!(db.check());
    // An out-of-range width fails the check.
    db.add_core(&"huge".to_string(), Core { dx_wl: 1, dx_bl: 1, dims: dims(1 << 60, 1, 0, 0) });
    assert!(!db.check());

    let config = Config {
        name: None,
        n: 4,
        m: 4,
        cell: "c".to_string(),
        bl: None,
        wl: None,
        well: None,
        adcs: None,
        bits: None,
        fs: None,
    };
    assert!(config.check());
    let bad = Config { n: 1 << 40, ..config };
    assert!(!bad.check());
}

#[test]
fn area_at_the_supported_extremes() {
    // The largest admissible dimensions at the largest admissible tiling
    // still compute exactly, with no overflow.
    let big = 16777216u64; // largest admissible length
    let tile = 1048576u64; // largest admissible tiling count
    let d = Dims::from(big, big, big, big);
    let span = tile as u128 * big as u128 + 2 * big as u128;
    assert_eq!(d.area((tile, tile)), span * span);
}

#[test]
fn largest_rail_list() {
    let core = Core { dx_wl: 1, dx_bl: 1, dims: dims(1, 1, 0, 0) };
    let sw = Switch { dx: u64::MAX, voltage: (i64::MIN, i64::MAX), dims: dims(1, 1, 0, 0) };
    let lg = Logic { dx: u64::MAX, bits: 64, fs: 0, dims: dims(1, 1, 0, 0) };
    let db = Database {
        core: Some(vec![("c".to_string(), Cell::Core(core))]),
        logic: Some(vec![("l".to_string(), Cell::Logic(lg))]),
        switch: Some(vec![("s".to_string(), Cell::Switch(sw))]),
        adc: Some(Vec::new()),
    };
    let config = Config {
        name: None,
        n: 2,
        m: 2,
        cell: "c".to_string(),
        bl: None,
        wl: Some(vec![0; 65536]),
        well: None,
        adcs: None,
        bits: None,
        fs: None,
    };
    assert!(config.check());
    let reports = memea::tabulate::tabulate(&config, &db, Frac::one()).unwrap();
    // One core entry, one switch per voltage, one decoder block.
    assert_eq!(reports.len(), 1 + 65536 + 1);
    let total = area(&reports).unwrap();
    // Core 4, switches 2 each, logic 2: ceil(log2(65536)) = 16 <= 64 bits.
    assert_eq!(total, Frac { num: 4 + 65536 * 2 + 2, den: 1 });
}

#[test]
fn configuration_check_boundaries() {
    let config = Config {
        name: None,
        n: 1048576,
        m: 1048576,
        cell: "c".to_string(),
        bl: None,
        wl: None,
        well: None,
        adcs: Some(1048576),
        bits: None,
        fs: None,
    };
    assert!(config.check());
    let over = Config { n: 1048577, ..config };
    assert!(!over.check());
}

#[test]
fn frac_constructors() {
    assert_eq!(Frac::one(), Frac { num: 1, den: 1 });
    assert_eq!(Frac::new(7, 10), Frac { num: 7, den: 10 });
}

#[test]
fn defaults_are_empty() {
    assert_eq!(Dims::default(), Dims::new());
    let db = Database::default();
    assert_eq!(db.retrieve(CellType::Core).unwrap().len(), 0);
    assert_eq!(db.retrieve(CellType::ADC).unwrap().len(), 0);
}
