use memea::config::Config;
use memea::db::{Cell, CellType, Core, DBError, Database, Dims, Logic, Switch, ADC};
use memea::export::area;
use memea::frac::Frac;
use memea::tabulate::{tabulate, Location};

fn dims(w: u64, h: u64, ex: u64, ey: u64) -> Dims {
    Dims { size: (w, h), enc: (ex, ey) }
}

fn base_config(cell: &str) -> Config {
    Config {
        name: None,
        n: 4,
        m: 4,
        cell: cell.to_string(),
        bl: None,
        wl: None,
        well: None,
        adcs: None,
        bits: None,
        fs: None,
    }
}

fn catalog_a() -> Database {
    let core = Core { dx_wl: 1, dx_bl: 1, dims: dims(1, 1, 0, 0) };
    Database {
        core: Some(vec![("c0".to_string(), Cell::Core(core))]),
        logic: Some(Vec::new()),
        switch: Some(Vec::new()),
        adc: Some(Vec::new()),
    }
}

fn catalog_b() -> Database {
    let mut db = catalog_a();
    let sw = Switch { dx: 10, voltage: (0, 5), dims: dims(2, 1, 0, 0) };
    let lg = Logic { dx: 10, bits: 2, fs: 0, dims: dims(1, 1, 0, 0) };
    db.switch = Some(vec![("sw0".to_string(), Cell::Switch(sw))]);
    db.logic = Some(vec![("lg0".to_string(), Cell::Logic(lg))]);
    db
}

#[test]
fn scenario_core_only() {
    let db = catalog_a();
    let config = base_config("c0");
    let reports = tabulate(&config, &db, Frac::one()).unwrap();
    assert_eq!(reports.len(), 1);
    let r = &reports[0];
    assert_eq!(r.name, "c0");
    assert_eq!(r.count, 16);
    assert_eq!(r.celltype, CellType::Core);
    assert_eq!(r.loc, Location::Array);
    assert_eq!(r.area, Frac { num: 16, den: 1 });
}

#[test]
fn scenario_wordline_rail() {
    let db = catalog_b();
    let mut config = base_config("c0");
    config.wl = Some(vec![1, 2]);
    let reports = tabulate(&config, &db, Frac::one()).unwrap();
    assert_eq!(reports.len(), 4);

    // One switch per wordline voltage, replicated per row.
    for r in &reports[1..3] {
        assert_eq!(r.name, "sw0");
        assert_eq!(r.count, 4);
        assert_eq!(r.celltype, CellType::Switch);
        assert_eq!(r.loc, Location::WL);
        assert_eq!(r.area, Frac { num: 8, den: 1 });
    }

    // One decoder logic block for the rail.
    let lg = &reports[3];
    assert_eq!(lg.name, "lg0");
    assert_eq!(lg.count, 4);
    assert_eq!(lg.celltype, CellType::Logic);
    assert_eq!(lg.loc, Location::WL);
    assert_eq!(lg.area, Frac { num: 4, den: 1 });
}

#[test]
fn scenario_missing_core_cell() {
    let db = catalog_b();
    let mut config = base_config("nope");
    config.wl = Some(vec![1]);
    let r = tabulate(&config, &db, Frac::one());
    assert_eq!(r, Err(DBError::MissingCell("nope".to_string())));
}

#[test]
fn bitline_rail_uses_row_drive_and_column_tiling() {
    // rows=2, cols=3; bitline drive requirement is rows * dx_bl = 2 * 4 = 8.
    let core = Core { dx_wl: 2, dx_bl: 4, dims: dims(1, 1, 0, 0) };
    let sw = Switch { dx: 8, voltage: (-5, 5), dims: dims(1, 2, 0, 0) };
    let lg = Logic { dx: 4, bits: 0, fs: 0, dims: dims(2, 2, 0, 0) };
    let db = Database {
        core: Some(vec![("c".to_string(), Cell::Core(core))]),
        logic: Some(vec![("l".to_string(), Cell::Logic(lg))]),
        switch: Some(vec![("s".to_string(), Cell::Switch(sw))]),
        adc: Some(Vec::new()),
    };
    let mut config = base_config("c");
    config.n = 2;
    config.m = 3;
    config.bl = Some(vec![-1]);
    let reports = tabulate(&config, &db, Frac::one()).unwrap();
    assert_eq!(reports.len(), 3);
    // Core: tiling (2 rows, 3 cols) of a 1x1 cell.
    assert_eq!(reports[0].area, Frac { num: 6, den: 1 });
    assert_eq!(reports[0].count, 6);
    // Switch at tiling (1, 3): width span 3*1, height span 1*2.
    let s = &reports[1];
    assert_eq!(s.name, "s");
    assert_eq!(s.count, 3);
    assert_eq!(s.loc, Location::BL);
    assert_eq!(s.area, Frac { num: 6, den: 1 });
    // Logic at tiling (1, 3): drive requirement 8 * 0.5 = 4, bits 0.
    let l = &reports[2];
    assert_eq!(l.name, "l");
    assert_eq!(l.count, 3);
    assert_eq!(l.loc, Location::BL);
    assert_eq!(l.area, Frac { num: 12, den: 1 });
}

#[test]
fn well_rail_fractional_drive() {
    // Well switch requirement: cols * (dx_wl + dx_bl) / 8 = 3 * 6 / 8 = 2.25.
    let core = Core { dx_wl: 2, dx_bl: 4, dims: dims(1, 1, 0, 0) };
    let weak = Switch { dx: 2, voltage: (-10, 10), dims: dims(1, 1, 0, 0) };
    let strong = Switch { dx: 3, voltage: (-10, 10), dims: dims(1, 1, 0, 0) };
    // Well logic requirement: half of 2.25, so dx 2 qualifies.
    let lg = Logic { dx: 2, bits: 0, fs: 0, dims: dims(5, 1, 0, 0) };
    let db = Database {
        core: Some(vec![("c".to_string(), Cell::Core(core))]),
        logic: Some(vec![("l".to_string(), Cell::Logic(lg))]),
        switch: Some(vec![
            ("weak".to_string(), Cell::Switch(weak)),
            ("strong".to_string(), Cell::Switch(strong)),
        ]),
        adc: Some(Vec::new()),
    };
    let mut config = base_config("c");
    config.n = 2;
    config.m = 3;
    config.well = Some(vec![0]);
    let reports = tabulate(&config, &db, Frac::one()).unwrap();
    assert_eq!(reports.len(), 3);
    // dx 2 gives 2*8 = 16 < 18, so only the stronger switch qualifies.
    let s = &reports[1];
    assert_eq!(s.name, "strong");
    assert_eq!(s.count, 3);
    assert_eq!(s.loc, Location::Well);
    assert_eq!(s.celltype, CellType::Switch);
    assert_eq!(s.area, Frac { num: 3, den: 1 });
    // The shared well logic block sits at tiling (1, 1) with one replica.
    let l = &reports[2];
    assert_eq!(l.name, "l");
    assert_eq!(l.count, 1);
    assert_eq!(l.loc, Location::Well);
    assert_eq!(l.area, Frac { num: 5, den: 1 });
}

#[test]
fn adc_bank_complete_specification() {
    let core = Core { dx_wl: 1, dx_bl: 1, dims: dims(1, 1, 0, 0) };
    let adc = ADC { enob: 4, fs: 100, dims: dims(2, 3, 0, 0) };
    let db = Database {
        core: Some(vec![("c".to_string(), Cell::Core(core))]),
        logic: Some(Vec::new()),
        switch: Some(Vec::new()),
        adc: Some(vec![("a".to_string(), Cell::ADC(adc))]),
    };
    let mut config = base_config("c");
    config.bits = Some(4);
    config.fs = Some(100);
    config.adcs = Some(8);
    let reports = tabulate(&config, &db, Frac::one()).unwrap();
    assert_eq!(reports.len(), 2);
    let a = &reports[1];
    assert_eq!(a.name, "a");
    assert_eq!(a.count, 8);
    assert_eq!(a.celltype, CellType::ADC);
    assert_eq!(a.loc, Location::BL);
    // Tiling (1, 8): width span 8*2, height span 1*3.
    assert_eq!(a.area, Frac { num: 48, den: 1 });
}

#[test]
fn adc_bank_partial_specification_is_skipped() {
    let db = catalog_a();
    let mut config = base_config("c0");
    config.bits = Some(4);
    config.fs = Some(100);
    // adcs missing: the bank is an omission, not an error.
    let reports = tabulate(&config, &db, Frac::one()).unwrap();
    assert_eq!(reports.len(), 1);
}

#[test]
fn absent_and_empty_rail_lists_are_skipped() {
    let db = catalog_a();
    // Absent: no entry, no error.
    let absent = base_config("c0");
    let r1 = tabulate(&absent, &db, Frac::one()).unwrap();
    assert_eq!(r1.len(), 1);
    // Present but empty: treated like absent (no entry, no error).
    let mut empty = base_config("c0");
    empty.wl = Some(Vec::new());
    empty.bl = Some(Vec::new());
    empty.well = Some(Vec::new());
    let r2 = tabulate(&empty, &db, Frac::one()).unwrap();
    assert_eq!(r2.len(), 1);
}

#[test]
fn unsuitable_switch_aborts_with_requirement() {
    let db = catalog_b();
    let mut config = base_config("c0");
    // Voltage 9 is outside sw0's range (0..=5).
    config.wl = Some(vec![9]);
    let r = tabulate(&config, &db, Frac::one());
    match r {
        Err(DBError::NoSuitableCells(memea::db::Requirement::Switch { voltage, dx })) => {
            assert_eq!(voltage, 9);
            // Wordline drive requirement: cols * dx_wl = 4.
            assert_eq!(dx, Frac { num: 4, den: 1 });
        }
        other => panic!("expected a switch requirement failure, got {:?}", other),
    }
}

#[test]
fn missing_switch_section_fails_for_configured_rail() {
    let mut db = catalog_b();
    db.switch = None;
    let mut config = base_config("c0");
    config.wl = Some(vec![1]);
    let r = tabulate(&config, &db, Frac::one());
    assert_eq!(r, Err(DBError::InvalidDatabase(CellType::Switch)));
}

#[test]
fn scaling_is_exactly_linear() {
    let db = catalog_b();
    let mut config = base_config("c0");
    config.wl = Some(vec![1, 2]);
    let s = Frac { num: 3, den: 2 };
    let scaled = tabulate(&config, &db, s).unwrap();
    let unit = tabulate(&config, &db, Frac::one()).unwrap();
    assert_eq!(scaled.len(), unit.len());
    for (rs, r1) in scaled.iter().zip(unit.iter()) {
        // area_s == s * area_1, as exact rationals.
        assert_eq!(rs.area.num, r1.area.num * 3);
        assert_eq!(rs.area.den, 2);
        assert_eq!(r1.area.den, 1);
    }
    let total_s = area(&scaled).unwrap();
    let total_1 = area(&unit).unwrap();
    // total(config, catalog, s) == s * total(config, catalog, 1), cross-multiplied.
    assert_eq!(total_s.num * (s.den * total_1.den), s.num * total_1.num * total_s.den);
    // Concretely: raw total 16 + 8 + 8 + 4 = 36.
    assert_eq!(total_1, Frac { num: 36, den: 1 });
    assert_eq!(total_s, Frac { num: 108, den: 2 });
}

#[test]
fn tabulation_is_deterministic() {
    let db = catalog_b();
    let mut config = base_config("c0");
    config.wl = Some(vec![1, 2]);
    config.bl = Some(vec![0]);
    let first = tabulate(&config, &db, Frac::one());
    let second = tabulate(&config, &db, Frac::one());
    assert_eq!(first, second);
}
