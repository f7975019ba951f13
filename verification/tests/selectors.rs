use memea::db::{Cell, CellList, DBError, Dims, Logic, Requirement, Switch, ADC};
use memea::frac::Frac;
use memea::tabulate::{ceil_log2, locate_adc, locate_logic, locate_switch};

fn dims(w: u64, h: u64, ex: u64, ey: u64) -> Dims {
    Dims { size: (w, h), enc: (ex, ey) }
}

fn switch(dx: u64, vmin: i64, vmax: i64, w: u64, h: u64) -> Cell {
    Cell::Switch(Switch { dx, voltage: (vmin, vmax), dims: dims(w, h, 0, 0) })
}

fn logic(dx: u64, bits: u64, w: u64, h: u64) -> Cell {
    Cell::Logic(Logic { dx, bits, fs: 0, dims: dims(w, h, 0, 0) })
}

fn adc(enob: u64, fs: u64, w: u64, h: u64) -> Cell {
    Cell::ADC(ADC { enob, fs, dims: dims(w, h, 0, 0) })
}

#[test]
fn selector_picks_minimal_area() {
    let cands: CellList = vec![
        ("big".to_string(), switch(5, 0, 5, 4, 4)),
        ("small".to_string(), switch(5, 0, 5, 1, 1)),
        ("medium".to_string(), switch(5, 0, 5, 2, 2)),
    ];
    let r = locate_switch(&cands, 1, Frac { num: 5, den: 1 }, (1, 1)).unwrap();
    assert_eq!(r.0, "small");
}

#[test]
fn selector_tie_goes_to_later_candidate() {
    // Exact area ties are won by the candidate iterated later.
    let cands: CellList = vec![
        ("first".to_string(), switch(5, 0, 5, 2, 3)),
        ("second".to_string(), switch(5, 0, 5, 3, 2)),
        ("third".to_string(), switch(5, 0, 5, 6, 1)),
    ];
    let r = locate_switch(&cands, 1, Frac { num: 1, den: 1 }, (1, 1)).unwrap();
    assert_eq!(r.0, "third");
}

#[test]
fn selector_ignores_unqualified_candidates() {
    let cands: CellList = vec![
        ("tiny_but_weak".to_string(), switch(1, 0, 5, 1, 1)),
        ("wrong_range".to_string(), switch(9, 2, 5, 1, 1)),
        ("fits".to_string(), switch(9, 0, 5, 3, 3)),
    ];
    let r = locate_switch(&cands, 1, Frac { num: 8, den: 1 }, (1, 1)).unwrap();
    assert_eq!(r.0, "fits");
    assert_eq!(r.1.dx, 9);
}

#[test]
fn selector_respects_voltage_bounds_inclusively() {
    let cands: CellList = vec![("s".to_string(), switch(1, -2, 3, 1, 1))];
    let dx = Frac { num: 1, den: 1 };
    assert!(locate_switch(&cands, -2, dx, (1, 1)).is_ok());
    assert!(locate_switch(&cands, 3, dx, (1, 1)).is_ok());
    assert!(locate_switch(&cands, -3, dx, (1, 1)).is_err());
    assert!(locate_switch(&cands, 4, dx, (1, 1)).is_err());
}

#[test]
fn selector_reports_unmet_requirement() {
    let cands: CellList = vec![("l".to_string(), logic(2, 1, 1, 1))];
    let dx = Frac { num: 16, den: 2 };
    let r = locate_logic(&cands, dx, 3, (1, 1));
    assert_eq!(
        r,
        Err(DBError::NoSuitableCells(Requirement::Logic { dx, bits: 3 }))
    );
}

#[test]
fn selector_on_empty_collection_fails() {
    let cands: CellList = Vec::new();
    let r = locate_adc(&cands, 10, 4, (1, 2));
    assert_eq!(
        r,
        Err(DBError::NoSuitableCells(Requirement::Adc { fs: 10, bits: 4 }))
    );
}

#[test]
fn selector_fractional_drive_comparison_is_exact() {
    // Requirement 9/2 = 4.5: dx 4 fails, dx 5 qualifies; no rounding.
    let cands: CellList = vec![
        ("four".to_string(), logic(4, 0, 1, 1)),
        ("five".to_string(), logic(5, 0, 9, 9)),
    ];
    let r = locate_logic(&cands, Frac { num: 9, den: 2 }, 0, (1, 1)).unwrap();
    assert_eq!(r.0, "five");
}

#[test]
fn adc_selector_matches_rate_and_bits() {
    let cands: CellList = vec![
        ("slow".to_string(), adc(8, 10, 1, 1)),
        ("coarse".to_string(), adc(3, 100, 1, 1)),
        ("good".to_string(), adc(4, 100, 2, 2)),
    ];
    let r = locate_adc(&cands, 100, 4, (1, 4)).unwrap();
    assert_eq!(r.0, "good");
    assert_eq!(r.1.enob, 4);
}

#[test]
fn selector_is_deterministic() {
    let cands: CellList = vec![
        ("a".to_string(), switch(5, 0, 5, 2, 2)),
        ("b".to_string(), switch(5, 0, 5, 2, 2)),
    ];
    let dx = Frac { num: 3, den: 1 };
    let r1 = locate_switch(&cands, 2, dx, (4, 1));
    let r2 = locate_switch(&cands, 2, dx, (4, 1));
    assert_eq!(r1, r2);
    assert_eq!(r1.unwrap().0, "b");
}

#[test]
fn decode_bit_widths() {
    assert_eq!(ceil_log2(1), 0);
    assert_eq!(ceil_log2(2), 1);
    assert_eq!(ceil_log2(3), 2);
    assert_eq!(ceil_log2(4), 2);
    assert_eq!(ceil_log2(5), 3);
    assert_eq!(ceil_log2(6), 3);
    assert_eq!(ceil_log2(8), 3);
    assert_eq!(ceil_log2(9), 4);
    assert_eq!(ceil_log2(1024), 10);
}
