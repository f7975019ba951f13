use memea::lef::{parse_size, LefError};

#[test]
fn parse_size_reads_a_size_line() {
    let r = parse_size("    SIZE 1.5 BY 2.0 ;").unwrap();
    assert_eq!(r, (1_500_000, 2_000_000));
}

#[test]
fn parse_size_reads_plain_integers() {
    assert_eq!(parse_size("12 34").unwrap(), (12_000_000, 34_000_000));
}

#[test]
fn parse_size_reads_fractions_exactly() {
    assert_eq!(parse_size("SIZE 0.46 BY 1.71 ;").unwrap(), (460_000, 1_710_000));
    assert_eq!(parse_size("0.000001 2").unwrap(), (1, 2_000_000));
}

#[test]
fn parse_size_truncates_past_the_sixth_fraction_digit() {
    assert_eq!(parse_size("0.1234567 2").unwrap(), (123_456, 2_000_000));
}

#[test]
fn parse_size_handles_trailing_and_doubled_dots() {
    // "3." is three; a dot with no digits after it adds nothing, and the
    // second number of "1..5" is the integer five.
    assert_eq!(parse_size("3. 4").unwrap(), (3_000_000, 4_000_000));
    assert_eq!(parse_size("1..5").unwrap(), (1_000_000, 5_000_000));
}

#[test]
fn parse_size_needs_two_numbers() {
    assert_eq!(
        parse_size("no numbers here"),
        Err(LefError::InvalidSize("no numbers here".to_string()))
    );
    assert_eq!(
        parse_size("only 1"),
        Err(LefError::InvalidSize("only 1".to_string()))
    );
}

#[test]
fn parse_size_rejects_out_of_range_numbers() {
    let line = "99999999999999999999999 1";
    assert_eq!(parse_size(line), Err(LefError::InvalidSize(line.to_string())));
}
