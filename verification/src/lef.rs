//! Cell-library text ingestion: the size-line number scanner and the
//! ingestion's typed errors.
//!
//! A size line carries a cell's width and height as decimal numbers.  The
//! scanner extracts the first two numbers of a line exactly, as integer
//! micro-units (millionths of the length unit); fraction digits beyond
//! the sixth place are dropped.  The file handling around it is left to
//! unverified callers.

use vstd::prelude::*;

verus! {

/// Errors that can occur while reading a cell-library text file.
#[derive(Debug, Clone, PartialEq)]
pub enum LefError {
    /// A macro definition line is malformed.
    InvalidMacro(String),
    /// A size line cannot be parsed.
    InvalidSize(String),
}

/// Micro-unit steps per whole unit.
pub const MICRO: u64 = 1000000;

/// A decimal digit.
pub open spec fn is_digit(c: char) -> bool {
    '0' <= c && c <= '9'
}

/// Numeric value of a digit string, most significant digit first.
pub open spec fn digits_val(s: Seq<char>) -> int
    decreases s.len(),
{
    if s.len() == 0 {
        0
    } else {
        digits_val(s.drop_last()) * 10 + (s.last() as int - 48)
    }
}

/// Ten to the `k`th power.
pub open spec fn pow10(k: int) -> int
    decreases k,
{
    if k <= 0 {
        1
    } else {
        10 * pow10(k - 1)
    }
}

/// One past the last digit of the digit run beginning at `i`.
pub open spec fn digit_run_end(s: Seq<char>, i: int) -> int
    decreases s.len() - i,
{
    if i < 0 || i >= s.len() || !is_digit(s[i]) {
        i
    } else {
        digit_run_end(s, i + 1)
    }
}

/// Index of the first digit at or after `i`, or the length if none.
pub open spec fn next_digit(s: Seq<char>, i: int) -> int
    decreases s.len() - i,
{
    if i < 0 || i >= s.len() {
        s.len() as int
    } else if is_digit(s[i]) {
        i
    } else {
        next_digit(s, i + 1)
    }
}

/// End of the number token whose integer part starts at `i`: the integer
/// digit run and, when a dot follows it, the fraction digit run.
pub open spec fn token_end(s: Seq<char>, i: int) -> int {
    let e = digit_run_end(s, i);
    if 0 <= e < s.len() && s[e] == '.' {
        digit_run_end(s, e + 1)
    } else {
        e
    }
}

/// Micro-unit value of a fraction digit string: the first six digits,
/// padded with zeros to six places; digits beyond the sixth are dropped.
pub open spec fn frac_micro(f: Seq<char>) -> int {
    if f.len() >= 6 {
        digits_val(f.take(6))
    } else {
        digits_val(f) * pow10(6 - f.len())
    }
}

/// Micro-unit value of the number token whose integer part starts at the
/// digit position `i`: integer digits, then an optional dot and fraction
/// digits.
pub open spec fn token_micro(s: Seq<char>, i: int) -> int {
    let e = digit_run_end(s, i);
    let frac = if 0 <= e < s.len() && s[e] == '.' {
        s.subrange(e + 1, digit_run_end(s, e + 1))
    } else {
        Seq::<char>::empty()
    };
    digits_val(s.subrange(i, e)) * MICRO + frac_micro(frac)
}

/// The first two decimal numbers of a line, in micro-units: the width and
/// height a size line yields.  `None` when the line holds fewer than two
/// numbers.
pub open spec fn parse_size_spec(s: Seq<char>) -> Option<(int, int)> {
    let d1 = next_digit(s, 0);
    if d1 >= s.len() {
        None
    } else {
        let d2 = next_digit(s, token_end(s, d1));
        if d2 >= s.len() {
            None
        } else {
            Some((token_micro(s, d1), token_micro(s, d2)))
        }
    }
}

/// A digit run never ends before it starts.
proof fn lemma_run_end_ge(s: Seq<char>, i: int)
    ensures
        digit_run_end(s, i) >= i,
    decreases s.len() - i,
{
    if 0 <= i < s.len() && is_digit(s[i]) {
        lemma_run_end_ge(s, i + 1);
    }
}

/// Finds the first digit of `line` at or after `start`.
fn find_digit(line: &str, start: usize, len: usize) -> (r: usize)
    requires
        len == line@.len(),
        start <= len,
    ensures
        r == next_digit(line@, start as int),
        start <= r <= len,
        r < len ==> is_digit(line@[r as int]),
{
    let ghost s = line@;
    let mut i: usize = start;
    while i < len
        invariant
            start <= i <= len,
            len == s.len(),
            s == line@,
            next_digit(s, start as int) == next_digit(s, i as int),
        decreases len - i,
    {
        let c = line.get_char(i);
        if '0' <= c && c <= '9' {
            return i;
        }
        i = i + 1;
    }
    len
}

/// Reads the number token whose integer part starts at the digit position
/// `start`: returns its micro-unit value (`None` when it does not fit in
/// 64 bits) and the position just past the token.
fn scan_number(line: &str, start: usize, len: usize) -> (r: (Option<u64>, usize))
    requires
        len == line@.len(),
        start < len,
        is_digit(line@[start as int]),
    ensures
        r.1 == token_end(line@, start as int),
        start < r.1 <= len,
        match r.0 {
            Some(v) => v == token_micro(line@, start as int),
            None => token_micro(line@, start as int) > u64::MAX,
        },
{
    let ghost s = line@;

    // Integer part, accumulated in 128 bits so that a value past the
    // 64-bit range is detected without a separate check per digit.
    let mut i: usize = start;
    let mut acc: u128 = 0;
    let mut ovf: bool = false;
    proof {
        assert(s.subrange(start as int, start as int) =~= Seq::<char>::empty());
    }
    while i < len
        invariant
            start <= i <= len,
            len == s.len(),
            s == line@,
            digit_run_end(s, start as int) == digit_run_end(s, i as int),
            !ovf ==> acc == digits_val(s.subrange(start as int, i as int)) && acc <= u64::MAX,
            ovf ==> digits_val(s.subrange(start as int, i as int)) > u64::MAX,
        ensures
            start <= i <= len,
            len == s.len(),
            digit_run_end(s, start as int) == i,
            !ovf ==> acc == digits_val(s.subrange(start as int, i as int)) && acc <= u64::MAX,
            ovf ==> digits_val(s.subrange(start as int, i as int)) > u64::MAX,
        decreases len - i,
    {
        let c = line.get_char(i);
        if !('0' <= c && c <= '9') {
            break;
        }
        let d = (c as u8 - 48) as u128;
        proof {
            assert(s.subrange(start as int, i + 1).drop_last() =~= s.subrange(
                start as int,
                i as int,
            ));
            assert(s.subrange(start as int, i + 1).last() == s[i as int]);
            assert(d == s[i as int] as int - 48);
            assert(0 <= d <= 9);
        }
        if !ovf {
            proof {
                assert(acc * 10 + d <= 18446744073709551615u128 * 10 + 9) by (nonlinear_arith)
                    requires
                        acc <= 18446744073709551615u128,
                        d <= 9,
                ;
            }
            let next = acc * 10 + d;
            if next > u64::MAX as u128 {
                ovf = true;
            } else {
                acc = next;
            }
        } else {
            proof {
                let prev = digits_val(s.subrange(start as int, i as int));
                assert(prev * 10 + (s[i as int] as int - 48) > u64::MAX) by (nonlinear_arith)
                    requires
                        prev > u64::MAX,
                        s[i as int] as int - 48 >= 0,
                        u64::MAX == 18446744073709551615u64,
                ;
            }
        }
        i = i + 1;
    }
    let int_end = i;

    // Optional fraction part: the first six digits carry value, the rest
    // only move the token's end.
    let mut facc: u64 = 0;
    let mut fd: usize = 0;
    let mut end = int_end;
    let ghost has_frac = int_end < len && s[int_end as int] == '.';
    let ghost fstart = int_end as int + 1;
    if int_end < len && line.get_char(int_end) == '.' {
        let mut j = int_end + 1;
        proof {
            assert(s.subrange(fstart, fstart) =~= Seq::<char>::empty());
            assert(pow10(0) == 1);
        }
        while j < len
            invariant
                fstart <= j <= len,
                len == s.len(),
                s == line@,
                fstart == int_end + 1 <= len,
                digit_run_end(s, fstart) == digit_run_end(s, j as int),
                forall|k: int| fstart <= k < j ==> is_digit(#[trigger] s[k]),
                fd == j - fstart,
                fd <= 6 ==> facc == digits_val(s.subrange(fstart, j as int)) && facc < pow10(
                    fd as int,
                ),
                fd > 6 ==> facc == digits_val(s.subrange(fstart, fstart + 6)),
                facc < 1000000,
            ensures
                fstart <= j <= len,
                digit_run_end(s, fstart) == j,
                forall|k: int| fstart <= k < j ==> is_digit(#[trigger] s[k]),
                fd == j - fstart,
                fd <= 6 ==> facc == digits_val(s.subrange(fstart, j as int)) && facc < pow10(
                    fd as int,
                ),
                fd > 6 ==> facc == digits_val(s.subrange(fstart, fstart + 6)),
                facc < 1000000,
            decreases len - j,
        {
            let c = line.get_char(j);
            if !('0' <= c && c <= '9') {
                break;
            }
            let d = (c as u8 - 48) as u64;
            proof {
                assert(s.subrange(fstart, j + 1).drop_last() =~= s.subrange(fstart, j as int));
                assert(s.subrange(fstart, j + 1).last() == s[j as int]);
                assert(d == s[j as int] as int - 48);
                assert(0 <= d <= 9);
            }
            if fd < 6 {
                proof {
                    assert(pow10(fd + 1) == 10 * pow10(fd as int));
                    assert(pow10(fd as int) <= 100000) by {
                        assert(pow10(0) == 1);
                        assert(pow10(1) == 10);
                        assert(pow10(2) == 100);
                        assert(pow10(3) == 1000);
                        assert(pow10(4) == 10000);
                        assert(pow10(5) == 100000);
                    }
                }
                facc = facc * 10 + d;
                proof {
                    if fd + 1 == 6 {
                        assert(s.subrange(fstart, j + 1) =~= s.subrange(fstart, fstart + 6));
                        assert(pow10(6) == 10 * pow10(5));
                    }
                }
            }
            fd = fd + 1;
            j = j + 1;
        }
        end = j;
    }

    // Combine: integer part in micro-units plus the fraction value.
    let ghost f = if has_frac {
        s.subrange(fstart, end as int)
    } else {
        Seq::<char>::empty()
    };
    let scale: u64 = if fd == 0 {
        1000000
    } else if fd == 1 {
        100000
    } else if fd == 2 {
        10000
    } else if fd == 3 {
        1000
    } else if fd == 4 {
        100
    } else if fd == 5 {
        10
    } else {
        1
    };
    proof {
        assert(pow10(0) == 1);
        assert(pow10(1) == 10);
        assert(pow10(2) == 100);
        assert(pow10(3) == 1000);
        assert(pow10(4) == 10000);
        assert(pow10(5) == 100000);
        assert(pow10(6) == 1000000);
    }
    let ghost frac_spec = frac_micro(f);
    proof {
        if has_frac {
            assert(f.len() == fd);
            if fd >= 6 {
                assert(f.take(6) =~= s.subrange(fstart, fstart + 6));
                assert(frac_spec == facc);
            } else {
                assert(f =~= s.subrange(fstart, end as int));
                assert(frac_spec == facc * pow10(6 - fd));
                assert(frac_spec == facc * scale);
            }
        } else {
            assert(f.len() == 0);
            assert(frac_spec == 0);
        }
        assert(facc * scale < 1000000 * 1000000) by (nonlinear_arith)
            requires
                facc < 1000000u64,
                scale <= 1000000u64,
        ;
        assert(token_end(s, start as int) == end);
        lemma_run_end_ge(s, start as int + 1);
        assert(int_end > start);
    }
    let frac_value: u64 = facc * scale;
    proof {
        if fd >= 6 {
            assert(frac_value == facc);
        }
        assert(frac_value == frac_spec);
        assert(frac_value < 1000000000000);
        assert(token_micro(s, start as int) == digits_val(
            s.subrange(start as int, int_end as int),
        ) * MICRO + frac_spec);
    }
    if ovf {
        proof {
            let iv = digits_val(s.subrange(start as int, int_end as int));
            assert(iv * 1000000 + frac_spec > u64::MAX) by (nonlinear_arith)
                requires
                    iv > u64::MAX,
                    frac_spec >= 0,
                    u64::MAX == 18446744073709551615u64,
            ;
        }
        return (None, end);
    }
    proof {
        assert((acc as int) * 1000000 + frac_value <= 18446744073709551615 * 1000000
            + 1000000000000) by (nonlinear_arith)
            requires
                acc <= 18446744073709551615u128,
                frac_value < 1000000000000u64,
        ;
    }
    let total: u128 = acc * 1000000 + frac_value as u128;
    if total > u64::MAX as u128 {
        return (None, end);
    }
    (Some(total as u64), end)
}

/// Extracts a size line's width and height as exact micro-unit values:
/// the line's first two decimal numbers.  Fails when the line holds fewer
/// than two numbers, or a number exceeds the 64-bit micro-unit range.
pub fn parse_size(line: &str) -> (r: Result<(u64, u64), LefError>)
    ensures
        match parse_size_spec(line@) {
            Some(wh) => {
                &&& (wh.0 <= u64::MAX && wh.1 <= u64::MAX) ==> (r matches Ok(p) && p.0 == wh.0
                    && p.1 == wh.1)
                &&& !(wh.0 <= u64::MAX && wh.1 <= u64::MAX) ==> (r matches Err(e)
                    && e matches LefError::InvalidSize(t) && t@ == line@)
            },
            None => r matches Err(e) && e matches LefError::InvalidSize(t) && t@ == line@,
        },
{
    let len = line.unicode_len();
    let d1 = find_digit(line, 0, len);
    if d1 >= len {
        return Err(LefError::InvalidSize(line.to_owned()));
    }
    let (v1, e1) = scan_number(line, d1, len);
    let d2 = find_digit(line, e1, len);
    if d2 >= len {
        return Err(LefError::InvalidSize(line.to_owned()));
    }
    let (v2, _e2) = scan_number(line, d2, len);
    match (v1, v2) {
        (Some(w), Some(h)) => Ok((w, h)),
        _ => Err(LefError::InvalidSize(line.to_owned())),
    }
}

} // verus!
