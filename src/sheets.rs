//! Dates as a spreadsheet writes them, and the shape of a spreadsheet's
//! batch of value ranges.

use vstd::prelude::*;

use crate::text::{pieces, push_str, split_char};

verus! {

/// A batch of value ranges read from one spreadsheet.
#[derive(Clone, Debug, PartialEq, Eq)]
pub struct BatchGet {
    pub spreadsheet_id: String,
    pub value_ranges: Vec<ValueRange>,
}

/// The cells of one range, row by row or column by column.
#[derive(Clone, Debug, PartialEq, Eq)]
pub struct ValueRange {
    pub range: String,
    pub major_dimension: String,
    pub values: Vec<Vec<String>>,
}

/// Why a text is not a decimal integer of the asked type.
#[derive(Clone, Copy, Debug, PartialEq, Eq)]
pub enum IntError {
    Empty,
    InvalidDigit,
    PosOverflow,
    NegOverflow,
}

pub open spec fn is_digit(c: char) -> bool {
    '0' <= c && c <= '9'
}

pub open spec fn digit_value(c: char) -> int {
    (c as u32) - 48
}

/// Reads the digits of `d` from position `i` on into `acc`: magnitudes above
/// `limit` overflow (`neg` says on which side); the first character that is
/// not a digit, or the first overflow, ends the reading.
pub open spec fn scan(d: Seq<char>, i: int, acc: int, limit: int, neg: bool) -> Result<int, IntError>
    decreases d.len() - i,
{
    if i < 0 || i >= d.len() {
        Ok(acc)
    } else if !is_digit(d[i]) {
        Err(IntError::InvalidDigit)
    } else if acc * 10 + digit_value(d[i]) > limit {
        if neg {
            Err(IntError::NegOverflow)
        } else {
            Err(IntError::PosOverflow)
        }
    } else {
        scan(d, i + 1, acc * 10 + digit_value(d[i]), limit, neg)
    }
}

/// The value of `s` as a decimal integer with an optional sign (`-` only
/// when `signed`), whose magnitude is at most `max` (at most `max + 1` for a
/// negative value).
pub open spec fn parse_int(s: Seq<char>, signed: bool, max: int) -> Result<int, IntError> {
    if s.len() == 0 {
        Err(IntError::Empty)
    } else if (s[0] == '+' || s[0] == '-') && s.len() == 1 {
        Err(IntError::InvalidDigit)
    } else if s[0] == '+' {
        scan(s, 1, 0, max, false)
    } else if s[0] == '-' && signed {
        match scan(s, 1, 0, max + 1, true) {
            Ok(v) => Ok(-v),
            Err(e) => Err(e),
        }
    } else {
        scan(s, 0, 0, max, false)
    }
}

/// The message of each way a number fails to parse.
pub open spec fn int_error_text(e: IntError) -> Seq<char> {
    match e {
        IntError::Empty => "cannot parse integer from empty string"@,
        IntError::InvalidDigit => "invalid digit found in string"@,
        IntError::PosOverflow => "number too large to fit in target type"@,
        IntError::NegOverflow => "number too small to fit in target type"@,
    }
}

/// A date written month/day/year: the three numbers, or the message of the
/// first that does not parse; an empty message when there are not exactly
/// three parts.
pub open spec fn date_of(s: Seq<char>) -> Result<(u32, u32, i32), Seq<char>> {
    let p = pieces(s, '/');
    if p.len() != 3 {
        Err(Seq::empty())
    } else {
        match parse_int(p[0], false, u32::MAX as int) {
            Err(e) => Err(int_error_text(e)),
            Ok(m) => match parse_int(p[1], false, u32::MAX as int) {
                Err(e) => Err(int_error_text(e)),
                Ok(d) => match parse_int(p[2], true, i32::MAX as int) {
                    Err(e) => Err(int_error_text(e)),
                    Ok(y) => Ok((m as u32, d as u32, y as i32)),
                },
            },
        }
    }
}

fn scan_digits(s: &str, from: usize, limit: u64, neg: bool) -> (r: Result<u64, IntError>)
    requires
        from <= s@.len(),
        limit <= u32::MAX + 1,
    ensures
        match scan(s@, from as int, 0, limit as int, neg) {
            Ok(v) => r matches Ok(x) && x == v,
            Err(e) => r matches Err(f) && f == e,
        },
        r matches Ok(x) ==> x <= limit,
{
    let n = s.unicode_len();
    let mut acc: u64 = 0;
    let mut i: usize = from;
    while i < n
        invariant
            n == s@.len(),
            from <= i <= n,
            acc <= limit,
            limit <= u32::MAX + 1,
            scan(s@, from as int, 0, limit as int, neg) == scan(s@, i as int, acc as int, limit as int, neg),
        decreases n - i,
    {
        let c = s.get_char(i);
        if !('0' <= c && c <= '9') {
            return Err(IntError::InvalidDigit);
        }
        let v = acc * 10 + ((c as u32) - 48) as u64;
        if v > limit {
            if neg {
                return Err(IntError::NegOverflow);
            } else {
                return Err(IntError::PosOverflow);
            }
        }
        acc = v;
        i = i + 1;
    }
    Ok(acc)
}

fn parse_number(s: &str, signed: bool, max: u64) -> (r: Result<i64, IntError>)
    requires
        max <= u32::MAX,
    ensures
        match parse_int(s@, signed, max as int) {
            Ok(v) => r matches Ok(x) && x == v,
            Err(e) => r matches Err(f) && f == e,
        },
{
    let n = s.unicode_len();
    if n == 0 {
        return Err(IntError::Empty);
    }
    let c = s.get_char(0);
    if (c == '+' || c == '-') && n == 1 {
        return Err(IntError::InvalidDigit);
    }
    if c == '+' {
        match scan_digits(s, 1, max, false) {
            Ok(v) => Ok(v as i64),
            Err(e) => Err(e),
        }
    } else if c == '-' && signed {
        match scan_digits(s, 1, max + 1, true) {
            Ok(v) => Ok(-(v as i64)),
            Err(e) => Err(e),
        }
    } else {
        match scan_digits(s, 0, max, false) {
            Ok(v) => Ok(v as i64),
            Err(e) => Err(e),
        }
    }
}

fn int_error_message(e: IntError) -> (r: String)
    ensures
        r@ == int_error_text(e),
{
    let mut r = String::new();
    match e {
        IntError::Empty => push_str(&mut r, "cannot parse integer from empty string"),
        IntError::InvalidDigit => push_str(&mut r, "invalid digit found in string"),
        IntError::PosOverflow => push_str(&mut r, "number too large to fit in target type"),
        IntError::NegOverflow => push_str(&mut r, "number too small to fit in target type"),
    }
    assert(r@ =~= int_error_text(e));
    r
}

/// Reads a date written month/day/year.
pub fn parse_date(date_str: &str) -> (r: Result<(u32, u32, i32), String>)
    ensures
        match date_of(date_str@) {
            Ok(v) => r matches Ok(x) && x == v,
            Err(m) => r matches Err(e) && e@ == m,
        },
{
    let date = split_char(date_str, '/');
    if date.len() != 3 {
        return Err(String::new());
    }
    proof {
        assert(date@[0]@ == pieces(date_str@, '/')[0]);
        assert(date@[1]@ == pieces(date_str@, '/')[1]);
        assert(date@[2]@ == pieces(date_str@, '/')[2]);
    }
    let month = match parse_number(date[0].as_str(), false, u32::MAX as u64) {
        Ok(m) => m as u32,
        Err(e) => return Err(int_error_message(e)),
    };
    let day = match parse_number(date[1].as_str(), false, u32::MAX as u64) {
        Ok(d) => d as u32,
        Err(e) => return Err(int_error_message(e)),
    };
    let year = match parse_number(date[2].as_str(), true, i32::MAX as u64) {
        Ok(y) => y as i32,
        Err(e) => return Err(int_error_message(e)),
    };
    Ok((month, day, year))
}

} // verus!
