//! Timezone-naive calendar dates and the bracketed `[YYYY-MM-DD]` date line.

use vstd::prelude::*;

use crate::text::trim;

verus! {

/// A calendar date, held as plain year, month and day numbers.
#[derive(Clone, Copy, PartialEq, Eq, Structural, Debug)]
pub struct Date {
    pub year: u32,
    pub month: u32,
    pub day: u32,
}

/// Proleptic Gregorian leap year.
pub open spec fn is_leap(y: int) -> bool {
    y % 4 == 0 && (y % 100 != 0 || y % 400 == 0)
}

pub open spec fn days_in_month(y: int, m: int) -> int {
    if m == 2 {
        if is_leap(y) {
            29
        } else {
            28
        }
    } else if m == 4 || m == 6 || m == 9 || m == 11 {
        30
    } else {
        31
    }
}

impl Date {
    /// A valid calendar date that the four-digit date line can hold.
    pub open spec fn valid(self) -> bool {
        self.year <= 9999 && 1 <= self.month <= 12 && 1 <= self.day <= days_in_month(
            self.year as int,
            self.month as int,
        )
    }
}

/// Strict calendar order: lexicographic on (year, month, day).
pub open spec fn date_lt(a: Date, b: Date) -> bool {
    a.year < b.year || (a.year == b.year && (a.month < b.month || (a.month == b.month && a.day
        < b.day)))
}

impl Date {
    pub fn new(year: u32, month: u32, day: u32) -> (r: Date)
        ensures
            r == (Date { year, month, day }),
    {
        Date { year, month, day }
    }

    /// Whether `self` comes strictly before `other` in the calendar.
    pub fn lt(&self, other: &Date) -> (r: bool)
        ensures
            r == date_lt(*self, *other),
    {
        self.year < other.year || (self.year == other.year && (self.month < other.month || (
        self.month == other.month && self.day < other.day)))
    }

    /// Whether this is a real calendar date the date line can hold.
    pub fn is_valid(&self) -> (r: bool)
        ensures
            r == self.valid(),
    {
        let y = self.year;
        let m = self.month;
        let d = self.day;
        if y > 9999 || m < 1 || m > 12 || d < 1 {
            return false;
        }
        let dim: u32 = if m == 2 {
            if y % 4 == 0 && (y % 100 != 0 || y % 400 == 0) {
                29
            } else {
                28
            }
        } else if m == 4 || m == 6 || m == 9 || m == 11 {
            30
        } else {
            31
        };
        d <= dim
    }
}

/// The character for one decimal digit.
pub open spec fn digit_char(v: int) -> char {
    if v == 0 {
        '0'
    } else if v == 1 {
        '1'
    } else if v == 2 {
        '2'
    } else if v == 3 {
        '3'
    } else if v == 4 {
        '4'
    } else if v == 5 {
        '5'
    } else if v == 6 {
        '6'
    } else if v == 7 {
        '7'
    } else if v == 8 {
        '8'
    } else {
        '9'
    }
}

/// The value of a decimal digit character, or -1 for any other character.
pub open spec fn digit_val(c: char) -> int {
    if c == '0' {
        0
    } else if c == '1' {
        1
    } else if c == '2' {
        2
    } else if c == '3' {
        3
    } else if c == '4' {
        4
    } else if c == '5' {
        5
    } else if c == '6' {
        6
    } else if c == '7' {
        7
    } else if c == '8' {
        8
    } else if c == '9' {
        9
    } else {
        -1
    }
}

/// The twelve characters of the bracketed, zero-padded date line.
pub open spec fn ser_date(d: Date) -> Seq<char> {
    let y = d.year as int;
    let m = d.month as int;
    let dd = d.day as int;
    seq![
        '[',
        digit_char(y / 1000),
        digit_char((y % 1000) / 100),
        digit_char(((y % 1000) % 100) / 10),
        digit_char(((y % 1000) % 100) % 10),
        '-',
        digit_char(m / 10),
        digit_char(m % 10),
        '-',
        digit_char(dd / 10),
        digit_char(dd % 10),
        ']',
    ]
}

/// An exact `[YYYY-MM-DD]` line, holding a valid calendar date.
pub open spec fn parse_date(l: Seq<char>) -> Option<Date> {
    if l.len() == 12 && l[0] == '[' && l[5] == '-' && l[8] == '-' && l[11] == ']' && digit_val(
        l[1],
    ) >= 0 && digit_val(l[2]) >= 0 && digit_val(l[3]) >= 0 && digit_val(l[4]) >= 0 && digit_val(
        l[6],
    ) >= 0 && digit_val(l[7]) >= 0 && digit_val(l[9]) >= 0 && digit_val(l[10]) >= 0 {
        let y = digit_val(l[1]) * 1000 + digit_val(l[2]) * 100 + digit_val(l[3]) * 10 + digit_val(
            l[4],
        );
        let m = digit_val(l[6]) * 10 + digit_val(l[7]);
        let dd = digit_val(l[9]) * 10 + digit_val(l[10]);
        let date = Date { year: y as u32, month: m as u32, day: dd as u32 };
        if date.valid() {
            Some(date)
        } else {
            None
        }
    } else {
        None
    }
}

/// Serializing a valid date gives a line that parses back to the same date.
pub proof fn lemma_date_round_trip(d: Date)
    requires
        d.valid(),
    ensures
        parse_date(ser_date(d)) == Some(d),
{
    let y = d.year as int;
    let m = d.month as int;
    let dd = d.day as int;
    let l = ser_date(d);
    assert(digit_val(l[1]) == y / 1000);
    assert(digit_val(l[2]) == (y % 1000) / 100);
    assert(digit_val(l[3]) == ((y % 1000) % 100) / 10);
    assert(digit_val(l[4]) == ((y % 1000) % 100) % 10);
    assert((y / 1000) * 1000 + (y % 1000) == y);
    assert(((y % 1000) / 100) * 100 + (y % 1000) % 100 == y % 1000);
    assert((((y % 1000) % 100) / 10) * 10 + ((y % 1000) % 100) % 10 == (y % 1000) % 100);
    assert((m / 10) * 10 + m % 10 == m);
    assert((dd / 10) * 10 + dd % 10 == dd);
}

/// Parses an exact bracketed date line, in the style of the date format.
pub fn parse_date_line(l: &str) -> (r: Option<Date>)
    ensures
        r == parse_date(l@),
{
    if l.unicode_len() != 12 {
        return None;
    }
    if l.get_char(0) != '[' || l.get_char(5) != '-' || l.get_char(8) != '-' || l.get_char(11)
        != ']' {
        return None;
    }
    let d1 = match digit_of(l.get_char(1)) {
        Some(v) => v,
        None => { return None; },
    };
    let d2 = match digit_of(l.get_char(2)) {
        Some(v) => v,
        None => { return None; },
    };
    let d3 = match digit_of(l.get_char(3)) {
        Some(v) => v,
        None => { return None; },
    };
    let d4 = match digit_of(l.get_char(4)) {
        Some(v) => v,
        None => { return None; },
    };
    let m1 = match digit_of(l.get_char(6)) {
        Some(v) => v,
        None => { return None; },
    };
    let m2 = match digit_of(l.get_char(7)) {
        Some(v) => v,
        None => { return None; },
    };
    let a1 = match digit_of(l.get_char(9)) {
        Some(v) => v,
        None => { return None; },
    };
    let a2 = match digit_of(l.get_char(10)) {
        Some(v) => v,
        None => { return None; },
    };
    let date = Date {
        year: d1 * 1000 + d2 * 100 + d3 * 10 + d4,
        month: m1 * 10 + m2,
        day: a1 * 10 + a2,
    };
    if date.is_valid() {
        Some(date)
    } else {
        None
    }
}

fn digit_of(c: char) -> (r: Option<u32>)
    ensures
        match r {
            Some(v) => digit_val(c) == v && v < 10,
            None => digit_val(c) < 0,
        },
{
    match c {
        '0' => Some(0),
        '1' => Some(1),
        '2' => Some(2),
        '3' => Some(3),
        '4' => Some(4),
        '5' => Some(5),
        '6' => Some(6),
        '7' => Some(7),
        '8' => Some(8),
        '9' => Some(9),
        _ => None,
    }
}

fn digit_str(v: u32) -> (r: &'static str)
    requires
        v < 10,
    ensures
        r@ == seq![digit_char(v as int)],
{
    let r: &'static str = if v == 0 {
        "0"
    } else if v == 1 {
        "1"
    } else if v == 2 {
        "2"
    } else if v == 3 {
        "3"
    } else if v == 4 {
        "4"
    } else if v == 5 {
        "5"
    } else if v == 6 {
        "6"
    } else if v == 7 {
        "7"
    } else if v == 8 {
        "8"
    } else {
        "9"
    };
    proof {
        reveal_strlit("0");
        reveal_strlit("1");
        reveal_strlit("2");
        reveal_strlit("3");
        reveal_strlit("4");
        reveal_strlit("5");
        reveal_strlit("6");
        reveal_strlit("7");
        reveal_strlit("8");
        reveal_strlit("9");
        assert(r@ =~= seq![digit_char(v as int)]);
    }
    r
}

/// The bracketed, zero-padded date line for a valid date.
pub fn date_line(d: &Date) -> (r: String)
    requires
        d.valid(),
    ensures
        r@ == ser_date(*d),
{
    let y = d.year;
    let m = d.month;
    let dd = d.day;
    let mut r = String::new();
    r.append("[");
    r.append(digit_str(y / 1000));
    r.append(digit_str((y % 1000) / 100));
    r.append(digit_str(((y % 1000) % 100) / 10));
    r.append(digit_str(((y % 1000) % 100) % 10));
    r.append("-");
    r.append(digit_str(m / 10));
    r.append(digit_str(m % 10));
    r.append("-");
    r.append(digit_str(dd / 10));
    r.append(digit_str(dd % 10));
    r.append("]");
    proof {
        reveal_strlit("[");
        reveal_strlit("-");
        reveal_strlit("]");
        assert(r@ =~= ser_date(*d));
    }
    r
}

/// No character of a date line is a newline, and none at either end is
/// whitespace, so a date line is its own trim.
pub proof fn lemma_ser_date_clean(d: Date)
    requires
        d.valid(),
    ensures
        !ser_date(d).contains('\n'),
        trim(ser_date(d)) == ser_date(d),
        ser_date(d).len() == 12,
        ser_date(d)[0] == '[',
{
    let l = ser_date(d);
    assert(forall|v: int| digit_char(v) != '\n' && !crate::text::is_ws(digit_char(v)));
    assert forall|i: int| 0 <= i < l.len() implies l[i] != '\n' by {
        assert(l[i] == '[' || l[i] == '-' || l[i] == ']' || (exists|v: int|
            l[i] == #[trigger] digit_char(v)));
    }
    assert(!l.contains('\n'));
    crate::text::lemma_trim_id(l);
}

} // verus!
