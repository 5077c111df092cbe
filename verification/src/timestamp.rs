use vstd::prelude::*;
use vstd::string::StrSliceExecFns;
use vstd::string::StringExecFns;

verus! {

/// Calendar date-time with second precision: the timestamp half of a rollout
/// key, written `YYYY-MM-DDThh-mm-ss` (zero-padded, 24-hour) in filenames and
/// cursors.
#[derive(Clone, Copy, PartialEq, Eq, Structural, Debug)]
pub struct Timestamp {
    pub year: u16,
    pub month: u8,
    pub day: u8,
    pub hour: u8,
    pub minute: u8,
    pub second: u8,
}

pub open spec fn is_leap_year(y: int) -> bool {
    y % 4 == 0 && (y % 100 != 0 || y % 400 == 0)
}

pub open spec fn days_in_month(y: int, m: int) -> int {
    if m == 2 {
        if is_leap_year(y) {
            29
        } else {
            28
        }
    } else if m == 4 || m == 6 || m == 9 || m == 11 {
        30
    } else {
        31
    }
}

impl Timestamp {
    /// A calendar-valid date-time as the filename grammar admits it.
    pub open spec fn valid(self) -> bool {
        &&& self.year <= 9999
        &&& 1 <= self.month <= 12
        &&& 1 <= self.day <= days_in_month(self.year as int, self.month as int)
        &&& self.hour < 24
        &&& self.minute < 60
        &&& self.second < 60
    }

    /// Executable form of `lt`.
    pub fn is_lt(&self, o: &Timestamp) -> (r: bool)
        ensures
            r == self.lt(*o),
    {
        if self.year != o.year {
            self.year < o.year
        } else if self.month != o.month {
            self.month < o.month
        } else if self.day != o.day {
            self.day < o.day
        } else if self.hour != o.hour {
            self.hour < o.hour
        } else if self.minute != o.minute {
            self.minute < o.minute
        } else {
            self.second < o.second
        }
    }

    /// Lexicographic order on (year, month, day, hour, minute, second).
    pub open spec fn lt(self, o: Timestamp) -> bool {
        if self.year != o.year {
            self.year < o.year
        } else if self.month != o.month {
            self.month < o.month
        } else if self.day != o.day {
            self.day < o.day
        } else if self.hour != o.hour {
            self.hour < o.hour
        } else if self.minute != o.minute {
            self.minute < o.minute
        } else {
            self.second < o.second
        }
    }
}

pub open spec fn is_digit(c: char) -> bool {
    48 <= c as int <= 57
}

pub open spec fn digit_val(c: char) -> int {
    c as int - 48
}

pub open spec fn digit_char(d: int) -> char {
    if d == 0 {
        '0'
    } else if d == 1 {
        '1'
    } else if d == 2 {
        '2'
    } else if d == 3 {
        '3'
    } else if d == 4 {
        '4'
    } else if d == 5 {
        '5'
    } else if d == 6 {
        '6'
    } else if d == 7 {
        '7'
    } else if d == 8 {
        '8'
    } else {
        '9'
    }
}

pub(crate) fn digit_of(c: char) -> (r: Option<u8>)
    ensures
        match r {
            Some(d) => is_digit(c) && d == digit_val(c),
            None => !is_digit(c),
        },
{
    match c {
        '0' => Some(0),
        '1' => Some(1),
        '2' => Some(2),
        '3' => Some(3),
        '4' => Some(4),
        '5' => Some(5),
        '6' => Some(6),
        '7' => Some(7),
        '8' => Some(8),
        '9' => Some(9),
        _ => None,
    }
}

/// The positions of separators and digits in `YYYY-MM-DDThh-mm-ss`.
pub open spec fn ts_shape_ok(s: Seq<char>) -> bool {
    &&& s.len() == 19
    &&& s[4] == '-'
    &&& s[7] == '-'
    &&& s[10] == 'T'
    &&& s[13] == '-'
    &&& s[16] == '-'
    &&& is_digit(s[0])
    &&& is_digit(s[1])
    &&& is_digit(s[2])
    &&& is_digit(s[3])
    &&& is_digit(s[5])
    &&& is_digit(s[6])
    &&& is_digit(s[8])
    &&& is_digit(s[9])
    &&& is_digit(s[11])
    &&& is_digit(s[12])
    &&& is_digit(s[14])
    &&& is_digit(s[15])
    &&& is_digit(s[17])
    &&& is_digit(s[18])
}

pub open spec fn two_digits_at(s: Seq<char>, i: int) -> int {
    digit_val(s[i]) * 10 + digit_val(s[i + 1])
}

pub open spec fn ts_fields(s: Seq<char>) -> Timestamp {
    Timestamp {
        year: (digit_val(s[0]) * 1000 + digit_val(s[1]) * 100 + digit_val(s[2]) * 10 + digit_val(
            s[3],
        )) as u16,
        month: two_digits_at(s, 5) as u8,
        day: two_digits_at(s, 8) as u8,
        hour: two_digits_at(s, 11) as u8,
        minute: two_digits_at(s, 14) as u8,
        second: two_digits_at(s, 17) as u8,
    }
}

/// What a timestamp string of the fixed format denotes: `None` unless the
/// shape and the calendar ranges both hold.
pub open spec fn ts_of(s: Seq<char>) -> Option<Timestamp> {
    if ts_shape_ok(s) && ts_fields(s).valid() {
        Some(ts_fields(s))
    } else {
        None
    }
}

fn days_in_month_exec(y: u16, m: u8) -> (r: u8)
    requires
        1 <= m <= 12,
    ensures
        r as int == days_in_month(y as int, m as int),
{
    if m == 2 {
        if y % 4 == 0 && (y % 100 != 0 || y % 400 == 0) {
            29
        } else {
            28
        }
    } else if m == 4 || m == 6 || m == 9 || m == 11 {
        30
    } else {
        31
    }
}

/// Decode a timestamp written `YYYY-MM-DDThh-mm-ss`; `None` on any deviation
/// from the fixed zero-padded format or on an invalid calendar date.
pub fn parse_timestamp(s: &str) -> (r: Option<Timestamp>)
    ensures
        r == ts_of(s@),
{
    let n = s.unicode_len();
    if n != 19 {
        return None;
    }
    if s.get_char(4) != '-' || s.get_char(7) != '-' || s.get_char(10) != 'T' || s.get_char(13)
        != '-' || s.get_char(16) != '-' {
        return None;
    }
    let d0 = match digit_of(s.get_char(0)) {
        Some(d) => d,
        None => { return None },
    };
    let d1 = match digit_of(s.get_char(1)) {
        Some(d) => d,
        None => { return None },
    };
    let d2 = match digit_of(s.get_char(2)) {
        Some(d) => d,
        None => { return None },
    };
    let d3 = match digit_of(s.get_char(3)) {
        Some(d) => d,
        None => { return None },
    };
    let mo0 = match digit_of(s.get_char(5)) {
        Some(d) => d,
        None => { return None },
    };
    let mo1 = match digit_of(s.get_char(6)) {
        Some(d) => d,
        None => { return None },
    };
    let da0 = match digit_of(s.get_char(8)) {
        Some(d) => d,
        None => { return None },
    };
    let da1 = match digit_of(s.get_char(9)) {
        Some(d) => d,
        None => { return None },
    };
    let h0 = match digit_of(s.get_char(11)) {
        Some(d) => d,
        None => { return None },
    };
    let h1 = match digit_of(s.get_char(12)) {
        Some(d) => d,
        None => { return None },
    };
    let mi0 = match digit_of(s.get_char(14)) {
        Some(d) => d,
        None => { return None },
    };
    let mi1 = match digit_of(s.get_char(15)) {
        Some(d) => d,
        None => { return None },
    };
    let se0 = match digit_of(s.get_char(17)) {
        Some(d) => d,
        None => { return None },
    };
    let se1 = match digit_of(s.get_char(18)) {
        Some(d) => d,
        None => { return None },
    };
    let year: u16 = d0 as u16 * 1000 + d1 as u16 * 100 + d2 as u16 * 10 + d3 as u16;
    let month: u8 = mo0 * 10 + mo1;
    let day: u8 = da0 * 10 + da1;
    let hour: u8 = h0 * 10 + h1;
    let minute: u8 = mi0 * 10 + mi1;
    let second: u8 = se0 * 10 + se1;
    if month < 1 || month > 12 {
        return None;
    }
    if day < 1 || day > days_in_month_exec(year, month) {
        return None;
    }
    if hour > 23 || minute > 59 || second > 59 {
        return None;
    }
    Some(Timestamp { year, month, day, hour, minute, second })
}

pub open spec fn two_digit_seq(v: int) -> Seq<char> {
    seq![digit_char(v / 10), digit_char(v % 10)]
}

pub open spec fn four_digit_seq(v: int) -> Seq<char> {
    seq![
        digit_char(v / 1000),
        digit_char((v / 100) % 10),
        digit_char((v / 10) % 10),
        digit_char(v % 10),
    ]
}

/// The canonical zero-padded rendering of a timestamp, identical to the
/// format the filename grammar matches against.
pub open spec fn ts_format(t: Timestamp) -> Seq<char> {
    four_digit_seq(t.year as int) + seq!['-'] + two_digit_seq(t.month as int) + seq!['-']
        + two_digit_seq(t.day as int) + seq!['T'] + two_digit_seq(t.hour as int) + seq!['-']
        + two_digit_seq(t.minute as int) + seq!['-'] + two_digit_seq(t.second as int)
}

fn digit_str(d: u8) -> (r: &'static str)
    requires
        d <= 9,
    ensures
        r@ == seq![digit_char(d as int)],
{
    proof {
        reveal_strlit("0");
        reveal_strlit("1");
        reveal_strlit("2");
        reveal_strlit("3");
        reveal_strlit("4");
        reveal_strlit("5");
        reveal_strlit("6");
        reveal_strlit("7");
        reveal_strlit("8");
        reveal_strlit("9");
    }
    let r: &'static str = match d {
        0 => "0",
        1 => "1",
        2 => "2",
        3 => "3",
        4 => "4",
        5 => "5",
        6 => "6",
        7 => "7",
        8 => "8",
        _ => "9",
    };
    proof {
        assert(r@ =~= seq![digit_char(d as int)]);
    }
    r
}

fn append_two_digits(out: &mut String, v: u8)
    requires
        v <= 99,
    ensures
        final(out)@ == old(out)@ + two_digit_seq(v as int),
{
    out.append(digit_str(v / 10));
    out.append(digit_str(v % 10));
    proof {
        assert(final(out)@ =~= old(out)@ + two_digit_seq(v as int));
    }
}

fn append_four_digits(out: &mut String, v: u16)
    requires
        v <= 9999,
    ensures
        final(out)@ == old(out)@ + four_digit_seq(v as int),
{
    out.append(digit_str((v / 1000) as u8));
    out.append(digit_str(((v / 100) % 10) as u8));
    out.append(digit_str(((v / 10) % 10) as u8));
    out.append(digit_str((v % 10) as u8));
    proof {
        assert(final(out)@ =~= old(out)@ + four_digit_seq(v as int));
    }
}

/// Encode a timestamp in the identical zero-padded format the decoder
/// matches, so that cursors and filenames agree.
pub fn format_timestamp(t: &Timestamp) -> (r: String)
    requires
        t.valid(),
    ensures
        r@ == ts_format(*t),
{
    proof {
        reveal_strlit("-");
        reveal_strlit("T");
    }
    let mut out = String::new();
    append_four_digits(&mut out, t.year);
    out.append("-");
    append_two_digits(&mut out, t.month);
    out.append("-");
    append_two_digits(&mut out, t.day);
    out.append("T");
    append_two_digits(&mut out, t.hour);
    out.append("-");
    append_two_digits(&mut out, t.minute);
    out.append("-");
    append_two_digits(&mut out, t.second);
    proof {
        assert(out@ =~= ts_format(*t));
    }
    out
}

/// No character of a formatted timestamp is the cursor separator `|`.
pub proof fn lemma_ts_format_no_pipe(t: Timestamp, i: int)
    requires
        t.valid(),
        0 <= i < ts_format(t).len(),
    ensures
        ts_format(t)[i] != '|',
{
}

/// Formatting then decoding a valid timestamp returns the same value.
pub proof fn lemma_ts_round_trip(t: Timestamp)
    requires
        t.valid(),
    ensures
        ts_of(ts_format(t)) == Some(t),
{
    let s = ts_format(t);
    assert(s.len() == 19);
    let y = t.year as int;
    assert(y == (y / 1000) * 1000 + ((y / 100) % 10) * 100 + ((y / 10) % 10) * 10 + y % 10) by {
        assert(y / 100 == (y / 1000) * 10 + (y / 100) % 10);
        assert(y / 10 == (y / 100) * 10 + (y / 10) % 10);
        assert(y == (y / 10) * 10 + y % 10);
    }
    assert(ts_shape_ok(s));
    assert(ts_fields(s) == t);
}

} // verus!
