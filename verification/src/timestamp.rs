use vstd::prelude::*;

verus! {

/// A wall-clock instant with second precision, held as plain calendar fields
/// in the local time zone.
#[derive(Clone, Copy, PartialEq, Eq, Structural, Debug)]
pub struct Timestamp {
    pub year: u32,
    pub month: u32,
    pub day: u32,
    pub hour: u32,
    pub minute: u32,
    pub second: u32,
}

pub open spec fn leap_year(y: int) -> bool {
    y % 4 == 0 && (y % 100 != 0 || y % 400 == 0)
}

pub open spec fn days_in_month(y: int, m: int) -> int {
    if m == 2 {
        if leap_year(y) {
            29
        } else {
            28
        }
    } else if m == 4 || m == 6 || m == 9 || m == 11 {
        30
    } else {
        31
    }
}

impl Timestamp {
    /// A real calendar date and time of day, within the four-digit-year era.
    pub open spec fn wf(self) -> bool {
        self.year <= 9999 && 1 <= self.month <= 12 && 1 <= self.day <= days_in_month(
            self.year as int,
            self.month as int,
        ) && self.hour <= 23 && self.minute <= 59 && self.second <= 59
    }

    /// The fields packed into one integer, strictly monotone in calendar
    /// order for well-formed timestamps.
    pub open spec fn key(self) -> int {
        ((((self.year * 16 + self.month) * 32 + self.day) * 32 + self.hour) * 64 + self.minute)
            * 64 + self.second
    }

    /// `self` is at or before `other` in calendar order.
    pub open spec fn le(self, other: Timestamp) -> bool {
        self.key() <= other.key()
    }
}

/// How many days the given month has, for the exec side.
pub fn days_in_month_x(y: u32, m: u32) -> (r: u32)
    requires
        1 <= m <= 12,
    ensures
        r as int == days_in_month(y as int, m as int),
{
    if m == 2 {
        if y % 4 == 0 && (y % 100 != 0 || y % 400 == 0) {
            29
        } else {
            28
        }
    } else if m == 4 || m == 6 || m == 9 || m == 11 {
        30
    } else {
        31
    }
}

/// Compare two timestamps: true when `a` is at or before `b`.
pub fn ts_le(a: &Timestamp, b: &Timestamp) -> (r: bool)
    requires
        a.wf(),
        b.wf(),
    ensures
        r == a.le(*b),
{
    let ka: u64 = ((((a.year as u64 * 16 + a.month as u64) * 32 + a.day as u64) * 32
        + a.hour as u64) * 64 + a.minute as u64) * 64 + a.second as u64;
    let kb: u64 = ((((b.year as u64 * 16 + b.month as u64) * 32 + b.day as u64) * 32
        + b.hour as u64) * 64 + b.minute as u64) * 64 + b.second as u64;
    ka <= kb
}

/// The character for one decimal digit.
#[verifier::opaque]
pub open spec fn digit_char(d: int) -> char {
    if d == 0 {
        '0'
    } else if d == 1 {
        '1'
    } else if d == 2 {
        '2'
    } else if d == 3 {
        '3'
    } else if d == 4 {
        '4'
    } else if d == 5 {
        '5'
    } else if d == 6 {
        '6'
    } else if d == 7 {
        '7'
    } else if d == 8 {
        '8'
    } else {
        '9'
    }
}

/// The value of a decimal digit character; 10 marks a non-digit.
#[verifier::opaque]
pub open spec fn digit_val(c: char) -> int {
    if c == '0' {
        0
    } else if c == '1' {
        1
    } else if c == '2' {
        2
    } else if c == '3' {
        3
    } else if c == '4' {
        4
    } else if c == '5' {
        5
    } else if c == '6' {
        6
    } else if c == '7' {
        7
    } else if c == '8' {
        8
    } else if c == '9' {
        9
    } else {
        10
    }
}

pub open spec fn is_digit(c: char) -> bool {
    digit_val(c) < 10
}

/// What one digit's character looks like: it reads back as the digit and
/// is none of the format's punctuation characters.
pub proof fn lemma_digit(d: int)
    requires
        0 <= d <= 9,
    ensures
        digit_val(digit_char(d)) == d,
        is_digit(digit_char(d)),
        digit_char(d) != '-',
        digit_char(d) != ':',
        digit_char(d) != ' ',
        digit_char(d) != ',',
        digit_char(d) != '"',
        digit_char(d) != '\n',
        digit_char(d) != '\r',
{
    reveal(digit_char);
    reveal(digit_val);
}

/// The fixed-width text rendering of a timestamp: `YYYY-MM-DD HH:MM:SS`.
pub open spec fn ts_text(t: Timestamp) -> Seq<char> {
    let y = t.year as int;
    let mo = t.month as int;
    let d = t.day as int;
    let h = t.hour as int;
    let mi = t.minute as int;
    let s = t.second as int;
    seq![
        digit_char((((y / 10) / 10) / 10) % 10),
        digit_char(((y / 10) / 10) % 10),
        digit_char((y / 10) % 10),
        digit_char(y % 10),
        '-',
        digit_char((mo / 10) % 10),
        digit_char(mo % 10),
        '-',
        digit_char((d / 10) % 10),
        digit_char(d % 10),
        ' ',
        digit_char((h / 10) % 10),
        digit_char(h % 10),
        ':',
        digit_char((mi / 10) % 10),
        digit_char(mi % 10),
        ':',
        digit_char((s / 10) % 10),
        digit_char(s % 10),
    ]
}

/// The timestamp a 19-character text denotes, read digit by digit.
pub open spec fn ts_of_text(s: Seq<char>) -> Timestamp {
    Timestamp {
        year: (((digit_val(s[0]) * 10 + digit_val(s[1])) * 10 + digit_val(s[2])) * 10 + digit_val(
            s[3],
        )) as u32,
        month: (digit_val(s[5]) * 10 + digit_val(s[6])) as u32,
        day: (digit_val(s[8]) * 10 + digit_val(s[9])) as u32,
        hour: (digit_val(s[11]) * 10 + digit_val(s[12])) as u32,
        minute: (digit_val(s[14]) * 10 + digit_val(s[15])) as u32,
        second: (digit_val(s[17]) * 10 + digit_val(s[18])) as u32,
    }
}

/// The texts that the store accepts as timestamps: the fixed shape,
/// denoting a well-formed instant.
pub open spec fn valid_ts_text(s: Seq<char>) -> bool {
    s.len() == 19 && is_digit(s[0]) && is_digit(s[1]) && is_digit(s[2]) && is_digit(s[3]) && s[4]
        == '-' && is_digit(s[5]) && is_digit(s[6]) && s[7] == '-' && is_digit(s[8]) && is_digit(
        s[9],
    ) && s[10] == ' ' && is_digit(s[11]) && is_digit(s[12]) && s[13] == ':' && is_digit(s[14])
        && is_digit(s[15]) && s[16] == ':' && is_digit(s[17]) && is_digit(s[18]) && ts_of_text(
        s,
    ).wf()
}

/// The rendered timestamp holds none of the format's structural
/// characters: no comma, no quote, no line break.
pub proof fn lemma_ts_text_plain(t: Timestamp)
    ensures
        forall|i: int|
            0 <= i < ts_text(t).len() ==> (ts_text(t)[i] != ',' && ts_text(t)[i] != '"' && ts_text(
                t,
            )[i] != '\n' && ts_text(t)[i] != '\r'),
{
    let y = t.year as int;
    let mo = t.month as int;
    let d = t.day as int;
    let h = t.hour as int;
    let mi = t.minute as int;
    let s = t.second as int;
    lemma_digit((((y / 10) / 10) / 10) % 10);
    lemma_digit(((y / 10) / 10) % 10);
    lemma_digit((y / 10) % 10);
    lemma_digit(y % 10);
    lemma_digit((mo / 10) % 10);
    lemma_digit(mo % 10);
    lemma_digit((d / 10) % 10);
    lemma_digit(d % 10);
    lemma_digit((h / 10) % 10);
    lemma_digit(h % 10);
    lemma_digit((mi / 10) % 10);
    lemma_digit(mi % 10);
    lemma_digit((s / 10) % 10);
    lemma_digit(s % 10);
}

fn push_digit(v: &mut Vec<char>, d: u32)
    requires
        d <= 9,
    ensures
        final(v)@ == old(v)@.push(digit_char(d as int)),
{
    proof {
        reveal(digit_char);
    }
    if d == 0 {
        v.push('0')
    } else if d == 1 {
        v.push('1')
    } else if d == 2 {
        v.push('2')
    } else if d == 3 {
        v.push('3')
    } else if d == 4 {
        v.push('4')
    } else if d == 5 {
        v.push('5')
    } else if d == 6 {
        v.push('6')
    } else if d == 7 {
        v.push('7')
    } else if d == 8 {
        v.push('8')
    } else {
        v.push('9')
    }
}

/// Render a timestamp as its fixed-width 19-character text.
#[verifier::rlimit(100)]
pub fn ts_chars(t: &Timestamp) -> (v: Vec<char>)
    requires
        t.wf(),
    ensures
        v@ == ts_text(*t),
{
    let mut v: Vec<char> = Vec::new();
    let y = t.year;
    let q1 = y / 10;
    let q2 = q1 / 10;
    let q3 = q2 / 10;
    push_digit(&mut v, q3 % 10);
    push_digit(&mut v, q2 % 10);
    push_digit(&mut v, q1 % 10);
    push_digit(&mut v, y % 10);
    v.push('-');
    push_digit(&mut v, (t.month / 10) % 10);
    push_digit(&mut v, t.month % 10);
    v.push('-');
    push_digit(&mut v, (t.day / 10) % 10);
    push_digit(&mut v, t.day % 10);
    v.push(' ');
    push_digit(&mut v, (t.hour / 10) % 10);
    push_digit(&mut v, t.hour % 10);
    v.push(':');
    push_digit(&mut v, (t.minute / 10) % 10);
    push_digit(&mut v, t.minute % 10);
    v.push(':');
    push_digit(&mut v, (t.second / 10) % 10);
    push_digit(&mut v, t.second % 10);
    assert(v@ =~= ts_text(*t));
    v
}

/// The value of one digit character, 10 for a non-digit.
fn digit_val_x(c: char) -> (r: u32)
    ensures
        r as int == digit_val(c),
{
    proof {
        reveal(digit_val);
    }
    if c == '0' {
        0
    } else if c == '1' {
        1
    } else if c == '2' {
        2
    } else if c == '3' {
        3
    } else if c == '4' {
        4
    } else if c == '5' {
        5
    } else if c == '6' {
        6
    } else if c == '7' {
        7
    } else if c == '8' {
        8
    } else if c == '9' {
        9
    } else {
        10
    }
}

/// Parse the fixed timestamp text; `None` exactly on texts the store
/// does not accept.
pub fn parse_ts(f: &Vec<char>) -> (r: Option<Timestamp>)
    ensures
        r == if valid_ts_text(f@) {
            Some(ts_of_text(f@))
        } else {
            None::<Timestamp>
        },
{
    if f.len() != 19 {
        return None;
    }
    if !(f[4] == '-' && f[7] == '-' && f[10] == ' ' && f[13] == ':' && f[16] == ':') {
        return None;
    }
    let d0 = digit_val_x(f[0]);
    let d1 = digit_val_x(f[1]);
    let d2 = digit_val_x(f[2]);
    let d3 = digit_val_x(f[3]);
    let d5 = digit_val_x(f[5]);
    let d6 = digit_val_x(f[6]);
    let d8 = digit_val_x(f[8]);
    let d9 = digit_val_x(f[9]);
    let d11 = digit_val_x(f[11]);
    let d12 = digit_val_x(f[12]);
    let d14 = digit_val_x(f[14]);
    let d15 = digit_val_x(f[15]);
    let d17 = digit_val_x(f[17]);
    let d18 = digit_val_x(f[18]);
    if d0 > 9 || d1 > 9 || d2 > 9 || d3 > 9 || d5 > 9 || d6 > 9 || d8 > 9 || d9 > 9 || d11 > 9
        || d12 > 9 || d14 > 9 || d15 > 9 || d17 > 9 || d18 > 9 {
        return None;
    }
    let t = Timestamp {
        year: ((d0 * 10 + d1) * 10 + d2) * 10 + d3,
        month: d5 * 10 + d6,
        day: d8 * 10 + d9,
        hour: d11 * 10 + d12,
        minute: d14 * 10 + d15,
        second: d17 * 10 + d18,
    };
    if 1 <= t.month && t.month <= 12 && 1 <= t.day && t.day <= days_in_month_x(t.year, t.month)
        && t.hour <= 23 && t.minute <= 59 && t.second <= 59 {
        Some(t)
    } else {
        None
    }
}

/// Every well-formed timestamp's text is accepted back and denotes the
/// same instant: formatting then parsing is the identity.
#[verifier::rlimit(100)]
pub proof fn lemma_ts_text_round_trip(t: Timestamp)
    requires
        t.wf(),
    ensures
        ts_text(t).len() == 19,
        valid_ts_text(ts_text(t)),
        ts_of_text(ts_text(t)) == t,
{
    let s = ts_text(t);
    assert(s.len() == 19);
    let y = t.year as int;
    let q1 = y / 10;
    let q2 = q1 / 10;
    let q3 = q2 / 10;
    assert(q1 <= 999 && q2 <= 99 && q3 <= 9);
    lemma_digit(q3 % 10);
    lemma_digit(q2 % 10);
    lemma_digit(q1 % 10);
    lemma_digit(y % 10);
    lemma_digit((t.month as int / 10) % 10);
    lemma_digit(t.month as int % 10);
    lemma_digit((t.day as int / 10) % 10);
    lemma_digit(t.day as int % 10);
    lemma_digit((t.hour as int / 10) % 10);
    lemma_digit(t.hour as int % 10);
    lemma_digit((t.minute as int / 10) % 10);
    lemma_digit(t.minute as int % 10);
    lemma_digit((t.second as int / 10) % 10);
    lemma_digit(t.second as int % 10);
    assert(q3 % 10 == q3);
    assert(((q3 * 10 + q2 % 10) * 10 + q1 % 10) * 10 + y % 10 == y);
    assert(t.month as int == (t.month as int / 10) % 10 * 10 + t.month as int % 10);
    assert(t.day as int == (t.day as int / 10) % 10 * 10 + t.day as int % 10);
    assert(t.hour as int == (t.hour as int / 10) % 10 * 10 + t.hour as int % 10);
    assert(t.minute as int == (t.minute as int / 10) % 10 * 10 + t.minute as int % 10);
    assert(t.second as int == (t.second as int / 10) % 10 * 10 + t.second as int % 10);
    assert(ts_of_text(s) == t);
}

} // verus!
