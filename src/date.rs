//! Calendar dates as read from `YYYY-MM-DD` text, and their printed forms.
use chrono::Datelike;
use vstd::prelude::*;

verus! {

/// A day of the proleptic Gregorian calendar.
#[derive(Clone, Copy, Debug, PartialEq, Eq, Structural)]
pub struct SessionDate {
    pub year: i32,
    pub month: u32,
    pub day: u32,
}

pub open spec fn is_leap_year(y: int) -> bool {
    (y % 4 == 0 && y % 100 != 0) || y % 400 == 0
}

pub open spec fn days_in_month(y: int, m: int) -> int {
    if m == 2 {
        if is_leap_year(y) {
            29
        } else {
            28
        }
    } else if m == 4 || m == 6 || m == 9 || m == 11 {
        30
    } else {
        31
    }
}

/// `y`-`m`-`d` names a day that exists in the proleptic Gregorian calendar.
pub open spec fn is_calendar_date(y: int, m: int, d: int) -> bool {
    1 <= m <= 12 && 1 <= d <= days_in_month(y, m)
}

impl SessionDate {
    /// A day that exists, in a year that four digits can write.
    pub open spec fn wf(self) -> bool {
        0 <= self.year <= 9999 && is_calendar_date(self.year as int, self.month as int, self.day as int)
    }
}

pub open spec fn digit_value(c: char) -> int {
    if c == '0' {
        0
    } else if c == '1' {
        1
    } else if c == '2' {
        2
    } else if c == '3' {
        3
    } else if c == '4' {
        4
    } else if c == '5' {
        5
    } else if c == '6' {
        6
    } else if c == '7' {
        7
    } else if c == '8' {
        8
    } else if c == '9' {
        9
    } else {
        -1
    }
}

pub open spec fn is_digit(c: char) -> bool {
    0 <= digit_value(c)
}

pub open spec fn digit_char(n: int) -> char {
    if n == 0 {
        '0'
    } else if n == 1 {
        '1'
    } else if n == 2 {
        '2'
    } else if n == 3 {
        '3'
    } else if n == 4 {
        '4'
    } else if n == 5 {
        '5'
    } else if n == 6 {
        '6'
    } else if n == 7 {
        '7'
    } else if n == 8 {
        '8'
    } else {
        '9'
    }
}

/// `s` is four digits, `-`, two digits, `-`, two digits.
pub open spec fn is_iso_shape(s: Seq<char>) -> bool {
    &&& s.len() == 10
    &&& s[4] == '-' && s[7] == '-'
    &&& forall|i: int| 0 <= i < 10 && i != 4 && i != 7 ==> is_digit(#[trigger] s[i])
}

/// The number written by the digits `s[from..to]`.
pub open spec fn digits_value(s: Seq<char>, from: int, to: int) -> int
    decreases to - from,
{
    if to <= from {
        0
    } else {
        digits_value(s, from, to - 1) * 10 + digit_value(s[to - 1])
    }
}

/// The date that `YYYY-MM-DD` text names, where it names one.
pub open spec fn date_of_text(s: Seq<char>) -> Option<SessionDate> {
    let y = digits_value(s, 0, 4);
    let m = digits_value(s, 5, 7);
    let d = digits_value(s, 8, 10);
    if is_iso_shape(s) && is_calendar_date(y, m, d) {
        Some(SessionDate { year: y as i32, month: m as u32, day: d as u32 })
    } else {
        None
    }
}

pub open spec fn two_digits(n: int) -> Seq<char> {
    seq![digit_char(n / 10), digit_char(n % 10)]
}

pub open spec fn four_digits(n: int) -> Seq<char> {
    seq![digit_char(n / 1000), digit_char(n / 100 % 10), digit_char(n / 10 % 10), digit_char(n % 10)]
}

/// `n` in decimal, without leading zeros.
pub open spec fn decimal(n: nat) -> Seq<char>
    decreases n,
{
    if n < 10 {
        seq![digit_char(n as int)]
    } else {
        decimal(n / 10).push(digit_char((n % 10) as int))
    }
}

/// `YYYY-MM-DD`.
pub open spec fn iso_text(d: SessionDate) -> Seq<char> {
    four_digits(d.year as int) + seq!['-'] + two_digits(d.month as int) + seq!['-'] + two_digits(
        d.day as int,
    )
}

/// `DD/MM/Y`, the year without padding.
pub open spec fn display_text(d: SessionDate) -> Seq<char> {
    two_digits(d.day as int) + seq!['/'] + two_digits(d.month as int) + seq!['/'] + decimal(
        d.year as nat,
    )
}

fn value_of_digit(c: char) -> (r: Option<u32>)
    ensures
        match r {
            Some(v) => is_digit(c) && v == digit_value(c),
            None => !is_digit(c),
        },
{
    match c {
        '0' => Some(0),
        '1' => Some(1),
        '2' => Some(2),
        '3' => Some(3),
        '4' => Some(4),
        '5' => Some(5),
        '6' => Some(6),
        '7' => Some(7),
        '8' => Some(8),
        '9' => Some(9),
        _ => None,
    }
}

/// Relies on chrono's `NaiveDate::parse_from_str` with the pattern `%Y-%m-%d`:
/// on text of four digits, `-`, two digits, `-`, two digits it yields the day
/// those digits name when that day exists in the proleptic Gregorian calendar,
/// and an error when it does not.
#[verifier::external_body]
fn parse_with_chrono(s: &str) -> (r: Option<SessionDate>)
    requires
        is_iso_shape(s@),
    ensures
        r == date_of_text(s@),
{
    match chrono::NaiveDate::parse_from_str(s, "%Y-%m-%d") {
        Ok(d) => Some(SessionDate { year: d.year(), month: d.month(), day: d.day() }),
        Err(_) => None,
    }
}

/// Reads a date written exactly as `YYYY-MM-DD`; any other text, or a day
/// that does not exist, gives `None`.
pub fn parse_date(date_str: &str) -> (r: Option<SessionDate>)
    ensures
        r == date_of_text(date_str@),
        r matches Some(d) ==> d.wf(),
{
    if date_str.unicode_len() != 10 {
        return None;
    }
    let mut i: usize = 0;
    while i < 10
        invariant
            date_str@.len() == 10,
            i <= 10,
            forall|k: int| 0 <= k < i && k != 4 && k != 7 ==> is_digit(#[trigger] date_str@[k]),
            i > 4 ==> date_str@[4] == '-',
            i > 7 ==> date_str@[7] == '-',
        decreases 10 - i,
    {
        let c = date_str.get_char(i);
        if i == 4 || i == 7 {
            if c != '-' {
                return None;
            }
        } else if value_of_digit(c).is_none() {
            return None;
        }
        i = i + 1;
    }
    let r = parse_with_chrono(date_str);
    proof {
        let s = date_str@;
        assert(is_digit(s[0]) && is_digit(s[1]) && is_digit(s[2]) && is_digit(s[3]));
        reveal_with_fuel(digits_value, 5);
        assert(0 <= digits_value(s, 0, 4) <= 9999);
    }
    r
}

fn digit_text(n: u32) -> (r: &'static str)
    requires
        n < 10,
    ensures
        r@ == seq![digit_char(n as int)],
{
    let r = if n == 0 {
        "0"
    } else if n == 1 {
        "1"
    } else if n == 2 {
        "2"
    } else if n == 3 {
        "3"
    } else if n == 4 {
        "4"
    } else if n == 5 {
        "5"
    } else if n == 6 {
        "6"
    } else if n == 7 {
        "7"
    } else if n == 8 {
        "8"
    } else {
        "9"
    };
    proof {
        reveal_strlit("0");
        reveal_strlit("1");
        reveal_strlit("2");
        reveal_strlit("3");
        reveal_strlit("4");
        reveal_strlit("5");
        reveal_strlit("6");
        reveal_strlit("7");
        reveal_strlit("8");
        reveal_strlit("9");
        assert(r@ =~= seq![digit_char(n as int)]);
    }
    r
}

fn push_two_digits(out: &mut String, n: u32)
    requires
        n < 100,
    ensures
        final(out)@ == old(out)@ + two_digits(n as int),
{
    out.append(digit_text(n / 10));
    out.append(digit_text(n % 10));
    assert(final(out)@ =~= old(out)@ + two_digits(n as int));
}

fn push_decimal(out: &mut String, n: u32)
    ensures
        final(out)@ == old(out)@ + decimal(n as nat),
    decreases n,
{
    if n >= 10 {
        push_decimal(out, n / 10);
    }
    out.append(digit_text(n % 10));
    assert(final(out)@ =~= old(out)@ + decimal(n as nat));
}

impl SessionDate {
    /// The date as `YYYY-MM-DD`.
    pub fn to_iso_string(&self) -> (r: String)
        requires
            self.wf(),
        ensures
            r@ == iso_text(*self),
    {
        let mut out = String::new();
        let y = self.year as u32;
        out.append(digit_text(y / 1000));
        out.append(digit_text(y / 100 % 10));
        push_two_digits(&mut out, y % 100);
        proof {
            reveal_strlit("-");
        }
        out.append("-");
        push_two_digits(&mut out, self.month);
        out.append("-");
        push_two_digits(&mut out, self.day);
        assert(out@ =~= iso_text(*self)) by {
            assert((y % 100) / 10 == y / 10 % 10);
            assert((y % 100) % 10 == y % 10);
        }
        out
    }

    /// The date as `DD/MM/Y`, the year in decimal without padding.
    pub fn to_display_string(&self) -> (r: String)
        requires
            self.wf(),
        ensures
            r@ == display_text(*self),
    {
        let mut out = String::new();
        push_two_digits(&mut out, self.day);
        proof {
            reveal_strlit("/");
        }
        out.append("/");
        push_two_digits(&mut out, self.month);
        out.append("/");
        push_decimal(&mut out, self.year as u32);
        assert(out@ =~= display_text(*self));
        out
    }
}

/// The dates in `DD/MM/Y` form, joined by `, `.
pub open spec fn joined_display(ds: Seq<SessionDate>) -> Seq<char>
    decreases ds.len(),
{
    if ds.len() == 0 {
        seq![]
    } else if ds.len() == 1 {
        display_text(ds[0])
    } else {
        joined_display(ds.drop_last()) + seq![',', ' '] + display_text(ds.last())
    }
}

/// Writes the dates as `DD/MM/Y`, separated by `, `.
pub fn format_dates(dates: &Vec<SessionDate>) -> (r: String)
    requires
        forall|i: int| 0 <= i < dates.len() ==> (#[trigger] dates@[i]).wf(),
    ensures
        r@ == joined_display(dates@),
{
    let mut out = String::new();
    let mut i: usize = 0;
    while i < dates.len()
        invariant
            i <= dates.len(),
            forall|k: int| 0 <= k < dates.len() ==> (#[trigger] dates@[k]).wf(),
            out@ == joined_display(dates@.take(i as int)),
        decreases dates.len() - i,
    {
        if i > 0 {
            out.append(", ");
        }
        let piece = dates[i].to_display_string();
        out.append(piece.as_str());
        proof {
            let t = dates@.take(i + 1);
            assert(t.drop_last() =~= dates@.take(i as int));
            if i == 0 {
                assert(out@ =~= joined_display(t));
            } else {
                reveal_strlit(", ");
                assert(", "@ =~= seq![',', ' ']);
                assert(out@ =~= joined_display(t));
            }
        }
        i = i + 1;
    }
    assert(dates@.take(i as int) =~= dates@);
    out
}

proof fn lemma_digit_char_value(c: char)
    requires
        is_digit(c),
    ensures
        digit_char(digit_value(c)) == c,
{
}

proof fn lemma_four_digit_split(a: int, b: int, c: int, d: int)
    requires
        0 <= a < 10,
        0 <= b < 10,
        0 <= c < 10,
        0 <= d < 10,
    ensures
        ({
            let n = ((a * 10 + b) * 10 + c) * 10 + d;
            n / 1000 == a && n / 100 % 10 == b && n / 10 % 10 == c && n % 10 == d
        }),
{
    let n = ((a * 10 + b) * 10 + c) * 10 + d;
    assert(n == a * 1000 + (b * 100 + c * 10 + d));
    assert(n / 1000 == a) by (nonlinear_arith)
        requires
            n == a * 1000 + (b * 100 + c * 10 + d),
            0 <= b * 100 + c * 10 + d < 1000,
    ;
    assert(n / 100 == a * 10 + b) by (nonlinear_arith)
        requires
            n == (a * 10 + b) * 100 + (c * 10 + d),
            0 <= c * 10 + d < 100,
    ;
    assert(n / 10 == (a * 10 + b) * 10 + c) by (nonlinear_arith)
        requires
            n == ((a * 10 + b) * 10 + c) * 10 + d,
            0 <= d < 10,
    ;
}

/// Reading `YYYY-MM-DD` text and writing the date back in that form gives
/// the text again.
pub proof fn lemma_iso_round_trip(s: Seq<char>)
    requires
        date_of_text(s) is Some,
    ensures
        iso_text(date_of_text(s)->0) == s,
{
    let v = |i: int| digit_value(s[i]);
    assert(is_digit(s[0]) && is_digit(s[1]) && is_digit(s[2]) && is_digit(s[3]));
    assert(is_digit(s[5]) && is_digit(s[6]) && is_digit(s[8]) && is_digit(s[9]));
    let y = digits_value(s, 0, 4);
    let m = digits_value(s, 5, 7);
    let d = digits_value(s, 8, 10);
    assert(y == ((v(0) * 10 + v(1)) * 10 + v(2)) * 10 + v(3)) by {
        reveal_with_fuel(digits_value, 5);
    }
    assert(m == ((0 * 10 + 0) * 10 + v(5)) * 10 + v(6)) by {
        reveal_with_fuel(digits_value, 3);
    }
    assert(d == ((0 * 10 + 0) * 10 + v(8)) * 10 + v(9)) by {
        reveal_with_fuel(digits_value, 3);
    }
    lemma_four_digit_split(v(0), v(1), v(2), v(3));
    lemma_four_digit_split(0, 0, v(5), v(6));
    lemma_four_digit_split(0, 0, v(8), v(9));
    let r = date_of_text(s)->0;
    assert(r.year as int == y && r.month as int == m && r.day as int == d);
    let t = iso_text(r);
    assert(t.len() == 10);
    assert forall|i: int| 0 <= i < 10 implies t[i] == s[i] by {
        if i != 4 && i != 7 {
            lemma_digit_char_value(s[i]);
        }
    }
    assert(t =~= s);
}

/// Any well-formed date, written as `YYYY-MM-DD`, reads back as itself.
pub proof fn lemma_iso_text_reads_back(d: SessionDate)
    requires
        d.wf(),
    ensures
        date_of_text(iso_text(d)) == Some(d),
{
    let s = iso_text(d);
    let y = d.year as int;
    let m = d.month as int;
    let dd = d.day as int;
    reveal_with_fuel(digits_value, 5);
    lemma_four_digit_split(y / 1000, y / 100 % 10, y / 10 % 10, y % 10);
    assert(y == ((y / 1000 * 10 + y / 100 % 10) * 10 + y / 10 % 10) * 10 + y % 10);
    assert(s[0] == digit_char(y / 1000));
    assert(digits_value(s, 0, 4) == y);
    assert(digits_value(s, 5, 7) == m);
    assert(digits_value(s, 8, 10) == dd);
    assert(is_iso_shape(s));
}

} // verus!
