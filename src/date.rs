use vstd::arithmetic::div_mod::{
    lemma_div_denominator, lemma_fundamental_div_mod, lemma_fundamental_div_mod_converse,
};
use vstd::prelude::*;

verus! {

/// A calendar date without time of day.
#[derive(Debug, Clone, Copy, PartialEq, Eq, Structural)]
pub struct Date {
    pub year: u16,
    pub month: u8,
    pub day: u8,
}

pub open spec fn is_leap_year(y: int) -> bool {
    (y % 4 == 0 && y % 100 != 0) || y % 400 == 0
}

pub open spec fn days_in_month_spec(y: int, m: int) -> int {
    if m == 2 {
        if is_leap_year(y) { 29 } else { 28 }
    } else if m == 4 || m == 6 || m == 9 || m == 11 {
        30
    } else {
        31
    }
}

/// The character of a decimal digit.
pub open spec fn digit_char(n: int) -> char {
    ((n + 48) as u32) as char
}

/// `YYYY-MM-DD`, each field padded with zeros.
pub open spec fn date_text(d: Date) -> Seq<char> {
    let y = d.year as int;
    let m = d.month as int;
    let dd = d.day as int;
    seq![
        digit_char(y / 1000), digit_char((y / 100) % 10), digit_char((y / 10) % 10), digit_char(y % 10),
        '-', digit_char(m / 10), digit_char(m % 10), '-', digit_char(dd / 10), digit_char(dd % 10)
    ]
}

pub open spec fn is_digit(c: char) -> bool {
    '0' <= c && c <= '9'
}

pub open spec fn digit_value(c: char) -> int {
    c as int - 48
}

impl Date {
    /// A real calendar date, with a year of four digits.
    pub open spec fn valid(self) -> bool {
        self.year <= 9999 && 1 <= self.month <= 12 && 1 <= self.day <= days_in_month_spec(
            self.year as int,
            self.month as int,
        )
    }

    /// Calendar order: by year, then month, then day.
    pub open spec fn on_or_before(self, other: Date) -> bool {
        self.year < other.year || (self.year == other.year && (self.month < other.month || (
        self.month == other.month && self.day <= other.day)))
    }

    /// Builds a date, or `None` where the fields name no calendar day.
    pub fn from_ymd(year: u16, month: u8, day: u8) -> (r: Option<Date>)
        ensures
            r is Some <==> (Date { year, month, day }).valid(),
            r matches Some(d) ==> d == (Date { year, month, day }),
    {
        if year > 9999 || month < 1 || month > 12 || day < 1 {
            return None;
        }
        if day > days_in_month(year, month) {
            return None;
        }
        Some(Date { year, month, day })
    }

    /// Whether this date falls on or before `other`.
    pub fn is_on_or_before(&self, other: &Date) -> (r: bool)
        ensures
            r == self.on_or_before(*other),
    {
        if self.year != other.year {
            self.year < other.year
        } else if self.month != other.month {
            self.month < other.month
        } else {
            self.day <= other.day
        }
    }

    /// The date as `YYYY-MM-DD`.
    pub fn to_text(&self) -> (r: String)
        requires
            self.valid(),
        ensures
            r@ == date_text(*self),
    {
        let y = self.year;
        let mut s = String::new();
        s.append(digit_str((y / 1000) as u8));
        s.append(digit_str(((y / 100) % 10) as u8));
        s.append(digit_str(((y / 10) % 10) as u8));
        s.append(digit_str((y % 10) as u8));
        s.append(dash());
        s.append(digit_str(self.month / 10));
        s.append(digit_str(self.month % 10));
        s.append(dash());
        s.append(digit_str(self.day / 10));
        s.append(digit_str(self.day % 10));
        assert(s@ == date_text(*self));
        s
    }

    /// Reads `YYYY-MM-DD`; `None` where the text is not a valid date in that form.
    pub fn parse(t: &str) -> (r: Option<Date>)
        ensures
            r matches Some(d) ==> d.valid() && date_text(d) == t@,
            (exists|d: Date| d.valid() && date_text(d) == t@) ==> r is Some,
    {
        proof {
            if exists|d: Date| d.valid() && date_text(d) == t@ {
                let d = choose|d: Date| d.valid() && date_text(d) == t@;
                lemma_date_text_digits(d);
            }
        }
        if t.unicode_len() != 10 {
            return None;
        }
        let y0 = match digit_at(t, 0) { Some(v) => v, None => return None };
        let y1 = match digit_at(t, 1) { Some(v) => v, None => return None };
        let y2 = match digit_at(t, 2) { Some(v) => v, None => return None };
        let y3 = match digit_at(t, 3) { Some(v) => v, None => return None };
        let m0 = match digit_at(t, 5) { Some(v) => v, None => return None };
        let m1 = match digit_at(t, 6) { Some(v) => v, None => return None };
        let d0 = match digit_at(t, 8) { Some(v) => v, None => return None };
        let d1 = match digit_at(t, 9) { Some(v) => v, None => return None };
        if t.get_char(4) != '-' || t.get_char(7) != '-' {
            return None;
        }
        let year: u16 = y0 as u16 * 1000 + y1 as u16 * 100 + y2 as u16 * 10 + y3 as u16;
        let month: u8 = m0 * 10 + m1;
        let day: u8 = d0 * 10 + d1;
        let r = Date::from_ymd(year, month, day);
        proof {
            assert(t@[4] == '-' && t@[7] == '-');
            lemma_fields_text(t@);
            assert(Date { year, month, day } == fields_of(t@));
            if exists|e: Date| e.valid() && date_text(e) == t@ {
                let e = choose|e: Date| e.valid() && date_text(e) == t@;
                lemma_date_text_digits(e);
            }
        }
        r
    }
}

fn digit_at(t: &str, i: usize) -> (r: Option<u8>)
    requires
        i < t@.len(),
    ensures
        r is Some <==> is_digit(t@[i as int]),
        r matches Some(v) ==> v < 10 && v as int == digit_value(t@[i as int]),
{
    let c = t.get_char(i);
    if '0' <= c && c <= '9' {
        Some((c as u32 - 48) as u8)
    } else {
        None
    }
}

/// The date that the digits of `YYYY-MM-DD` stand for.
pub open spec fn fields_of(t: Seq<char>) -> Date {
    Date {
        year: (digit_value(t[0]) * 1000 + digit_value(t[1]) * 100 + digit_value(t[2]) * 10
            + digit_value(t[3])) as u16,
        month: (digit_value(t[5]) * 10 + digit_value(t[6])) as u8,
        day: (digit_value(t[8]) * 10 + digit_value(t[9])) as u8,
    }
}

proof fn lemma_split4(y: int)
    requires
        0 <= y <= 9999,
    ensures
        y == 1000 * (y / 1000) + 100 * ((y / 100) % 10) + 10 * ((y / 10) % 10) + y % 10,
        0 <= y / 1000 < 10,
{
    let a = y / 10;
    let b = a / 10;
    let c = b / 10;
    lemma_fundamental_div_mod(y, 10);
    lemma_fundamental_div_mod(a, 10);
    lemma_fundamental_div_mod(b, 10);
    lemma_div_denominator(y, 10, 10);
    lemma_div_denominator(y, 100, 10);
    assert(y / 100 == b);
    assert(y / 1000 == c);
}

proof fn lemma_join4(a: int, b: int, c: int, d: int)
    requires
        0 <= a < 10,
        0 <= b < 10,
        0 <= c < 10,
        0 <= d < 10,
    ensures
        (a * 1000 + b * 100 + c * 10 + d) / 1000 == a,
        ((a * 1000 + b * 100 + c * 10 + d) / 100) % 10 == b,
        ((a * 1000 + b * 100 + c * 10 + d) / 10) % 10 == c,
        (a * 1000 + b * 100 + c * 10 + d) % 10 == d,
        (a * 10 + b) / 10 == a,
        (a * 10 + b) % 10 == b,
{
    let x = a * 1000 + b * 100 + c * 10 + d;
    lemma_fundamental_div_mod_converse(x, 1000, a, b * 100 + c * 10 + d);
    lemma_fundamental_div_mod_converse(x, 100, a * 10 + b, c * 10 + d);
    lemma_fundamental_div_mod_converse(x, 10, a * 100 + b * 10 + c, d);
    lemma_fundamental_div_mod_converse(a * 10 + b, 10, a, b);
    lemma_fundamental_div_mod_converse(a * 100 + b * 10 + c, 10, a * 10 + b, c);
}

proof fn lemma_date_text_digits(d: Date)
    requires
        d.year <= 9999,
        d.month <= 99,
        d.day <= 99,
    ensures
        date_text(d).len() == 10,
        forall|i: int| 0 <= i < 10 && i != 4 && i != 7 ==> is_digit(#[trigger] date_text(d)[i]),
        date_text(d)[4] == '-',
        date_text(d)[7] == '-',
        fields_of(date_text(d)) == d,
{
    lemma_split4(d.year as int);
}

proof fn lemma_fields_text(t: Seq<char>)
    requires
        t.len() == 10,
        forall|i: int| 0 <= i < 10 && i != 4 && i != 7 ==> is_digit(#[trigger] t[i]),
        t[4] == '-',
        t[7] == '-',
    ensures
        date_text(fields_of(t)) == t,
{
    let y = digit_value(t[0]) * 1000 + digit_value(t[1]) * 100 + digit_value(t[2]) * 10 + digit_value(t[3]);
    lemma_join4(digit_value(t[0]), digit_value(t[1]), digit_value(t[2]), digit_value(t[3]));
    lemma_join4(digit_value(t[5]), digit_value(t[6]), 0, 0);
    lemma_join4(digit_value(t[8]), digit_value(t[9]), 0, 0);
    assert(is_digit(t[0]) && is_digit(t[1]) && is_digit(t[2]) && is_digit(t[3]));
    assert(is_digit(t[5]) && is_digit(t[6]) && is_digit(t[8]) && is_digit(t[9]));
    assert(date_text(fields_of(t)) =~= t);
}

fn days_in_month(y: u16, m: u8) -> (r: u8)
    requires
        1 <= m <= 12,
    ensures
        r as int == days_in_month_spec(y as int, m as int),
{
    if m == 2 {
        if (y % 4 == 0 && y % 100 != 0) || y % 400 == 0 {
            29
        } else {
            28
        }
    } else if m == 4 || m == 6 || m == 9 || m == 11 {
        30
    } else {
        31
    }
}

fn dash() -> (r: &'static str)
    ensures
        r@ == seq!['-'],
{
    proof {
        reveal_strlit("-");
    }
    "-"
}

fn digit_str(n: u8) -> (r: &'static str)
    requires
        n < 10,
    ensures
        r@ == seq![digit_char(n as int)],
{
    proof {
        reveal_strlit("0");
        reveal_strlit("1");
        reveal_strlit("2");
        reveal_strlit("3");
        reveal_strlit("4");
        reveal_strlit("5");
        reveal_strlit("6");
        reveal_strlit("7");
        reveal_strlit("8");
        reveal_strlit("9");
    }
    match n {
        0 => "0",
        1 => "1",
        2 => "2",
        3 => "3",
        4 => "4",
        5 => "5",
        6 => "6",
        7 => "7",
        8 => "8",
        _ => "9",
    }
}

/// Two valid dates with the same text are the same date.
pub proof fn lemma_date_text_injective(d: Date)
    requires
        d.valid(),
    ensures
        forall|e: Date| e.valid() && date_text(e) == date_text(d) ==> e == d,
{
    lemma_date_text_digits(d);
    assert forall|e: Date| e.valid() && date_text(e) == date_text(d) implies e == d by {
        lemma_date_text_digits(e);
    }
}

} // verus!
