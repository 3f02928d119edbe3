//! Calendar dates as plain year/month/day values, with the validity rules of
//! the proleptic Gregorian calendar, parsing of the two raw date shapes that
//! result files carry (`DD-MM-YY` and `M/D/YYYY`), and ISO formatting.

use vstd::prelude::*;
use crate::text;

verus! {

use vstd::arithmetic::div_mod::{lemma_fundamental_div_mod, lemma_fundamental_div_mod_converse};

/// A calendar date. Well-formed values satisfy [`Date::wf`].
#[derive(Clone, Copy, PartialEq, Eq, Structural, Debug)]
pub struct Date {
    pub year: i32,
    pub month: u32,
    pub day: u32,
}

/// Gregorian leap-year rule.
pub open spec fn is_leap_year(y: int) -> bool {
    y % 4 == 0 && (y % 100 != 0 || y % 400 == 0)
}

/// Days in a month of a given year.
pub open spec fn days_in_month(y: int, m: int) -> int {
    if m == 2 {
        if is_leap_year(y) {
            29
        } else {
            28
        }
    } else if m == 4 || m == 6 || m == 9 || m == 11 {
        30
    } else {
        31
    }
}

/// A valid Gregorian date of the common era.
pub open spec fn valid_date(y: int, m: int, d: int) -> bool {
    0 <= y && 1 <= m <= 12 && 1 <= d <= days_in_month(y, m)
}

impl Date {
    /// The date is valid in the Gregorian calendar.
    pub open spec fn wf(self) -> bool {
        valid_date(self.year as int, self.month as int, self.day as int)
    }
}

/// Executable mirror of [`days_in_month`].
pub fn days_in_month_exec(y: i32, m: u32) -> (r: u32)
    requires
        y >= 0,
        1 <= m <= 12,
    ensures
        r as int == days_in_month(y as int, m as int),
{
    if m == 2 {
        if y % 4 == 0 && (y % 100 != 0 || y % 400 == 0) {
            29
        } else {
            28
        }
    } else if m == 4 || m == 6 || m == 9 || m == 11 {
        30
    } else {
        31
    }
}

/// Builds a date after checking Gregorian validity; `None` for an invalid
/// combination.
pub fn date_from_ymd(year: i32, month: u32, day: u32) -> (r: Option<Date>)
    ensures
        valid_date(year as int, month as int, day as int) ==> r == Some(
            Date { year, month, day },
        ),
        !valid_date(year as int, month as int, day as int) ==> r is None,
        r is Some ==> r->0.wf() && r->0 == (Date { year, month, day }),
{
    if year >= 0 && 1 <= month && month <= 12 {
        let dm = days_in_month_exec(year, month);
        if 1 <= day && day <= dm {
            Some(Date { year, month, day })
        } else {
            None
        }
    } else {
        None
    }
}

/// The character for one decimal digit.
pub open spec fn digit_of(d: int) -> char {
    if d == 0 {
        '0'
    } else if d == 1 {
        '1'
    } else if d == 2 {
        '2'
    } else if d == 3 {
        '3'
    } else if d == 4 {
        '4'
    } else if d == 5 {
        '5'
    } else if d == 6 {
        '6'
    } else if d == 7 {
        '7'
    } else if d == 8 {
        '8'
    } else {
        '9'
    }
}

/// Executable mirror of [`digit_of`].
pub fn digit_char_of(d: u32) -> (c: char)
    requires
        d <= 9,
    ensures
        c == digit_of(d as int),
{
    if d == 0 {
        '0'
    } else if d == 1 {
        '1'
    } else if d == 2 {
        '2'
    } else if d == 3 {
        '3'
    } else if d == 4 {
        '4'
    } else if d == 5 {
        '5'
    } else if d == 6 {
        '6'
    } else if d == 7 {
        '7'
    } else if d == 8 {
        '8'
    } else {
        '9'
    }
}

/// A number written with exactly two digits (modulo 100 is the caller's
/// business).
pub open spec fn two_digits(n: int) -> Seq<char> {
    seq![digit_of(n / 10), digit_of(n % 10)]
}

/// A number written with exactly four digits.
pub open spec fn four_digits(n: int) -> Seq<char> {
    seq![
        digit_of(n / 1000),
        digit_of((n / 100) % 10),
        digit_of((n / 10) % 10),
        digit_of(n % 10),
    ]
}

/// Appends the two-digit form of `n` to `out`.
pub fn push_two_digits(out: &mut Vec<char>, n: u32)
    requires
        n < 100,
    ensures
        final(out)@ == old(out)@ + two_digits(n as int),
{
    out.push(digit_char_of(n / 10));
    out.push(digit_char_of(n % 10));
    proof {
        assert(out@ =~= old(out)@ + two_digits(n as int));
    }
}

/// Appends the four-digit form of `n` to `out`.
pub fn push_four_digits(out: &mut Vec<char>, n: u32)
    requires
        n < 10000,
    ensures
        final(out)@ == old(out)@ + four_digits(n as int),
{
    out.push(digit_char_of(n / 1000));
    out.push(digit_char_of((n / 100) % 10));
    out.push(digit_char_of((n / 10) % 10));
    out.push(digit_char_of(n % 10));
    proof {
        assert(out@ =~= old(out)@ + four_digits(n as int));
    }
}

/// The ISO `YYYY-MM-DD` form of a date with a four-digit year.
pub open spec fn iso_seq(d: Date) -> Seq<char> {
    four_digits(d.year as int) + seq!['-'] + two_digits(d.month as int) + seq!['-'] + two_digits(
        d.day as int,
    )
}

/// Formats a date as ISO `YYYY-MM-DD`.
pub fn format_iso(d: &Date) -> (r: Vec<char>)
    requires
        0 <= d.year < 10000,
        d.month < 100,
        d.day < 100,
    ensures
        r@ == iso_seq(*d),
{
    let mut out: Vec<char> = Vec::new();
    push_four_digits(&mut out, d.year as u32);
    out.push('-');
    push_two_digits(&mut out, d.month);
    out.push('-');
    push_two_digits(&mut out, d.day);
    proof {
        assert(out@ =~= iso_seq(*d));
    }
    out
}

/// The `DD-MM-YY` form with a two-digit year.
pub open spec fn dmy_seq(d: Date) -> Seq<char> {
    two_digits(d.day as int) + seq!['-'] + two_digits(d.month as int) + seq!['-'] + two_digits(
        d.year as int % 100,
    )
}

/// Formats a date back into the raw `DD-MM-YY` shape.
pub fn format_dmy(d: &Date) -> (r: Vec<char>)
    requires
        d.year >= 0,
        d.month < 100,
        d.day < 100,
    ensures
        r@ == dmy_seq(*d),
{
    let mut out: Vec<char> = Vec::new();
    push_two_digits(&mut out, d.day);
    out.push('-');
    push_two_digits(&mut out, d.month);
    out.push('-');
    push_two_digits(&mut out, (d.year % 100) as u32);
    proof {
        assert(out@ =~= dmy_seq(*d));
    }
    out
}

/// Positions of the two separators `sep` in a three-part date string:
/// `s = part0 sep part1 sep part2` with no further separator.
pub open spec fn is_three_parts(s: Seq<char>, sep: char, i: int, j: int) -> bool {
    &&& 0 <= i < j < s.len()
    &&& s[i] == sep
    &&& s[j] == sep
    &&& forall|k: int| 0 <= k < s.len() && k != i && k != j ==> s[k] != sep
}

/// Finds the positions of exactly two occurrences of `sep`; `None` unless
/// there are exactly two.
pub fn find_two_separators(v: &Vec<char>, sep: char) -> (r: Option<(usize, usize)>)
    ensures
        match r {
            Some((i, j)) => is_three_parts(v@, sep, i as int, j as int),
            None => forall|i: int, j: int| !is_three_parts(v@, sep, i, j),
        },
{
    let n = v.len();
    let mut count: usize = 0;
    let mut first: usize = 0;
    let mut second: usize = 0;
    let mut third: usize = 0;
    let mut k: usize = 0;
    while k < n
        invariant
            0 <= k <= n == v@.len(),
            count <= k,
            count == 0 ==> forall|t: int| 0 <= t < k ==> v@[t] != sep,
            count == 1 ==> 0 <= first < k && v@[first as int] == sep && forall|t: int|
                0 <= t < k && t != first ==> v@[t] != sep,
            count >= 2 ==> 0 <= first < second < k && v@[first as int] == sep && v@[second as int]
                == sep,
            count == 2 ==> forall|t: int|
                0 <= t < k && t != first && t != second ==> v@[t] != sep,
            count >= 3 ==> second < third < k && v@[third as int] == sep,
        decreases n - k,
    {
        if v[k] == sep {
            if count == 0 {
                first = k;
            } else if count == 1 {
                second = k;
            } else if count == 2 {
                third = k;
            }
            count = count + 1;
        }
        k = k + 1;
    }
    if count == 2 {
        proof {
            assert(is_three_parts(v@, sep, first as int, second as int));
        }
        Some((first, second))
    } else {
        proof {
            assert forall|i: int, j: int| !is_three_parts(v@, sep, i, j) by {
                if is_three_parts(v@, sep, i, j) {
                    if count == 0 {
                        assert(v@[i] != sep);
                    } else if count == 1 {
                        if i != first {
                            assert(v@[i] != sep);
                        } else {
                            assert(v@[j] != sep);
                        }
                    } else {
                        if i != first && j != first {
                            assert(v@[first as int] != sep);
                        } else if i != second && j != second {
                            assert(v@[second as int] != sep);
                        } else {
                            assert(i == first || i == second);
                            assert(j == first || j == second);
                            assert(i < j && first < second);
                            assert(i == first && j == second);
                            assert(v@[third as int] != sep);
                        }
                    }
                }
            }
        }
        None
    }
}

/// Only one pair of positions can split a string into three parts.
pub proof fn lemma_three_parts_unique(s: Seq<char>, sep: char, i: int, j: int, i2: int, j2: int)
    requires
        is_three_parts(s, sep, i, j),
        is_three_parts(s, sep, i2, j2),
    ensures
        i == i2 && j == j2,
{
    if i2 != i && i2 != j {
        assert(s[i2] != sep);
    }
    if j2 != i && j2 != j {
        assert(s[j2] != sep);
    }
}

/// The three fields of `s` around the two unique `sep` positions, or `None`
/// if `s` does not consist of exactly three `sep`-separated fields.
pub open spec fn split3(s: Seq<char>, sep: char) -> Option<(Seq<char>, Seq<char>, Seq<char>)> {
    if exists|i: int, j: int| is_three_parts(s, sep, i, j) {
        let (i, j) = choose|i: int, j: int| is_three_parts(s, sep, i, j);
        Some((s.subrange(0, i), s.subrange(i + 1, j), s.subrange(j + 1, s.len() as int)))
    } else {
        None
    }
}

/// Splits `v` into exactly three fields around `sep`, per [`split3`].
pub fn split3_chars(v: &Vec<char>, sep: char) -> (r: Option<(Vec<char>, Vec<char>, Vec<char>)>)
    ensures
        match r {
            Some((a, b, c)) => split3(v@, sep) == Some((a@, b@, c@)),
            None => split3(v@, sep) is None,
        },
{
    match find_two_separators(v, sep) {
        Some((i, j)) => {
            let n = v.len();
            proof {
                assert(is_three_parts(v@, sep, i as int, j as int));
                assert(j < n);
            }
            let a = text::subrange_chars(v, 0, i);
            let b = text::subrange_chars(v, i + 1, j);
            let c = text::subrange_chars(v, j + 1, v.len());
            proof {
                let (ci, cj) = choose|ci: int, cj: int| is_three_parts(v@, sep, ci, cj);
                lemma_three_parts_unique(v@, sep, i as int, j as int, ci, cj);
            }
            Some((a, b, c))
        },
        None => None,
    }
}

/// The date encoded by a raw Voltech `DD-MM-YY` string: three `-`-separated
/// fields read as day, month and two-digit year, the year taken in the
/// twenty-first century, accepted only if the result is a valid date.
pub open spec fn voltech_date_of(s: Seq<char>) -> Option<Date> {
    match split3(s, '-') {
        None => None,
        Some((p0, p1, p2)) => {
            let d = text::parse_int(p0);
            let m = text::parse_int(p1);
            let y = text::parse_int(p2);
            if d is Some && m is Some && y is Some && 0 <= d->0 <= u32::MAX && 0 <= m->0
                <= u32::MAX && 0 <= y->0 <= i32::MAX - 2000 {
                if valid_date(2000 + y->0 as int, m->0 as int, d->0 as int) {
                    Some(
                        Date {
                            year: (2000 + y->0) as i32,
                            month: m->0 as u32,
                            day: d->0 as u32,
                        },
                    )
                } else {
                    None
                }
            } else {
                None
            }
        },
    }
}

/// Parses a raw Voltech `DD-MM-YY` date, per [`voltech_date_of`].
pub fn parse_voltech_date(v: &Vec<char>) -> (r: Option<Date>)
    ensures
        r == voltech_date_of(v@),
{
    match split3_chars(v, '-') {
        None => None,
        Some((p0, p1, p2)) => {
            let d = text::parse_int_chars(&p0);
            let m = text::parse_int_chars(&p1);
            let y = text::parse_int_chars(&p2);
            match (d, m, y) {
                (Some(d), Some(m), Some(y)) => {
                    if 0 <= d && d <= u32::MAX as i64 && 0 <= m && m <= u32::MAX as i64 && 0 <= y
                        && y <= (i32::MAX - 2000) as i64 {
                        date_from_ymd(2000 + y as i32, m as u32, d as u32)
                    } else {
                        None
                    }
                },
                _ => None,
            }
        },
    }
}

/// The date encoded by a manual-file `M/D/YYYY` string: three `/`-separated
/// fields read as month, day and full year, accepted only if the result is a
/// valid date.
pub open spec fn mdy_date_of(s: Seq<char>) -> Option<Date> {
    match split3(s, '/') {
        None => None,
        Some((p0, p1, p2)) => {
            let m = text::parse_int(p0);
            let d = text::parse_int(p1);
            let y = text::parse_int(p2);
            if m is Some && d is Some && y is Some && 0 <= m->0 <= u32::MAX && 0 <= d->0
                <= u32::MAX && i32::MIN <= y->0 <= i32::MAX {
                if valid_date(y->0 as int, m->0 as int, d->0 as int) {
                    Some(Date { year: y->0 as i32, month: m->0 as u32, day: d->0 as u32 })
                } else {
                    None
                }
            } else {
                None
            }
        },
    }
}

/// Parses a manual-file `M/D/YYYY` date, per [`mdy_date_of`].
pub fn parse_mdy_date(v: &Vec<char>) -> (r: Option<Date>)
    ensures
        r == mdy_date_of(v@),
{
    match split3_chars(v, '/') {
        None => None,
        Some((p0, p1, p2)) => {
            let m = text::parse_int_chars(&p0);
            let d = text::parse_int_chars(&p1);
            let y = text::parse_int_chars(&p2);
            match (m, d, y) {
                (Some(m), Some(d), Some(y)) => {
                    if 0 <= m && m <= u32::MAX as i64 && 0 <= d && d <= u32::MAX as i64
                        && i32::MIN as i64 <= y && y <= i32::MAX as i64 {
                        date_from_ymd(y as i32, m as u32, d as u32)
                    } else {
                        None
                    }
                },
                _ => None,
            }
        },
    }
}

/// The ISO date a string holds: `YYYY-MM-DD`, read as year, month, day.
pub open spec fn iso_date_of(s: Seq<char>) -> Option<Date> {
    match split3(s, '-') {
        None => None,
        Some((p0, p1, p2)) => {
            let y = text::parse_int(p0);
            let m = text::parse_int(p1);
            let d = text::parse_int(p2);
            if y is Some && m is Some && d is Some && 0 <= y->0 <= i32::MAX && 0 <= m->0
                <= u32::MAX && 0 <= d->0 <= u32::MAX {
                if valid_date(y->0 as int, m->0 as int, d->0 as int) {
                    Some(Date { year: y->0 as i32, month: m->0 as u32, day: d->0 as u32 })
                } else {
                    None
                }
            } else {
                None
            }
        },
    }
}

/// Parses an ISO `YYYY-MM-DD` date, per [`iso_date_of`].
pub fn parse_iso_date(v: &Vec<char>) -> (r: Option<Date>)
    ensures
        r == iso_date_of(v@),
{
    match split3_chars(v, '-') {
        None => None,
        Some((p0, p1, p2)) => {
            let y = text::parse_int_chars(&p0);
            let m = text::parse_int_chars(&p1);
            let d = text::parse_int_chars(&p2);
            match (y, m, d) {
                (Some(y), Some(m), Some(d)) => {
                    if 0 <= y && y <= i32::MAX as i64 && 0 <= m && m <= u32::MAX as i64 && 0 <= d
                        && d <= u32::MAX as i64 {
                        date_from_ymd(y as i32, m as u32, d as u32)
                    } else {
                        None
                    }
                },
                _ => None,
            }
        },
    }
}

proof fn lemma_digit_of_val(c: char)
    requires
        text::is_digit(c),
    ensures
        digit_of(c as int - '0' as int) == c,
        0 <= c as int - '0' as int <= 9,
{
}

proof fn lemma_digits_val_snoc(s: Seq<char>, c: char)
    requires
        text::is_digit(c),
    ensures
        text::digits_val(s.push(c)) == text::digits_val(s) * 10 + (c as int - '0' as int),
{
    let t = s.push(c);
    assert(t.drop_last() =~= s);
    assert(t[t.len() - 1] == c);
}

proof fn lemma_digits_val_two(p: Seq<char>)
    requires
        p.len() == 2,
        text::all_digits(p),
    ensures
        text::digits_val(p) == 10 * (p[0] as int - '0' as int) + (p[1] as int - '0' as int),
        text::digits_val(p) < 100,
{
    let e = Seq::<char>::empty();
    assert(text::is_digit(p[0]) && text::is_digit(p[1]));
    assert(p =~= e.push(p[0]).push(p[1]));
    lemma_digits_val_snoc(e, p[0]);
    lemma_digits_val_snoc(e.push(p[0]), p[1]);
    assert(text::digits_val(e) == 0);
}

proof fn lemma_two_digits_inverse(p: Seq<char>)
    requires
        p.len() == 2,
        text::all_digits(p),
    ensures
        two_digits(text::digits_val(p) as int) == p,
{
    lemma_digits_val_two(p);
    lemma_digit_of_val(p[0]);
    lemma_digit_of_val(p[1]);
    let n = text::digits_val(p) as int;
    assert(n / 10 == p[0] as int - '0' as int);
    assert(n % 10 == p[1] as int - '0' as int);
    assert(two_digits(n) =~= p);
}

/// A raw Voltech date string in canonical `DD-MM-YY` shape that parses to a
/// date comes back unchanged when the date is reformatted: normalising a raw
/// date to ISO and rendering it again is the identity on the raw text.
pub proof fn lemma_voltech_date_round_trip(s: Seq<char>)
    requires
        s.len() == 8,
        s[2] == '-',
        s[5] == '-',
        text::all_digits(s.subrange(0, 2)),
        text::all_digits(s.subrange(3, 5)),
        text::all_digits(s.subrange(6, 8)),
        voltech_date_of(s) is Some,
    ensures
        dmy_seq(voltech_date_of(s)->0) == s,
{
    assert(is_three_parts(s, '-', 2, 5)) by {
        assert(forall|k: int| 0 <= k < 2 ==> s[k] == #[trigger] s.subrange(0, 2)[k]);
        assert(forall|k: int| 3 <= k < 5 ==> s[k] == #[trigger] s.subrange(3, 5)[k - 3]);
        assert(forall|k: int| 6 <= k < 8 ==> s[k] == #[trigger] s.subrange(6, 8)[k - 6]);
    }
    let (ci, cj) = choose|ci: int, cj: int| is_three_parts(s, '-', ci, cj);
    lemma_three_parts_unique(s, '-', 2, 5, ci, cj);
    let p0 = s.subrange(0, 2);
    let p1 = s.subrange(3, 5);
    let p2 = s.subrange(6, 8);
    lemma_digits_val_two(p0);
    lemma_digits_val_two(p1);
    lemma_digits_val_two(p2);
    let d = voltech_date_of(s)->0;
    lemma_two_digits_inverse(p0);
    lemma_two_digits_inverse(p1);
    lemma_two_digits_inverse(p2);
    assert(d.day as int == text::digits_val(p0) as int);
    assert(d.month as int == text::digits_val(p1) as int);
    assert(d.year as int == 2000 + text::digits_val(p2) as int);
    assert(d.year as int % 100 == text::digits_val(p2) as int);
    assert(dmy_seq(d) =~= s);
}

proof fn lemma_digits_val_four(p: Seq<char>)
    requires
        p.len() == 4,
        text::all_digits(p),
    ensures
        text::digits_val(p) == 1000 * (p[0] as int - '0' as int) + 100 * (p[1] as int
            - '0' as int) + 10 * (p[2] as int - '0' as int) + (p[3] as int - '0' as int),
        text::digits_val(p) < 10000,
{
    let e = Seq::<char>::empty();
    assert(text::is_digit(p[0]) && text::is_digit(p[1]) && text::is_digit(p[2]) && text::is_digit(
        p[3],
    ));
    assert(p =~= e.push(p[0]).push(p[1]).push(p[2]).push(p[3]));
    lemma_digits_val_snoc(e, p[0]);
    lemma_digits_val_snoc(e.push(p[0]), p[1]);
    lemma_digits_val_snoc(e.push(p[0]).push(p[1]), p[2]);
    lemma_digits_val_snoc(e.push(p[0]).push(p[1]).push(p[2]), p[3]);
    assert(text::digits_val(e) == 0);
}

proof fn lemma_four_digit_parts(n: int)
    requires
        0 <= n < 10000,
    ensures
        0 <= n / 1000 <= 9,
        0 <= (n / 100) % 10 <= 9,
        0 <= (n / 10) % 10 <= 9,
        0 <= n % 10 <= 9,
        n == 1000 * (n / 1000) + 100 * ((n / 100) % 10) + 10 * ((n / 10) % 10) + n % 10,
{
    lemma_fundamental_div_mod(n, 10);
    let m1 = n / 10;
    let e = n % 10;
    lemma_fundamental_div_mod(m1, 10);
    let m2 = m1 / 10;
    let c = m1 % 10;
    lemma_fundamental_div_mod(m2, 10);
    let m3 = m2 / 10;
    let b = m2 % 10;
    assert(n == 1000 * m3 + 100 * b + 10 * c + e);
    lemma_fundamental_div_mod_converse(n, 1000, m3, 100 * b + 10 * c + e);
    lemma_fundamental_div_mod_converse(n, 100, 10 * m3 + b, 10 * c + e);
    lemma_fundamental_div_mod_converse(10 * m3 + b, 10, m3, b);
    lemma_fundamental_div_mod_converse(100 * m3 + 10 * b + c, 10, 10 * m3 + b, c);
}

proof fn lemma_four_digits_inverse(n: int)
    requires
        0 <= n < 10000,
    ensures
        text::all_digits(four_digits(n)),
        text::digits_val(four_digits(n)) == n,
        four_digits(n).len() == 4,
{
    lemma_four_digit_parts(n);
    let p = four_digits(n);
    assert(text::is_digit(p[0]) && text::is_digit(p[1]) && text::is_digit(p[2]) && text::is_digit(
        p[3],
    ));
    assert(text::all_digits(p));
    lemma_digits_val_four(p);
    assert(p[0] as int - '0' as int == n / 1000);
    assert(p[1] as int - '0' as int == (n / 100) % 10);
    assert(p[2] as int - '0' as int == (n / 10) % 10);
    assert(p[3] as int - '0' as int == n % 10);
}

proof fn lemma_two_digits_val(n: int)
    requires
        0 <= n < 100,
    ensures
        text::all_digits(two_digits(n)),
        text::digits_val(two_digits(n)) == n,
        two_digits(n).len() == 2,
{
    let p = two_digits(n);
    assert(text::is_digit(p[0]) && text::is_digit(p[1]));
    assert(text::all_digits(p));
    lemma_digits_val_two(p);
}

/// Rendering a date as ISO `YYYY-MM-DD` and parsing it back returns the same
/// date.
pub proof fn lemma_iso_round_trip(d: Date)
    requires
        d.wf(),
        0 <= d.year < 10000,
    ensures
        iso_date_of(iso_seq(d)) == Some(d),
{
    let s = iso_seq(d);
    lemma_four_digits_inverse(d.year as int);
    lemma_two_digits_val(d.month as int);
    lemma_two_digits_val(d.day as int);
    assert(s.len() == 10);
    assert(s[4] == '-' && s[7] == '-');
    assert(is_three_parts(s, '-', 4, 7)) by {
        assert(forall|k: int| 0 <= k < 4 ==> s[k] == #[trigger] four_digits(d.year as int)[k]);
        assert(forall|k: int| 5 <= k < 7 ==> s[k] == #[trigger] two_digits(d.month as int)[k - 5]);
        assert(forall|k: int| 8 <= k < 10 ==> s[k] == #[trigger] two_digits(d.day as int)[k - 8]);
    }
    let (ci, cj) = choose|ci: int, cj: int| is_three_parts(s, '-', ci, cj);
    lemma_three_parts_unique(s, '-', 4, 7, ci, cj);
    assert(s.subrange(0, 4) =~= four_digits(d.year as int));
    assert(s.subrange(5, 7) =~= two_digits(d.month as int));
    assert(s.subrange(8, 10) =~= two_digits(d.day as int));
}

} // verus!
