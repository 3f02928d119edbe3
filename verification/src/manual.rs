//! The manual-results CSV decoder: fourteen positional fields per data row,
//! `#`-comment and blank lines skipped, short or malformed rows skipped
//! (row-level problems are never fatal), dates normalised from `M/D/YYYY`.

use vstd::prelude::*;
use crate::text;
use crate::text::trim;
use crate::dates::{Date, mdy_date_of, parse_mdy_date};
use crate::model::{ManualResultV, ManualResultRow, manual_rows_view};

verus! {

/// The segments of `s` around every occurrence of `c`.
pub open spec fn split_char(s: Seq<char>, c: char) -> Seq<Seq<char>>
    decreases s.len(),
{
    if s.len() == 0 {
        seq![Seq::empty()]
    } else if s[0] == c {
        seq![Seq::<char>::empty()] + split_char(s.drop_first(), c)
    } else {
        let r = split_char(s.drop_first(), c);
        seq![seq![s[0]] + r[0]] + r.drop_first()
    }
}

proof fn lemma_split_char_len(s: Seq<char>, c: char)
    ensures
        split_char(s, c).len() >= 1,
    decreases s.len(),
{
    if s.len() > 0 {
        lemma_split_char_len(s.drop_first(), c);
    }
}

/// Splits on a separator character, per [`split_char`].
pub fn split_char_exec(v: &Vec<char>, c: char) -> (r: Vec<Vec<char>>)
    ensures
        r.deep_view() == split_char(v@, c),
        r@.len() >= 1,
{
    let n = v.len();
    let mut done: Vec<Vec<char>> = Vec::new();
    let mut cur: Vec<char> = Vec::new();
    let mut i: usize = 0;
    proof {
        assert(v@.skip(0) =~= v@);
        lemma_split_char_len(v@, c);
        assert(cur@ + split_char(v@, c)[0] =~= split_char(v@, c)[0]);
        assert(done.deep_view() + seq![cur@ + split_char(v@, c)[0]] + split_char(
            v@,
            c,
        ).drop_first() =~= seq![split_char(v@, c)[0]] + split_char(v@, c).drop_first());
        assert(seq![split_char(v@, c)[0]] + split_char(v@, c).drop_first() =~= split_char(v@, c));
    }
    while i < n
        invariant
            0 <= i <= n == v@.len(),
            split_char(v@, c) == done.deep_view() + seq![cur@ + split_char(
                v@.skip(i as int),
                c,
            )[0]] + split_char(v@.skip(i as int), c).drop_first(),
        decreases n - i,
    {
        let ghost rest = v@.skip(i as int);
        let ghost rest1 = v@.skip(i + 1 as int);
        proof {
            assert(rest.drop_first() =~= rest1);
            assert(rest[0] == v@[i as int]);
            lemma_split_char_len(rest1, c);
        }
        let d = v[i];
        let ghost donev0 = done.deep_view();
        let ghost cur0 = cur@;
        if d == c {
            done.push(cur);
            cur = Vec::new();
            proof {
                assert(split_char(rest, c) == seq![Seq::<char>::empty()] + split_char(rest1, c));
                assert(split_char(rest, c)[0] =~= Seq::<char>::empty());
                assert(split_char(rest, c).drop_first() =~= split_char(rest1, c));
                assert(done.deep_view() =~~= donev0.push(cur0));
                assert(cur0 + split_char(rest, c)[0] =~= cur0);
                assert(cur@ + split_char(rest1, c)[0] =~= split_char(rest1, c)[0]);
                assert(donev0 + seq![cur0 + split_char(rest, c)[0]] + split_char(
                    rest,
                    c,
                ).drop_first() =~~= done.deep_view() + seq![cur@ + split_char(rest1, c)[0]]
                    + split_char(rest1, c).drop_first());
            }
        } else {
            cur.push(d);
            proof {
                let r1 = split_char(rest1, c);
                assert(split_char(rest, c) == seq![seq![d] + r1[0]] + r1.drop_first());
                assert(split_char(rest, c)[0] == seq![d] + r1[0]);
                assert(split_char(rest, c).drop_first() =~= r1.drop_first());
                assert(cur@ + r1[0] =~= cur0 + (seq![d] + r1[0]));
                assert(donev0 + seq![cur0 + split_char(rest, c)[0]] + split_char(
                    rest,
                    c,
                ).drop_first() =~~= done.deep_view() + seq![cur@ + r1[0]] + r1.drop_first());
            }
        }
        i = i + 1;
    }
    let ghost donev0 = done.deep_view();
    let ghost cur0 = cur@;
    proof {
        let rest = v@.skip(n as int);
        assert(rest.len() == 0);
        assert(split_char(rest, c) == seq![Seq::<char>::empty()]);
        assert(cur0 + split_char(rest, c)[0] =~= cur0);
        assert(split_char(rest, c).drop_first() =~= Seq::<Seq<char>>::empty());
        assert(split_char(v@, c) =~~= donev0.push(cur0));
    }
    done.push(cur);
    proof {
        assert(done.deep_view() =~~= donev0.push(cur0));
        assert(done.deep_view().len() == done@.len());
    }
    done
}

/// What one manual CSV line yields.
pub enum ManualLine {
    /// A blank line, a comment, a row with fewer than fourteen fields, or a
    /// data row whose ordinal, date or numeric column does not parse.
    /// Row-level problems are never fatal: the line contributes nothing.
    Skipped,
    /// One decoded manual result.
    Row(ManualResultV),
}

/// A cell reads as a 32-bit ordinal.
pub open spec fn reads_i32(s: Seq<char>) -> bool {
    match text::parse_int(s) {
        Some(x) => i32::MIN <= x <= i32::MAX,
        None => false,
    }
}

/// A cell reads as a decimal number: an integer or a float-shaped token.
pub open spec fn reads_number(s: Seq<char>) -> bool {
    text::parse_int(s) is Some || text::is_float_str(s)
}

/// What one line of a manual CSV file yields: skipped or a row, with the
/// fourteen positional fields
/// `result,test,fg,rev,batch,operator,date,time,sn,passfail,minimum,reading,maximum,uom`,
/// each trimmed, and the date normalised from `M/D/YYYY`.
pub open spec fn manual_line_spec(line: Seq<char>, fp: Seq<char>) -> ManualLine {
    let t = trim(line);
    if t.len() == 0 || t[0] == '#' {
        ManualLine::Skipped
    } else {
        let fs = split_char(line, ',');
        if fs.len() < 14 {
            ManualLine::Skipped
        } else if !reads_i32(trim(fs[0])) {
            ManualLine::Skipped
        } else if mdy_date_of(trim(fs[6])) is None {
            ManualLine::Skipped
        } else if !reads_number(trim(fs[10])) || !reads_number(trim(fs[11])) || !reads_number(
            trim(fs[12]),
        ) {
            ManualLine::Skipped
        } else {
            ManualLine::Row(
                ManualResultV {
                    result: text::parse_int(trim(fs[0]))->0 as i32,
                    test: trim(fs[1]),
                    fg: trim(fs[2]),
                    rev: trim(fs[3]),
                    batch: trim(fs[4]),
                    operator: trim(fs[5]),
                    date: trim(fs[6]),
                    time: trim(fs[7]),
                    sn: trim(fs[8]),
                    passfail: trim(fs[9]),
                    minimum: trim(fs[10]),
                    reading: trim(fs[11]),
                    maximum: trim(fs[12]),
                    uom: trim(fs[13]),
                    file_path: fp,
                    normalized_date: mdy_date_of(trim(fs[6]))->0,
                    created_at: 0,
                },
            )
        }
    }
}

/// The rows of a manual CSV text from line `i` on; skipped lines contribute
/// nothing.
pub open spec fn manual_rows_spec(lines: Seq<Seq<char>>, i: int, fp: Seq<char>) -> Seq<
    ManualResultV,
>
    decreases lines.len() - i,
{
    if i < 0 || i >= lines.len() {
        Seq::empty()
    } else {
        match manual_line_spec(lines[i], fp) {
            ManualLine::Skipped => manual_rows_spec(lines, i + 1, fp),
            ManualLine::Row(r) => seq![r] + manual_rows_spec(lines, i + 1, fp),
        }
    }
}

/// The rows of a whole manual CSV text.
pub open spec fn manual_file_rows(content: Seq<char>, fp: Seq<char>) -> Seq<ManualResultV> {
    manual_rows_spec(crate::parser::lines_of(content), 0, fp)
}

fn trimmed_field(fields: &Vec<Vec<char>>, i: usize) -> (r: Vec<char>)
    requires
        i < fields@.len(),
    ensures
        r@ == trim(fields.deep_view()[i as int]),
{
    let f = &fields[i];
    proof {
        assert(f@ =~= fields.deep_view()[i as int]);
    }
    text::trim_chars(f)
}

/// Decodes one manual CSV file, per [`manual_file_rows`]: blank, comment,
/// short and malformed lines are skipped — row-level problems are never
/// fatal — and every well-formed data row becomes one result. With the
/// content already in hand no file-level failure remains, so the result is
/// always `Ok`.
pub fn parse_manual_csv(content: &str, file_path: &str) -> (r: Result<
    Vec<ManualResultRow>,
    String,
>)
    ensures
        (match r {
            Ok(rows) => manual_rows_view(rows@) == manual_file_rows(content@, file_path@),
            Err(_) => false,
        }),
{
    let cv = text::str_to_chars(content);
    let lines = crate::parser::split_lines(&cv);
    let ghost ls = crate::parser::lines_of(content@);
    let nl = lines.len();
    let mut rows: Vec<ManualResultRow> = Vec::new();
    let mut i: usize = 0;
    proof {
        assert(lines.deep_view() == ls);
        assert(manual_rows_view(rows@) =~= Seq::<ManualResultV>::empty());
        assert(manual_rows_view(rows@) + manual_rows_spec(ls, 0, file_path@) =~= manual_rows_spec(
            ls,
            0,
            file_path@,
        ));
    }
    while i < nl
        invariant
            0 <= i <= nl == ls.len(),
            ls == lines.deep_view(),
            nl == lines@.len(),
            manual_file_rows(content@, file_path@) == manual_rows_view(rows@) + manual_rows_spec(
                ls,
                i as int,
                file_path@,
            ),
        decreases nl - i,
    {
        let line = &lines[i];
        proof {
            assert(line@ == ls[i as int]);
        }
        let t = text::trim_chars(line);
        let ghost rows0 = manual_rows_view(rows@);
        if t.len() == 0 || t[0] == '#' {
            i = i + 1;
            continue ;
        }
        let fields = split_char_exec(line, ',');
        let ghost fv = split_char(line@, ',');
        if fields.len() < 14 {
            i = i + 1;
            continue ;
        }
        let f0 = trimmed_field(&fields, 0);
        let result_ok: Option<i64> = text::parse_int_chars(&f0);
        let mut result_num: i32 = 0;
        let mut well_formed = true;
        match result_ok {
            Some(x) => {
                if i32::MIN as i64 <= x && x <= i32::MAX as i64 {
                    result_num = x as i32;
                } else {
                    well_formed = false;
                }
            },
            None => {
                well_formed = false;
            },
        }
        if !well_formed {
            i = i + 1;
            continue ;
        }
        let f6 = trimmed_field(&fields, 6);
        let nd = parse_mdy_date(&f6);
        let normalized_date: Date;
        match nd {
            Some(d) => {
                normalized_date = d;
            },
            None => {
                i = i + 1;
                continue ;
            },
        }
        let f10 = trimmed_field(&fields, 10);
        if !number_cell(&f10) {
            i = i + 1;
            continue ;
        }
        let f11 = trimmed_field(&fields, 11);
        if !number_cell(&f11) {
            i = i + 1;
            continue ;
        }
        let f12 = trimmed_field(&fields, 12);
        if !number_cell(&f12) {
            i = i + 1;
            continue ;
        }
        let f1 = trimmed_field(&fields, 1);
        let f2 = trimmed_field(&fields, 2);
        let f3 = trimmed_field(&fields, 3);
        let f4 = trimmed_field(&fields, 4);
        let f5 = trimmed_field(&fields, 5);
        let f7 = trimmed_field(&fields, 7);
        let f8 = trimmed_field(&fields, 8);
        let f9 = trimmed_field(&fields, 9);
        let f13 = trimmed_field(&fields, 13);
        let row = ManualResultRow {
            result: result_num,
            test: text::chars_to_string(&f1),
            fg: text::chars_to_string(&f2),
            rev: text::chars_to_string(&f3),
            batch: text::chars_to_string(&f4),
            operator: text::chars_to_string(&f5),
            date: text::chars_to_string(&f6),
            time: text::chars_to_string(&f7),
            sn: text::chars_to_string(&f8),
            passfail: text::chars_to_string(&f9),
            minimum: text::chars_to_string(&f10),
            reading: text::chars_to_string(&f11),
            maximum: text::chars_to_string(&f12),
            uom: text::chars_to_string(&f13),
            file_path: String::from_str(file_path),
            normalized_date,
            created_at: 0,
        };
        proof {
            assert(manual_line_spec(ls[i as int], file_path@) == ManualLine::Row(row@));
        }
        let ghost rowv = row@;
        rows.push(row);
        proof {
            assert(manual_rows_view(rows@) =~= rows0.push(rowv));
            let rec = manual_rows_spec(ls, i + 1 as int, file_path@);
            assert(rows0 + (seq![rowv] + rec) =~= manual_rows_view(rows@) + rec);
        }
        i = i + 1;
    }
    proof {
        assert(manual_rows_spec(ls, nl as int, file_path@) == Seq::<ManualResultV>::empty());
        assert(manual_rows_view(rows@) + Seq::<ManualResultV>::empty() =~= manual_rows_view(
            rows@,
        ));
    }
    Ok(rows)
}

/// Parses a manual-file date of the `M/D/YYYY` shape, per
/// [`mdy_date_of`]; the error carries the offending text.
pub fn parse_date(date_str: &str) -> (r: Result<Date, String>)
    ensures
        (match r {
            Ok(d) => mdy_date_of(date_str@) == Some(d),
            Err(_) => mdy_date_of(date_str@) is None,
        }),
{
    let v = text::str_to_chars(date_str);
    match parse_mdy_date(&v) {
        Some(d) => Ok(d),
        None => {
            let mut s = String::from_str("Could not parse date: ");
            s.append(date_str);
            Err(s)
        },
    }
}

/// Checks a trimmed cell for a decimal-number shape, per [`reads_number`].
fn number_cell(v: &Vec<char>) -> (r: bool)
    ensures
        r == reads_number(v@),
{
    match text::parse_int_chars(v) {
        Some(_) => true,
        None => text::is_float_chars(v),
    }
}

} // verus!
