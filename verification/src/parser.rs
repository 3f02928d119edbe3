//! The Voltech `.atr` decoder: CSV line splitting, the two-line header
//! combining rule, the encoded-date lines, and the binding of data lines to
//! result rows.

use vstd::prelude::*;
use crate::text;
use crate::text::{is_ws, trim, norm_spaces, is_digit};
use crate::measurements::{
    MeasVal, MeasValue, map_set, map_json, wf_map, val_of_cell, entries_view, value_of_cell,
    measurements_set, measurements_to_json, lemma_map_set_wf, parse_json, lemma_json_round_trip,
};
use crate::model::{TestResultV, TestResultRow, rows_view};
use crate::dates::{Date, voltech_date_of, parse_voltech_date};

verus! {

/// The fields of one CSV line: split on commas outside quotes, with the
/// quote characters themselves dropped.
pub open spec fn csv_split(s: Seq<char>, inq: bool) -> Seq<Seq<char>>
    decreases s.len(),
{
    if s.len() == 0 {
        seq![Seq::empty()]
    } else if s[0] == '"' {
        csv_split(s.drop_first(), !inq)
    } else if s[0] == ',' && !inq {
        seq![Seq::<char>::empty()] + csv_split(s.drop_first(), inq)
    } else {
        let r = csv_split(s.drop_first(), inq);
        seq![seq![s[0]] + r[0]] + r.drop_first()
    }
}

/// A CSV split always yields at least one field.
pub proof fn lemma_csv_split_len(s: Seq<char>, inq: bool)
    ensures
        csv_split(s, inq).len() >= 1,
    decreases s.len(),
{
    if s.len() > 0 {
        lemma_csv_split_len(s.drop_first(), !inq);
        lemma_csv_split_len(s.drop_first(), inq);
    }
}

/// Splits one CSV line, per [`csv_split`].
pub fn parse_csv_line(v: &Vec<char>) -> (r: Vec<Vec<char>>)
    ensures
        r.deep_view() == csv_split(v@, false),
        r@.len() >= 1,
{
    let n = v.len();
    let mut done: Vec<Vec<char>> = Vec::new();
    let mut cur: Vec<char> = Vec::new();
    let mut inq = false;
    let mut i: usize = 0;
    proof {
        assert(v@.skip(0) =~= v@);
        assert(done.deep_view() + seq![cur@ + csv_split(v@, false)[0]] + csv_split(
            v@,
            false,
        ).drop_first() =~= seq![cur@ + csv_split(v@, false)[0]] + csv_split(v@, false).drop_first());
        lemma_csv_split_len(v@, false);
        assert(cur@ + csv_split(v@, false)[0] =~= csv_split(v@, false)[0]);
        assert(seq![csv_split(v@, false)[0]] + csv_split(v@, false).drop_first() =~= csv_split(
            v@,
            false,
        ));
    }
    while i < n
        invariant
            0 <= i <= n == v@.len(),
            csv_split(v@, false) == done.deep_view() + seq![cur@ + csv_split(
                v@.skip(i as int),
                inq,
            )[0]] + csv_split(v@.skip(i as int), inq).drop_first(),
        decreases n - i,
    {
        let ghost rest = v@.skip(i as int);
        let ghost rest1 = v@.skip(i + 1 as int);
        proof {
            assert(rest.drop_first() =~= rest1);
            assert(rest[0] == v@[i as int]);
            lemma_csv_split_len(rest1, inq);
            lemma_csv_split_len(rest1, !inq);
        }
        let c = v[i];
        let ghost donev0 = done.deep_view();
        let ghost cur0 = cur@;
        if c == '"' {
            inq = !inq;
        } else if c == ',' && !inq {
            done.push(cur);
            cur = Vec::new();
            proof {
                assert(csv_split(rest, inq) == seq![Seq::<char>::empty()] + csv_split(rest1, inq));
                assert(csv_split(rest, inq)[0] =~= Seq::<char>::empty());
                assert(csv_split(rest, inq).drop_first() =~= csv_split(rest1, inq));
                assert(done.deep_view() =~~= donev0.push(cur0));
                assert(cur0 + csv_split(rest, inq)[0] =~= cur0);
                assert(cur@ + csv_split(rest1, inq)[0] =~= csv_split(rest1, inq)[0]);
                assert(donev0 + seq![cur0 + csv_split(rest, inq)[0]] + csv_split(
                    rest,
                    inq,
                ).drop_first() =~~= done.deep_view() + seq![cur@ + csv_split(rest1, inq)[0]]
                    + csv_split(rest1, inq).drop_first());
            }
        } else {
            cur.push(c);
            proof {
                let r1 = csv_split(rest1, inq);
                assert(csv_split(rest, inq) == seq![seq![c] + r1[0]] + r1.drop_first());
                assert(csv_split(rest, inq)[0] == seq![c] + r1[0]);
                assert(csv_split(rest, inq).drop_first() =~= r1.drop_first());
                assert(cur@ + r1[0] =~= cur0 + (seq![c] + r1[0]));
                assert(donev0 + seq![cur0 + csv_split(rest, inq)[0]] + csv_split(
                    rest,
                    inq,
                ).drop_first() =~~= done.deep_view() + seq![cur@ + r1[0]] + r1.drop_first());
            }
        }
        i = i + 1;
    }
    let ghost donev0 = done.deep_view();
    let ghost cur0 = cur@;
    proof {
        let rest = v@.skip(n as int);
        assert(rest.len() == 0);
        assert(csv_split(rest, inq) == seq![Seq::<char>::empty()]);
        assert(cur0 + csv_split(rest, inq)[0] =~= cur0);
        assert(csv_split(rest, inq).drop_first() =~= Seq::<Seq<char>>::empty());
        assert(csv_split(v@, false) =~~= donev0.push(cur0));
    }
    done.push(cur);
    proof {
        assert(done.deep_view() =~~= donev0.push(cur0));
        assert(done.deep_view().len() == done@.len());
    }
    done
}

// ===================== header combining =====================

/// One of the three column tokens the combining rule expands.
pub open spec fn is_token(c: Seq<char>) -> bool {
    c == "Maximum"@ || c == "Reading"@ || c == "Polarity"@
}

/// The columns a token expands to, with the nine-character identifier
/// prefix `k`.
pub open spec fn token_expansion(c: Seq<char>, k: Seq<char>) -> Seq<Seq<char>> {
    if c == "Maximum"@ {
        seq![k + "Maximum"@]
    } else if c == "Reading"@ {
        seq![k + "Reading"@, k + "Pass/Fail"@]
    } else {
        seq![k + "Polarity"@, k + "Polarity Pass/Fail"@]
    }
}

/// The first nine characters of the remembered test identifier.
pub open spec fn ident_prefix(rem: Seq<char>) -> Seq<char> {
    if rem.len() <= 9 {
        rem
    } else {
        rem.take(9)
    }
}

/// The cell at column `i`, or empty past the end.
pub open spec fn col(h: Seq<Seq<char>>, i: int) -> Seq<char> {
    if 0 <= i < h.len() {
        h[i]
    } else {
        Seq::empty()
    }
}

/// The two header cells of one column joined with a single space.
pub open spec fn join_cells(top: Seq<char>, bot: Seq<char>) -> Seq<char> {
    if top.len() == 0 {
        bot
    } else if bot.len() == 0 {
        top
    } else {
        top + seq![' '] + bot
    }
}

/// The larger of the two header lengths.
pub open spec fn max_cols(h1: Seq<Seq<char>>, h2: Seq<Seq<char>>) -> int {
    if h1.len() >= h2.len() {
        h1.len() as int
    } else {
        h2.len() as int
    }
}

/// The combining rule from column `i` on, with `rem` the most recent
/// whitespace-normalised test identifier. Per column: the trimmed lower cell,
/// if it is a column token, is expanded under the identifier remembered from
/// the upper cell; otherwise the two trimmed cells joined by a space pass
/// through (expanded if the joint cell itself is a token), and a cell that
/// starts with a digit becomes the new remembered identifier.
pub open spec fn combine_from(h1: Seq<Seq<char>>, h2: Seq<Seq<char>>, i: int, rem: Seq<char>) -> Seq<
    Seq<char>,
>
    decreases max_cols(h1, h2) - i,
{
    if i < 0 || i >= max_cols(h1, h2) {
        Seq::empty()
    } else {
        let top = trim(col(h1, i));
        let bot = trim(col(h2, i));
        let joint = join_cells(top, bot);
        if is_token(bot) {
            let rem2 = if top.len() > 0 && is_digit(top[0]) {
                norm_spaces(top)
            } else {
                rem
            };
            token_expansion(bot, ident_prefix(rem2)) + combine_from(h1, h2, i + 1, rem2)
        } else if is_token(joint) {
            token_expansion(joint, ident_prefix(rem)) + combine_from(h1, h2, i + 1, rem)
        } else {
            let rem2 = if joint.len() > 0 && is_digit(joint[0]) {
                norm_spaces(joint)
            } else {
                rem
            };
            let here: Seq<Seq<char>> = if joint.len() > 0 {
                seq![joint]
            } else {
                Seq::empty()
            };
            here + combine_from(h1, h2, i + 1, rem2)
        }
    }
}

/// The combined output header of a two-line raw header.
pub open spec fn combined_header(h1: Seq<Seq<char>>, h2: Seq<Seq<char>>) -> Seq<Seq<char>> {
    combine_from(h1, h2, 0, Seq::empty())
}

/// Checks a cell against the three tokens.
fn is_token_exec(c: &Vec<char>) -> (r: bool)
    ensures
        r == is_token(c@),
{
    if text::chars_eq_str(c, "Maximum") {
        true
    } else if text::chars_eq_str(c, "Reading") {
        true
    } else {
        text::chars_eq_str(c, "Polarity")
    }
}

/// Appends `k` followed by the characters of `lit` as one new column.
fn push_prefixed(out: &mut Vec<Vec<char>>, k: &Vec<char>, lit: &str)
    ensures
        final(out)@.len() == old(out)@.len() + 1,
        final(out).deep_view() == old(out).deep_view().push(k@ + lit@),
{
    let mut cell = text::subrange_chars(k, 0, k.len());
    let mut l = text::str_to_chars(lit);
    cell.append(&mut l);
    proof {
        assert(cell@ =~= k@ + lit@);
    }
    out.push(cell);
    proof {
        assert(out.deep_view() =~~= old(out).deep_view().push(k@ + lit@));
    }
}

/// Emits the expansion of token `c` under identifier prefix `k`.
fn push_token_expansion(out: &mut Vec<Vec<char>>, c: &Vec<char>, k: &Vec<char>)
    requires
        is_token(c@),
    ensures
        final(out).deep_view() == old(out).deep_view() + token_expansion(c@, k@),
{
    if text::chars_eq_str(c, "Maximum") {
        push_prefixed(out, k, "Maximum");
        proof {
            assert(out.deep_view() =~~= old(out).deep_view() + token_expansion(c@, k@));
        }
    } else if text::chars_eq_str(c, "Reading") {
        push_prefixed(out, k, "Reading");
        push_prefixed(out, k, "Pass/Fail");
        proof {
            assert(out.deep_view() =~~= old(out).deep_view() + token_expansion(c@, k@));
        }
    } else {
        proof {
            reveal_strlit("Maximum");
            reveal_strlit("Reading");
            reveal_strlit("Polarity");
            assert(c@ == "Polarity"@);
        }
        push_prefixed(out, k, "Polarity");
        push_prefixed(out, k, "Polarity Pass/Fail");
        proof {
            assert(out.deep_view() =~~= old(out).deep_view() + token_expansion(c@, k@));
        }
    }
}

/// Combines the two raw header lines into the output header, per
/// [`combined_header`].
pub fn combine_header(h1: &Vec<Vec<char>>, h2: &Vec<Vec<char>>) -> (r: Vec<Vec<char>>)
    ensures
        r.deep_view() == combined_header(h1.deep_view(), h2.deep_view()),
{
    let n1 = h1.len();
    let n2 = h2.len();
    let n = if n1 >= n2 {
        n1
    } else {
        n2
    };
    let ghost d1 = h1.deep_view();
    let ghost d2 = h2.deep_view();
    proof {
        assert(d1.len() == n1 && d2.len() == n2);
    }
    let mut out: Vec<Vec<char>> = Vec::new();
    let mut rem: Vec<char> = Vec::new();
    let mut i: usize = 0;
    proof {
        assert(out.deep_view() + combine_from(d1, d2, 0, rem@) =~= combine_from(d1, d2, 0, rem@));
        assert(rem@ =~= Seq::<char>::empty());
    }
    while i < n
        invariant
            0 <= i <= n == max_cols(d1, d2),
            d1 == h1.deep_view(),
            d2 == h2.deep_view(),
            d1.len() == n1,
            d2.len() == n2,
            n1 == h1@.len(),
            n2 == h2@.len(),
            combined_header(d1, d2) == out.deep_view() + combine_from(d1, d2, i as int, rem@),
        decreases n - i,
    {
        let empty_cell: Vec<char> = Vec::new();
        let topr: &Vec<char> = if i < n1 {
            &h1[i]
        } else {
            &empty_cell
        };
        let botr: &Vec<char> = if i < n2 {
            &h2[i]
        } else {
            &empty_cell
        };
        proof {
            assert(topr@ == col(d1, i as int));
            assert(botr@ == col(d2, i as int));
        }
        let top = text::trim_chars(topr);
        let bot = text::trim_chars(botr);
        let ghost rem0 = rem@;
        let ghost outv0 = out.deep_view();
        let ghost stop = trim(col(d1, i as int));
        let ghost sbot = trim(col(d2, i as int));
        if is_token_exec(&bot) {
            if top.len() > 0 && text::digit_char(top[0]) {
                rem = text::normalize_spaces_chars(&top);
            }
            let k = if rem.len() <= 9 {
                text::subrange_chars(&rem, 0, rem.len())
            } else {
                text::subrange_chars(&rem, 0, 9)
            };
            proof {
                assert(k@ =~= ident_prefix(rem@));
            }
            push_token_expansion(&mut out, &bot, &k);
            proof {
                assert(combine_from(d1, d2, i as int, rem0) == token_expansion(
                    sbot,
                    ident_prefix(rem@),
                ) + combine_from(d1, d2, i + 1 as int, rem@));
                assert(outv0 + combine_from(d1, d2, i as int, rem0) =~~= out.deep_view()
                    + combine_from(d1, d2, i + 1 as int, rem@));
            }
        } else {
            let joint = if top.len() == 0 {
                bot
            } else if bot.len() == 0 {
                top
            } else {
                let mut j = top;
                j.push(' ');
                let mut b = bot;
                j.append(&mut b);
                j
            };
            proof {
                assert(joint@ == join_cells(stop, sbot));
            }
            if is_token_exec(&joint) {
                let k = if rem.len() <= 9 {
                    text::subrange_chars(&rem, 0, rem.len())
                } else {
                    text::subrange_chars(&rem, 0, 9)
                };
                proof {
                    assert(k@ =~= ident_prefix(rem@));
                }
                push_token_expansion(&mut out, &joint, &k);
                proof {
                    assert(combine_from(d1, d2, i as int, rem0) == token_expansion(
                        join_cells(stop, sbot),
                        ident_prefix(rem0),
                    ) + combine_from(d1, d2, i + 1 as int, rem0));
                    assert(outv0 + combine_from(d1, d2, i as int, rem0) =~~= out.deep_view()
                        + combine_from(d1, d2, i + 1 as int, rem@));
                }
            } else {
                if joint.len() > 0 && text::digit_char(joint[0]) {
                    rem = text::normalize_spaces_chars(&joint);
                }
                if joint.len() > 0 {
                    let ghost jv = joint@;
                    out.push(joint);
                    proof {
                        assert(out.deep_view() =~~= outv0.push(jv));
                        assert(combine_from(d1, d2, i as int, rem0) == seq![jv] + combine_from(
                            d1,
                            d2,
                            i + 1 as int,
                            rem@,
                        ));
                        assert(outv0 + combine_from(d1, d2, i as int, rem0) =~~= out.deep_view()
                            + combine_from(d1, d2, i + 1 as int, rem@));
                    }
                } else {
                    proof {
                        assert(combine_from(d1, d2, i as int, rem0) == combine_from(
                            d1,
                            d2,
                            i + 1 as int,
                            rem@,
                        ));
                        assert(outv0 + combine_from(d1, d2, i as int, rem0) =~~= out.deep_view()
                            + combine_from(d1, d2, i + 1 as int, rem@));
                    }
                }
            }
        }
        i = i + 1;
    }
    proof {
        assert(combine_from(d1, d2, n as int, rem@) =~= Seq::<Seq<char>>::empty());
        assert(out.deep_view() + Seq::<Seq<char>>::empty() =~= out.deep_view());
    }
    out
}

// ===================== header idempotence =====================

/// A cell is settled if it is non-empty, carries no whitespace at its ends,
/// and is not itself a column token.
pub open spec fn settled_cell(c: Seq<char>) -> bool {
    c.len() > 0 && !is_ws(c[0]) && !is_ws(c[c.len() - 1]) && !is_token(c)
}

proof fn lemma_trim_settled(c: Seq<char>)
    requires
        c.len() > 0,
        !is_ws(c[0]),
        !is_ws(c[c.len() - 1]),
    ensures
        trim(c) == c,
{
    assert(text::trim_left(c) == c);
    assert(text::trim_right(c) == c);
}

proof fn lemma_combine_settled_from(cells: Seq<Seq<char>>, i: int, rem: Seq<char>)
    requires
        0 <= i <= cells.len(),
        forall|k: int| 0 <= k < cells.len() ==> settled_cell(#[trigger] cells[k]),
    ensures
        combine_from(cells, Seq::empty(), i, rem) == cells.skip(i),
    decreases cells.len() - i,
{
    let h2 = Seq::<Seq<char>>::empty();
    if i == cells.len() {
        assert(cells.skip(i) =~= Seq::<Seq<char>>::empty());
    } else {
        let c = cells[i];
        assert(settled_cell(c));
        lemma_trim_settled(c);
        assert(col(cells, i) == c);
        assert(col(h2, i) =~= Seq::<char>::empty());
        assert(trim(Seq::<char>::empty()) == Seq::<char>::empty());
        assert(join_cells(trim(c), Seq::empty()) == trim(c));
        assert(!is_token(Seq::<char>::empty())) by {
            reveal_strlit("Maximum");
            reveal_strlit("Reading");
            reveal_strlit("Polarity");
        }
        let rem2 = if c.len() > 0 && is_digit(c[0]) {
            norm_spaces(c)
        } else {
            rem
        };
        lemma_combine_settled_from(cells, i + 1, rem2);
        assert(combine_from(cells, h2, i, rem) == seq![c] + cells.skip(i + 1));
        assert(seq![c] + cells.skip(i + 1) =~= cells.skip(i));
    }
}

/// Combining is idempotent: running the header-combining rule again over an
/// already-combined header — as a single line, with no continuation line —
/// returns it unchanged, provided every combined cell is settled (non-empty,
/// trimmed, and not a bare column token; a bare token appears only when a
/// token column precedes every test identifier).
pub proof fn lemma_combine_idempotent(cells: Seq<Seq<char>>)
    requires
        forall|k: int| 0 <= k < cells.len() ==> settled_cell(#[trigger] cells[k]),
    ensures
        combined_header(cells, Seq::empty()) == cells,
{
    lemma_combine_settled_from(cells, 0, Seq::empty());
    assert(cells.skip(0) =~= cells);
}

// ===================== date lines =====================

/// The raw `DD-MM-YY` text a `Fil...` line encodes at fixed offsets
/// (`MMDD YY` order in the file, reordered on output). Offsets are character
/// positions; the metadata lines of the format are ASCII, where they
/// coincide with the byte offsets.
pub open spec fn clean_date_spec(s: Seq<char>) -> Seq<char> {
    if s.len() >= 19 {
        seq![s[15], s[16], '-', s[13], s[14], '-', s[17], s[18]]
    } else {
        Seq::empty()
    }
}

/// Reads the encoded date of a `Fil...` line, per [`clean_date_spec`].
pub fn clean_date(v: &Vec<char>) -> (r: Vec<char>)
    ensures
        r@ == clean_date_spec(v@),
{
    let mut r: Vec<char> = Vec::new();
    if v.len() >= 19 {
        r.push(v[15]);
        r.push(v[16]);
        r.push('-');
        r.push(v[13]);
        r.push(v[14]);
        r.push('-');
        r.push(v[17]);
        r.push(v[18]);
        proof {
            assert(r@ =~= clean_date_spec(v@));
        }
    } else {
        proof {
            assert(r@ =~= clean_date_spec(v@));
        }
    }
    r
}

/// The position of the first `c` in `s`, or a negative value if none.
pub open spec fn find_first(s: Seq<char>, c: char) -> int
    decreases s.len(),
{
    if s.len() == 0 {
        -1
    } else if s[0] == c {
        0
    } else {
        let r = find_first(s.drop_first(), c);
        if r < 0 {
            -1
        } else {
            r + 1
        }
    }
}

proof fn lemma_find_first(s: Seq<char>, c: char)
    ensures
        find_first(s, c) < 0 ==> forall|i: int| 0 <= i < s.len() ==> s[i] != c,
        find_first(s, c) >= 0 ==> 0 <= find_first(s, c) < s.len() && s[find_first(s, c)] == c
            && forall|i: int| 0 <= i < find_first(s, c) ==> s[i] != c,
    decreases s.len(),
{
    if s.len() > 0 && s[0] != c {
        let t = s.drop_first();
        lemma_find_first(t, c);
        let r = find_first(t, c);
        if r < 0 {
            assert forall|i: int| 0 <= i < s.len() implies s[i] != c by {
                if i >= 1 {
                    assert(t[i - 1] != c);
                }
            }
        } else {
            assert(s[r + 1] == t[r]);
            assert forall|i: int| 0 <= i < r + 1 implies s[i] != c by {
                if i >= 1 {
                    assert(t[i - 1] != c);
                }
            }
        }
    }
}

/// What a `Test Date` line gives: the text after the first colon, trimmed.
pub open spec fn test_date_spec(s: Seq<char>) -> Seq<char> {
    let i = find_first(s, ':');
    if i < 0 {
        Seq::empty()
    } else {
        trim(s.skip(i + 1))
    }
}

/// Reads the date of a `Test Date` line, per [`test_date_spec`].
pub fn parse_test_date(v: &Vec<char>) -> (r: Vec<char>)
    ensures
        r@ == test_date_spec(v@),
{
    let n = v.len();
    let mut i: usize = 0;
    proof {
        lemma_find_first(v@, ':');
    }
    while i < n
        invariant
            0 <= i <= n == v@.len(),
            forall|k: int| 0 <= k < i ==> v@[k] != ':',
        decreases n - i,
    {
        if v[i] == ':' {
            proof {
                assert(find_first(v@, ':') == i) by {
                    lemma_find_first(v@, ':');
                }
            }
            let tail = text::subrange_chars(v, i + 1, n);
            proof {
                assert(tail@ =~= v@.skip(i + 1 as int));
            }
            return text::trim_chars(&tail);
        }
        i = i + 1;
    }
    proof {
        lemma_find_first(v@, ':');
        if find_first(v@, ':') >= 0 {
            assert(v@[find_first(v@, ':')] == ':');
        }
    }
    Vec::new()
}

// ===================== data-line binding =====================

/// The accumulator while binding one data line against the output header.
pub struct BindV {
    pub serial: Seq<char>,
    pub result_num: i32,
    pub pass_fail: Seq<char>,
    pub time: Seq<char>,
    pub retries: Seq<char>,
    pub meas: Seq<(Seq<char>, MeasVal)>,
}

/// The state before any column is bound: the serial defaults to the `NONE`
/// sentinel, the ordinal to zero.
pub open spec fn bind_init() -> BindV {
    BindV {
        serial: "NONE"@,
        result_num: 0,
        pass_fail: Seq::empty(),
        time: Seq::empty(),
        retries: Seq::empty(),
        meas: Seq::empty(),
    }
}

/// The result ordinal a cell gives: its value as a 32-bit integer, or zero
/// if it does not read as one.
pub open spec fn ordinal_of(v: Seq<char>) -> i32 {
    match text::parse_int(v) {
        Some(x) => if i32::MIN <= x <= i32::MAX {
            x as i32
        } else {
            0
        },
        None => 0,
    }
}

/// Binds the columns of one data line from index `i` on: the reserved
/// header names capture the row scalars, every other column becomes a
/// measurement binding.
pub open spec fn bind_cols(h: Seq<Seq<char>>, l: Seq<Seq<char>>, i: int, st: BindV) -> BindV
    decreases h.len() - i,
{
    if i < 0 || i >= h.len() {
        st
    } else if i >= l.len() {
        bind_cols(h, l, i + 1, st)
    } else {
        let hn = h[i];
        let v = l[i];
        let st2 = if hn == "Serial #"@ {
            BindV { serial: v, ..st }
        } else if hn == "Result #"@ {
            BindV { result_num: ordinal_of(v), ..st }
        } else if hn == "Pass/Fail"@ {
            BindV { pass_fail: v, ..st }
        } else if hn == "Time"@ {
            BindV { time: v, ..st }
        } else if hn == "Retries"@ {
            BindV { retries: v, ..st }
        } else {
            BindV { meas: map_set(st.meas, hn, val_of_cell(v)), ..st }
        };
        bind_cols(h, l, i + 1, st2)
    }
}

/// Binding keeps the measurement map well formed.
proof fn lemma_bind_cols_wf(h: Seq<Seq<char>>, l: Seq<Seq<char>>, i: int, st: BindV)
    requires
        wf_map(st.meas),
    ensures
        wf_map(bind_cols(h, l, i, st).meas),
    decreases h.len() - i,
{
    if 0 <= i < h.len() {
        if i >= l.len() {
            lemma_bind_cols_wf(h, l, i + 1, st);
        } else {
            let hn = h[i];
            let v = l[i];
            if hn != "Serial #"@ && hn != "Result #"@ && hn != "Pass/Fail"@ && hn != "Time"@ && hn
                != "Retries"@ {
                lemma_map_set_wf(st.meas, hn, val_of_cell(v));
                lemma_bind_cols_wf(h, l, i + 1, BindV { meas: map_set(st.meas, hn, val_of_cell(v)), ..st });
            } else {
                let st2 = if hn == "Serial #"@ {
                    BindV { serial: v, ..st }
                } else if hn == "Result #"@ {
                    BindV { result_num: ordinal_of(v), ..st }
                } else if hn == "Pass/Fail"@ {
                    BindV { pass_fail: v, ..st }
                } else if hn == "Time"@ {
                    BindV { time: v, ..st }
                } else {
                    BindV { retries: v, ..st }
                };
                lemma_bind_cols_wf(h, l, i + 1, st2);
            }
        }
    }
}

/// The row one data line yields under a header and the current file state.
pub open spec fn convert_spec(
    h: Seq<Seq<char>>,
    l: Seq<Seq<char>>,
    part: Seq<char>,
    operator: Seq<char>,
    batch: Seq<char>,
    date: Seq<char>,
    file_path: Seq<char>,
) -> TestResultV {
    let st = bind_cols(h, l, 0, bind_init());
    TestResultV {
        part: part,
        operator: operator,
        batch: batch,
        date: date,
        serial_num: st.serial,
        result_num: st.result_num,
        pass_fail: st.pass_fail,
        time: Some(st.time),
        retries: Some(st.retries),
        file_path: file_path,
        measurements: map_json(st.meas),
        normalized_date: voltech_date_of(date),
        created_at: 0,
    }
}

/// Binds one data line to a result row, per [`convert_spec`]. The stored
/// measurement JSON parses back to exactly the bound map.
pub fn convert_to_row(
    header: &Vec<Vec<char>>,
    line: &Vec<Vec<char>>,
    part: &Vec<char>,
    operator: &Vec<char>,
    batch: &Vec<char>,
    date: &Vec<char>,
    file_path: &str,
) -> (r: TestResultRow)
    ensures
        r@ == convert_spec(
            header.deep_view(),
            line.deep_view(),
            part@,
            operator@,
            batch@,
            date@,
            file_path@,
        ),
        parse_json(r@.measurements) == Some(
            bind_cols(header.deep_view(), line.deep_view(), 0, bind_init()).meas,
        ),
{
    let ghost h = header.deep_view();
    let ghost l = line.deep_view();
    let nh = header.len();
    let nl = line.len();
    let mut serial = String::from_str("NONE");
    let mut result_num: i32 = 0;
    let mut pass_fail = String::new();
    let mut time = String::new();
    let mut retries = String::new();
    let mut meas: Vec<(String, MeasValue)> = Vec::new();
    let ghost st0 = bind_init();
    proof {
        assert(entries_view(meas@) =~= st0.meas);
        assert(serial@ == st0.serial);
        assert(pass_fail@ == st0.pass_fail);
        assert(time@ == st0.time);
        assert(retries@ == st0.retries);
    }
    let mut i: usize = 0;
    while i < nh
        invariant
            0 <= i <= nh == h.len(),
            nl == l.len(),
            h == header.deep_view(),
            l == line.deep_view(),
            bind_cols(h, l, 0, bind_init()) == bind_cols(
                h,
                l,
                i as int,
                BindV {
                    serial: serial@,
                    result_num: result_num,
                    pass_fail: pass_fail@,
                    time: time@,
                    retries: retries@,
                    meas: entries_view(meas@),
                },
            ),
        decreases nh - i,
    {
        let ghost stv = BindV {
            serial: serial@,
            result_num: result_num,
            pass_fail: pass_fail@,
            time: time@,
            retries: retries@,
            meas: entries_view(meas@),
        };
        if i < nl {
            let hn = &header[i];
            let v = &line[i];
            proof {
                assert(hn@ == h[i as int]);
                assert(v@ == l[i as int]);
            }
            if text::chars_eq_str(hn, "Serial #") {
                serial = text::chars_to_string(v);
            } else if text::chars_eq_str(hn, "Result #") {
                match text::parse_int_chars(v) {
                    Some(x) => {
                        if i32::MIN as i64 <= x && x <= i32::MAX as i64 {
                            result_num = x as i32;
                        } else {
                            result_num = 0;
                        }
                    },
                    None => {
                        result_num = 0;
                    },
                }
            } else if text::chars_eq_str(hn, "Pass/Fail") {
                pass_fail = text::chars_to_string(v);
            } else if text::chars_eq_str(hn, "Time") {
                time = text::chars_to_string(v);
            } else if text::chars_eq_str(hn, "Retries") {
                retries = text::chars_to_string(v);
            } else {
                let key = text::chars_to_string(hn);
                let mv = value_of_cell(v);
                measurements_set(&mut meas, key, mv);
            }
        }
        i = i + 1;
    }
    proof {
        assert(bind_cols(h, l, nh as int, BindV {
            serial: serial@,
            result_num: result_num,
            pass_fail: pass_fail@,
            time: time@,
            retries: retries@,
            meas: entries_view(meas@),
        }) == BindV {
            serial: serial@,
            result_num: result_num,
            pass_fail: pass_fail@,
            time: time@,
            retries: retries@,
            meas: entries_view(meas@),
        });
        lemma_bind_cols_wf(h, l, 0, bind_init());
        lemma_json_round_trip(entries_view(meas@));
    }
    let measurements = measurements_to_json(&meas);
    let date_s = text::chars_to_string(date);
    let normalized_date = parse_voltech_date(date);
    TestResultRow {
        part: text::chars_to_string(part),
        operator: text::chars_to_string(operator),
        batch: text::chars_to_string(batch),
        date: date_s,
        serial_num: serial,
        result_num,
        pass_fail,
        time: Some(time),
        retries: Some(retries),
        file_path: String::from_str(file_path),
        measurements,
        normalized_date,
        created_at: 0,
    }
}

// ===================== whole-file decoding =====================

/// The segments of `s` around every newline.
pub open spec fn split_nl(s: Seq<char>) -> Seq<Seq<char>>
    decreases s.len(),
{
    if s.len() == 0 {
        seq![Seq::empty()]
    } else if s[0] == '\n' {
        seq![Seq::<char>::empty()] + split_nl(s.drop_first())
    } else {
        let r = split_nl(s.drop_first());
        seq![seq![s[0]] + r[0]] + r.drop_first()
    }
}

/// A line with one trailing carriage return removed.
pub open spec fn strip_cr(l: Seq<char>) -> Seq<char> {
    if l.len() > 0 && l[l.len() - 1] == '\r' {
        l.drop_last()
    } else {
        l
    }
}

/// The lines of a text: newline-separated, each without a trailing carriage
/// return, a final line ending optional.
pub open spec fn lines_of(s: Seq<char>) -> Seq<Seq<char>> {
    let segs = split_nl(s);
    let segs2 = if s.len() == 0 || s[s.len() - 1] == '\n' {
        segs.drop_last()
    } else {
        segs
    };
    segs2.map(|i: int, l: Seq<char>| strip_cr(l))
}

proof fn lemma_split_nl_len(s: Seq<char>)
    ensures
        split_nl(s).len() >= 1,
    decreases s.len(),
{
    if s.len() > 0 {
        lemma_split_nl_len(s.drop_first());
    }
}

/// Splits a text into lines, per [`lines_of`].
pub fn split_lines(v: &Vec<char>) -> (r: Vec<Vec<char>>)
    ensures
        r.deep_view() == lines_of(v@),
{
    let n = v.len();
    let mut done: Vec<Vec<char>> = Vec::new();
    let mut cur: Vec<char> = Vec::new();
    let mut i: usize = 0;
    if n == 0 {
        let out: Vec<Vec<char>> = Vec::new();
        proof {
            assert(split_nl(v@).drop_last() =~= Seq::<Seq<char>>::empty());
            assert(out.deep_view() =~~= lines_of(v@));
        }
        return out;
    }
    proof {
        assert(v@.skip(0) =~= v@);
        lemma_split_nl_len(v@);
        assert(cur@ + split_nl(v@)[0] =~= split_nl(v@)[0]);
        assert(done.deep_view() + seq![cur@ + split_nl(v@)[0]] + split_nl(v@).drop_first()
            =~= seq![split_nl(v@)[0]] + split_nl(v@).drop_first());
        assert(seq![split_nl(v@)[0]] + split_nl(v@).drop_first() =~= split_nl(v@));
    }
    while i < n
        invariant
            0 <= i <= n == v@.len(),
            split_nl(v@) == done.deep_view() + seq![cur@ + split_nl(v@.skip(i as int))[0]]
                + split_nl(v@.skip(i as int)).drop_first(),
        decreases n - i,
    {
        let ghost rest = v@.skip(i as int);
        let ghost rest1 = v@.skip(i + 1 as int);
        proof {
            assert(rest.drop_first() =~= rest1);
            assert(rest[0] == v@[i as int]);
            lemma_split_nl_len(rest1);
        }
        let c = v[i];
        let ghost donev0 = done.deep_view();
        let ghost cur0 = cur@;
        if c == '\n' {
            done.push(cur);
            cur = Vec::new();
            proof {
                assert(split_nl(rest) == seq![Seq::<char>::empty()] + split_nl(rest1));
                assert(split_nl(rest)[0] =~= Seq::<char>::empty());
                assert(split_nl(rest).drop_first() =~= split_nl(rest1));
                assert(done.deep_view() =~~= donev0.push(cur0));
                assert(cur0 + split_nl(rest)[0] =~= cur0);
                assert(cur@ + split_nl(rest1)[0] =~= split_nl(rest1)[0]);
                assert(donev0 + seq![cur0 + split_nl(rest)[0]] + split_nl(rest).drop_first()
                    =~~= done.deep_view() + seq![cur@ + split_nl(rest1)[0]] + split_nl(
                    rest1,
                ).drop_first());
            }
        } else {
            cur.push(c);
            proof {
                let r1 = split_nl(rest1);
                assert(split_nl(rest) == seq![seq![c] + r1[0]] + r1.drop_first());
                assert(split_nl(rest)[0] == seq![c] + r1[0]);
                assert(split_nl(rest).drop_first() =~= r1.drop_first());
                assert(cur@ + r1[0] =~= cur0 + (seq![c] + r1[0]));
                assert(donev0 + seq![cur0 + split_nl(rest)[0]] + split_nl(rest).drop_first()
                    =~~= done.deep_view() + seq![cur@ + r1[0]] + r1.drop_first());
            }
        }
        i = i + 1;
    }
    let ghost donev0 = done.deep_view();
    let ghost cur0 = cur@;
    proof {
        let rest = v@.skip(n as int);
        assert(rest.len() == 0);
        assert(split_nl(rest) == seq![Seq::<char>::empty()]);
        assert(cur0 + split_nl(rest)[0] =~= cur0);
        assert(split_nl(rest).drop_first() =~= Seq::<Seq<char>>::empty());
        assert(split_nl(v@) =~~= donev0.push(cur0));
    }
    let last_is_nl = n > 0 && v[n - 1] == '\n';
    let ghost segs2 = if v@.len() == 0 || v@[v@.len() - 1] == '\n' {
        split_nl(v@).drop_last()
    } else {
        split_nl(v@)
    };
    if last_is_nl {
        proof {
            assert(segs2 =~~= donev0);
        }
    } else {
        done.push(cur);
        proof {
            assert(done.deep_view() =~~= donev0.push(cur0));
            assert(segs2 =~~= done.deep_view());
        }
    }
    let nl = done.len();
    let mut out: Vec<Vec<char>> = Vec::new();
    let mut k: usize = 0;
    while k < nl
        invariant
            0 <= k <= nl == done@.len(),
            segs2 == done.deep_view(),
            segs2.len() == nl,
            out.deep_view() =~~= segs2.take(k as int).map(|t: int, l: Seq<char>| strip_cr(l)),
        decreases nl - k,
    {
        let line = &done[k];
        let m = line.len();
        let ghost outv0 = out.deep_view();
        if m > 0 && line[m - 1] == '\r' {
            let stripped = text::subrange_chars(line, 0, m - 1);
            proof {
                assert(stripped@ =~= strip_cr(line@));
            }
            out.push(stripped);
        } else {
            let whole = text::subrange_chars(line, 0, m);
            proof {
                assert(whole@ =~= line@);
                assert(whole@ =~= strip_cr(line@));
            }
            out.push(whole);
        }
        proof {
            assert(line@ == segs2[k as int]);
            assert(out.deep_view() =~~= outv0.push(strip_cr(segs2[k as int])));
            assert(segs2.take(k + 1 as int).map(|t: int, l: Seq<char>| strip_cr(l)) =~~= segs2.take(
                k as int,
            ).map(|t: int, l: Seq<char>| strip_cr(l)).push(strip_cr(segs2[k as int])));
        }
        k = k + 1;
    }
    proof {
        assert(segs2.take(nl as int) =~= segs2);
        assert(out.deep_view() =~~= lines_of(v@));
    }
    out
}

/// The scanning state while walking the lines of an `.atr` file.
pub struct FileV {
    pub part: Seq<char>,
    pub operator: Seq<char>,
    pub batch: Seq<char>,
    pub date: Seq<char>,
    pub header: Seq<Seq<char>>,
}

/// The state before any line is read.
pub open spec fn file_init() -> FileV {
    FileV {
        part: Seq::empty(),
        operator: Seq::empty(),
        batch: Seq::empty(),
        date: Seq::empty(),
        header: Seq::empty(),
    }
}

/// The second field of a metadata line, or empty.
pub open spec fn field1(fields: Seq<Seq<char>>) -> Seq<char> {
    if fields.len() > 1 {
        fields[1]
    } else {
        Seq::empty()
    }
}

/// A data line adjusted before binding: an empty serial cell becomes the
/// `NONE` sentinel, and the legacy fifth column is dropped.
pub open spec fn adjust_data_line(fields: Seq<Seq<char>>) -> Seq<Seq<char>> {
    let f1 = if fields.len() > 1 && fields[1].len() == 0 {
        fields.update(1, "NONE"@)
    } else {
        fields
    };
    if f1.len() > 4 {
        f1.remove(4)
    } else {
        f1
    }
}

/// The rows an `.atr` file yields from line `i` on, under state `st`:
/// metadata lines set the part (resetting the header block), operator, batch
/// and date; a `Result #` line combines with the following line into the
/// output header; a line whose first field starts with a digit binds as a
/// data row.
pub open spec fn parse_from(lines: Seq<Seq<char>>, i: int, st: FileV, fp: Seq<char>) -> Seq<
    TestResultV,
>
    decreases lines.len() - i,
{
    if i < 0 || i >= lines.len() {
        Seq::empty()
    } else {
        let fields = csv_split(lines[i], false);
        let first = fields[0];
        if first.len() > 0 && is_digit(first[0]) {
            seq![
                convert_spec(
                    st.header,
                    adjust_data_line(fields),
                    st.part,
                    st.operator,
                    st.batch,
                    st.date,
                    fp,
                ),
            ] + parse_from(lines, i + 1, st, fp)
        } else if first == "Part #"@ {
            parse_from(
                lines,
                i + 1,
                FileV {
                    part: field1(fields),
                    operator: Seq::empty(),
                    batch: Seq::empty(),
                    header: Seq::empty(),
                    ..st
                },
                fp,
            )
        } else if first == "Operator"@ {
            parse_from(lines, i + 1, FileV { operator: field1(fields), ..st }, fp)
        } else if first == "Batch #"@ {
            parse_from(lines, i + 1, FileV { batch: field1(fields), ..st }, fp)
        } else if first == "Result #"@ {
            if i + 1 < lines.len() {
                parse_from(
                    lines,
                    i + 1,
                    FileV {
                        header: combined_header(fields, csv_split(lines[i + 1], false)),
                        ..st
                    },
                    fp,
                )
            } else {
                parse_from(lines, i + 1, st, fp)
            }
        } else if text::starts_with(first, "Fil"@) {
            parse_from(lines, i + 1, FileV { date: clean_date_spec(first), ..st }, fp)
        } else if text::starts_with(first, "Test Date"@) {
            parse_from(lines, i + 1, FileV { date: test_date_spec(first), ..st }, fp)
        } else {
            parse_from(lines, i + 1, st, fp)
        }
    }
}

/// The rows a whole `.atr` text yields.
pub open spec fn file_rows(content: Seq<char>, fp: Seq<char>) -> Seq<TestResultV> {
    parse_from(lines_of(content), 0, file_init(), fp)
}

/// Decodes one `.atr` file into its result rows, per [`file_rows`]:
/// metadata and header lines set the scanning state, every data line binds
/// to one row.
pub fn parse_file_to_rows(content: &str, file_path: &str) -> (r: Vec<TestResultRow>)
    ensures
        rows_view(r@) == file_rows(content@, file_path@),
{
    let cv = text::str_to_chars(content);
    let lines = split_lines(&cv);
    let ghost ls = lines_of(content@);
    let nl = lines.len();
    let mut part: Vec<char> = Vec::new();
    let mut operator: Vec<char> = Vec::new();
    let mut batch: Vec<char> = Vec::new();
    let mut date: Vec<char> = Vec::new();
    let mut header: Vec<Vec<char>> = Vec::new();
    let mut rows: Vec<TestResultRow> = Vec::new();
    let mut i: usize = 0;
    proof {
        assert(lines.deep_view() == ls);
        assert(ls.len() == nl);
        assert(part@ == file_init().part && operator@ == file_init().operator && batch@
            == file_init().batch && date@ == file_init().date);
        assert(header.deep_view() =~= file_init().header);
        assert(rows_view(rows@) + parse_from(ls, 0, file_init(), file_path@) =~= parse_from(
            ls,
            0,
            file_init(),
            file_path@,
        ));
    }
    while i < nl
        invariant
            0 <= i <= nl == ls.len(),
            ls == lines.deep_view(),
            nl == lines@.len(),
            file_rows(content@, file_path@) == rows_view(rows@) + parse_from(
                ls,
                i as int,
                FileV {
                    part: part@,
                    operator: operator@,
                    batch: batch@,
                    date: date@,
                    header: header.deep_view(),
                },
                file_path@,
            ),
        decreases nl - i,
    {
        let ghost stv = FileV {
            part: part@,
            operator: operator@,
            batch: batch@,
            date: date@,
            header: header.deep_view(),
        };
        let line = &lines[i];
        proof {
            assert(line@ == ls[i as int]);
        }
        let fields = parse_csv_line(line);
        let ghost fv = csv_split(line@, false);
        let first = &fields[0];
        proof {
            assert(first@ == fv[0]);
        }
        let ghost rows0 = rows_view(rows@);
        if first.len() > 0 && text::digit_char(first[0]) {
            let mut test_line = fields;
            if test_line.len() > 1 && test_line[1].len() == 0 {
                let none_cell = text::str_to_chars("NONE");
                test_line.remove(1);
                test_line.insert(1, none_cell);
                proof {
                    assert(test_line.deep_view() =~~= fv.update(1, "NONE"@));
                }
            }
            proof {
                assert(test_line.deep_view() =~~= (if fv.len() > 1 && fv[1].len() == 0 {
                    fv.update(1, "NONE"@)
                } else {
                    fv
                }));
            }
            let ghost f1 = test_line.deep_view();
            if test_line.len() > 4 {
                test_line.remove(4);
                proof {
                    assert(test_line.deep_view() =~~= f1.remove(4));
                }
            }
            proof {
                assert(test_line.deep_view() =~~= adjust_data_line(fv));
            }
            let row = convert_to_row(
                &header,
                &test_line,
                &part,
                &operator,
                &batch,
                &date,
                file_path,
            );
            rows.push(row);
            proof {
                assert(rows_view(rows@) =~= rows0.push(
                    convert_spec(
                        stv.header,
                        adjust_data_line(fv),
                        stv.part,
                        stv.operator,
                        stv.batch,
                        stv.date,
                        file_path@,
                    ),
                ));
                assert(rows0 + parse_from(ls, i as int, stv, file_path@) =~= rows_view(rows@)
                    + parse_from(ls, i + 1 as int, stv, file_path@));
            }
        } else if text::chars_eq_str(first, "Part #") {
            part = field1_exec(&fields);
            operator = Vec::new();
            batch = Vec::new();
            header = Vec::new();
            proof {
                assert(header.deep_view() =~= Seq::<Seq<char>>::empty());
            }
        } else if text::chars_eq_str(first, "Operator") {
            operator = field1_exec(&fields);
        } else if text::chars_eq_str(first, "Batch #") {
            batch = field1_exec(&fields);
        } else if text::chars_eq_str(first, "Result #") {
            if i + 1 < nl {
                let next = &lines[i + 1];
                proof {
                    assert(next@ == ls[i + 1 as int]);
                }
                let next_fields = parse_csv_line(next);
                header = combine_header(&fields, &next_fields);
            }
        } else if starts_with_lit(first, "Fil") {
            date = clean_date(first);
        } else if starts_with_lit(first, "Test Date") {
            date = parse_test_date(first);
        }
        i = i + 1;
    }
    proof {
        assert(parse_from(ls, nl as int, FileV {
            part: part@,
            operator: operator@,
            batch: batch@,
            date: date@,
            header: header.deep_view(),
        }, file_path@) =~= Seq::<TestResultV>::empty());
        assert(rows_view(rows@) + Seq::<TestResultV>::empty() =~= rows_view(rows@));
    }
    rows
}

/// The second field of a split line, or empty.
fn field1_exec(fields: &Vec<Vec<char>>) -> (r: Vec<char>)
    ensures
        r@ == field1(fields.deep_view()),
{
    if fields.len() > 1 {
        let f = &fields[1];
        let r = text::subrange_chars(f, 0, f.len());
        proof {
            assert(r@ =~= fields.deep_view()[1]);
        }
        r
    } else {
        Vec::new()
    }
}

/// A prefix test against a literal.
fn starts_with_lit(v: &Vec<char>, lit: &str) -> (r: bool)
    ensures
        r == text::starts_with(v@, lit@),
{
    let p = text::str_to_chars(lit);
    text::starts_with_chars(v, &p)
}

} // verus!
