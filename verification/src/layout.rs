//! The serialized report grid: the workbook of one serial-range report as a
//! matrix of typed cells, computed from plain values. The host writes the
//! cells out; no cell logic lives outside this module.

use vstd::prelude::*;
use crate::text;
use crate::text::norm_spaces;
use crate::measurements::{MeasVal, MeasValue, int_seq, int_chars};
use crate::collector::TestSpec;

verus! {

/// The view of one cell value.
pub enum CellValV {
    /// Written as text.
    Text(Seq<char>),
    /// Written as a number; the decimal text is what the store held.
    Num(Seq<char>),
    /// Left blank.
    Empty,
}

/// One cell value: text, a number carried as decimal text, or blank.
#[derive(Debug)]
pub enum CellVal {
    Text(String),
    Num(String),
    Empty,
}

impl View for CellVal {
    type V = CellValV;

    open spec fn view(&self) -> CellValV {
        match self {
            CellVal::Text(s) => CellValV::Text(s@),
            CellVal::Num(s) => CellValV::Num(s@),
            CellVal::Empty => CellValV::Empty,
        }
    }
}

/// One serial's data for the grid: its number, whether any Voltech record
/// backs it, and the first backing record's measurement map.
#[derive(Debug)]
pub struct PartData {
    pub sn: i64,
    pub has_data: bool,
    pub measurements: Vec<(String, MeasValue)>,
}

/// The index of the first binding whose normalised key equals the
/// candidate, or a negative value.
pub open spec fn exact_idx(ms: Seq<(Seq<char>, MeasVal)>, cand: Seq<char>) -> int
    decreases ms.len(),
{
    if ms.len() == 0 {
        -1
    } else if norm_spaces(ms[0].0) == cand {
        0
    } else {
        let r = exact_idx(ms.drop_first(), cand);
        if r < 0 {
            -1
        } else {
            r + 1
        }
    }
}

/// A binding's normalised key matches some candidate by substring, either
/// way round.
pub open spec fn key_matches_any(key: Seq<char>, cands: Seq<Seq<char>>) -> bool {
    exists|c: int|
        0 <= c < cands.len() && (text::contains_seq(norm_spaces(key), #[trigger] cands[c])
            || text::contains_seq(cands[c], norm_spaces(key)))
}

/// The index of the first binding matching any candidate by substring, or a
/// negative value.
pub open spec fn sub_idx(ms: Seq<(Seq<char>, MeasVal)>, cands: Seq<Seq<char>>) -> int
    decreases ms.len(),
{
    if ms.len() == 0 {
        -1
    } else if key_matches_any(ms[0].0, cands) {
        0
    } else {
        let r = sub_idx(ms.drop_first(), cands);
        if r < 0 {
            -1
        } else {
            r + 1
        }
    }
}

/// The first candidate with an exact normalised match, or a negative value.
pub open spec fn exact_cand(ms: Seq<(Seq<char>, MeasVal)>, cands: Seq<Seq<char>>, c: int) -> int
    decreases cands.len() - c,
{
    if c < 0 || c >= cands.len() {
        -1
    } else if exact_idx(ms, cands[c]) >= 0 {
        c
    } else {
        exact_cand(ms, cands, c + 1)
    }
}

/// The measurement-key lookup of the renderer: candidates tried for an
/// exact normalised-key match first, in order; failing that, the first
/// binding whose normalised key matches any candidate by substring, either
/// way; `None` when nothing matches.
pub open spec fn find_meas(ms: Seq<(Seq<char>, MeasVal)>, cands: Seq<Seq<char>>) -> Option<
    MeasVal,
> {
    let c = exact_cand(ms, cands, 0);
    if c >= 0 {
        Some(ms[exact_idx(ms, cands[c])].1)
    } else {
        let i = sub_idx(ms, cands);
        if i >= 0 {
            Some(ms[i].1)
        } else {
            None
        }
    }
}

/// How a measurement scalar lands in a cell: integers and float-shaped
/// tokens as numbers, text as text.
pub open spec fn render_val(v: MeasVal) -> CellValV {
    match v {
        MeasVal::Int(i) => CellValV::Num(int_seq(i as int)),
        MeasVal::Num(s) => CellValV::Num(s),
        MeasVal::Text(s) => CellValV::Text(s),
    }
}

/// The lookup candidates of one test: its normalised associated key, if
/// any, then its normalised display name.
pub open spec fn cands_of(t: TestSpec) -> Seq<Seq<char>> {
    match t.associated_test {
        Some(a) => seq![norm_spaces(a@), norm_spaces(t.test_name@)],
        None => seq![norm_spaces(t.test_name@)],
    }
}

proof fn lemma_exact_idx(ms: Seq<(Seq<char>, MeasVal)>, cand: Seq<char>)
    ensures
        exact_idx(ms, cand) < 0 ==> forall|i: int|
            0 <= i < ms.len() ==> norm_spaces((#[trigger] ms[i]).0) != cand,
        exact_idx(ms, cand) >= 0 ==> 0 <= exact_idx(ms, cand) < ms.len() && norm_spaces(
            ms[exact_idx(ms, cand)].0,
        ) == cand && forall|i: int|
            0 <= i < exact_idx(ms, cand) ==> norm_spaces((#[trigger] ms[i]).0) != cand,
    decreases ms.len(),
{
    if ms.len() > 0 && norm_spaces(ms[0].0) != cand {
        let t = ms.drop_first();
        lemma_exact_idx(t, cand);
        let r = exact_idx(t, cand);
        if r < 0 {
            assert forall|i: int| 0 <= i < ms.len() implies norm_spaces((#[trigger] ms[i]).0)
                != cand by {
                if i >= 1 {
                    assert(norm_spaces(t[i - 1].0) != cand);
                }
            }
        } else {
            assert forall|i: int| 0 <= i < r + 1 implies norm_spaces((#[trigger] ms[i]).0)
                != cand by {
                if i >= 1 {
                    assert(norm_spaces(t[i - 1].0) != cand);
                }
            }
        }
    }
}

proof fn lemma_sub_idx(ms: Seq<(Seq<char>, MeasVal)>, cands: Seq<Seq<char>>)
    ensures
        sub_idx(ms, cands) < 0 ==> forall|i: int|
            0 <= i < ms.len() ==> !key_matches_any((#[trigger] ms[i]).0, cands),
        sub_idx(ms, cands) >= 0 ==> 0 <= sub_idx(ms, cands) < ms.len() && key_matches_any(
            ms[sub_idx(ms, cands)].0,
            cands,
        ) && forall|i: int|
            0 <= i < sub_idx(ms, cands) ==> !key_matches_any((#[trigger] ms[i]).0, cands),
    decreases ms.len(),
{
    if ms.len() > 0 && !key_matches_any(ms[0].0, cands) {
        let t = ms.drop_first();
        lemma_sub_idx(t, cands);
        let r = sub_idx(t, cands);
        if r < 0 {
            assert forall|i: int| 0 <= i < ms.len() implies !key_matches_any(
                (#[trigger] ms[i]).0,
                cands,
            ) by {
                if i >= 1 {
                    assert(!key_matches_any(t[i - 1].0, cands));
                }
            }
        } else {
            assert forall|i: int| 0 <= i < r + 1 implies !key_matches_any(
                (#[trigger] ms[i]).0,
                cands,
            ) by {
                if i >= 1 {
                    assert(!key_matches_any(t[i - 1].0, cands));
                }
            }
        }
    }
}

fn norm_of(s: &String) -> (r: Vec<char>)
    ensures
        r@ == norm_spaces(s@),
{
    let v = text::str_to_chars(s.as_str());
    text::normalize_spaces_chars(&v)
}

fn key_matches_any_exec(key: &String, cands: &Vec<Vec<char>>) -> (r: bool)
    ensures
        r == key_matches_any(key@, cands.deep_view()),
{
    let ghost cv = cands.deep_view();
    let nk = norm_of(key);
    let n = cands.len();
    let mut c: usize = 0;
    while c < n
        invariant
            0 <= c <= n == cands@.len(),
            cv == cands.deep_view(),
            cv.len() == n,
            nk@ == norm_spaces(key@),
            forall|t: int|
                0 <= t < c ==> !(text::contains_seq(norm_spaces(key@), #[trigger] cv[t])
                    || text::contains_seq(cv[t], norm_spaces(key@))),
        decreases n - c,
    {
        let cand = &cands[c];
        proof {
            assert(cand@ == cv[c as int]);
        }
        if text::contains_chars(&nk, cand) || text::contains_chars(cand, &nk) {
            proof {
                assert(text::contains_seq(norm_spaces(key@), cv[c as int])
                    || text::contains_seq(cv[c as int], norm_spaces(key@)));
            }
            return true;
        }
        c = c + 1;
    }
    proof {
        if key_matches_any(key@, cv) {
            let t = choose|t: int|
                0 <= t < cv.len() && (text::contains_seq(norm_spaces(key@), #[trigger] cv[t])
                    || text::contains_seq(cv[t], norm_spaces(key@)));
        }
    }
    false
}

/// Looks one test's value up in a measurement map, per [`find_meas`].
pub fn find_meas_exec(ms: &Vec<(String, MeasValue)>, cands: &Vec<Vec<char>>) -> (r: Option<
    MeasValue,
>)
    ensures
        (match r {
            Some(v) => find_meas(crate::measurements::entries_view(ms@), cands.deep_view())
                == Some(v@),
            None => find_meas(crate::measurements::entries_view(ms@), cands.deep_view()) is None,
        }),
{
    let ghost mv = crate::measurements::entries_view(ms@);
    let ghost cv = cands.deep_view();
    let nc = cands.len();
    let nm = ms.len();
    // exact phase: first candidate with an exact normalised match
    let mut c: usize = 0;
    while c < nc
        invariant
            0 <= c <= nc == cands@.len(),
            mv == crate::measurements::entries_view(ms@),
            cv == cands.deep_view(),
            cv.len() == nc,
            mv.len() == nm == ms@.len(),
            forall|t: int| 0 <= t < c ==> exact_idx(mv, #[trigger] cv[t]) < 0,
            exact_cand(mv, cv, 0) == exact_cand(mv, cv, c as int),
        decreases nc - c,
    {
        let cand = &cands[c];
        proof {
            assert(cand@ == cv[c as int]);
        }
        let mut i: usize = 0;
        let mut hit: Option<usize> = None;
        while i < nm && hit.is_none()
            invariant
                0 <= i <= nm == ms@.len(),
                mv == crate::measurements::entries_view(ms@),
                cv == cands.deep_view(),
                mv.len() == nm,
                cv.len() == nc == cands@.len(),
                cand@ == cv[c as int],
                0 <= c < nc,
                (match hit {
                    Some(h) => h < nm && exact_idx(mv, cv[c as int]) == h,
                    None => forall|t: int|
                        0 <= t < i ==> norm_spaces((#[trigger] mv[t]).0) != cand@,
                }),
            decreases nm - i, (match hit {
                Some(_) => 0int,
                None => 1int,
            }),
        {
            let nk = norm_of(&ms[i].0);
            proof {
                assert((mv[i as int]).0 == ms@[i as int].0@);
            }
            let mut eq = nk.len() == cand.len();
            if eq {
                let cs = text::chars_to_string(cand);
                eq = text::chars_eq_str(&nk, cs.as_str());
            }
            if eq {
                proof {
                    assert(norm_spaces(mv[i as int].0) == cand@);
                    lemma_exact_idx_at(mv, cand@, i as int);
                }
                hit = Some(i);
            } else {
                proof {
                    assert(norm_spaces(mv[i as int].0) != cand@);
                }
                i = i + 1;
            }
        }
        proof {
            if hit is None {
                lemma_exact_idx(mv, cv[c as int]);
                if exact_idx(mv, cv[c as int]) >= 0 {
                    assert(norm_spaces(mv[exact_idx(mv, cv[c as int])].0) == cv[c as int]);
                }
            }
        }
        match hit {
            Some(h) => {
                proof {
                    assert(exact_cand(mv, cv, c as int) == c);
                    assert(find_meas(mv, cv) == Some(mv[h as int].1));
                }
                return Some(ms[h].1.duplicate());
            },
            None => {},
        }
        c = c + 1;
    }
    proof {
        assert(exact_cand(mv, cv, nc as int) == -1);
        assert(exact_cand(mv, cv, 0) < 0);
    }
    // substring phase: first binding matching any candidate either way
    let mut i: usize = 0;
    while i < nm
        invariant
            0 <= i <= nm == ms@.len(),
            mv == crate::measurements::entries_view(ms@),
            cv == cands.deep_view(),
            mv.len() == nm,
            exact_cand(mv, cv, 0) < 0,
            forall|t: int| 0 <= t < i ==> !key_matches_any((#[trigger] mv[t]).0, cv),
        decreases nm - i,
    {
        proof {
            assert((mv[i as int]).0 == ms@[i as int].0@);
        }
        if key_matches_any_exec(&ms[i].0, cands) {
            proof {
                lemma_sub_idx_at(mv, cv, i as int);
                assert(find_meas(mv, cv) == Some(mv[i as int].1));
            }
            return Some(ms[i].1.duplicate());
        }
        i = i + 1;
    }
    proof {
        lemma_sub_idx(mv, cv);
        if sub_idx(mv, cv) >= 0 {
            assert(key_matches_any(mv[sub_idx(mv, cv)].0, cv));
        }
    }
    None
}

proof fn lemma_exact_idx_at(ms: Seq<(Seq<char>, MeasVal)>, cand: Seq<char>, i: int)
    requires
        0 <= i < ms.len(),
        norm_spaces(ms[i].0) == cand,
        forall|t: int| 0 <= t < i ==> norm_spaces((#[trigger] ms[t]).0) != cand,
    ensures
        exact_idx(ms, cand) == i,
    decreases i,
{
    if i > 0 {
        lemma_exact_idx_at(ms.drop_first(), cand, i - 1);
    }
}

proof fn lemma_sub_idx_at(ms: Seq<(Seq<char>, MeasVal)>, cands: Seq<Seq<char>>, i: int)
    requires
        0 <= i < ms.len(),
        key_matches_any(ms[i].0, cands),
        forall|t: int| 0 <= t < i ==> !key_matches_any((#[trigger] ms[t]).0, cands),
    ensures
        sub_idx(ms, cands) == i,
    decreases i,
{
    if i > 0 {
        lemma_sub_idx_at(ms.drop_first(), cands, i - 1);
    }
}


// ===================== the grid =====================

/// The blocks a report of `t` tests needs: ten test columns per block, at
/// least one block.
pub open spec fn block_count(t: int) -> int {
    if t <= 0 {
        1
    } else {
        ((t - 1) / 10) + 1
    }
}

/// The grid's width: one label column and ten test columns per block.
pub open spec fn grid_width(t: int) -> int {
    11 * block_count(t)
}

/// The text of an optional display field, or blank.
pub open spec fn opt_cell(s: Option<String>) -> CellValV {
    match s {
        Some(v) => CellValV::Text(v@),
        None => CellValV::Empty,
    }
}

/// The text of an optional limit, `N/A` when absent.
pub open spec fn limit_cell(s: Option<String>) -> CellValV {
    match s {
        Some(v) => CellValV::Text(v@),
        None => CellValV::Text("N/A"@),
    }
}

/// One test's measurement cell for one serial: blank without Voltech data,
/// else the looked-up value rendered, else blank.
pub open spec fn data_cell(p: PartData, t: TestSpec) -> CellValV {
    if !p.has_data {
        CellValV::Empty
    } else {
        match find_meas(crate::measurements::entries_view(p.measurements@), cands_of(t)) {
            Some(v) => render_val(v),
            None => CellValV::Empty,
        }
    }
}

/// The row label of the header block.
pub open spec fn row_label(r: int) -> CellValV {
    if r == 3 {
        CellValV::Text("Test"@)
    } else if r == 4 {
        CellValV::Text("Source"@)
    } else if r == 5 {
        CellValV::Text("Level"@)
    } else if r == 6 {
        CellValV::Text("Frequency"@)
    } else if r == 7 {
        CellValV::Text("Minimum"@)
    } else if r == 8 {
        CellValV::Text("Maximum"@)
    } else if r == 9 {
        CellValV::Text("UoM"@)
    } else if r == 10 {
        CellValV::Text("Pins"@)
    } else if r == 11 {
        CellValV::Text("Notes"@)
    } else {
        CellValV::Text("SN"@)
    }
}

/// One test's header cell for rows 3 to 12.
pub open spec fn test_header_cell(r: int, t: TestSpec) -> CellValV {
    if r == 3 {
        CellValV::Text(t.test_name@)
    } else if r == 4 {
        CellValV::Text(t.source_type@)
    } else if r == 5 {
        opt_cell(t.voltage)
    } else if r == 6 {
        opt_cell(t.frequency)
    } else if r == 7 {
        limit_cell(t.spec_min)
    } else if r == 8 {
        limit_cell(t.spec_max)
    } else if r == 9 {
        CellValV::Text(t.spec_unit@)
    } else if r == 10 {
        opt_cell(t.primary_pins)
    } else if r == 11 {
        opt_cell(t.description)
    } else {
        CellValV::Empty
    }
}

/// The whole serialized report grid, cell by cell. Each block of eleven
/// columns holds the header block in its label column (title, customer
/// line, job/split/date-code strip, row labels) and up to ten test columns;
/// the first label column carries the serial numbers from row 13 down; a
/// test column carries its header fields in rows 3 to 12 and one looked-up
/// measurement cell per serial below.
pub open spec fn grid_cell(
    r: int,
    c: int,
    tests: Seq<TestSpec>,
    parts: Seq<PartData>,
    job: Seq<char>,
    split_no: Seq<char>,
    date_code: Seq<char>,
) -> CellValV {
    let g = c / 11;
    let off = c % 11;
    if off == 0 {
        if r == 0 {
            CellValV::Text("VISHAY HIREL TEST REPORT FG XXXXXX"@)
        } else if r == 1 {
            CellValV::Text("Customer PN XXXXXX-XXX"@)
        } else if 3 <= r <= 12 {
            row_label(r)
        } else if r >= 13 && r - 13 < parts.len() && g == 0 {
            CellValV::Num(int_seq(parts[r - 13].sn as int))
        } else {
            CellValV::Empty
        }
    } else {
        let j = 10 * g + (off - 1);
        if r == 1 {
            if off == 3 {
                CellValV::Text("Job"@)
            } else if off == 4 {
                CellValV::Text(job)
            } else if off == 6 {
                CellValV::Text("Split"@)
            } else if off == 7 {
                CellValV::Text(split_no)
            } else if off == 8 {
                CellValV::Text("Date Code"@)
            } else if off == 9 {
                CellValV::Text(date_code)
            } else {
                CellValV::Empty
            }
        } else if j < tests.len() {
            if 3 <= r <= 12 {
                test_header_cell(r, tests[j])
            } else if r >= 13 && r - 13 < parts.len() {
                data_cell(parts[r - 13], tests[j])
            } else {
                CellValV::Empty
            }
        } else {
            CellValV::Empty
        }
    }
}

fn opt_cell_exec(s: &Option<String>) -> (r: CellVal)
    ensures
        r@ == opt_cell(*s),
{
    match s {
        Some(v) => CellVal::Text(v.clone()),
        None => CellVal::Empty,
    }
}

fn limit_cell_exec(s: &Option<String>) -> (r: CellVal)
    ensures
        r@ == limit_cell(*s),
{
    match s {
        Some(v) => CellVal::Text(v.clone()),
        None => CellVal::Text(String::from_str("N/A")),
    }
}

fn row_label_exec(r: usize) -> (v: CellVal)
    requires
        3 <= r <= 12,
    ensures
        v@ == row_label(r as int),
{
    if r == 3 {
        CellVal::Text(String::from_str("Test"))
    } else if r == 4 {
        CellVal::Text(String::from_str("Source"))
    } else if r == 5 {
        CellVal::Text(String::from_str("Level"))
    } else if r == 6 {
        CellVal::Text(String::from_str("Frequency"))
    } else if r == 7 {
        CellVal::Text(String::from_str("Minimum"))
    } else if r == 8 {
        CellVal::Text(String::from_str("Maximum"))
    } else if r == 9 {
        CellVal::Text(String::from_str("UoM"))
    } else if r == 10 {
        CellVal::Text(String::from_str("Pins"))
    } else if r == 11 {
        CellVal::Text(String::from_str("Notes"))
    } else {
        CellVal::Text(String::from_str("SN"))
    }
}

fn test_header_cell_exec(r: usize, t: &TestSpec) -> (v: CellVal)
    requires
        3 <= r <= 12,
    ensures
        v@ == test_header_cell(r as int, *t),
{
    if r == 3 {
        CellVal::Text(t.test_name.clone())
    } else if r == 4 {
        CellVal::Text(t.source_type.clone())
    } else if r == 5 {
        opt_cell_exec(&t.voltage)
    } else if r == 6 {
        opt_cell_exec(&t.frequency)
    } else if r == 7 {
        limit_cell_exec(&t.spec_min)
    } else if r == 8 {
        limit_cell_exec(&t.spec_max)
    } else if r == 9 {
        CellVal::Text(t.spec_unit.clone())
    } else if r == 10 {
        opt_cell_exec(&t.primary_pins)
    } else if r == 11 {
        opt_cell_exec(&t.description)
    } else {
        CellVal::Empty
    }
}

fn data_cell_exec(p: &PartData, t: &TestSpec) -> (v: CellVal)
    ensures
        v@ == data_cell(*p, *t),
{
    if !p.has_data {
        return CellVal::Empty;
    }
    let mut cands: Vec<Vec<char>> = Vec::new();
    match &t.associated_test {
        Some(a) => {
            cands.push(norm_of(a));
        },
        None => {},
    }
    cands.push(norm_of(&t.test_name));
    proof {
        assert(cands.deep_view() =~~= cands_of(*t));
    }
    match find_meas_exec(&p.measurements, &cands) {
        Some(v) => match v {
            MeasValue::Int(i) => CellVal::Num(text::chars_to_string(&int_chars(i))),
            MeasValue::Num(s) => CellVal::Num(s),
            MeasValue::Text(s) => CellVal::Text(s),
        },
        None => CellVal::Empty,
    }
}

fn grid_cell_exec(
    r: usize,
    c: usize,
    tests: &Vec<TestSpec>,
    parts: &Vec<PartData>,
    job: &str,
    split_no: &str,
    date_code: &str,
) -> (v: CellVal)
    requires
        tests@.len() <= 10000,
        c < grid_width(tests@.len() as int),
        r < 13 + parts@.len(),
    ensures
        v@ == grid_cell(
            r as int,
            c as int,
            tests@,
            parts@,
            job@,
            split_no@,
            date_code@,
        ),
{
    let g = c / 11;
    let off = c % 11;
    if off == 0 {
        if r == 0 {
            CellVal::Text(String::from_str("VISHAY HIREL TEST REPORT FG XXXXXX"))
        } else if r == 1 {
            CellVal::Text(String::from_str("Customer PN XXXXXX-XXX"))
        } else if 3 <= r && r <= 12 {
            row_label_exec(r)
        } else if r >= 13 && g == 0 {
            proof {
                assert(r - 13 < parts@.len());
            }
            CellVal::Num(text::chars_to_string(&int_chars(parts[r - 13].sn)))
        } else {
            CellVal::Empty
        }
    } else {
        let j = 10 * g + (off - 1);
        if r == 1 {
            if off == 3 {
                CellVal::Text(String::from_str("Job"))
            } else if off == 4 {
                CellVal::Text(String::from_str(job))
            } else if off == 6 {
                CellVal::Text(String::from_str("Split"))
            } else if off == 7 {
                CellVal::Text(String::from_str(split_no))
            } else if off == 8 {
                CellVal::Text(String::from_str("Date Code"))
            } else if off == 9 {
                CellVal::Text(String::from_str(date_code))
            } else {
                CellVal::Empty
            }
        } else if j < tests.len() {
            if 3 <= r && r <= 12 {
                test_header_cell_exec(r, &tests[j])
            } else if r >= 13 {
                proof {
                    assert(r - 13 < parts@.len());
                }
                data_cell_exec(&parts[r - 13], &tests[j])
            } else {
                CellVal::Empty
            }
        } else {
            CellVal::Empty
        }
    }
}

/// The view of one grid row.
pub open spec fn row_view(row: Seq<CellVal>) -> Seq<CellValV> {
    row.map(|i: int, v: CellVal| v@)
}

/// Lays the serialized report out as a matrix of cells, pinned cell by cell
/// by [`grid_cell`]: thirteen header rows and one row per serial, one label
/// column and ten test columns per block. The caller supplies one part per
/// serial of `start_serial..=end_serial`, in order; the host writes the
/// cells into a worksheet.
pub fn layout_serialized(
    tests: &Vec<TestSpec>,
    parts: &Vec<PartData>,
    start_serial: i64,
    end_serial: i64,
    job: &str,
    split_no: &str,
    date_code: &str,
) -> (grid: Vec<Vec<CellVal>>)
    requires
        tests@.len() <= 10000,
        parts@.len() <= 1000000,
        start_serial <= end_serial,
        end_serial as int - start_serial as int + 1 == parts@.len(),
        forall|k: int|
            0 <= k < parts@.len() ==> (#[trigger] parts@[k]).sn as int == start_serial as int + k,
    ensures
        grid@.len() == 13 + parts@.len(),
        forall|r: int|
            0 <= r < grid@.len() ==> (#[trigger] grid@[r])@.len() == grid_width(
                tests@.len() as int,
            ),
        forall|r: int, c: int|
            0 <= r < grid@.len() && 0 <= c < grid_width(tests@.len() as int) ==> (
            #[trigger] grid@[r]@[c])@ == grid_cell(
                r,
                c,
                tests@,
                parts@,
                job@,
                split_no@,
                date_code@,
            ),
{
    let t = tests.len();
    let blocks: usize = if t == 0 {
        1
    } else {
        (t - 1) / 10 + 1
    };
    let width = 11 * blocks;
    proof {
        assert(width == grid_width(tests@.len() as int));
    }
    let height = 13 + parts.len();
    let mut grid: Vec<Vec<CellVal>> = Vec::new();
    let mut r: usize = 0;
    while r < height
        invariant
            0 <= r <= height == 13 + parts@.len(),
            tests@.len() <= 10000,
            width == grid_width(tests@.len() as int),
            grid@.len() == r,
            forall|rr: int|
                0 <= rr < r ==> (#[trigger] grid@[rr])@.len() == grid_width(tests@.len() as int),
            forall|rr: int, cc: int|
                0 <= rr < r && 0 <= cc < grid_width(tests@.len() as int) ==> (
                #[trigger] grid@[rr]@[cc])@ == grid_cell(
                    rr,
                    cc,
                    tests@,
                    parts@,
                    job@,
                    split_no@,
                    date_code@,
                ),
        decreases height - r,
    {
        let mut row: Vec<CellVal> = Vec::new();
        let mut c: usize = 0;
        while c < width
            invariant
                0 <= c <= width,
                0 <= r < height == 13 + parts@.len(),
                tests@.len() <= 10000,
                width == grid_width(tests@.len() as int),
                row@.len() == c,
                forall|cc: int|
                    0 <= cc < c ==> (#[trigger] row@[cc])@ == grid_cell(
                        r as int,
                        cc,
                        tests@,
                        parts@,
                        job@,
                        split_no@,
                        date_code@,
                    ),
            decreases width - c,
        {
            let v = grid_cell_exec(r, c, tests, parts, job, split_no, date_code);
            row.push(v);
            c = c + 1;
        }
        grid.push(row);
        r = r + 1;
    }
    grid
}


// ===================== the collected-report grid =====================

/// The view of one collected test aggregate.
pub struct TestResultDataV {
    pub test_id: i32,
    pub test_name: Seq<char>,
    pub source_type: Seq<char>,
    pub associated_test: Option<Seq<char>>,
    pub spec_min: Option<Seq<char>>,
    pub spec_max: Option<Seq<char>>,
    pub spec_unit: Seq<char>,
    pub results: Seq<crate::collector::SingleV>,
}

impl View for crate::collector::TestResultData {
    type V = TestResultDataV;

    open spec fn view(&self) -> TestResultDataV {
        TestResultDataV {
            test_id: self.test_id,
            test_name: self.test_name@,
            source_type: self.source_type@,
            associated_test: match &self.associated_test {
                Some(a) => Some(a@),
                None => None,
            },
            spec_min: match &self.spec_min {
                Some(a) => Some(a@),
                None => None,
            },
            spec_max: match &self.spec_max {
                Some(a) => Some(a@),
                None => None,
            },
            spec_unit: self.spec_unit@,
            results: crate::collector::singles_view(self.results@),
        }
    }
}

/// The view of a collected report.
pub struct ReportDataV {
    pub report_id: i32,
    pub fg_number: Seq<char>,
    pub fg_revision: Seq<char>,
    pub fg_customer: Seq<char>,
    pub is_serialized: bool,
    pub batch: Option<Seq<char>>,
    pub serial_range: Option<Seq<char>>,
    pub test_results: Seq<TestResultDataV>,
}

impl View for crate::collector::ReportData {
    type V = ReportDataV;

    open spec fn view(&self) -> ReportDataV {
        ReportDataV {
            report_id: self.report_id,
            fg_number: self.fg_number@,
            fg_revision: self.fg_revision@,
            fg_customer: self.fg_customer@,
            is_serialized: self.is_serialized,
            batch: match &self.batch {
                Some(b) => Some(b@),
                None => None,
            },
            serial_range: match &self.serial_range {
                Some(s) => Some(s@),
                None => None,
            },
            test_results: self.test_results@.map(
                |i: int, t: crate::collector::TestResultData| t@,
            ),
        }
    }
}

/// The text a measurement scalar prints as in the collected report: numbers
/// in their decimal form, text verbatim.
pub open spec fn val_text(v: MeasVal) -> Seq<char> {
    match v {
        MeasVal::Int(i) => int_seq(i as int),
        MeasVal::Num(s) => s,
        MeasVal::Text(s) => s,
    }
}

/// An optional field printed as text, `N/A` when absent.
pub open spec fn opt_na(s: Option<Seq<char>>) -> CellValV {
    match s {
        Some(v) => CellValV::Text(v),
        None => CellValV::Text("N/A"@),
    }
}

/// The measurement column keys of one aggregate: the keys of the first
/// result's map, in stored order.
pub open spec fn result_keys(t: TestResultDataV) -> Seq<Seq<char>> {
    if t.results.len() == 0 {
        Seq::empty()
    } else {
        t.results[0].measurements.map(|i: int, e: (Seq<char>, MeasVal)| e.0)
    }
}

/// One measurement cell of a result row: the value bound to the column key
/// printed as text, or empty text when the row's map lacks it.
pub open spec fn key_cell(ms: Seq<(Seq<char>, MeasVal)>, k: Seq<char>) -> CellValV {
    match crate::measurements::map_get(ms, k) {
        Some(v) => CellValV::Text(val_text(v)),
        None => CellValV::Text(Seq::empty()),
    }
}

/// The column-header row of a result table.
pub open spec fn result_header_row(serialized: bool, keys: Seq<Seq<char>>) -> Seq<CellValV> {
    (if serialized {
        seq![CellValV::Text("Serial #"@)]
    } else {
        seq![CellValV::Empty]
    }) + seq![CellValV::Text("Batch"@), CellValV::Text("Date"@), CellValV::Text("Result"@)]
        + keys.map(|i: int, k: Seq<char>| CellValV::Text(k))
}

/// One result row: the serial (in serialized mode), batch, date, verdict,
/// and one looked-up cell per column key.
pub open spec fn result_data_row(
    serialized: bool,
    keys: Seq<Seq<char>>,
    r: crate::collector::SingleV,
) -> Seq<CellValV> {
    (if serialized {
        seq![
            CellValV::Text(
                match r.serial_number {
                    Some(s) => s,
                    None => Seq::empty(),
                },
            ),
        ]
    } else {
        seq![CellValV::Empty]
    }) + seq![CellValV::Text(r.batch), CellValV::Text(r.date), CellValV::Text(r.result)]
        + keys.map(|i: int, k: Seq<char>| key_cell(r.measurements, k))
}

/// The result table of one aggregate: a placeholder when no data backs the
/// test, else the header row and one row per result.
pub open spec fn result_rows(serialized: bool, t: TestResultDataV) -> Seq<Seq<CellValV>> {
    if t.results.len() == 0 {
        seq![seq![CellValV::Text("NO DATA AVAILABLE"@)]]
    } else {
        seq![result_header_row(serialized, result_keys(t))] + t.results.map(
            |i: int, r: crate::collector::SingleV| result_data_row(
                serialized,
                result_keys(t),
                r,
            ),
        )
    }
}

/// One test's whole section: name, source line, the Min/Max/Unit spec
/// table, a spacer, the result table, and three spacer rows.
pub open spec fn test_block(serialized: bool, t: TestResultDataV) -> Seq<Seq<CellValV>> {
    seq![
        seq![CellValV::Text("Test: "@ + t.test_name)],
        (seq![CellValV::Text("Source:"@), CellValV::Text(t.source_type)] + (
        match t.associated_test {
            Some(a) => seq![CellValV::Text("Associated Test:"@), CellValV::Text(a)],
            None => Seq::<CellValV>::empty(),
        })),
        seq![
            CellValV::Text("Specification"@),
            CellValV::Text("Min"@),
            CellValV::Text("Max"@),
            CellValV::Text("Unit"@),
        ],
        seq![CellValV::Text("Limits"@), opt_na(t.spec_min), opt_na(t.spec_max), CellValV::Text(t.spec_unit)],
        Seq::<CellValV>::empty(),
    ] + result_rows(serialized, t) + seq![
        Seq::<CellValV>::empty(),
        Seq::<CellValV>::empty(),
        Seq::<CellValV>::empty(),
    ]
}

/// The test sections from index `i` on.
pub open spec fn blocks_from(serialized: bool, ts: Seq<TestResultDataV>, i: int) -> Seq<
    Seq<CellValV>,
>
    decreases ts.len() - i,
{
    if i < 0 || i >= ts.len() {
        Seq::empty()
    } else {
        test_block(serialized, ts[i]) + blocks_from(serialized, ts, i + 1)
    }
}

/// The finished-good header block: four labelled rows and a spacer, keyed
/// by serial range or batch per the report's mode.
pub open spec fn header_block(d: ReportDataV) -> Seq<Seq<CellValV>> {
    seq![
        seq![CellValV::Text("FG Number:"@), CellValV::Text(d.fg_number)],
        seq![CellValV::Text("Revision:"@), CellValV::Text(d.fg_revision)],
        seq![CellValV::Text("Customer:"@), CellValV::Text(d.fg_customer)],
        (if d.is_serialized {
            seq![CellValV::Text("Serial Range:"@), opt_na(d.serial_range)]
        } else {
            seq![CellValV::Text("Batch:"@), opt_na(d.batch)]
        }),
        Seq::<CellValV>::empty(),
    ]
}

/// The whole collected-report grid: the finished-good header block and one
/// section per test, in order.
pub open spec fn collected_rows(d: ReportDataV) -> Seq<Seq<CellValV>> {
    header_block(d) + blocks_from(d.is_serialized, d.test_results, 0)
}

/// The nested view of a built grid.
pub open spec fn grid_view(g: Seq<Vec<CellVal>>) -> Seq<Seq<CellValV>> {
    g.map(|i: int, row: Vec<CellVal>| row_view(row@))
}

fn text_cell(s: &str) -> (r: CellVal)
    ensures
        r@ == CellValV::Text(s@),
{
    CellVal::Text(String::from_str(s))
}

fn opt_na_exec(s: &Option<String>) -> (r: CellVal)
    ensures
        r@ == opt_na(match s {
            Some(v) => Some(v@),
            None => None,
        }),
{
    match s {
        Some(v) => CellVal::Text(v.clone()),
        None => CellVal::Text(String::from_str("N/A")),
    }
}

fn val_text_exec(v: &MeasValue) -> (r: String)
    ensures
        r@ == val_text(v@),
{
    match v {
        MeasValue::Int(i) => text::chars_to_string(&int_chars(*i)),
        MeasValue::Num(s) => s.clone(),
        MeasValue::Text(s) => s.clone(),
    }
}

/// Builds one result row, per [`result_data_row`].
fn result_data_row_exec(
    serialized: bool,
    keys: &Vec<String>,
    r: &crate::collector::SingleResult,
) -> (row: Vec<CellVal>)
    ensures
        row_view(row@) == result_data_row(
            serialized,
            keys@.map(|i: int, k: String| k@),
            r@,
        ),
{
    let ghost kv = keys@.map(|i: int, k: String| k@);
    let mut row: Vec<CellVal> = Vec::new();
    if serialized {
        let s = match &r.serial_number {
            Some(s) => s.clone(),
            None => String::new(),
        };
        row.push(CellVal::Text(s));
    } else {
        row.push(CellVal::Empty);
    }
    row.push(CellVal::Text(r.batch.clone()));
    row.push(CellVal::Text(r.date.clone()));
    row.push(CellVal::Text(r.result.clone()));
    let ghost fixed = row_view(row@);
    proof {
        assert(fixed =~= (if serialized {
            seq![
                CellValV::Text(
                    match r@.serial_number {
                        Some(s) => s,
                        None => Seq::<char>::empty(),
                    },
                ),
            ]
        } else {
            seq![CellValV::Empty]
        }) + seq![
            CellValV::Text(r@.batch),
            CellValV::Text(r@.date),
            CellValV::Text(r@.result),
        ]);
    }
    let nk = keys.len();
    let mut k: usize = 0;
    while k < nk
        invariant
            0 <= k <= nk == keys@.len(),
            kv == keys@.map(|i: int, k2: String| k2@),
            kv.len() == nk,
            fixed.len() == 4,
            row_view(row@) == fixed + kv.take(k as int).map(
                |i: int, key: Seq<char>| key_cell(r@.measurements, key),
            ),
        decreases nk - k,
    {
        let key = &keys[k];
        proof {
            assert(key@ == kv[k as int]);
        }
        let ghost rv0 = row_view(row@);
        let cell = match crate::measurements::measurements_get(&r.measurements, key.as_str()) {
            Some(v) => CellVal::Text(val_text_exec(&v)),
            None => CellVal::Text(String::new()),
        };
        proof {
            assert(cell@ == key_cell(r@.measurements, kv[k as int]));
        }
        row.push(cell);
        proof {
            assert(row_view(row@) =~~= rv0.push(key_cell(r@.measurements, kv[k as int])));
            assert(kv.take(k + 1 as int).map(
                |i: int, key2: Seq<char>| key_cell(r@.measurements, key2),
            ) =~~= kv.take(k as int).map(
                |i: int, key2: Seq<char>| key_cell(r@.measurements, key2),
            ).push(key_cell(r@.measurements, kv[k as int])));
        }
        k = k + 1;
    }
    proof {
        assert(kv.take(nk as int) =~= kv);
        assert(row_view(row@) =~~= result_data_row(serialized, kv, r@));
    }
    row
}

/// Appends one test's section to the grid, per [`test_block`].
#[verifier::rlimit(100)]
fn push_test_block(
    grid: &mut Vec<Vec<CellVal>>,
    serialized: bool,
    t: &crate::collector::TestResultData,
)
    ensures
        grid_view(final(grid)@) == grid_view(old(grid)@) + test_block(serialized, t@),
{
    let ghost g0 = grid_view(grid@);
    // name row
    let mut name = String::from_str("Test: ");
    name.append(t.test_name.as_str());
    let mut row1: Vec<CellVal> = Vec::new();
    row1.push(CellVal::Text(name));
    grid.push(row1);
    // source row
    let mut row2: Vec<CellVal> = Vec::new();
    row2.push(text_cell("Source:"));
    row2.push(CellVal::Text(t.source_type.clone()));
    match &t.associated_test {
        Some(a) => {
            row2.push(text_cell("Associated Test:"));
            row2.push(CellVal::Text(a.clone()));
        },
        None => {},
    }
    grid.push(row2);
    // spec table
    let mut row3: Vec<CellVal> = Vec::new();
    row3.push(text_cell("Specification"));
    row3.push(text_cell("Min"));
    row3.push(text_cell("Max"));
    row3.push(text_cell("Unit"));
    grid.push(row3);
    let mut row4: Vec<CellVal> = Vec::new();
    row4.push(text_cell("Limits"));
    row4.push(opt_na_exec(&t.spec_min));
    row4.push(opt_na_exec(&t.spec_max));
    row4.push(CellVal::Text(t.spec_unit.clone()));
    grid.push(row4);
    grid.push(Vec::new());
    let ghost pre = test_block(serialized, t@).take(5);
    proof {
        assert(grid_view(grid@) =~~= g0 + pre);
    }
    // result table
    let ghost rr = result_rows(serialized, t@);
    if t.results.len() == 0 {
        let mut row: Vec<CellVal> = Vec::new();
        row.push(text_cell("NO DATA AVAILABLE"));
        grid.push(row);
        proof {
            assert(t@.results.len() == 0);
            assert(grid_view(grid@) =~~= g0 + pre + rr);
        }
    } else {
        let first = &t.results[0];
        let nk0 = first.measurements.len();
        let mut keys: Vec<String> = Vec::new();
        let mut q: usize = 0;
        while q < nk0
            invariant
                0 <= q <= nk0 == first.measurements@.len(),
                t.results@.len() > 0,
                first == t.results@[0],
                keys@.len() == q,
                forall|i: int|
                    0 <= i < q ==> (#[trigger] keys@[i])@ == first.measurements@[i].0@,
            decreases nk0 - q,
        {
            keys.push(first.measurements[q].0.clone());
            q = q + 1;
        }
        let ghost kv = keys@.map(|i: int, k2: String| k2@);
        proof {
            assert(t@.results[0] == first@);
            assert(kv =~~= result_keys(t@));
        }
        // header row
        let mut hdr: Vec<CellVal> = Vec::new();
        if serialized {
            hdr.push(text_cell("Serial #"));
        } else {
            hdr.push(CellVal::Empty);
        }
        hdr.push(text_cell("Batch"));
        hdr.push(text_cell("Date"));
        hdr.push(text_cell("Result"));
        let mut q2: usize = 0;
        let ghost hfixed = row_view(hdr@);
        proof {
            assert(hfixed =~= (if serialized {
                seq![CellValV::Text("Serial #"@)]
            } else {
                seq![CellValV::Empty]
            }) + seq![
                CellValV::Text("Batch"@),
                CellValV::Text("Date"@),
                CellValV::Text("Result"@),
            ]);
        }
        while q2 < keys.len()
            invariant
                0 <= q2 <= keys@.len(),
                kv == keys@.map(|i: int, k2: String| k2@),
                kv.len() == keys@.len(),
                hfixed.len() == 4,
                row_view(hdr@) == hfixed + kv.take(q2 as int).map(
                    |i: int, k2: Seq<char>| CellValV::Text(k2),
                ),
            decreases keys@.len() - q2,
        {
            let ghost hv0 = row_view(hdr@);
            let key = &keys[q2];
            proof {
                assert(key@ == kv[q2 as int]);
            }
            hdr.push(CellVal::Text(key.clone()));
            proof {
                assert(row_view(hdr@) =~~= hv0.push(CellValV::Text(kv[q2 as int])));
                assert(kv.take(q2 + 1 as int).map(|i: int, k2: Seq<char>| CellValV::Text(k2))
                    =~~= kv.take(q2 as int).map(|i: int, k2: Seq<char>| CellValV::Text(k2)).push(
                    CellValV::Text(kv[q2 as int]),
                ));
            }
            q2 = q2 + 1;
        }
        proof {
            assert(kv.take(keys@.len() as int) =~= kv);
            assert(row_view(hdr@) =~~= result_header_row(serialized, result_keys(t@)));
        }
        grid.push(hdr);
        // data rows
        let nr = t.results.len();
        let mut ri: usize = 0;
        let ghost base = g0 + pre + seq![result_header_row(serialized, result_keys(t@))];
        proof {
            assert(grid_view(grid@) =~~= base);
        }
        while ri < nr
            invariant
                0 <= ri <= nr == t.results@.len(),
                t@.results.len() == nr,
                kv == keys@.map(|i: int, k2: String| k2@),
                kv == result_keys(t@),
                grid_view(grid@) == base + t@.results.take(ri as int).map(
                    |i: int, r: crate::collector::SingleV| result_data_row(
                        serialized,
                        result_keys(t@),
                        r,
                    ),
                ),
            decreases nr - ri,
        {
            let ghost gv0 = grid_view(grid@);
            let r = &t.results[ri];
            proof {
                assert(r@ == t@.results[ri as int]);
            }
            let row = result_data_row_exec(serialized, &keys, r);
            grid.push(row);
            proof {
                assert(grid_view(grid@) =~~= gv0.push(
                    result_data_row(serialized, result_keys(t@), t@.results[ri as int]),
                ));
                assert(t@.results.take(ri + 1 as int).map(
                    |i: int, r2: crate::collector::SingleV| result_data_row(
                        serialized,
                        result_keys(t@),
                        r2,
                    ),
                ) =~~= t@.results.take(ri as int).map(
                    |i: int, r2: crate::collector::SingleV| result_data_row(
                        serialized,
                        result_keys(t@),
                        r2,
                    ),
                ).push(result_data_row(serialized, result_keys(t@), t@.results[ri as int])));
            }
            ri = ri + 1;
        }
        proof {
            assert(t@.results.take(nr as int) =~= t@.results);
            assert(grid_view(grid@) =~~= g0 + pre + rr);
        }
    }
    // spacer rows
    proof {
        assert(grid_view(grid@) =~~= g0 + pre + rr);
    }
    let ghost gmid = grid_view(grid@);
    grid.push(Vec::new());
    proof {
        assert(row_view(Seq::<CellVal>::empty()) =~= Seq::<CellValV>::empty());
        assert(grid_view(grid@) =~~= gmid.push(Seq::<CellValV>::empty()));
    }
    let ghost g1 = grid_view(grid@);
    grid.push(Vec::new());
    proof {
        assert(grid_view(grid@) =~~= g1.push(Seq::<CellValV>::empty()));
    }
    let ghost g2 = grid_view(grid@);
    grid.push(Vec::new());
    proof {
        assert(grid_view(grid@) =~~= g2.push(Seq::<CellValV>::empty()));
        assert(test_block(serialized, t@) =~~= pre + rr + seq![
            Seq::<CellValV>::empty(),
            Seq::<CellValV>::empty(),
            Seq::<CellValV>::empty(),
        ]);
        assert(grid_view(grid@) =~~= g0 + test_block(serialized, t@));
    }
}

/// Lays a collected report out as a grid of cells, pinned row by row by
/// [`collected_rows`]: the finished-good header block, then one section per
/// test — name, source, the Min/Max/Unit spec table, and the result rows
/// with one looked-up cell per measurement column. The host writes and
/// styles the cells.
pub fn layout_collected(data: &crate::collector::ReportData) -> (grid: Vec<Vec<CellVal>>)
    ensures
        grid_view(grid@) == collected_rows(data@),
{
    let mut grid: Vec<Vec<CellVal>> = Vec::new();
    let mut row0: Vec<CellVal> = Vec::new();
    row0.push(text_cell("FG Number:"));
    row0.push(CellVal::Text(data.fg_number.clone()));
    grid.push(row0);
    let mut row1: Vec<CellVal> = Vec::new();
    row1.push(text_cell("Revision:"));
    row1.push(CellVal::Text(data.fg_revision.clone()));
    grid.push(row1);
    let mut row2: Vec<CellVal> = Vec::new();
    row2.push(text_cell("Customer:"));
    row2.push(CellVal::Text(data.fg_customer.clone()));
    grid.push(row2);
    let mut row3: Vec<CellVal> = Vec::new();
    if data.is_serialized {
        row3.push(text_cell("Serial Range:"));
        row3.push(opt_na_exec(&data.serial_range));
    } else {
        row3.push(text_cell("Batch:"));
        row3.push(opt_na_exec(&data.batch));
    }
    grid.push(row3);
    grid.push(Vec::new());
    proof {
        assert(grid_view(grid@) =~~= header_block(data@));
    }
    let ghost ts = data@.test_results;
    let n = data.test_results.len();
    let mut i: usize = 0;
    proof {
        assert(ts.len() == n);
        assert(grid_view(grid@) + blocks_from(data@.is_serialized, ts, 0) =~~= collected_rows(
            data@,
        ));
    }
    while i < n
        invariant
            0 <= i <= n == data.test_results@.len(),
            ts == data@.test_results,
            ts.len() == n,
            collected_rows(data@) == grid_view(grid@) + blocks_from(
                data@.is_serialized,
                ts,
                i as int,
            ),
        decreases n - i,
    {
        let t = &data.test_results[i];
        proof {
            assert(t@ == ts[i as int]);
        }
        let ghost gv0 = grid_view(grid@);
        push_test_block(&mut grid, data.is_serialized, t);
        proof {
            assert(blocks_from(data@.is_serialized, ts, i as int) == test_block(
                data@.is_serialized,
                ts[i as int],
            ) + blocks_from(data@.is_serialized, ts, i + 1 as int));
            assert(gv0 + blocks_from(data@.is_serialized, ts, i as int) =~~= grid_view(grid@)
                + blocks_from(data@.is_serialized, ts, i + 1 as int));
        }
        i = i + 1;
    }
    proof {
        assert(blocks_from(data@.is_serialized, ts, n as int) =~~= Seq::<Seq<CellValV>>::empty());
        assert(grid_view(grid@) + Seq::<Seq<CellValV>>::empty() =~= grid_view(grid@));
    }
    grid
}

} // verus!
