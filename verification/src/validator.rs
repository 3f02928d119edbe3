//! Report validation: whether each test of a report has data to draw on.
//! The serialized mode counts passing store rows whose part starts with the
//! finished good, whose serial lies in the range in either sense, and whose
//! measurement JSON mentions the associated test key after whitespace
//! normalisation; the batch mode groups the backing rows into sessions.

use vstd::prelude::*;
use crate::text;
use crate::queries::{serial_in_range, serial_in_range_exec};
use crate::collector::date_text;
use crate::model::{TestResultV, TestResultRow, ManualResultRow};
use crate::store::VoltechStore;

verus! {

/// A store row backs a serialized Voltech test: the part starts with the
/// finished good, the serial lies in the range in either sense (numeric or
/// lexicographic), the run passed, and the measurements mention the quoted
/// key after whitespace normalisation.
pub open spec fn backs_voltech(
    r: TestResultV,
    fg: Seq<char>,
    assoc: Seq<char>,
    a: int,
    b: int,
) -> bool {
    &&& text::starts_with(r.part, fg)
    &&& serial_in_range(r.serial_num, a, b)
    &&& r.pass_fail == "Pass"@
    &&& crate::collector::mentions_key(r, assoc)
}

fn backs_voltech_exec(
    row: &TestResultRow,
    fg: &Vec<char>,
    needle: &Vec<char>,
    a: i64,
    b: i64,
) -> (r: bool)
    ensures
        r == ({
            &&& text::starts_with(row@.part, fg@)
            &&& serial_in_range(row@.serial_num, a as int, b as int)
            &&& row@.pass_fail == "Pass"@
            &&& text::contains_seq(crate::text::norm_spaces(row@.measurements), needle@)
        }),
{
    let part = text::str_to_chars(row.part.as_str());
    if !text::starts_with_chars(&part, fg) {
        return false;
    }
    if !serial_in_range_exec(row.serial_num.as_str(), a, b) {
        return false;
    }
    let pf = text::str_to_chars(row.pass_fail.as_str());
    if !text::chars_eq_str(&pf, "Pass") {
        return false;
    }
    let mvv = text::str_to_chars(row.measurements.as_str());
    let meas = text::normalize_spaces_chars(&mvv);
    text::contains_chars(&meas, needle)
}

/// How many store rows back a serialized Voltech test, and whether any
/// does: the `has_data` and `record_count` of one test's validation. For
/// serialized matching the caller passes the full part prefix — the
/// finished good followed by the revision.
pub fn validate_voltech_serialized(
    store: &VoltechStore,
    fg: &str,
    associated_test: &str,
    start_serial: i64,
    end_serial: i64,
) -> (r: (bool, usize))
    ensures
        ({
            let sv = store@.results;
            let cnt = sv.filter(
                |row: TestResultV|
                    backs_voltech(
                        row,
                        fg@,
                        associated_test@,
                        start_serial as int,
                        end_serial as int,
                    ),
            ).len();
            r.1 == cnt && r.0 == (cnt > 0)
        }),
{
    let ghost sv = store@.results;
    let ghost pred = |row: TestResultV|
        backs_voltech(row, fg@, associated_test@, start_serial as int, end_serial as int);
    let fgc = text::str_to_chars(fg);
    let needle = crate::collector::key_needle(associated_test);
    let n = store.results.len();
    let mut count: usize = 0;
    let mut j: usize = 0;
    proof {
        lemma_result_filter_zero(sv, pred);
    }
    while j < n
        invariant
            0 <= j <= n == store.results@.len(),
            sv == store@.results,
            sv == crate::model::rows_view(store.results@),
            sv.len() == n,
            fgc@ == fg@,
            needle@ == seq!['"'] + crate::text::norm_spaces(associated_test@) + seq!['"'],
            pred == (|row: TestResultV|
                backs_voltech(
                    row,
                    fg@,
                    associated_test@,
                    start_serial as int,
                    end_serial as int,
                )),
            count == sv.take(j as int).filter(pred).len(),
            count <= j,
        decreases n - j,
    {
        let row = &store.results[j];
        proof {
            assert(row@ == sv[j as int]);
            lemma_result_filter_step(sv, pred, j as int);
        }
        let keeps = backs_voltech_exec(row, &fgc, &needle, start_serial, end_serial);
        proof {
            assert(keeps == pred(sv[j as int]));
        }
        if keeps {
            count = count + 1;
        }
        j = j + 1;
    }
    proof {
        assert(sv.take(n as int) =~= sv);
    }
    (count > 0, count)
}

proof fn lemma_result_filter_step(
    s: Seq<TestResultV>,
    pred: spec_fn(TestResultV) -> bool,
    i: int,
)
    requires
        0 <= i < s.len(),
    ensures
        s.take(i + 1).filter(pred) == (if pred(s[i]) {
            s.take(i).filter(pred).push(s[i])
        } else {
            s.take(i).filter(pred)
        }),
        s.take(i).filter(pred).len() <= i,
{
    reveal(Seq::filter);
    assert(s.take(i + 1).drop_last() =~= s.take(i));
    assert(s.take(i + 1).last() == s[i]);
    s.take(i).lemma_filter_len(pred);
}

proof fn lemma_result_filter_zero(s: Seq<TestResultV>, pred: spec_fn(TestResultV) -> bool)
    ensures
        s.take(0).filter(pred) == Seq::<TestResultV>::empty(),
{
    reveal(Seq::filter);
    assert(s.take(0) =~= Seq::<TestResultV>::empty());
}

/// A manual row backs a test: its full test name equals the associated name
/// and its serial lies in the range in either sense.
pub open spec fn backs_manual(r: crate::model::ManualResultV, assoc: Seq<char>, a: int, b: int) -> bool {
    r.test == assoc && serial_in_range(r.sn, a, b)
}

/// The filter predicate of [`validate_manual_serialized`].
pub open spec fn backs_manual_pred(assoc: Seq<char>, a: int, b: int) -> spec_fn(
    crate::model::ManualResultV,
) -> bool {
    |r: crate::model::ManualResultV| backs_manual(r, assoc, a, b)
}

/// Counts the manual rows backing a serialized test, per [`backs_manual`]:
/// the exact number of matching rows, and whether there is any.
pub fn validate_manual_serialized(
    rows: &Vec<ManualResultRow>,
    associated_test: &str,
    start_serial: i64,
    end_serial: i64,
) -> (r: (bool, usize))
    ensures
        ({
            let cnt = crate::model::manual_rows_view(rows@).filter(
                backs_manual_pred(associated_test@, start_serial as int, end_serial as int),
            ).len();
            r.1 == cnt && r.0 == (cnt > 0)
        }),
{
    let ghost mv = crate::model::manual_rows_view(rows@);
    let ghost pred = backs_manual_pred(associated_test@, start_serial as int, end_serial as int);
    let n = rows.len();
    let mut count: usize = 0;
    let mut j: usize = 0;
    proof {
        crate::model::lemma_filter_take_zero(mv, pred);
    }
    while j < n
        invariant
            0 <= j <= n == rows@.len(),
            mv == crate::model::manual_rows_view(rows@),
            mv.len() == n,
            pred == backs_manual_pred(associated_test@, start_serial as int, end_serial as int),
            count == mv.take(j as int).filter(pred).len(),
            count <= j,
        decreases n - j,
    {
        let row = &rows[j];
        proof {
            assert(row@ == mv[j as int]);
            crate::model::lemma_filter_take_step(mv, pred, j as int);
        }
        let tn = text::str_to_chars(row.test.as_str());
        if text::chars_eq_str(&tn, associated_test) && serial_in_range_exec(
            row.sn.as_str(),
            start_serial,
            end_serial,
        ) {
            count = count + 1;
        }
        j = j + 1;
    }
    proof {
        assert(mv.take(n as int) =~= mv);
    }
    (count > 0, count)
}

/// A report is complete exactly when every test of it has data; tests of
/// the `other` source count as having data by definition.
pub fn report_is_complete(has_data: &Vec<bool>) -> (r: bool)
    ensures
        r == forall|i: int| 0 <= i < has_data@.len() ==> #[trigger] has_data@[i],
{
    let n = has_data.len();
    let mut i: usize = 0;
    while i < n
        invariant
            0 <= i <= n == has_data@.len(),
            forall|t: int| 0 <= t < i ==> #[trigger] has_data@[t],
        decreases n - i,
    {
        if !has_data[i] {
            return false;
        }
        i = i + 1;
    }
    true
}


// ===================== batch-mode sessions =====================

/// A Voltech row that belongs to batch-mode validation of a test: the part
/// starts with the finished good, the run passed, the measurements mention
/// the quoted key after whitespace normalisation, and the row carries a
/// normalised date to group under.
pub open spec fn batch_backing(r: TestResultV, fg: Seq<char>, assoc: Seq<char>) -> bool {
    &&& text::starts_with(r.part, fg)
    &&& r.pass_fail == "Pass"@
    &&& crate::collector::mentions_key(r, assoc)
    &&& r.normalized_date is Some
}

/// How many of the first `j` rows back the test under one
/// `(normalised date, batch)` pair.
pub open spec fn session_count(
    sv: Seq<TestResultV>,
    fg: Seq<char>,
    assoc: Seq<char>,
    j: int,
    d: Seq<char>,
    bt: Seq<char>,
) -> int
    decreases j,
{
    if j <= 0 {
        0
    } else {
        session_count(sv, fg, assoc, j - 1, d, bt) + (if j <= sv.len() && batch_backing(
            sv[j - 1],
            fg,
            assoc,
        ) && date_text(sv[j - 1].normalized_date) == d && sv[j - 1].batch == bt {
            1int
        } else {
            0int
        })
    }
}

proof fn lemma_session_count_bound(
    sv: Seq<TestResultV>,
    fg: Seq<char>,
    assoc: Seq<char>,
    j: int,
    d: Seq<char>,
    bt: Seq<char>,
)
    requires
        j >= 0,
    ensures
        0 <= session_count(sv, fg, assoc, j, d, bt) <= j,
    decreases j,
{
    if j > 0 {
        lemma_session_count_bound(sv, fg, assoc, j - 1, d, bt);
    }
}

/// The view of one available session.
pub struct AvailableSessionV {
    pub date: Seq<char>,
    pub batch: Seq<char>,
    pub record_count: int,
}

/// One available test session of batch mode: a `(normalised date, batch)`
/// group of backing rows and its size.
#[derive(Debug)]
pub struct AvailableSession {
    pub date: String,
    pub batch: String,
    pub record_count: usize,
}

impl View for AvailableSession {
    type V = AvailableSessionV;

    open spec fn view(&self) -> AvailableSessionV {
        AvailableSessionV { date: self.date@, batch: self.batch@, record_count: self.record_count as int }
    }
}

/// The session list of batch-mode validation: one entry per
/// `(normalised date, batch)` pair among the backing rows, each with the
/// exact group size, pairs distinct, sorted by date descending.
pub open spec fn sessions_ok(
    ss: Seq<AvailableSession>,
    sv: Seq<TestResultV>,
    fg: Seq<char>,
    assoc: Seq<char>,
    j: int,
) -> bool {
    &&& forall|i: int, t: int|
        0 <= i < t < ss.len() ==> text::lex_le((#[trigger] ss[t])@.date, (#[trigger] ss[i])@.date)
    &&& forall|i: int, t: int|
        0 <= i < t < ss.len() ==> !((#[trigger] ss[i])@.date == (#[trigger] ss[t])@.date
            && ss[i]@.batch == ss[t]@.batch)
    &&& forall|i: int|
        0 <= i < ss.len() ==> (#[trigger] ss[i])@.record_count == session_count(
            sv,
            fg,
            assoc,
            j,
            ss[i]@.date,
            ss[i]@.batch,
        ) && ss[i]@.record_count >= 1
    &&& forall|t: int|
        0 <= t < j && t < sv.len() && batch_backing(#[trigger] sv[t], fg, assoc) ==> exists|i: int|
            0 <= i < ss.len() && (#[trigger] ss[i])@.date == date_text(sv[t].normalized_date)
                && ss[i]@.batch == sv[t].batch
}

fn batch_backing_exec(row: &TestResultRow, fg: &Vec<char>, needle: &Vec<char>) -> (r: bool)
    ensures
        r == ({
            &&& text::starts_with(row@.part, fg@)
            &&& row@.pass_fail == "Pass"@
            &&& text::contains_seq(crate::text::norm_spaces(row@.measurements), needle@)
            &&& row@.normalized_date is Some
        }),
{
    let part = text::str_to_chars(row.part.as_str());
    if !text::starts_with_chars(&part, fg) {
        return false;
    }
    let pf = text::str_to_chars(row.pass_fail.as_str());
    if !text::chars_eq_str(&pf, "Pass") {
        return false;
    }
    let mvv = text::str_to_chars(row.measurements.as_str());
    let meas = text::normalize_spaces_chars(&mvv);
    if !text::contains_chars(&meas, needle) {
        return false;
    }
    match &row.normalized_date {
        Some(_) => true,
        None => false,
    }
}

/// Works one backing row into the session list: bumps its group's count or
/// inserts a fresh group at its date-descending position.
#[verifier::rlimit(100)]
fn place_session(
    sessions: &mut Vec<AvailableSession>,
    dt: String,
    bt: String,
    Ghost(sv): Ghost<Seq<TestResultV>>,
    Ghost(j): Ghost<int>,
    Ghost(fg): Ghost<Seq<char>>,
    Ghost(assoc): Ghost<Seq<char>>,
)
    requires
        0 <= j < sv.len(),
        batch_backing(sv[j], fg, assoc),
        dt@ == date_text(sv[j].normalized_date),
        bt@ == sv[j].batch,
        sessions_ok(old(sessions)@, sv, fg, assoc, j),
        j < usize::MAX,
    ensures
        sessions_ok(final(sessions)@, sv, fg, assoc, j + 1),
{
    let ghost ss0 = sessions@;
    proof {
        assert forall|d: Seq<char>, b: Seq<char>| true implies #[trigger] session_count(
            sv,
            fg,
            assoc,
            j + 1,
            d,
            b,
        ) == session_count(sv, fg, assoc, j, d, b) + (if date_text(sv[j].normalized_date) == d
            && sv[j].batch == b {
            1int
        } else {
            0int
        }) by {}
    }
    let m = sessions.len();
    let mut k: usize = 0;
    let mut found = false;
    while k < m
        invariant
            0 <= k <= m == sessions@.len(),
            sessions@ == ss0,
            dt@ == date_text(sv[j].normalized_date),
            bt@ == sv[j].batch,
            !found ==> forall|i: int|
                0 <= i < k ==> !((#[trigger] sessions@[i])@.date == dt@ && sessions@[i]@.batch
                    == bt@),
            found ==> k < m && (sessions@[k as int])@.date == dt@ && sessions@[k as int]@.batch
                == bt@,
        ensures
            sessions@ == ss0,
            found ==> k < m && (sessions@[k as int])@.date == dt@ && sessions@[k as int]@.batch
                == bt@,
            !found ==> forall|i: int|
                0 <= i < m ==> !((#[trigger] sessions@[i])@.date == dt@ && sessions@[i]@.batch
                    == bt@),
        decreases m - k, (if found { 0int } else { 1int }),
    {
        if sessions[k].date == dt && sessions[k].batch == bt {
            found = true;
            break ;
        }
        k = k + 1;
    }
    if found {
        proof {
            lemma_session_count_bound(sv, fg, assoc, j, dt@, bt@);
            assert((ss0[k as int])@.record_count <= j);
        }
        let old_rec = sessions.remove(k);
        let bumped = AvailableSession {
            date: old_rec.date,
            batch: old_rec.batch,
            record_count: old_rec.record_count + 1,
        };
        sessions.insert(k, bumped);
        proof {
            assert(sessions@.len() == ss0.len());
            assert(forall|i: int|
                0 <= i < sessions@.len() && i != k ==> #[trigger] sessions@[i] == ss0[i]);
            assert((sessions@[k as int])@.date == (ss0[k as int])@.date);
            assert((sessions@[k as int])@.batch == (ss0[k as int])@.batch);
            assert((sessions@[k as int])@.record_count == (ss0[k as int])@.record_count + 1);
            assert forall|i: int, t: int| 0 <= i < t < sessions@.len() implies text::lex_le(
                (#[trigger] sessions@[t])@.date,
                (#[trigger] sessions@[i])@.date,
            ) by {
                assert(text::lex_le((ss0[t])@.date, (ss0[i])@.date));
                assert((sessions@[t])@.date == (ss0[t])@.date);
                assert((sessions@[i])@.date == (ss0[i])@.date);
            }
            assert forall|i: int, t: int| 0 <= i < t < sessions@.len() implies !((
            #[trigger] sessions@[i])@.date == (#[trigger] sessions@[t])@.date && sessions@[
                i
            ]@.batch == sessions@[t]@.batch) by {
                assert(!((ss0[i])@.date == (ss0[t])@.date && (ss0[i])@.batch == (
                ss0[t])@.batch));
                assert((sessions@[i])@.date == (ss0[i])@.date && (sessions@[i])@.batch == (
                ss0[i])@.batch);
                assert((sessions@[t])@.date == (ss0[t])@.date && (sessions@[t])@.batch == (
                ss0[t])@.batch);
            }
            assert forall|i: int| 0 <= i < sessions@.len() implies (
            #[trigger] sessions@[i])@.record_count == session_count(
                sv,
                fg,
                assoc,
                j + 1,
                sessions@[i]@.date,
                sessions@[i]@.batch,
            ) && sessions@[i]@.record_count >= 1 by {
                if i == k {
                } else {
                    assert(sessions@[i] == ss0[i]);
                    assert(!((ss0[i])@.date == dt@ && (ss0[i])@.batch == bt@));
                }
            }
            assert forall|t: int|
                0 <= t < j + 1 && t < sv.len() && batch_backing(#[trigger] sv[t], fg, assoc)
                implies exists|i: int|
                0 <= i < sessions@.len() && (#[trigger] sessions@[i])@.date == date_text(
                    sv[t].normalized_date,
                ) && sessions@[i]@.batch == sv[t].batch by {
                if t < j {
                    let i = choose|i: int|
                        0 <= i < ss0.len() && (#[trigger] ss0[i])@.date == date_text(
                            sv[t].normalized_date,
                        ) && ss0[i]@.batch == sv[t].batch;
                    assert((sessions@[i])@.date == (ss0[i])@.date && (sessions@[i])@.batch == (
                    ss0[i])@.batch);
                } else {
                    assert((sessions@[k as int])@.date == dt@ && sessions@[k as int]@.batch
                        == bt@);
                }
            }
        }
        return ;
    }
    // a new (date, batch) pair: insert at its date-descending position
    let dtc = text::str_to_chars(dt.as_str());
    let w = sessions.len();
    let mut pos: usize = 0;
    while pos < w
        invariant
            0 <= pos <= w == sessions@.len(),
            sessions@ == ss0,
            dtc@ == dt@,
            forall|i: int|
                0 <= i < pos ==> text::lex_le(dt@, (#[trigger] sessions@[i])@.date),
        ensures
            sessions@ == ss0,
            0 <= pos <= w,
            dtc@ == dt@,
            forall|i: int|
                0 <= i < pos ==> text::lex_le(dt@, (#[trigger] sessions@[i])@.date),
            pos < w ==> !text::lex_le(dt@, (sessions@[pos as int])@.date),
        decreases w - pos,
    {
        let ec = text::str_to_chars(sessions[pos].date.as_str());
        if !text::lex_le_chars(&dtc, &ec) {
            break ;
        }
        pos = pos + 1;
    }
    let fresh = AvailableSession { date: dt, batch: bt, record_count: 1 };
    sessions.insert(pos, fresh);
    proof {
        lemma_lex_le_total(dt@, Seq::empty());
        assert(sessions@.len() == ss0.len() + 1);
        assert((sessions@[pos as int])@.date == dt@ && (sessions@[pos as int])@.batch == bt@
            && (sessions@[pos as int])@.record_count == 1);
        assert(forall|i: int| 0 <= i < pos ==> #[trigger] sessions@[i] == ss0[i]);
        assert(forall|i: int|
            pos < i < sessions@.len() ==> #[trigger] sessions@[i] == ss0[i - 1]);
        assert forall|i: int, t: int| 0 <= i < t < sessions@.len() implies text::lex_le(
            (#[trigger] sessions@[t])@.date,
            (#[trigger] sessions@[i])@.date,
        ) by {
            let i0 = if i < pos {
                i
            } else {
                i - 1
            };
            let t0 = if t < pos {
                t
            } else {
                t - 1
            };
            if i == pos {
                assert(sessions@[t] == ss0[t0]);
                assert(t0 >= pos);
                if pos < ss0.len() {
                    assert(!text::lex_le(dt@, (ss0[pos as int])@.date));
                    lemma_lex_le_total((ss0[pos as int])@.date, dt@);
                    if t0 > pos {
                        assert(text::lex_le((ss0[t0])@.date, (ss0[pos as int])@.date));
                        lemma_lex_le_chain((ss0[t0])@.date, (ss0[pos as int])@.date, dt@);
                    }
                }
            } else if t == pos {
                assert(sessions@[i] == ss0[i0]);
                assert(i0 < pos);
                assert(text::lex_le(dt@, (ss0[i0])@.date));
            } else {
                assert(sessions@[i] == ss0[i0] && sessions@[t] == ss0[t0]);
            }
        }
        assert forall|i: int, t: int| 0 <= i < t < sessions@.len() implies !((
        #[trigger] sessions@[i])@.date == (#[trigger] sessions@[t])@.date && sessions@[i]@.batch
            == sessions@[t]@.batch) by {
            let i0 = if i < pos {
                i
            } else {
                i - 1
            };
            let t0 = if t < pos {
                t
            } else {
                t - 1
            };
            if i == pos {
                assert(sessions@[t] == ss0[t0]);
                assert(!((ss0[t0])@.date == dt@ && (ss0[t0])@.batch == bt@));
            } else if t == pos {
                assert(sessions@[i] == ss0[i0]);
                assert(!((ss0[i0])@.date == dt@ && (ss0[i0])@.batch == bt@));
            } else {
                assert(sessions@[i] == ss0[i0] && sessions@[t] == ss0[t0]);
            }
        }
        assert forall|i: int| 0 <= i < sessions@.len() implies (
        #[trigger] sessions@[i])@.record_count == session_count(
            sv,
            fg,
            assoc,
            j + 1,
            sessions@[i]@.date,
            sessions@[i]@.batch,
        ) && sessions@[i]@.record_count >= 1 by {
            if i == pos {
                assert forall|t: int|
                    0 <= t < j && t < sv.len() implies !(batch_backing(#[trigger] sv[t], fg, assoc)
                        && date_text(sv[t].normalized_date) == dt@ && sv[t].batch == bt@) by {
                    if batch_backing(sv[t], fg, assoc) && date_text(sv[t].normalized_date) == dt@
                        && sv[t].batch == bt@ {
                        let i0 = choose|i0: int|
                            0 <= i0 < ss0.len() && (#[trigger] ss0[i0])@.date == date_text(
                                sv[t].normalized_date,
                            ) && ss0[i0]@.batch == sv[t].batch;
                        assert(!((ss0[i0])@.date == dt@ && (ss0[i0])@.batch == bt@));
                    }
                }
                lemma_session_count_zero(sv, fg, assoc, j, dt@, bt@);
            } else {
                let i0 = if i < pos {
                    i
                } else {
                    i - 1
                };
                assert(sessions@[i] == ss0[i0]);
                assert(!((ss0[i0])@.date == dt@ && (ss0[i0])@.batch == bt@));
            }
        }
        assert forall|t: int|
            0 <= t < j + 1 && t < sv.len() && batch_backing(#[trigger] sv[t], fg, assoc) implies
            exists|i: int|
            0 <= i < sessions@.len() && (#[trigger] sessions@[i])@.date == date_text(
                sv[t].normalized_date,
            ) && sessions@[i]@.batch == sv[t].batch by {
            if t < j {
                let i0 = choose|i0: int|
                    0 <= i0 < ss0.len() && (#[trigger] ss0[i0])@.date == date_text(
                        sv[t].normalized_date,
                    ) && ss0[i0]@.batch == sv[t].batch;
                if i0 < pos {
                    assert((sessions@[i0])@.date == date_text(sv[t].normalized_date)
                        && sessions@[i0]@.batch == sv[t].batch);
                } else {
                    assert((sessions@[i0 + 1])@.date == date_text(sv[t].normalized_date)
                        && sessions@[i0 + 1]@.batch == sv[t].batch);
                }
            } else {
                assert((sessions@[pos as int])@.date == dt@ && sessions@[pos as int]@.batch
                    == bt@);
            }
        }
    }
}

/// If no row among the first `j` carries the pair, its count there is zero.
proof fn lemma_session_count_zero(
    sv: Seq<TestResultV>,
    fg: Seq<char>,
    assoc: Seq<char>,
    j: int,
    d: Seq<char>,
    bt: Seq<char>,
)
    requires
        0 <= j,
        forall|t: int|
            0 <= t < j && t < sv.len() ==> !(batch_backing(#[trigger] sv[t], fg, assoc)
                && date_text(sv[t].normalized_date) == d && sv[t].batch == bt),
    ensures
        session_count(sv, fg, assoc, j, d, bt) == 0,
    decreases j,
{
    if j > 0 {
        lemma_session_count_zero(sv, fg, assoc, j - 1, d, bt);
    }
}

/// Lexicographic order is total.
proof fn lemma_lex_le_total(a: Seq<char>, b: Seq<char>)
    ensures
        text::lex_le(a, b) || text::lex_le(b, a),
    decreases a.len(),
{
    if a.len() > 0 && b.len() > 0 && a[0] == b[0] {
        lemma_lex_le_total(a.drop_first(), b.drop_first());
    }
}

/// Lexicographic order is transitive.
proof fn lemma_lex_le_chain(a: Seq<char>, b: Seq<char>, c: Seq<char>)
    requires
        text::lex_le(a, b),
        text::lex_le(b, c),
    ensures
        text::lex_le(a, c),
    decreases a.len(),
{
    if a.len() > 0 && b.len() > 0 && c.len() > 0 && a[0] == b[0] && b[0] == c[0] {
        lemma_lex_le_chain(a.drop_first(), b.drop_first(), c.drop_first());
    }
}

/// The available sessions of batch-mode validation: the backing rows of one
/// test grouped by `(normalised date, batch)`, each pair once with its
/// exact group size, sorted by date descending, per [`sessions_ok`].
pub fn sessions_of(store: &VoltechStore, fg: &str, associated_test: &str) -> (r: Vec<AvailableSession>)
    requires
        forall|t: int|
            0 <= t < store@.results.len() ==> crate::collector::row_date_ok(
                #[trigger] store@.results[t],
            ),
    ensures
        sessions_ok(r@, store@.results, fg@, associated_test@, store@.results.len() as int),
{
    let ghost sv = store@.results;
    let fgc = text::str_to_chars(fg);
    let needle = crate::collector::key_needle(associated_test);
    let n = store.results.len();
    let mut sessions: Vec<AvailableSession> = Vec::new();
    let mut j: usize = 0;
    while j < n
        invariant
            0 <= j <= n == store.results@.len(),
            sv == store@.results,
            sv == crate::model::rows_view(store.results@),
            sv.len() == n,
            forall|t: int|
                0 <= t < sv.len() ==> crate::collector::row_date_ok(#[trigger] sv[t]),
            fgc@ == fg@,
            needle@ == seq!['"'] + crate::text::norm_spaces(associated_test@) + seq!['"'],
            sessions_ok(sessions@, sv, fg@, associated_test@, j as int),
        decreases n - j,
    {
        let row = &store.results[j];
        proof {
            assert(row@ == sv[j as int]);
        }
        let keeps = batch_backing_exec(row, &fgc, &needle);
        proof {
            assert(keeps == batch_backing(sv[j as int], fg@, associated_test@));
        }
        if keeps {
            let dt = crate::collector::row_date_text(row);
            let bt = row.batch.clone();
            place_session(
                &mut sessions,
                dt,
                bt,
                Ghost(sv),
                Ghost(j as int),
                Ghost(fg@),
                Ghost(associated_test@),
            );
        } else {
            proof {
                assert forall|d: Seq<char>, b: Seq<char>| true implies #[trigger] session_count(
                    sv,
                    fg@,
                    associated_test@,
                    j + 1,
                    d,
                    b,
                ) == session_count(sv, fg@, associated_test@, j as int, d, b) by {}
            }
        }
        j = j + 1;
    }
    sessions
}


// ===================== manual batch-mode sessions =====================

/// A manual row that belongs to batch-mode validation of a test: its full
/// test name equals the associated name. Every manual row carries a date.
pub open spec fn manual_batch_backing(r: crate::model::ManualResultV, assoc: Seq<char>) -> bool {
    r.test == assoc
}

/// How many of the first `j` manual rows back the test under one
/// `(normalised date, batch)` pair.
pub open spec fn manual_session_count(
    mv: Seq<crate::model::ManualResultV>,
    assoc: Seq<char>,
    j: int,
    d: Seq<char>,
    bt: Seq<char>,
) -> int
    decreases j,
{
    if j <= 0 {
        0
    } else {
        manual_session_count(mv, assoc, j - 1, d, bt) + (if j <= mv.len() && manual_batch_backing(
            mv[j - 1],
            assoc,
        ) && crate::dates::iso_seq(mv[j - 1].normalized_date) == d && mv[j - 1].batch == bt {
            1int
        } else {
            0int
        })
    }
}

proof fn lemma_manual_session_count_bound(
    mv: Seq<crate::model::ManualResultV>,
    assoc: Seq<char>,
    j: int,
    d: Seq<char>,
    bt: Seq<char>,
)
    requires
        j >= 0,
    ensures
        0 <= manual_session_count(mv, assoc, j, d, bt) <= j,
    decreases j,
{
    if j > 0 {
        lemma_manual_session_count_bound(mv, assoc, j - 1, d, bt);
    }
}

proof fn lemma_manual_session_count_zero(
    mv: Seq<crate::model::ManualResultV>,
    assoc: Seq<char>,
    j: int,
    d: Seq<char>,
    bt: Seq<char>,
)
    requires
        0 <= j,
        forall|t: int|
            0 <= t < j && t < mv.len() ==> !(manual_batch_backing(#[trigger] mv[t], assoc)
                && crate::dates::iso_seq(mv[t].normalized_date) == d && mv[t].batch == bt),
    ensures
        manual_session_count(mv, assoc, j, d, bt) == 0,
    decreases j,
{
    if j > 0 {
        lemma_manual_session_count_zero(mv, assoc, j - 1, d, bt);
    }
}

/// The manual twin of [`sessions_ok`].
pub open spec fn manual_sessions_ok(
    ss: Seq<AvailableSession>,
    mv: Seq<crate::model::ManualResultV>,
    assoc: Seq<char>,
    j: int,
) -> bool {
    &&& forall|i: int, t: int|
        0 <= i < t < ss.len() ==> text::lex_le((#[trigger] ss[t])@.date, (#[trigger] ss[i])@.date)
    &&& forall|i: int, t: int|
        0 <= i < t < ss.len() ==> !((#[trigger] ss[i])@.date == (#[trigger] ss[t])@.date
            && ss[i]@.batch == ss[t]@.batch)
    &&& forall|i: int|
        0 <= i < ss.len() ==> (#[trigger] ss[i])@.record_count == manual_session_count(
            mv,
            assoc,
            j,
            ss[i]@.date,
            ss[i]@.batch,
        ) && ss[i]@.record_count >= 1
    &&& forall|t: int|
        0 <= t < j && t < mv.len() && manual_batch_backing(#[trigger] mv[t], assoc) ==> exists|
            i: int,
        |
            0 <= i < ss.len() && (#[trigger] ss[i])@.date == crate::dates::iso_seq(
                mv[t].normalized_date,
            ) && ss[i]@.batch == mv[t].batch
}

/// Works one backing manual row into the session list, mirroring
/// [`place_session`].
#[verifier::rlimit(100)]
fn place_manual_session(
    sessions: &mut Vec<AvailableSession>,
    dt: String,
    bt: String,
    Ghost(mv): Ghost<Seq<crate::model::ManualResultV>>,
    Ghost(j): Ghost<int>,
    Ghost(assoc): Ghost<Seq<char>>,
)
    requires
        0 <= j < mv.len(),
        manual_batch_backing(mv[j], assoc),
        dt@ == crate::dates::iso_seq(mv[j].normalized_date),
        bt@ == mv[j].batch,
        manual_sessions_ok(old(sessions)@, mv, assoc, j),
        j < usize::MAX,
    ensures
        manual_sessions_ok(final(sessions)@, mv, assoc, j + 1),
{
    let ghost ss0 = sessions@;
    proof {
        assert forall|d: Seq<char>, b: Seq<char>| true implies #[trigger] manual_session_count(
            mv,
            assoc,
            j + 1,
            d,
            b,
        ) == manual_session_count(mv, assoc, j, d, b) + (if crate::dates::iso_seq(
            mv[j].normalized_date,
        ) == d && mv[j].batch == b {
            1int
        } else {
            0int
        }) by {}
    }
    let m = sessions.len();
    let mut k: usize = 0;
    let mut found = false;
    while k < m
        invariant
            0 <= k <= m == sessions@.len(),
            sessions@ == ss0,
            dt@ == crate::dates::iso_seq(mv[j].normalized_date),
            bt@ == mv[j].batch,
            !found ==> forall|i: int|
                0 <= i < k ==> !((#[trigger] sessions@[i])@.date == dt@ && sessions@[i]@.batch
                    == bt@),
            found ==> k < m && (sessions@[k as int])@.date == dt@ && sessions@[k as int]@.batch
                == bt@,
        ensures
            sessions@ == ss0,
            found ==> k < m && (sessions@[k as int])@.date == dt@ && sessions@[k as int]@.batch
                == bt@,
            !found ==> forall|i: int|
                0 <= i < m ==> !((#[trigger] sessions@[i])@.date == dt@ && sessions@[i]@.batch
                    == bt@),
        decreases m - k, (if found { 0int } else { 1int }),
    {
        if sessions[k].date == dt && sessions[k].batch == bt {
            found = true;
            break ;
        }
        k = k + 1;
    }
    if found {
        proof {
            lemma_manual_session_count_bound(mv, assoc, j, dt@, bt@);
            assert((ss0[k as int])@.record_count <= j);
        }
        let old_rec = sessions.remove(k);
        let bumped = AvailableSession {
            date: old_rec.date,
            batch: old_rec.batch,
            record_count: old_rec.record_count + 1,
        };
        sessions.insert(k, bumped);
        proof {
            assert(sessions@.len() == ss0.len());
            assert(forall|i: int|
                0 <= i < sessions@.len() && i != k ==> #[trigger] sessions@[i] == ss0[i]);
            assert((sessions@[k as int])@.date == (ss0[k as int])@.date);
            assert((sessions@[k as int])@.batch == (ss0[k as int])@.batch);
            assert((sessions@[k as int])@.record_count == (ss0[k as int])@.record_count + 1);
            assert forall|i: int, t: int| 0 <= i < t < sessions@.len() implies text::lex_le(
                (#[trigger] sessions@[t])@.date,
                (#[trigger] sessions@[i])@.date,
            ) by {
                assert(text::lex_le((ss0[t])@.date, (ss0[i])@.date));
                assert((sessions@[t])@.date == (ss0[t])@.date);
                assert((sessions@[i])@.date == (ss0[i])@.date);
            }
            assert forall|i: int, t: int| 0 <= i < t < sessions@.len() implies !((
            #[trigger] sessions@[i])@.date == (#[trigger] sessions@[t])@.date && sessions@[
                i
            ]@.batch == sessions@[t]@.batch) by {
                assert(!((ss0[i])@.date == (ss0[t])@.date && (ss0[i])@.batch == (
                ss0[t])@.batch));
                assert((sessions@[i])@.date == (ss0[i])@.date && (sessions@[i])@.batch == (
                ss0[i])@.batch);
                assert((sessions@[t])@.date == (ss0[t])@.date && (sessions@[t])@.batch == (
                ss0[t])@.batch);
            }
            assert forall|i: int| 0 <= i < sessions@.len() implies (
            #[trigger] sessions@[i])@.record_count == manual_session_count(
                mv,
                assoc,
                j + 1,
                sessions@[i]@.date,
                sessions@[i]@.batch,
            ) && sessions@[i]@.record_count >= 1 by {
                if i == k {
                } else {
                    assert(sessions@[i] == ss0[i]);
                    assert(!((ss0[i])@.date == dt@ && (ss0[i])@.batch == bt@));
                }
            }
            assert forall|t: int|
                0 <= t < j + 1 && t < mv.len() && manual_batch_backing(#[trigger] mv[t], assoc)
                implies exists|i: int|
                0 <= i < sessions@.len() && (#[trigger] sessions@[i])@.date
                    == crate::dates::iso_seq(mv[t].normalized_date) && sessions@[i]@.batch == mv[
                    t
                ].batch by {
                if t < j {
                    let i = choose|i: int|
                        0 <= i < ss0.len() && (#[trigger] ss0[i])@.date == crate::dates::iso_seq(
                            mv[t].normalized_date,
                        ) && ss0[i]@.batch == mv[t].batch;
                    assert((sessions@[i])@.date == (ss0[i])@.date && (sessions@[i])@.batch == (
                    ss0[i])@.batch);
                } else {
                    assert((sessions@[k as int])@.date == dt@ && sessions@[k as int]@.batch
                        == bt@);
                }
            }
        }
        return ;
    }
    // a new (date, batch) pair: insert at its date-descending position
    let dtc = text::str_to_chars(dt.as_str());
    let w = sessions.len();
    let mut pos: usize = 0;
    while pos < w
        invariant
            0 <= pos <= w == sessions@.len(),
            sessions@ == ss0,
            dtc@ == dt@,
            forall|i: int|
                0 <= i < pos ==> text::lex_le(dt@, (#[trigger] sessions@[i])@.date),
        ensures
            sessions@ == ss0,
            0 <= pos <= w,
            dtc@ == dt@,
            forall|i: int|
                0 <= i < pos ==> text::lex_le(dt@, (#[trigger] sessions@[i])@.date),
            pos < w ==> !text::lex_le(dt@, (sessions@[pos as int])@.date),
        decreases w - pos,
    {
        let ec = text::str_to_chars(sessions[pos].date.as_str());
        if !text::lex_le_chars(&dtc, &ec) {
            break ;
        }
        pos = pos + 1;
    }
    let fresh = AvailableSession { date: dt, batch: bt, record_count: 1 };
    sessions.insert(pos, fresh);
    proof {
        assert(sessions@.len() == ss0.len() + 1);
        assert((sessions@[pos as int])@.date == dt@ && (sessions@[pos as int])@.batch == bt@
            && (sessions@[pos as int])@.record_count == 1);
        assert(forall|i: int| 0 <= i < pos ==> #[trigger] sessions@[i] == ss0[i]);
        assert(forall|i: int|
            pos < i < sessions@.len() ==> #[trigger] sessions@[i] == ss0[i - 1]);
        assert forall|i: int, t: int| 0 <= i < t < sessions@.len() implies text::lex_le(
            (#[trigger] sessions@[t])@.date,
            (#[trigger] sessions@[i])@.date,
        ) by {
            let i0 = if i < pos {
                i
            } else {
                i - 1
            };
            let t0 = if t < pos {
                t
            } else {
                t - 1
            };
            if i == pos {
                assert(sessions@[t] == ss0[t0]);
                assert(t0 >= pos);
                if pos < ss0.len() {
                    assert(!text::lex_le(dt@, (ss0[pos as int])@.date));
                    lemma_lex_le_total((ss0[pos as int])@.date, dt@);
                    if t0 > pos {
                        assert(text::lex_le((ss0[t0])@.date, (ss0[pos as int])@.date));
                        lemma_lex_le_chain((ss0[t0])@.date, (ss0[pos as int])@.date, dt@);
                    }
                }
            } else if t == pos {
                assert(sessions@[i] == ss0[i0]);
                assert(i0 < pos);
                assert(text::lex_le(dt@, (ss0[i0])@.date));
            } else {
                assert(sessions@[i] == ss0[i0] && sessions@[t] == ss0[t0]);
            }
        }
        assert forall|i: int, t: int| 0 <= i < t < sessions@.len() implies !((
        #[trigger] sessions@[i])@.date == (#[trigger] sessions@[t])@.date && sessions@[i]@.batch
            == sessions@[t]@.batch) by {
            let i0 = if i < pos {
                i
            } else {
                i - 1
            };
            let t0 = if t < pos {
                t
            } else {
                t - 1
            };
            if i == pos {
                assert(sessions@[t] == ss0[t0]);
                assert(!((ss0[t0])@.date == dt@ && (ss0[t0])@.batch == bt@));
            } else if t == pos {
                assert(sessions@[i] == ss0[i0]);
                assert(!((ss0[i0])@.date == dt@ && (ss0[i0])@.batch == bt@));
            } else {
                assert(sessions@[i] == ss0[i0] && sessions@[t] == ss0[t0]);
            }
        }
        assert forall|i: int| 0 <= i < sessions@.len() implies (
        #[trigger] sessions@[i])@.record_count == manual_session_count(
            mv,
            assoc,
            j + 1,
            sessions@[i]@.date,
            sessions@[i]@.batch,
        ) && sessions@[i]@.record_count >= 1 by {
            if i == pos {
                assert forall|t: int|
                    0 <= t < j && t < mv.len() implies !(manual_batch_backing(
                        #[trigger] mv[t],
                        assoc,
                    ) && crate::dates::iso_seq(mv[t].normalized_date) == dt@ && mv[t].batch
                        == bt@) by {
                    if manual_batch_backing(mv[t], assoc) && crate::dates::iso_seq(
                        mv[t].normalized_date,
                    ) == dt@ && mv[t].batch == bt@ {
                        let i0 = choose|i0: int|
                            0 <= i0 < ss0.len() && (#[trigger] ss0[i0])@.date
                                == crate::dates::iso_seq(mv[t].normalized_date) && ss0[i0]@.batch
                                == mv[t].batch;
                        assert(!((ss0[i0])@.date == dt@ && (ss0[i0])@.batch == bt@));
                    }
                }
                lemma_manual_session_count_zero(mv, assoc, j, dt@, bt@);
            } else {
                let i0 = if i < pos {
                    i
                } else {
                    i - 1
                };
                assert(sessions@[i] == ss0[i0]);
                assert(!((ss0[i0])@.date == dt@ && (ss0[i0])@.batch == bt@));
            }
        }
        assert forall|t: int|
            0 <= t < j + 1 && t < mv.len() && manual_batch_backing(#[trigger] mv[t], assoc)
            implies exists|i: int|
            0 <= i < sessions@.len() && (#[trigger] sessions@[i])@.date == crate::dates::iso_seq(
                mv[t].normalized_date,
            ) && sessions@[i]@.batch == mv[t].batch by {
            if t < j {
                let i0 = choose|i0: int|
                    0 <= i0 < ss0.len() && (#[trigger] ss0[i0])@.date == crate::dates::iso_seq(
                        mv[t].normalized_date,
                    ) && ss0[i0]@.batch == mv[t].batch;
                if i0 < pos {
                    assert((sessions@[i0])@.date == crate::dates::iso_seq(mv[t].normalized_date)
                        && sessions@[i0]@.batch == mv[t].batch);
                } else {
                    assert((sessions@[i0 + 1])@.date == crate::dates::iso_seq(
                        mv[t].normalized_date,
                    ) && sessions@[i0 + 1]@.batch == mv[t].batch);
                }
            } else {
                assert((sessions@[pos as int])@.date == dt@ && sessions@[pos as int]@.batch
                    == bt@);
            }
        }
    }
}

/// The available sessions of manual batch-mode validation, per
/// [`manual_sessions_ok`].
pub fn manual_sessions_of(rows: &Vec<ManualResultRow>, associated_test: &str) -> (r: Vec<
    AvailableSession,
>)
    requires
        forall|t: int|
            0 <= t < crate::model::manual_rows_view(rows@).len()
                ==> crate::collector::manual_date_ok(
                #[trigger] crate::model::manual_rows_view(rows@)[t],
            ),
    ensures
        manual_sessions_ok(
            r@,
            crate::model::manual_rows_view(rows@),
            associated_test@,
            crate::model::manual_rows_view(rows@).len() as int,
        ),
{
    let ghost mv = crate::model::manual_rows_view(rows@);
    let n = rows.len();
    let mut sessions: Vec<AvailableSession> = Vec::new();
    let mut j: usize = 0;
    while j < n
        invariant
            0 <= j <= n == rows@.len(),
            mv == crate::model::manual_rows_view(rows@),
            mv.len() == n,
            forall|t: int|
                0 <= t < mv.len() ==> crate::collector::manual_date_ok(#[trigger] mv[t]),
            manual_sessions_ok(sessions@, mv, associated_test@, j as int),
        decreases n - j,
    {
        let row = &rows[j];
        proof {
            assert(row@ == mv[j as int]);
        }
        let tn = text::str_to_chars(row.test.as_str());
        if text::chars_eq_str(&tn, associated_test) {
            let dt = text::chars_to_string(&crate::dates::format_iso(&row.normalized_date));
            let bt = row.batch.clone();
            place_manual_session(
                &mut sessions,
                dt,
                bt,
                Ghost(mv),
                Ghost(j as int),
                Ghost(associated_test@),
            );
        } else {
            proof {
                assert forall|d: Seq<char>, b: Seq<char>| true implies
                    #[trigger] manual_session_count(mv, associated_test@, j + 1, d, b)
                    == manual_session_count(mv, associated_test@, j as int, d, b) by {}
            }
        }
        j = j + 1;
    }
    sessions
}


// ===================== whole-report validation =====================

/// The index of the first session for a batch, or a negative value.
pub open spec fn find_session(ss: Seq<AvailableSession>, bt: Seq<char>) -> int
    decreases ss.len(),
{
    if ss.len() == 0 {
        -1
    } else if ss[0]@.batch == bt {
        0
    } else {
        let r = find_session(ss.drop_first(), bt);
        if r < 0 {
            -1
        } else {
            r + 1
        }
    }
}

proof fn lemma_find_session(ss: Seq<AvailableSession>, bt: Seq<char>)
    ensures
        find_session(ss, bt) < 0 ==> forall|i: int|
            0 <= i < ss.len() ==> (#[trigger] ss[i])@.batch != bt,
        find_session(ss, bt) >= 0 ==> 0 <= find_session(ss, bt) < ss.len() && ss[find_session(
            ss,
            bt,
        )]@.batch == bt && forall|i: int|
            0 <= i < find_session(ss, bt) ==> (#[trigger] ss[i])@.batch != bt,
    decreases ss.len(),
{
    if ss.len() > 0 && ss[0]@.batch != bt {
        let t = ss.drop_first();
        lemma_find_session(t, bt);
        let r = find_session(t, bt);
        if r < 0 {
            assert forall|i: int| 0 <= i < ss.len() implies (#[trigger] ss[i])@.batch != bt by {
                if i >= 1 {
                    assert(t[i - 1]@.batch != bt);
                }
            }
        } else {
            assert forall|i: int| 0 <= i < r + 1 implies (#[trigger] ss[i])@.batch != bt by {
                if i >= 1 {
                    assert(t[i - 1]@.batch != bt);
                }
            }
        }
    }
}

proof fn lemma_find_session_at(ss: Seq<AvailableSession>, bt: Seq<char>, i: int)
    requires
        0 <= i < ss.len(),
        ss[i]@.batch == bt,
        forall|t: int| 0 <= t < i ==> (#[trigger] ss[t])@.batch != bt,
    ensures
        find_session(ss, bt) == i,
    decreases i,
{
    if i > 0 {
        lemma_find_session_at(ss.drop_first(), bt, i - 1);
    }
}

/// The sum of a session list's group sizes.
pub open spec fn sessions_total(ss: Seq<AvailableSession>) -> int
    decreases ss.len(),
{
    if ss.len() == 0 {
        0
    } else {
        ss[0]@.record_count + sessions_total(ss.drop_first())
    }
}

fn find_session_exec(ss: &Vec<AvailableSession>, bt: &str) -> (r: Option<usize>)
    ensures
        (match r {
            Some(i) => i < ss@.len() && find_session(ss@, bt@) == i,
            None => find_session(ss@, bt@) < 0,
        }),
{
    let n = ss.len();
    let mut i: usize = 0;
    while i < n
        invariant
            0 <= i <= n == ss@.len(),
            forall|t: int| 0 <= t < i ==> (#[trigger] ss@[t])@.batch != bt@,
        decreases n - i,
    {
        let bv = text::str_to_chars(ss[i].batch.as_str());
        if text::chars_eq_str(&bv, bt) {
            proof {
                assert(ss@[i as int]@.batch == bt@);
                lemma_find_session_at(ss@, bt@, i as int);
            }
            return Some(i);
        }
        i = i + 1;
    }
    proof {
        lemma_find_session(ss@, bt@);
        if find_session(ss@, bt@) >= 0 {
            assert(ss@[find_session(ss@, bt@)]@.batch == bt@);
        }
    }
    None
}

fn sessions_total_exec(ss: &Vec<AvailableSession>) -> (r: usize)
    ensures
        sessions_total(ss@) <= usize::MAX ==> r as int == sessions_total(ss@),
        sessions_total(ss@) > usize::MAX ==> r == usize::MAX,
{
    let n = ss.len();
    let mut total: usize = 0;
    let mut saturated = false;
    let mut i: usize = 0;
    proof {
        assert(ss@.skip(0) =~= ss@);
        lemma_sessions_total_nonneg(ss@);
    }
    while i < n
        invariant
            0 <= i <= n == ss@.len(),
            !saturated ==> sessions_total(ss@) == total + sessions_total(ss@.skip(i as int)),
            saturated ==> total == usize::MAX && sessions_total(ss@) > usize::MAX,
        decreases n - i,
    {
        proof {
            assert(ss@.skip(i as int)[0] == ss@[i as int]);
            assert(ss@.skip(i as int).drop_first() =~= ss@.skip(i + 1 as int));
            lemma_sessions_total_nonneg(ss@.skip(i + 1 as int));
        }
        if !saturated {
            let c = ss[i].record_count;
            match total.checked_add(c) {
                Some(t2) => {
                    total = t2;
                },
                None => {
                    proof {
                        lemma_sessions_total_nonneg(ss@.skip(i + 1 as int));
                    }
                    total = usize::MAX;
                    saturated = true;
                },
            }
        }
        i = i + 1;
    }
    proof {
        assert(ss@.skip(n as int).len() == 0);
    }
    total
}

/// A session total is never negative.
pub open spec fn sessions_total_nonneg(ss: Seq<AvailableSession>) -> int {
    sessions_total(ss)
}

proof fn lemma_sessions_total_nonneg(ss: Seq<AvailableSession>)
    ensures
        sessions_total(ss) >= 0,
    decreases ss.len(),
{
    if ss.len() > 0 {
        lemma_sessions_total_nonneg(ss.drop_first());
    }
}

/// The associated key of a test, or empty when it has none.
pub open spec fn assoc_of(t: crate::collector::TestSpec) -> Seq<char> {
    match t.associated_test {
        Some(a) => a@,
        None => Seq::empty(),
    }
}

/// The status of one test within a validation.
#[derive(Debug)]
pub struct TestStatus {
    pub test_id: i32,
    pub test_name: String,
    pub source_type: String,
    pub associated_test: Option<String>,
    pub has_data: bool,
    pub record_count: usize,
    pub available_sessions: Vec<AvailableSession>,
    pub search_method: String,
}

/// The outcome of validating a whole report.
#[derive(Debug)]
pub struct ValidationResult {
    pub is_complete: bool,
    pub fg_serialized: bool,
    pub test_statuses: Vec<TestStatus>,
    pub missing_test_count: usize,
}

/// What one test's status must say, given the two stores and the mode:
/// identity fields copied; the `serial_range` method counting matching rows
/// in both senses; the `batch` method grouped into sessions, with the batch
/// filter reading the first matching session; a source of neither kind
/// always has data.
pub open spec fn status_matches(
    st: TestStatus,
    t: crate::collector::TestSpec,
    sv: Seq<TestResultV>,
    mv: Seq<crate::model::ManualResultV>,
    fg: Seq<char>,
    serialized: bool,
    batch: Option<Seq<char>>,
    range: Option<(int, int)>,
) -> bool {
    &&& st.test_id == t.test_id
    &&& st.test_name@ == t.test_name@
    &&& st.source_type@ == t.source_type@
    &&& (match (st.associated_test, t.associated_test) {
        (Some(a), Some(b)) => a@ == b@,
        (None, None) => true,
        _ => false,
    })
    &&& st.search_method@ == (if serialized {
        "serial_range"@
    } else {
        "batch"@
    })
    &&& (if t.source_type@ == "voltech"@ {
        if serialized {
            match range {
                Some((a, b)) => {
                    let cnt = sv.filter(
                        |r: TestResultV| backs_voltech(r, fg, assoc_of(t), a, b),
                    ).len();
                    st.record_count == cnt && st.has_data == (cnt > 0)
                        && st.available_sessions@.len() == 0
                },
                None => !st.has_data && st.record_count == 0 && st.available_sessions@.len() == 0,
            }
        } else {
            &&& sessions_ok(st.available_sessions@, sv, fg, assoc_of(t), sv.len() as int)
            &&& (match batch {
                Some(bt) => st.has_data == (find_session(st.available_sessions@, bt) >= 0)
                    && st.record_count as int == (if find_session(st.available_sessions@, bt)
                    >= 0 {
                    st.available_sessions@[find_session(st.available_sessions@, bt)]@.record_count
                } else {
                    0int
                }),
                None => st.has_data == (st.available_sessions@.len() > 0) && (sessions_total(
                    st.available_sessions@,
                ) <= usize::MAX ==> st.record_count as int == sessions_total(
                    st.available_sessions@,
                )),
            })
        }
    } else if t.source_type@ == "manual"@ {
        if serialized {
            match range {
                Some((a, b)) => {
                    let cnt = mv.filter(backs_manual_pred(assoc_of(t), a, b)).len();
                    st.record_count == cnt && st.has_data == (cnt > 0)
                        && st.available_sessions@.len() == 0
                },
                None => !st.has_data && st.record_count == 0 && st.available_sessions@.len() == 0,
            }
        } else {
            &&& manual_sessions_ok(st.available_sessions@, mv, assoc_of(t), mv.len() as int)
            &&& (match batch {
                Some(bt) => st.has_data == (find_session(st.available_sessions@, bt) >= 0)
                    && st.record_count as int == (if find_session(st.available_sessions@, bt)
                    >= 0 {
                    st.available_sessions@[find_session(st.available_sessions@, bt)]@.record_count
                } else {
                    0int
                }),
                None => st.has_data == (st.available_sessions@.len() > 0) && (sessions_total(
                    st.available_sessions@,
                ) <= usize::MAX ==> st.record_count as int == sessions_total(
                    st.available_sessions@,
                )),
            })
        }
    } else {
        st.has_data && st.record_count == 1 && st.available_sessions@.len() == 0
    })
}

/// A status that counts as missing.
pub open spec fn lacks_data(st: TestStatus) -> bool {
    !st.has_data
}

/// Validates a report's data availability: one status per test in order,
/// per [`status_matches`]; the missing count is the number of statuses
/// without data; the report is complete exactly when it has tests and none
/// is missing. `fg` is the part prefix the Voltech rows are matched on —
/// the finished good followed by the revision for serialized matching.
#[verifier::rlimit(100)]
pub fn validate_report(
    tests: &Vec<crate::collector::TestSpec>,
    store: &VoltechStore,
    manual_rows: &Vec<ManualResultRow>,
    fg: &str,
    serialized: bool,
    batch: Option<&String>,
    range: Option<(i64, i64)>,
) -> (r: ValidationResult)
    requires
        forall|t: int|
            0 <= t < store@.results.len() ==> crate::collector::row_date_ok(
                #[trigger] store@.results[t],
            ),
        forall|t: int|
            0 <= t < crate::model::manual_rows_view(manual_rows@).len()
                ==> crate::collector::manual_date_ok(
                #[trigger] crate::model::manual_rows_view(manual_rows@)[t],
            ),
    ensures
        ({
            let sv = store@.results;
            let mv = crate::model::manual_rows_view(manual_rows@);
            let batchv: Option<Seq<char>> = match batch {
                Some(b) => Some(b@),
                None => None,
            };
            let rangev: Option<(int, int)> = match range {
                Some((a, b)) => Some((a as int, b as int)),
                None => None,
            };
            &&& r.test_statuses@.len() == tests@.len()
            &&& forall|i: int|
                0 <= i < tests@.len() ==> status_matches(
                    #[trigger] r.test_statuses@[i],
                    tests@[i],
                    sv,
                    mv,
                    fg@,
                    serialized,
                    batchv,
                    rangev,
                )
            &&& r.missing_test_count == r.test_statuses@.filter(
                |st: TestStatus| lacks_data(st),
            ).len()
            &&& r.is_complete == (tests@.len() > 0 && r.missing_test_count == 0)
            &&& r.fg_serialized == serialized
        }),
{
    let ghost sv = store@.results;
    let ghost mv = crate::model::manual_rows_view(manual_rows@);
    let ghost batchv: Option<Seq<char>> = match batch {
        Some(b) => Some(b@),
        None => None,
    };
    let ghost rangev: Option<(int, int)> = match range {
        Some((a, b)) => Some((a as int, b as int)),
        None => None,
    };
    let method = if serialized {
        String::from_str("serial_range")
    } else {
        String::from_str("batch")
    };
    let n = tests.len();
    let mut statuses: Vec<TestStatus> = Vec::new();
    let mut missing: usize = 0;
    let mut i: usize = 0;
    proof {
        crate::model::lemma_filter_take_zero(statuses@, |st: TestStatus| lacks_data(st));
    }
    while i < n
        invariant
            0 <= i <= n == tests@.len(),
            sv == store@.results,
            mv == crate::model::manual_rows_view(manual_rows@),
            forall|t: int|
                0 <= t < sv.len() ==> crate::collector::row_date_ok(#[trigger] sv[t]),
            forall|t: int|
                0 <= t < mv.len() ==> crate::collector::manual_date_ok(#[trigger] mv[t]),
            batchv == (match batch {
                Some(b) => Some(b@),
                None => None::<Seq<char>>,
            }),
            rangev == (match range {
                Some((a, b)) => Some((a as int, b as int)),
                None => None::<(int, int)>,
            }),
            method@ == (if serialized {
                "serial_range"@
            } else {
                "batch"@
            }),
            statuses@.len() == i,
            forall|t: int|
                0 <= t < i ==> status_matches(
                    #[trigger] statuses@[t],
                    tests@[t],
                    sv,
                    mv,
                    fg@,
                    serialized,
                    batchv,
                    rangev,
                ),
            missing == statuses@.filter(|st: TestStatus| lacks_data(st)).len(),
            missing <= i,
        decreases n - i,
    {
        let t = &tests[i];
        let assoc: String = match &t.associated_test {
            Some(a) => a.clone(),
            None => String::new(),
        };
        proof {
            assert(assoc@ == assoc_of(tests@[i as int]));
        }
        let sty = text::str_to_chars(t.source_type.as_str());
        let mut has_data = false;
        let mut record_count: usize = 0;
        let mut sessions: Vec<AvailableSession> = Vec::new();
        if text::chars_eq_str(&sty, "voltech") {
            if serialized {
                match range {
                    Some((a, b)) => {
                        let (h, c) = validate_voltech_serialized(
                            store,
                            fg,
                            assoc.as_str(),
                            a,
                            b,
                        );
                        has_data = h;
                        record_count = c;
                    },
                    None => {},
                }
            } else {
                sessions = sessions_of(store, fg, assoc.as_str());
                match batch {
                    Some(bt) => {
                        match find_session_exec(&sessions, bt.as_str()) {
                            Some(k) => {
                                has_data = true;
                                record_count = sessions[k].record_count;
                            },
                            None => {},
                        }
                    },
                    None => {
                        has_data = sessions.len() > 0;
                        record_count = sessions_total_exec(&sessions);
                    },
                }
            }
        } else if text::chars_eq_str(&sty, "manual") {
            if serialized {
                match range {
                    Some((a, b)) => {
                        let (h, c) = validate_manual_serialized(
                            manual_rows,
                            assoc.as_str(),
                            a,
                            b,
                        );
                        has_data = h;
                        record_count = c;
                    },
                    None => {},
                }
            } else {
                sessions = manual_sessions_of(manual_rows, assoc.as_str());
                match batch {
                    Some(bt) => {
                        match find_session_exec(&sessions, bt.as_str()) {
                            Some(k) => {
                                has_data = true;
                                record_count = sessions[k].record_count;
                            },
                            None => {},
                        }
                    },
                    None => {
                        has_data = sessions.len() > 0;
                        record_count = sessions_total_exec(&sessions);
                    },
                }
            }
        } else {
            has_data = true;
            record_count = 1;
        }
        let st = TestStatus {
            test_id: t.test_id,
            test_name: t.test_name.clone(),
            source_type: t.source_type.clone(),
            associated_test: crate::model::duplicate_opt_string(&t.associated_test),
            has_data,
            record_count,
            available_sessions: sessions,
            search_method: method.clone(),
        };
        let ghost st0 = statuses@;
        proof {
            assert(status_matches(
                st,
                tests@[i as int],
                sv,
                mv,
                fg@,
                serialized,
                batchv,
                rangev,
            ));
        }
        if !st.has_data {
            missing = missing + 1;
        }
        statuses.push(st);
        proof {
            assert(statuses@.drop_last() =~= st0);
            reveal(Seq::filter);
            crate::model::lemma_filter_take_step(
                statuses@,
                |s2: TestStatus| lacks_data(s2),
                statuses@.len() - 1,
            );
            assert(statuses@.take(statuses@.len() as int) =~= statuses@);
            assert(statuses@.take(statuses@.len() - 1) =~= st0);
        }
        i = i + 1;
    }
    let is_complete = n > 0 && missing == 0;
    ValidationResult { is_complete, fg_serialized: serialized, test_statuses: statuses, missing_test_count: missing }
}

} // verus!
