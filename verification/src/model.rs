//! The row models of the two measurement stores: one Voltech test run and
//! one manual test entry, with their specification-level views.

use vstd::prelude::*;
use crate::dates::Date;

verus! {

/// The view of one Voltech test-result row.
pub struct TestResultV {
    pub part: Seq<char>,
    pub operator: Seq<char>,
    pub batch: Seq<char>,
    pub date: Seq<char>,
    pub serial_num: Seq<char>,
    pub result_num: i32,
    pub pass_fail: Seq<char>,
    pub time: Option<Seq<char>>,
    pub retries: Option<Seq<char>>,
    pub file_path: Seq<char>,
    pub measurements: Seq<char>,
    pub normalized_date: Option<Date>,
    pub created_at: i64,
}

/// One Voltech test run: a logical result decoded from an `.atr` file.
/// `measurements` holds the JSON object text of the measurement map;
/// `date` the raw date text as found in the file.
#[derive(Debug)]
pub struct TestResultRow {
    pub part: String,
    pub operator: String,
    pub batch: String,
    pub date: String,
    pub serial_num: String,
    pub result_num: i32,
    pub pass_fail: String,
    pub time: Option<String>,
    pub retries: Option<String>,
    pub file_path: String,
    pub measurements: String,
    pub normalized_date: Option<Date>,
    pub created_at: i64,
}

impl View for TestResultRow {
    type V = TestResultV;

    open spec fn view(&self) -> TestResultV {
        TestResultV {
            part: self.part@,
            operator: self.operator@,
            batch: self.batch@,
            date: self.date@,
            serial_num: self.serial_num@,
            result_num: self.result_num,
            pass_fail: self.pass_fail@,
            time: match &self.time {
                Some(t) => Some(t@),
                None => None,
            },
            retries: match &self.retries {
                Some(t) => Some(t@),
                None => None,
            },
            file_path: self.file_path@,
            measurements: self.measurements@,
            normalized_date: self.normalized_date,
            created_at: self.created_at,
        }
    }
}

/// Copies an optional string with the same view.
pub fn duplicate_opt_string(s: &Option<String>) -> (r: Option<String>)
    ensures
        (match s {
            Some(t) => r is Some && r->0@ == t@,
            None => r is None,
        }),
{
    match s {
        Some(t) => Some(t.clone()),
        None => None,
    }
}

impl TestResultRow {
    /// A copy with the same view.
    pub fn duplicate(&self) -> (r: TestResultRow)
        ensures
            r@ == self@,
    {
        let r = TestResultRow {
            part: self.part.clone(),
            operator: self.operator.clone(),
            batch: self.batch.clone(),
            date: self.date.clone(),
            serial_num: self.serial_num.clone(),
            result_num: self.result_num,
            pass_fail: self.pass_fail.clone(),
            time: duplicate_opt_string(&self.time),
            retries: duplicate_opt_string(&self.retries),
            file_path: self.file_path.clone(),
            measurements: self.measurements.clone(),
            normalized_date: self.normalized_date,
            created_at: self.created_at,
        };
        r
    }
}

/// The view of one manual test-result row.
pub struct ManualResultV {
    pub result: i32,
    pub test: Seq<char>,
    pub fg: Seq<char>,
    pub rev: Seq<char>,
    pub batch: Seq<char>,
    pub operator: Seq<char>,
    pub date: Seq<char>,
    pub time: Seq<char>,
    pub sn: Seq<char>,
    pub passfail: Seq<char>,
    pub minimum: Seq<char>,
    pub reading: Seq<char>,
    pub maximum: Seq<char>,
    pub uom: Seq<char>,
    pub file_path: Seq<char>,
    pub normalized_date: Date,
    pub created_at: i64,
}

/// One manual test entry, one CSV data row. The numeric columns `minimum`,
/// `reading` and `maximum` keep their decimal text, validated to be
/// number-shaped when parsed.
#[derive(Debug)]
pub struct ManualResultRow {
    pub result: i32,
    pub test: String,
    pub fg: String,
    pub rev: String,
    pub batch: String,
    pub operator: String,
    pub date: String,
    pub time: String,
    pub sn: String,
    pub passfail: String,
    pub minimum: String,
    pub reading: String,
    pub maximum: String,
    pub uom: String,
    pub file_path: String,
    pub normalized_date: Date,
    pub created_at: i64,
}

impl View for ManualResultRow {
    type V = ManualResultV;

    open spec fn view(&self) -> ManualResultV {
        ManualResultV {
            result: self.result,
            test: self.test@,
            fg: self.fg@,
            rev: self.rev@,
            batch: self.batch@,
            operator: self.operator@,
            date: self.date@,
            time: self.time@,
            sn: self.sn@,
            passfail: self.passfail@,
            minimum: self.minimum@,
            reading: self.reading@,
            maximum: self.maximum@,
            uom: self.uom@,
            file_path: self.file_path@,
            normalized_date: self.normalized_date,
            created_at: self.created_at,
        }
    }
}

impl ManualResultRow {
    /// A copy with the same view.
    pub fn duplicate(&self) -> (r: ManualResultRow)
        ensures
            r@ == self@,
    {
        ManualResultRow {
            result: self.result,
            test: self.test.clone(),
            fg: self.fg.clone(),
            rev: self.rev.clone(),
            batch: self.batch.clone(),
            operator: self.operator.clone(),
            date: self.date.clone(),
            time: self.time.clone(),
            sn: self.sn.clone(),
            passfail: self.passfail.clone(),
            minimum: self.minimum.clone(),
            reading: self.reading.clone(),
            maximum: self.maximum.clone(),
            uom: self.uom.clone(),
            file_path: self.file_path.clone(),
            normalized_date: self.normalized_date,
            created_at: self.created_at,
        }
    }
}

/// The views of a sequence of Voltech rows.
pub open spec fn rows_view(rs: Seq<TestResultRow>) -> Seq<TestResultV> {
    rs.map(|i: int, r: TestResultRow| r@)
}

/// The views of a sequence of manual rows.
pub open spec fn manual_rows_view(rs: Seq<ManualResultRow>) -> Seq<ManualResultV> {
    rs.map(|i: int, r: ManualResultRow| r@)
}

/// One step of filtering a prefix: extending it by one element appends that
/// element exactly when it passes.
pub proof fn lemma_filter_take_step<A>(s: Seq<A>, pred: spec_fn(A) -> bool, i: int)
    requires
        0 <= i < s.len(),
    ensures
        s.take(i + 1).filter(pred) == (if pred(s[i]) {
            s.take(i).filter(pred).push(s[i])
        } else {
            s.take(i).filter(pred)
        }),
        s.take(i).filter(pred).len() <= i,
{
    reveal(Seq::filter);
    assert(s.take(i + 1).drop_last() =~= s.take(i));
    assert(s.take(i + 1).last() == s[i]);
    s.take(i).lemma_filter_len(pred);
}

/// Filtering an empty prefix yields nothing.
pub proof fn lemma_filter_take_zero<A>(s: Seq<A>, pred: spec_fn(A) -> bool)
    ensures
        s.take(0).filter(pred) == Seq::<A>::empty(),
{
    reveal(Seq::filter);
    assert(s.take(0) =~= Seq::<A>::empty());
}

} // verus!
