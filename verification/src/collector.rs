//! The report collector: resolves one test of a report into its result
//! list, drawn from the Voltech or the manual store, and assembles the
//! per-test aggregates of a report.

use vstd::prelude::*;
use crate::text;
use crate::text::norm_spaces;
use crate::dates::iso_seq;
use crate::measurements::{MeasVal, MeasValue, parse_json, parse_measurements_json, entries_view};
use crate::model::{TestResultV, TestResultRow, ManualResultV, ManualResultRow, rows_view,
    manual_rows_view};
use crate::queries::{query_inv, serial_in_range};
use crate::store::VoltechStore;

verus! {

/// The per-test inputs a report's test definition supplies. The numeric
/// limits stay decimal text: the renderer writes them out, nothing computes
/// with them.
#[derive(Debug)]
pub struct TestSpec {
    pub test_id: i32,
    pub test_name: String,
    pub source_type: String,
    pub associated_test: Option<String>,
    pub spec_min: Option<String>,
    pub spec_max: Option<String>,
    pub spec_unit: String,
    pub voltage: Option<String>,
    pub frequency: Option<String>,
    pub primary_pins: Option<String>,
    pub description: Option<String>,
}

/// The view of one collected result.
pub struct SingleV {
    pub serial_number: Option<Seq<char>>,
    pub batch: Seq<char>,
    pub date: Seq<char>,
    pub result: Seq<char>,
    pub measurements: Seq<(Seq<char>, MeasVal)>,
}

/// One collected result: the row's serial, batch, normalised date, verdict
/// text, and its measurement map.
#[derive(Debug)]
pub struct SingleResult {
    pub serial_number: Option<String>,
    pub batch: String,
    pub date: String,
    pub result: String,
    pub measurements: Vec<(String, MeasValue)>,
}

impl View for SingleResult {
    type V = SingleV;

    open spec fn view(&self) -> SingleV {
        SingleV {
            serial_number: match &self.serial_number {
                Some(s) => Some(s@),
                None => None,
            },
            batch: self.batch@,
            date: self.date@,
            result: self.result@,
            measurements: entries_view(self.measurements@),
        }
    }
}

/// The views of collected results.
pub open spec fn singles_view(rs: Seq<SingleResult>) -> Seq<SingleV> {
    rs.map(|i: int, r: SingleResult| r@)
}

/// The ISO text of a row's normalised date, or empty when it has none.
pub open spec fn date_text(nd: Option<crate::dates::Date>) -> Seq<char> {
    match nd {
        Some(d) => iso_seq(d),
        None => Seq::empty(),
    }
}

/// The selection a collect call works under: by serial range, or by batch
/// with an optional date restriction.
pub struct SelectionV {
    pub serialized: bool,
    pub a: int,
    pub b: int,
    pub batch: Option<Seq<char>>,
    pub dates: Option<Seq<Seq<char>>>,
}

/// A Voltech row's measurements mention the associated key: a quoted
/// substring match over the whitespace-normalised JSON text and key.
pub open spec fn mentions_key(r: TestResultV, assoc: Seq<char>) -> bool {
    text::contains_seq(norm_spaces(r.measurements), seq!['"'] + norm_spaces(assoc) + seq!['"'])
}

/// A Voltech row the collector keeps under a selection: the part starts
/// with the finished good and revision, the run passed, the measurements
/// mention the key, and the mode's filters hold — the serial range in
/// either sense when serialized, else the batch (when given) and the
/// selected dates (when given).
pub open spec fn collects_voltech(
    r: TestResultV,
    pp: Seq<char>,
    assoc: Seq<char>,
    sel: SelectionV,
) -> bool {
    &&& text::starts_with(r.part, pp)
    &&& r.pass_fail == "Pass"@
    &&& mentions_key(r, assoc)
    &&& (if sel.serialized {
        serial_in_range(r.serial_num, sel.a, sel.b)
    } else {
        (match sel.batch {
            Some(bv) => r.batch == bv,
            None => true,
        }) && (match sel.dates {
            Some(ds) => ds.contains(date_text(r.normalized_date)),
            None => true,
        })
    })
}

/// The serialized collect predicate: prefix, passing, key mention, and the
/// two-sense serial range.
pub open spec fn serialized_collects(
    pp: Seq<char>,
    assoc: Seq<char>,
    a: int,
    b: int,
) -> spec_fn(TestResultV) -> bool {
    |r: TestResultV|
        text::starts_with(r.part, pp) && r.pass_fail == "Pass"@ && mentions_key(r, assoc)
            && serial_in_range(r.serial_num, a, b)
}

/// What one kept Voltech row collects to: its fields plus its parsed
/// measurement map (empty when the stored text does not parse).
pub open spec fn voltech_single(r: TestResultV) -> SingleV {
    SingleV {
        serial_number: Some(r.serial_num),
        batch: r.batch,
        date: date_text(r.normalized_date),
        result: r.pass_fail,
        measurements: match parse_json(r.measurements) {
            Some(m) => m,
            None => Seq::empty(),
        },
    }
}

/// The batch-mode predicate of [`collect_voltech_test`].
pub open spec fn collects_voltech_pred(pp: Seq<char>, assoc: Seq<char>, sel: SelectionV) -> spec_fn(
    TestResultV,
) -> bool {
    |r: TestResultV| collects_voltech(r, pp, assoc, sel)
}

fn date_text_exec(nd: &Option<crate::dates::Date>) -> (r: String)
    requires
        (match nd {
            Some(d) => d.wf() && d.year < 10000,
            None => true,
        }),
    ensures
        r@ == date_text(*nd),
{
    match nd {
        Some(d) => text::chars_to_string(&crate::dates::format_iso(d)),
        None => String::new(),
    }
}

fn dates_contain(dates: &Vec<String>, needle: &String) -> (r: bool)
    ensures
        r == dates@.map(|t: int, s: String| s@).contains(needle@),
{
    let ghost dv = dates@.map(|t: int, s: String| s@);
    let n = dates.len();
    let mut i: usize = 0;
    while i < n
        invariant
            0 <= i <= n == dates@.len(),
            dv == dates@.map(|t: int, s: String| s@),
            dv.len() == n,
            forall|t: int| 0 <= t < i ==> (#[trigger] dv[t]) != needle@,
        decreases n - i,
    {
        if dates[i] == *needle {
            proof {
                assert(dv[i as int] == needle@);
            }
            return true;
        }
        i = i + 1;
    }
    proof {
        if dv.contains(needle@) {
            let t = choose|t: int| 0 <= t < dv.len() && dv[t] == needle@;
        }
    }
    false
}

/// The selection parameters in executable form.
#[derive(Debug)]
pub struct Selection {
    pub serialized: bool,
    pub start_serial: i64,
    pub end_serial: i64,
    pub batch: Option<String>,
    pub selected_dates: Option<Vec<String>>,
}

impl View for Selection {
    type V = SelectionV;

    open spec fn view(&self) -> SelectionV {
        SelectionV {
            serialized: self.serialized,
            a: self.start_serial as int,
            b: self.end_serial as int,
            batch: match &self.batch {
                Some(b) => Some(b@),
                None => None,
            },
            dates: match &self.selected_dates {
                Some(ds) => Some(ds@.map(|t: int, s: String| s@)),
                None => None,
            },
        }
    }
}

/// A row's normalised date is a valid year-bounded date: what the ingest
/// pipeline stores (two-digit years offset into this millennium).
pub open spec fn row_date_ok(r: TestResultV) -> bool {
    match r.normalized_date {
        Some(d) => d.wf() && d.year < 10000,
        None => true,
    }
}

/// Checks the quoted-key mention over normalised text, per
/// [`mentions_key`].
fn mentions_key_exec(row: &TestResultRow, needle: &Vec<char>) -> (r: bool)
    requires
        needle@.len() >= 2,
        needle@[0] == '"',
        needle@[needle@.len() - 1] == '"',
    ensures
        r == text::contains_seq(norm_spaces(row@.measurements), needle@),
{
    let mv = text::str_to_chars(row.measurements.as_str());
    let meas = text::normalize_spaces_chars(&mv);
    text::contains_chars(&meas, needle)
}

fn collects_voltech_exec(
    row: &TestResultRow,
    pp: &Vec<char>,
    needle: &Vec<char>,
    sel: &Selection,
) -> (r: bool)
    requires
        needle@.len() >= 2,
        needle@[0] == '"',
        needle@[needle@.len() - 1] == '"',
        row_date_ok(row@),
    ensures
        r == ({
            &&& text::starts_with(row@.part, pp@)
            &&& row@.pass_fail == "Pass"@
            &&& text::contains_seq(norm_spaces(row@.measurements), needle@)
            &&& (if sel@.serialized {
                serial_in_range(row@.serial_num, sel@.a, sel@.b)
            } else {
                (match sel@.batch {
                    Some(bv) => row@.batch == bv,
                    None => true,
                }) && (match sel@.dates {
                    Some(ds) => ds.contains(date_text(row@.normalized_date)),
                    None => true,
                })
            })
        }),
{
    let part = text::str_to_chars(row.part.as_str());
    if !text::starts_with_chars(&part, pp) {
        return false;
    }
    let pf = text::str_to_chars(row.pass_fail.as_str());
    if !text::chars_eq_str(&pf, "Pass") {
        return false;
    }
    if !mentions_key_exec(row, needle) {
        return false;
    }
    if sel.serialized {
        crate::queries::serial_in_range_exec(
            row.serial_num.as_str(),
            sel.start_serial,
            sel.end_serial,
        )
    } else {
        let batch_ok = match &sel.batch {
            Some(b) => {
                let bv = text::str_to_chars(b.as_str());
                let rb = text::str_to_chars(row.batch.as_str());
                let mut eq = rb.len() == bv.len();
                if eq {
                    eq = text::chars_eq_str(&rb, b.as_str());
                }
                eq
            },
            None => true,
        };
        if !batch_ok {
            return false;
        }
        match &sel.selected_dates {
            Some(ds) => {
                let dt = date_text_exec(&row.normalized_date);
                dates_contain(ds, &dt)
            },
            None => true,
        }
    }
}

/// The ISO text of one row's normalised date, per [`date_text`].
pub fn row_date_text(row: &TestResultRow) -> (r: String)
    requires
        row_date_ok(row@),
    ensures
        r@ == date_text(row@.normalized_date),
{
    date_text_exec(&row.normalized_date)
}

fn voltech_single_exec(row: &TestResultRow) -> (r: SingleResult)
    requires
        row_date_ok(row@),
    ensures
        r@ == voltech_single(row@),
{
    let measurements = match parse_measurements_json(row.measurements.as_str()) {
        Some(m) => m,
        None => Vec::new(),
    };
    proof {
        if parse_json(row@.measurements) is None {
            assert(entries_view(Seq::<(String, MeasValue)>::empty()) =~= Seq::<
                (Seq<char>, MeasVal),
            >::empty());
        }
    }
    SingleResult {
        serial_number: Some(row.serial_num.clone()),
        batch: row.batch.clone(),
        date: date_text_exec(&row.normalized_date),
        result: row.pass_fail.clone(),
        measurements,
    }
}

/// The serialized-mode result shape: the singles are, in order, the images
/// of a row sequence that holds exactly one most-recent passing row per
/// matching serial — the deduplicated, serial-sorted selection of
/// [`serialized_collects`], per [`query_inv`].
pub open spec fn serialized_collection_ok(
    out: Seq<SingleV>,
    sv: Seq<TestResultV>,
    pp: Seq<char>,
    assoc: Seq<char>,
    a: int,
    b: int,
) -> bool {
    exists|pk: Seq<TestResultRow>|
        #![trigger pk.len()]
        query_inv(pk, sv, sv.len() as int, serialized_collects(pp, assoc, a, b)) && out
            == pk.map(|q: int, row: TestResultRow| voltech_single(row@))
}

/// What a whole Voltech collect must return under a selection: the
/// deduplicated most-recent selection in serialized mode, the exact
/// filter image in batch mode.
pub open spec fn voltech_collection_ok(
    out: Seq<SingleV>,
    sv: Seq<TestResultV>,
    pp: Seq<char>,
    assoc: Seq<char>,
    sel: SelectionV,
) -> bool {
    if sel.serialized {
        serialized_collection_ok(out, sv, pp, assoc, sel.a, sel.b)
    } else {
        out == sv.filter(collects_voltech_pred(pp, assoc, sel)).map(
            |t: int, row: TestResultV| voltech_single(row),
        )
    }
}

/// Builds the quoted, whitespace-normalised key needle of a test.
pub(crate) fn key_needle(associated_test: &str) -> (r: Vec<char>)
    ensures
        r@ == seq!['"'] + norm_spaces(associated_test@) + seq!['"'],
        r@.len() >= 2,
        r@[0] == '"',
        r@[r@.len() - 1] == '"',
        r@.subrange(1, r@.len() - 1) == norm_spaces(associated_test@),
{
    let mut needle: Vec<char> = Vec::new();
    needle.push('"');
    let av = text::str_to_chars(associated_test);
    let mut assoc = text::normalize_spaces_chars(&av);
    needle.append(&mut assoc);
    needle.push('"');
    proof {
        assert(needle@ =~= seq!['"'] + norm_spaces(associated_test@) + seq!['"']);
        assert(needle@.subrange(1, needle@.len() - 1) =~= norm_spaces(associated_test@));
    }
    needle
}

/// The deduplicated serialized selection of one Voltech test, as store
/// rows: one most-recent passing row per matching serial, sorted by numeric
/// serial, per [`query_inv`] under [`serialized_collects`].
pub fn collect_voltech_rows(
    store: &VoltechStore,
    part_prefix: &str,
    associated_test: &str,
    start_serial: i64,
    end_serial: i64,
) -> (r: Vec<TestResultRow>)
    ensures
        query_inv(
            r@,
            store@.results,
            store@.results.len() as int,
            serialized_collects(
                part_prefix@,
                associated_test@,
                start_serial as int,
                end_serial as int,
            ),
        ),
{
    let ghost sv = store@.results;
    let ghost pred = serialized_collects(
        part_prefix@,
        associated_test@,
        start_serial as int,
        end_serial as int,
    );
    let pp = text::str_to_chars(part_prefix);
    let needle = key_needle(associated_test);
    let n = store.results.len();
    let mut picked: Vec<TestResultRow> = Vec::new();
    let mut j: usize = 0;
    while j < n
        invariant
            0 <= j <= n == store.results@.len(),
            sv == store@.results,
            sv == rows_view(store.results@),
            sv.len() == n,
            pp@ == part_prefix@,
            needle@ == seq!['"'] + norm_spaces(associated_test@) + seq!['"'],
            needle@.len() >= 2 && needle@[0] == '"' && needle@[needle@.len() - 1] == '"',
            pred == serialized_collects(
                part_prefix@,
                associated_test@,
                start_serial as int,
                end_serial as int,
            ),
            query_inv(picked@, sv, j as int, pred),
        decreases n - j,
    {
        let row = &store.results[j];
        proof {
            assert(row@ == sv[j as int]);
        }
        let part = text::str_to_chars(row.part.as_str());
        let pf = text::str_to_chars(row.pass_fail.as_str());
        let keeps = text::starts_with_chars(&part, &pp) && text::chars_eq_str(&pf, "Pass")
            && mentions_key_exec(row, &needle) && crate::queries::serial_in_range_exec(
            row.serial_num.as_str(),
            start_serial,
            end_serial,
        );
        proof {
            assert(keeps == pred(sv[j as int]));
        }
        if keeps {
            crate::queries::place_row(&mut picked, row, Ghost(sv), Ghost(j as int), Ghost(pred));
        } else {
            proof {
                crate::queries::lemma_query_inv_skip(picked@, sv, j as int, pred);
            }
        }
        j = j + 1;
    }
    picked
}

/// Collects one Voltech test's results under a selection, per
/// [`voltech_collection_ok`]: in serialized mode the passing rows matching
/// prefix, key and range, deduplicated by serial keeping the most recent;
/// in batch mode the exact filter image. Each kept row is carried over by
/// [`voltech_single`].
pub fn collect_voltech_test(
    store: &VoltechStore,
    part_prefix: &str,
    associated_test: &str,
    sel: &Selection,
) -> (r: Vec<SingleResult>)
    requires
        forall|t: int| 0 <= t < store@.results.len() ==> row_date_ok(#[trigger] store@.results[t]),
    ensures
        voltech_collection_ok(
            singles_view(r@),
            store@.results,
            part_prefix@,
            associated_test@,
            sel@,
        ),
{
    let ghost sv = store@.results;
    if sel.serialized {
        let rows = collect_voltech_rows(
            store,
            part_prefix,
            associated_test,
            sel.start_serial,
            sel.end_serial,
        );
        let ghost pk = rows@;
        let m = rows.len();
        let mut out: Vec<SingleResult> = Vec::new();
        let mut k: usize = 0;
        proof {
            assert(singles_view(out@) =~= pk.take(0).map(
                |q: int, row: TestResultRow| voltech_single(row@),
            ));
        }
        while k < m
            invariant
                0 <= k <= m == rows@.len(),
                pk == rows@,
                sv == store@.results,
                forall|t: int| 0 <= t < sv.len() ==> row_date_ok(#[trigger] sv[t]),
                query_inv(
                    pk,
                    sv,
                    sv.len() as int,
                    serialized_collects(
                        part_prefix@,
                        associated_test@,
                        sel.start_serial as int,
                        sel.end_serial as int,
                    ),
                ),
                singles_view(out@) == pk.take(k as int).map(
                    |q: int, row: TestResultRow| voltech_single(row@),
                ),
            decreases m - k,
        {
            let row = &rows[k];
            proof {
                assert(row@ == (pk[k as int])@);
                let t = choose|t: int| 0 <= t < sv.len() && ((#[trigger] pk[k as int])@ == sv[t]);
                assert(row_date_ok(row@));
            }
            let ghost ov0 = singles_view(out@);
            let single = voltech_single_exec(row);
            out.push(single);
            proof {
                assert(singles_view(out@) =~~= ov0.push(voltech_single((pk[k as int])@)));
                assert(pk.take(k + 1 as int).map(|q: int, row2: TestResultRow| voltech_single(row2@))
                    =~~= pk.take(k as int).map(
                    |q: int, row2: TestResultRow| voltech_single(row2@),
                ).push(voltech_single((pk[k as int])@)));
            }
            k = k + 1;
        }
        proof {
            assert(pk.take(m as int) =~= pk);
            assert(singles_view(out@) == pk.map(
                |q: int, row: TestResultRow| voltech_single(row@),
            ));
            assert(serialized_collection_ok(
                singles_view(out@),
                sv,
                part_prefix@,
                associated_test@,
                sel.start_serial as int,
                sel.end_serial as int,
            )) by {
                assert(pk.len() >= 0);
            }
        }
        out
    } else {
        let ghost pred = collects_voltech_pred(part_prefix@, associated_test@, sel@);
        let ghost tf = |t: int, row: TestResultV| voltech_single(row);
        let pp = text::str_to_chars(part_prefix);
        let needle = key_needle(associated_test);
        let n = store.results.len();
        let mut out: Vec<SingleResult> = Vec::new();
        let mut j: usize = 0;
        proof {
            crate::model::lemma_filter_take_zero(sv, pred);
            assert(singles_view(out@) =~= sv.take(0).filter(pred).map(tf));
        }
        while j < n
            invariant
                0 <= j <= n == store.results@.len(),
                sv == store@.results,
                sv == rows_view(store.results@),
                sv.len() == n,
                forall|t: int| 0 <= t < sv.len() ==> row_date_ok(#[trigger] sv[t]),
                pp@ == part_prefix@,
                needle@ == seq!['"'] + norm_spaces(associated_test@) + seq!['"'],
                needle@.len() >= 2 && needle@[0] == '"' && needle@[needle@.len() - 1] == '"',
                pred == collects_voltech_pred(part_prefix@, associated_test@, sel@),
                tf == (|t: int, row: TestResultV| voltech_single(row)),
                !sel.serialized,
                singles_view(out@) == sv.take(j as int).filter(pred).map(tf),
            decreases n - j,
        {
            let row = &store.results[j];
            proof {
                assert(row@ == sv[j as int]);
                crate::model::lemma_filter_take_step(sv, pred, j as int);
            }
            let ghost ov0 = singles_view(out@);
            if collects_voltech_exec(row, &pp, &needle, sel) {
                proof {
                    assert(pred(sv[j as int]));
                }
                let single = voltech_single_exec(row);
                out.push(single);
                proof {
                    assert(singles_view(out@) =~~= ov0.push(voltech_single(sv[j as int])));
                    assert(sv.take(j + 1 as int).filter(pred).map(tf) =~~= sv.take(
                        j as int,
                    ).filter(pred).map(tf).push(voltech_single(sv[j as int])));
                }
            } else {
                proof {
                    assert(!pred(sv[j as int]));
                }
            }
            j = j + 1;
        }
        proof {
            assert(sv.take(n as int) =~= sv);
        }
        out
    }
}

/// A manual row the collector keeps: its full test name equals the
/// associated name and it passes the mode's filters.
pub open spec fn collects_manual(r: ManualResultV, assoc: Seq<char>, sel: SelectionV) -> bool {
    &&& r.test == assoc
    &&& (if sel.serialized {
        serial_in_range(r.sn, sel.a, sel.b)
    } else {
        (match sel.batch {
            Some(bv) => r.batch == bv,
            None => true,
        }) && (match sel.dates {
            Some(ds) => ds.contains(iso_seq(r.normalized_date)),
            None => true,
        })
    })
}

/// What one kept manual row collects to: its fields, with the measurement
/// map synthesised from the four numeric columns.
pub open spec fn manual_single(r: ManualResultV) -> SingleV {
    SingleV {
        serial_number: Some(r.sn),
        batch: r.batch,
        date: iso_seq(r.normalized_date),
        result: r.passfail,
        measurements: seq![
            ("minimum"@, crate::measurements::val_of_cell(r.minimum)),
            ("reading"@, crate::measurements::val_of_cell(r.reading)),
            ("maximum"@, crate::measurements::val_of_cell(r.maximum)),
            ("uom"@, MeasVal::Text(r.uom)),
        ],
    }
}

/// The predicate of [`collect_manual_test`].
pub open spec fn collects_manual_pred(assoc: Seq<char>, sel: SelectionV) -> spec_fn(
    ManualResultV,
) -> bool {
    |r: ManualResultV| collects_manual(r, assoc, sel)
}

/// A manual row's date is year-bounded, as the ingest pipeline stores it.
pub open spec fn manual_date_ok(r: ManualResultV) -> bool {
    r.normalized_date.wf() && r.normalized_date.year < 10000
}

fn collects_manual_exec(row: &ManualResultRow, assoc: &str, sel: &Selection) -> (r: bool)
    requires
        manual_date_ok(row@),
    ensures
        r == collects_manual(row@, assoc@, sel@),
{
    let tn = text::str_to_chars(row.test.as_str());
    if !text::chars_eq_str(&tn, assoc) {
        return false;
    }
    if sel.serialized {
        crate::queries::serial_in_range_exec(row.sn.as_str(), sel.start_serial, sel.end_serial)
    } else {
        let batch_ok = match &sel.batch {
            Some(b) => {
                let rb = text::str_to_chars(row.batch.as_str());
                text::chars_eq_str(&rb, b.as_str())
            },
            None => true,
        };
        if !batch_ok {
            return false;
        }
        match &sel.selected_dates {
            Some(ds) => {
                let dt = text::chars_to_string(&crate::dates::format_iso(&row.normalized_date));
                dates_contain(ds, &dt)
            },
            None => true,
        }
    }
}

fn manual_single_exec(row: &ManualResultRow) -> (r: SingleResult)
    requires
        manual_date_ok(row@),
    ensures
        r@ == manual_single(row@),
{
    let mut measurements: Vec<(String, MeasValue)> = Vec::new();
    let minv = text::str_to_chars(row.minimum.as_str());
    measurements.push((String::from_str("minimum"), crate::measurements::value_of_cell(&minv)));
    let rdv = text::str_to_chars(row.reading.as_str());
    measurements.push((String::from_str("reading"), crate::measurements::value_of_cell(&rdv)));
    let maxv = text::str_to_chars(row.maximum.as_str());
    measurements.push((String::from_str("maximum"), crate::measurements::value_of_cell(&maxv)));
    measurements.push((String::from_str("uom"), MeasValue::Text(row.uom.clone())));
    let r = SingleResult {
        serial_number: Some(row.sn.clone()),
        batch: row.batch.clone(),
        date: text::chars_to_string(&crate::dates::format_iso(&row.normalized_date)),
        result: row.passfail.clone(),
        measurements,
    };
    proof {
        assert(r@.measurements =~= manual_single(row@).measurements);
    }
    r
}

/// Collects one manual test's results under a selection: exactly the rows
/// [`collects_manual`] keeps, in store order, each carried over by
/// [`manual_single`].
pub fn collect_manual_test(
    rows: &Vec<ManualResultRow>,
    associated_test: &str,
    sel: &Selection,
) -> (r: Vec<SingleResult>)
    requires
        forall|t: int|
            0 <= t < manual_rows_view(rows@).len() ==> manual_date_ok(
                #[trigger] manual_rows_view(rows@)[t],
            ),
    ensures
        singles_view(r@) == manual_rows_view(rows@).filter(
            collects_manual_pred(associated_test@, sel@),
        ).map(|t: int, row: ManualResultV| manual_single(row)),
{
    let ghost sv = manual_rows_view(rows@);
    let ghost pred = collects_manual_pred(associated_test@, sel@);
    let ghost tf = |t: int, row: ManualResultV| manual_single(row);
    let n = rows.len();
    let mut out: Vec<SingleResult> = Vec::new();
    let mut j: usize = 0;
    proof {
        crate::model::lemma_filter_take_zero(sv, pred);
        assert(singles_view(out@) =~= sv.take(0).filter(pred).map(tf));
    }
    while j < n
        invariant
            0 <= j <= n == rows@.len(),
            sv == manual_rows_view(rows@),
            sv.len() == n,
            forall|t: int| 0 <= t < sv.len() ==> manual_date_ok(#[trigger] sv[t]),
            pred == collects_manual_pred(associated_test@, sel@),
            tf == (|t: int, row: ManualResultV| manual_single(row)),
            singles_view(out@) == sv.take(j as int).filter(pred).map(tf),
        decreases n - j,
    {
        let row = &rows[j];
        proof {
            assert(row@ == sv[j as int]);
            crate::model::lemma_filter_take_step(sv, pred, j as int);
        }
        let ghost ov0 = singles_view(out@);
        if collects_manual_exec(row, associated_test, sel) {
            let single = manual_single_exec(row);
            out.push(single);
            proof {
                assert(singles_view(out@) =~~= ov0.push(manual_single(sv[j as int])));
                assert(sv.take(j + 1 as int).filter(pred).map(tf) =~~= sv.take(
                    j as int,
                ).filter(pred).map(tf).push(manual_single(sv[j as int])));
            }
        }
        j = j + 1;
    }
    proof {
        assert(sv.take(n as int) =~= sv);
    }
    out
}


// ===================== whole-report collection =====================

/// One test's collected aggregate: its definition fields and its results.
#[derive(Debug)]
pub struct TestResultData {
    pub test_id: i32,
    pub test_name: String,
    pub source_type: String,
    pub associated_test: Option<String>,
    pub spec_min: Option<String>,
    pub spec_max: Option<String>,
    pub spec_unit: String,
    pub results: Vec<SingleResult>,
}

/// A collected report: its finished-good header and one aggregate per test.
#[derive(Debug)]
pub struct ReportData {
    pub report_id: i32,
    pub fg_number: String,
    pub fg_revision: String,
    pub fg_customer: String,
    pub is_serialized: bool,
    pub batch: Option<String>,
    pub serial_range: Option<String>,
    pub test_results: Vec<TestResultData>,
}

/// The associated key a collect call uses for one test, or empty.
pub open spec fn assoc_key(t: TestSpec) -> Seq<char> {
    match t.associated_test {
        Some(a) => a@,
        None => Seq::empty(),
    }
}

/// What one test's aggregate must hold: the definition fields copied, and
/// the results exactly as the test's source collects them — Voltech rows
/// per [`voltech_collection_ok`] under the part prefix `pp` (the finished
/// good and revision), manual rows by [`collects_manual`], nothing for any
/// other source.
pub open spec fn aggregate_matches(
    d: TestResultData,
    t: TestSpec,
    sv: Seq<TestResultV>,
    mv: Seq<ManualResultV>,
    pp: Seq<char>,
    sel: SelectionV,
) -> bool {
    &&& d.test_id == t.test_id
    &&& d.test_name@ == t.test_name@
    &&& d.source_type@ == t.source_type@
    &&& (match (d.associated_test, t.associated_test) {
        (Some(a), Some(b)) => a@ == b@,
        (None, None) => true,
        _ => false,
    })
    &&& (match (d.spec_min, t.spec_min) {
        (Some(a), Some(b)) => a@ == b@,
        (None, None) => true,
        _ => false,
    })
    &&& (match (d.spec_max, t.spec_max) {
        (Some(a), Some(b)) => a@ == b@,
        (None, None) => true,
        _ => false,
    })
    &&& d.spec_unit@ == t.spec_unit@
    &&& (if t.source_type@ == "voltech"@ {
        voltech_collection_ok(singles_view(d.results@), sv, pp, assoc_key(t), sel)
    } else if t.source_type@ == "manual"@ {
        singles_view(d.results@) == mv.filter(collects_manual_pred(assoc_key(t), sel)).map(
            |q: int, row: ManualResultV| manual_single(row),
        )
    } else {
        d.results@.len() == 0
    })
}

/// Collects a whole report: the finished-good header carried through, one
/// aggregate per test in order, per [`aggregate_matches`].
pub fn collect_report_data(
    report_id: i32,
    fg_number: &str,
    fg_revision: &str,
    fg_customer: &str,
    tests: &Vec<TestSpec>,
    store: &VoltechStore,
    manual_rows: &Vec<ManualResultRow>,
    sel: &Selection,
) -> (r: ReportData)
    requires
        forall|t: int|
            0 <= t < store@.results.len() ==> row_date_ok(#[trigger] store@.results[t]),
        forall|t: int|
            0 <= t < manual_rows_view(manual_rows@).len() ==> manual_date_ok(
                #[trigger] manual_rows_view(manual_rows@)[t],
            ),
    ensures
        r.report_id == report_id,
        r.fg_number@ == fg_number@,
        r.fg_revision@ == fg_revision@,
        r.fg_customer@ == fg_customer@,
        r.is_serialized == sel.serialized,
        (match (r.batch, &sel.batch) {
            (Some(a), Some(b)) => a@ == b@,
            (None, None) => true,
            _ => false,
        }),
        (match r.serial_range {
            Some(s) => sel.serialized && s@ == crate::measurements::int_seq(
                sel.start_serial as int,
            ) + seq!['-'] + crate::measurements::int_seq(sel.end_serial as int),
            None => !sel.serialized,
        }),
        r.test_results@.len() == tests@.len(),
        forall|i: int|
            0 <= i < tests@.len() ==> aggregate_matches(
                #[trigger] r.test_results@[i],
                tests@[i],
                store@.results,
                manual_rows_view(manual_rows@),
                fg_number@ + fg_revision@,
                sel@,
            ),
{
    let ghost sv = store@.results;
    let ghost mv = manual_rows_view(manual_rows@);
    let mut prefix = String::from_str(fg_number);
    prefix.append(fg_revision);
    proof {
        assert(prefix@ == fg_number@ + fg_revision@);
    }
    let n = tests.len();
    let mut out: Vec<TestResultData> = Vec::new();
    let mut i: usize = 0;
    while i < n
        invariant
            0 <= i <= n == tests@.len(),
            sv == store@.results,
            mv == manual_rows_view(manual_rows@),
            forall|t: int| 0 <= t < sv.len() ==> row_date_ok(#[trigger] sv[t]),
            forall|t: int| 0 <= t < mv.len() ==> manual_date_ok(#[trigger] mv[t]),
            prefix@ == fg_number@ + fg_revision@,
            out@.len() == i,
            forall|t: int|
                0 <= t < i ==> aggregate_matches(
                    #[trigger] out@[t],
                    tests@[t],
                    sv,
                    mv,
                    fg_number@ + fg_revision@,
                    sel@,
                ),
        decreases n - i,
    {
        let t = &tests[i];
        let assoc: String = match &t.associated_test {
            Some(a) => a.clone(),
            None => String::new(),
        };
        proof {
            assert(assoc@ == assoc_key(tests@[i as int]));
        }
        let sty = text::str_to_chars(t.source_type.as_str());
        let results: Vec<SingleResult> = if text::chars_eq_str(&sty, "voltech") {
            collect_voltech_test(store, prefix.as_str(), assoc.as_str(), sel)
        } else if text::chars_eq_str(&sty, "manual") {
            collect_manual_test(manual_rows, assoc.as_str(), sel)
        } else {
            Vec::new()
        };
        let d = TestResultData {
            test_id: t.test_id,
            test_name: t.test_name.clone(),
            source_type: t.source_type.clone(),
            associated_test: crate::model::duplicate_opt_string(&t.associated_test),
            spec_min: crate::model::duplicate_opt_string(&t.spec_min),
            spec_max: crate::model::duplicate_opt_string(&t.spec_max),
            spec_unit: t.spec_unit.clone(),
            results,
        };
        proof {
            assert(aggregate_matches(d, tests@[i as int], sv, mv, fg_number@ + fg_revision@, sel@));
        }
        out.push(d);
        i = i + 1;
    }
    let serial_range: Option<String> = if sel.serialized {
        let mut rv = crate::measurements::int_chars(sel.start_serial);
        rv.push('-');
        let mut bv = crate::measurements::int_chars(sel.end_serial);
        rv.append(&mut bv);
        proof {
            assert(rv@ =~= crate::measurements::int_seq(sel.start_serial as int) + seq!['-']
                + crate::measurements::int_seq(sel.end_serial as int));
        }
        Some(text::chars_to_string(&rv))
    } else {
        None
    };
    ReportData {
        report_id,
        fg_number: String::from_str(fg_number),
        fg_revision: String::from_str(fg_revision),
        fg_customer: String::from_str(fg_customer),
        is_serialized: sel.serialized,
        batch: crate::model::duplicate_opt_string(&sel.batch),
        serial_range,
        test_results: out,
    }
}

} // verus!
