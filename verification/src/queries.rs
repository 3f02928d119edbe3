//! Serial-range queries over the measurement store: filtering by part
//! prefix, the two-sense serial range, deduplication by serial keeping the
//! most recent row, and output sorted by numeric serial.

use vstd::prelude::*;
use crate::text;
use crate::measurements::int_seq;
use crate::model::{TestResultV, TestResultRow, rows_view, ManualResultV, ManualResultRow,
    manual_rows_view};
use crate::store::VoltechStore;

verus! {

/// The numeric value a serial string sorts by: its integer reading, or zero
/// when it has none.
pub open spec fn serial_int(s: Seq<char>) -> int {
    match text::parse_int(s) {
        Some(x) => x as int,
        None => 0,
    }
}

/// A serial lies in `[a, b]` in either sense: numerically, when the text
/// reads as an integer, or lexicographically between the decimal forms of
/// the bounds.
pub open spec fn serial_in_range(s: Seq<char>, a: int, b: int) -> bool {
    (match text::parse_int(s) {
        Some(x) => a <= x as int <= b,
        None => false,
    }) || (text::lex_le(int_seq(a), s) && text::lex_le(s, int_seq(b)))
}

/// A row the serialized query keeps: the part starts with the pattern, the
/// serial lies in the range, and the run passed.
pub open spec fn voltech_matches(r: TestResultV, pp: Seq<char>, a: int, b: int) -> bool {
    text::starts_with(r.part, pp) && serial_in_range(r.serial_num, a, b) && r.pass_fail
        == "Pass"@
}

/// The predicate of [`query_serialized`].
pub open spec fn voltech_pred(pp: Seq<char>, a: int, b: int) -> spec_fn(TestResultV) -> bool {
    |r: TestResultV| voltech_matches(r, pp, a, b)
}

/// The result-shape invariant the query builds up, over the first `j` store
/// rows: every kept row matches and is a stored row; serials are pairwise
/// distinct and sorted by numeric value; each kept row is at least as recent
/// as every matching stored row (among the first `j`) with its serial; and
/// every matching stored row among the first `j` has its serial kept.
pub open spec fn query_inv(
    pk: Seq<TestResultRow>,
    sv: Seq<TestResultV>,
    j: int,
    pred: spec_fn(TestResultV) -> bool,
) -> bool {
    &&& forall|i: int| 0 <= i < pk.len() ==> pred((#[trigger] pk[i])@)
    &&& forall|i: int|
        0 <= i < pk.len() ==> exists|t: int| 0 <= t < sv.len() && (#[trigger] pk[i])@ == sv[t]
    &&& forall|i: int, t: int|
        0 <= i < t < pk.len() ==> (#[trigger] pk[i])@.serial_num != (#[trigger] pk[t])@.serial_num
    &&& forall|i: int, t: int|
        0 <= i < t < pk.len() ==> serial_int((#[trigger] pk[i])@.serial_num) <= serial_int(
            (#[trigger] pk[t])@.serial_num,
        )
    &&& forall|i: int, t: int|
        0 <= i < pk.len() && 0 <= t < j && t < sv.len() && pred(#[trigger] sv[t]) && sv[
            t
        ].serial_num == (#[trigger] pk[i])@.serial_num ==> sv[t].created_at
            <= pk[i]@.created_at
    &&& forall|t: int|
        0 <= t < j && t < sv.len() && pred(#[trigger] sv[t]) ==> exists|i: int|
            0 <= i < pk.len() && (#[trigger] pk[i])@.serial_num == sv[t].serial_num
}

/// A store row that does not match leaves the invariant untouched.
pub(crate) proof fn lemma_query_inv_skip(
    pk: Seq<TestResultRow>,
    sv: Seq<TestResultV>,
    j: int,
    pred: spec_fn(TestResultV) -> bool,
)
    requires
        query_inv(pk, sv, j, pred),
        0 <= j < sv.len(),
        !pred(sv[j]),
    ensures
        query_inv(pk, sv, j + 1, pred),
{
}

/// The numeric sort key of a serial, per [`serial_int`].
pub fn serial_int_exec(s: &str) -> (r: i64)
    ensures
        r as int == serial_int(s@),
{
    let v = text::str_to_chars(s);
    match text::parse_int_chars(&v) {
        Some(x) => x,
        None => 0,
    }
}

/// The two-sense range test, per [`serial_in_range`].
pub fn serial_in_range_exec(s: &str, a: i64, b: i64) -> (r: bool)
    ensures
        r == serial_in_range(s@, a as int, b as int),
{
    let v = text::str_to_chars(s);
    let numeric = match text::parse_int_chars(&v) {
        Some(x) => a <= x && x <= b,
        None => false,
    };
    if numeric {
        return true;
    }
    let av = crate::measurements::int_chars(a);
    let bv = crate::measurements::int_chars(b);
    text::lex_le_chars(&av, &v) && text::lex_le_chars(&v, &bv)
}

fn voltech_matches_exec(row: &TestResultRow, pp: &Vec<char>, a: i64, b: i64) -> (r: bool)
    ensures
        r == voltech_matches(row@, pp@, a as int, b as int),
{
    let part = text::str_to_chars(row.part.as_str());
    if !text::starts_with_chars(&part, pp) {
        return false;
    }
    if !serial_in_range_exec(row.serial_num.as_str(), a, b) {
        return false;
    }
    let pf = text::str_to_chars(row.pass_fail.as_str());
    text::chars_eq_str(&pf, "Pass")
}

/// Works one matching store row into the result being built: replaces the
/// kept row of the same serial when the new one is more recent, or inserts a
/// copy at its sorted position.
#[verifier::rlimit(100)]
pub(crate) fn place_row(
    picked: &mut Vec<TestResultRow>,
    row: &TestResultRow,
    Ghost(sv): Ghost<Seq<TestResultV>>,
    Ghost(j): Ghost<int>,
    Ghost(pred): Ghost<spec_fn(TestResultV) -> bool>,
)
    requires
        0 <= j < sv.len(),
        row@ == sv[j],
        pred(sv[j]),
        query_inv(old(picked)@, sv, j, pred),
    ensures
        query_inv(final(picked)@, sv, j + 1, pred),
{
    let m = picked.len();
    let ghost pv0 = picked@;
    let mut k: usize = 0;
    let mut found = false;
    while k < m
        invariant
            0 <= k <= m == picked@.len(),
            picked@ == pv0,
            row@ == sv[j],
            !found ==> forall|i: int|
                0 <= i < k ==> (#[trigger] picked@[i])@.serial_num != sv[j].serial_num,
            found ==> k < m && (picked@[k as int])@.serial_num == sv[j].serial_num,
        ensures
            picked@ == pv0,
            found ==> k < m && (picked@[k as int])@.serial_num == sv[j].serial_num,
            !found ==> forall|i: int|
                0 <= i < m ==> (#[trigger] picked@[i])@.serial_num != sv[j].serial_num,
        decreases m - k, (if found { 0int } else { 1int }),
    {
        if picked[k].serial_num == row.serial_num {
            found = true;
            break ;
        }
        k = k + 1;
    }
    if found {
        if row.created_at > picked[k].created_at {
            let fresh = row.duplicate();
            picked.remove(k);
            picked.insert(k, fresh);
            proof {
                assert(picked@.len() == pv0.len());
                assert((picked@[k as int])@ == sv[j]);
                assert(forall|i: int|
                    0 <= i < picked@.len() && i != k ==> #[trigger] picked@[i] == pv0[i]);
                assert forall|i: int| 0 <= i < picked@.len() implies (
                #[trigger] picked@[i])@.serial_num == (pv0[i])@.serial_num by {
                    if i != k {
                        assert(picked@[i] == pv0[i]);
                    }
                }
                assert forall|i: int, t: int| 0 <= i < t < picked@.len() implies (
                #[trigger] picked@[i])@.serial_num != (#[trigger] picked@[t])@.serial_num by {
                    assert((pv0[i])@.serial_num != (pv0[t])@.serial_num);
                }
                assert forall|i: int, t: int| 0 <= i < t < picked@.len() implies serial_int(
                    (#[trigger] picked@[i])@.serial_num,
                ) <= serial_int((#[trigger] picked@[t])@.serial_num) by {
                    assert(serial_int((pv0[i])@.serial_num) <= serial_int((pv0[t])@.serial_num));
                }
                assert forall|i: int, t: int|
                    0 <= i < picked@.len() && 0 <= t < j + 1 && t < sv.len() && pred(
                        #[trigger] sv[t],
                    ) && sv[t].serial_num == (#[trigger] picked@[i])@.serial_num implies sv[
                    t].created_at <= picked@[i]@.created_at by {
                    if i == k {
                        if t < j {
                            assert(sv[t].serial_num == (pv0[k as int])@.serial_num);
                            assert(sv[t].created_at <= (pv0[k as int])@.created_at);
                        }
                    } else {
                        assert(picked@[i] == pv0[i]);
                        if t == j {
                            assert(sv[j].serial_num == (pv0[k as int])@.serial_num);
                            assert((pv0[i])@.serial_num != (pv0[k as int])@.serial_num);
                        }
                    }
                }
                assert forall|t: int|
                    0 <= t < j + 1 && t < sv.len() && pred(#[trigger] sv[t]) implies exists|i: int|
                    0 <= i < picked@.len() && (#[trigger] picked@[i])@.serial_num == sv[
                        t
                    ].serial_num by {
                    if t < j {
                        let i = choose|i: int|
                            0 <= i < pv0.len() && (#[trigger] pv0[i])@.serial_num == sv[
                                t
                            ].serial_num;
                        assert((picked@[i])@.serial_num == sv[t].serial_num);
                    } else {
                        assert((picked@[k as int])@.serial_num == sv[j].serial_num);
                    }
                }
            }
        } else {
            proof {
                assert forall|t: int|
                    0 <= t < j + 1 && t < sv.len() && pred(#[trigger] sv[t]) implies exists|i: int|
                    0 <= i < picked@.len() && (#[trigger] picked@[i])@.serial_num == sv[
                        t
                    ].serial_num by {
                    if t == j {
                        assert((picked@[k as int])@.serial_num == sv[j].serial_num);
                    }
                }
                assert forall|i: int, t: int|
                    0 <= i < picked@.len() && 0 <= t < j + 1 && t < sv.len() && pred(
                        #[trigger] sv[t],
                    ) && sv[t].serial_num == (#[trigger] picked@[i])@.serial_num implies sv[
                    t].created_at <= picked@[i]@.created_at by {
                    if t == j {
                        if i != k {
                            assert((picked@[i])@.serial_num != (
                            picked@[k as int])@.serial_num);
                        } else {
                            assert(sv[j].created_at <= (picked@[k as int])@.created_at);
                        }
                    }
                }
            }
        }
        return ;
    }
    // a new serial: insert a copy at its sorted position
    let key = serial_int_exec(row.serial_num.as_str());
    let w = picked.len();
    let mut pos: usize = 0;
    while pos < w
        invariant
            0 <= pos <= w == picked@.len(),
            picked@ == pv0,
            key as int == serial_int(sv[j].serial_num),
            forall|i: int|
                0 <= i < pos ==> serial_int((#[trigger] picked@[i])@.serial_num) <= key as int,
        ensures
            picked@ == pv0,
            0 <= pos <= w,
            forall|i: int|
                0 <= i < pos ==> serial_int((#[trigger] picked@[i])@.serial_num) <= key as int,
            pos < w ==> serial_int((picked@[pos as int])@.serial_num) > key as int,
        decreases w - pos,
    {
        let ekey = serial_int_exec(picked[pos].serial_num.as_str());
        if ekey > key {
            break ;
        }
        pos = pos + 1;
    }
    let fresh = row.duplicate();
    picked.insert(pos, fresh);
    proof {
        assert(picked@.len() == pv0.len() + 1);
        assert((picked@[pos as int])@ == sv[j]);
        assert(forall|i: int| 0 <= i < pos ==> #[trigger] picked@[i] == pv0[i]);
        assert(forall|i: int|
            pos < i < picked@.len() ==> #[trigger] picked@[i] == pv0[i - 1]);
        assert forall|i: int, t: int| 0 <= i < t < picked@.len() implies (
        #[trigger] picked@[i])@.serial_num != (#[trigger] picked@[t])@.serial_num by {
            let i0 = if i < pos {
                i
            } else {
                i - 1
            };
            let t0 = if t < pos {
                t
            } else {
                t - 1
            };
            if i == pos {
                assert(picked@[t] == pv0[t0]);
                assert((pv0[t0])@.serial_num != sv[j].serial_num);
            } else if t == pos {
                assert(picked@[i] == pv0[i0]);
                assert((pv0[i0])@.serial_num != sv[j].serial_num);
            } else {
                assert(picked@[i] == pv0[i0] && picked@[t] == pv0[t0]);
            }
        }
        assert forall|i: int, t: int| 0 <= i < t < picked@.len() implies serial_int(
            (#[trigger] picked@[i])@.serial_num,
        ) <= serial_int((#[trigger] picked@[t])@.serial_num) by {
            let i0 = if i < pos {
                i
            } else {
                i - 1
            };
            let t0 = if t < pos {
                t
            } else {
                t - 1
            };
            if i == pos {
                assert(picked@[t] == pv0[t0]);
                assert(t0 >= pos);
                if pos < pv0.len() {
                    assert(serial_int((pv0[pos as int])@.serial_num) > key as int);
                    assert(serial_int((pv0[t0])@.serial_num) >= serial_int(
                        (pv0[pos as int])@.serial_num,
                    ));
                }
            } else if t == pos {
                assert(picked@[i] == pv0[i0]);
                assert(i0 < pos);
            } else {
                assert(picked@[i] == pv0[i0] && picked@[t] == pv0[t0]);
            }
        }
        assert forall|i: int, t: int|
            0 <= i < picked@.len() && 0 <= t < j + 1 && t < sv.len() && pred(#[trigger] sv[t])
                && sv[t].serial_num == (#[trigger] picked@[i])@.serial_num implies sv[t].created_at
            <= picked@[i]@.created_at by {
            if i == pos {
                if t < j {
                    let i0 = choose|i0: int|
                        0 <= i0 < pv0.len() && (#[trigger] pv0[i0])@.serial_num == sv[
                            t
                        ].serial_num;
                    assert((pv0[i0])@.serial_num != sv[j].serial_num);
                }
            } else {
                let i0 = if i < pos {
                    i
                } else {
                    i - 1
                };
                assert(picked@[i] == pv0[i0]);
                if t == j {
                    assert((pv0[i0])@.serial_num != sv[j].serial_num);
                }
            }
        }
        assert forall|t: int|
            0 <= t < j + 1 && t < sv.len() && pred(#[trigger] sv[t]) implies exists|i: int|
            0 <= i < picked@.len() && (#[trigger] picked@[i])@.serial_num == sv[t].serial_num by {
            if t < j {
                let i0 = choose|i0: int|
                    0 <= i0 < pv0.len() && (#[trigger] pv0[i0])@.serial_num == sv[t].serial_num;
                if i0 < pos {
                    assert((picked@[i0])@.serial_num == sv[t].serial_num);
                } else {
                    assert((picked@[i0 + 1])@.serial_num == sv[t].serial_num);
                }
            } else {
                assert((picked@[pos as int])@.serial_num == sv[j].serial_num);
            }
        }
        assert forall|i: int| 0 <= i < picked@.len() implies exists|t: int|
            0 <= t < sv.len() && (#[trigger] picked@[i])@ == sv[t] by {
            if i == pos {
                assert((picked@[i])@ == sv[j]);
            } else {
                let i0 = if i < pos {
                    i
                } else {
                    i - 1
                };
                assert(picked@[i] == pv0[i0]);
                let t = choose|t: int| 0 <= t < sv.len() && ((#[trigger] pv0[i0])@ == sv[t]);
            }
        }
    }
}

/// The serialized-mode query: every matching row (part prefix `fg + rev`,
/// serial within `[start_serial, end_serial]` in either sense, passing),
/// deduplicated by serial keeping a most-recent row, sorted by numeric
/// serial ascending, per [`query_inv`] over the whole store.
pub fn query_serialized(
    store: &VoltechStore,
    fg: &str,
    rev: &str,
    start_serial: i64,
    end_serial: i64,
) -> (r: Vec<TestResultRow>)
    ensures
        query_inv(
            r@,
            store@.results,
            store@.results.len() as int,
            voltech_pred(fg@ + rev@, start_serial as int, end_serial as int),
        ),
{
    let mut pp = text::str_to_chars(fg);
    let mut rv2 = text::str_to_chars(rev);
    pp.append(&mut rv2);
    proof {
        assert(pp@ =~= fg@ + rev@);
        assert(rows_view(store.results@) =~= store@.results);
    }
    let ghost sv = store@.results;
    let ghost pred = voltech_pred(fg@ + rev@, start_serial as int, end_serial as int);
    let n = store.results.len();
    let mut picked: Vec<TestResultRow> = Vec::new();
    let mut j: usize = 0;
    while j < n
        invariant
            0 <= j <= n == store.results@.len(),
            pp@ == fg@ + rev@,
            sv == store@.results,
            sv == rows_view(store.results@),
            sv.len() == n,
            pred == voltech_pred(fg@ + rev@, start_serial as int, end_serial as int),
            query_inv(picked@, sv, j as int, pred),
        decreases n - j,
    {
        let row = &store.results[j];
        proof {
            assert(row@ == sv[j as int]);
        }
        if voltech_matches_exec(row, &pp, start_serial, end_serial) {
            place_row(&mut picked, row, Ghost(sv), Ghost(j as int), Ghost(pred));
        } else {
            proof {
                lemma_query_inv_skip(picked@, sv, j as int, pred);
            }
        }
        j = j + 1;
    }
    picked
}


// ===================== the manual-store query =====================

/// A manual row the serialized query keeps: the finished good starts with
/// the pattern, the serial lies in the range in either sense, and the entry
/// passed.
pub open spec fn manual_matches(r: ManualResultV, fgp: Seq<char>, a: int, b: int) -> bool {
    text::starts_with(r.fg, fgp) && serial_in_range(r.sn, a, b) && r.passfail == "PASS"@
}

/// The manual twin of [`query_inv`], over the `fg`, `sn`, `passfail` and
/// `created_at` columns.
pub open spec fn manual_query_inv(
    pk: Seq<ManualResultRow>,
    sv: Seq<ManualResultV>,
    j: int,
    fgp: Seq<char>,
    a: int,
    b: int,
) -> bool {
    &&& forall|i: int|
        0 <= i < pk.len() ==> manual_matches((#[trigger] pk[i])@, fgp, a, b)
    &&& forall|i: int|
        0 <= i < pk.len() ==> exists|t: int| 0 <= t < sv.len() && (#[trigger] pk[i])@ == sv[t]
    &&& forall|i: int, t: int|
        0 <= i < t < pk.len() ==> (#[trigger] pk[i])@.sn != (#[trigger] pk[t])@.sn
    &&& forall|i: int, t: int|
        0 <= i < t < pk.len() ==> serial_int((#[trigger] pk[i])@.sn) <= serial_int(
            (#[trigger] pk[t])@.sn,
        )
    &&& forall|i: int, t: int|
        0 <= i < pk.len() && 0 <= t < j && t < sv.len() && manual_matches(
            #[trigger] sv[t],
            fgp,
            a,
            b,
        ) && sv[t].sn == (#[trigger] pk[i])@.sn ==> sv[t].created_at <= pk[i]@.created_at
    &&& forall|t: int|
        0 <= t < j && t < sv.len() && manual_matches(#[trigger] sv[t], fgp, a, b) ==> exists|i: int|
            0 <= i < pk.len() && (#[trigger] pk[i])@.sn == sv[t].sn
}

proof fn lemma_manual_query_inv_skip(
    pk: Seq<ManualResultRow>,
    sv: Seq<ManualResultV>,
    j: int,
    fgp: Seq<char>,
    a: int,
    b: int,
)
    requires
        manual_query_inv(pk, sv, j, fgp, a, b),
        0 <= j < sv.len(),
        !manual_matches(sv[j], fgp, a, b),
    ensures
        manual_query_inv(pk, sv, j + 1, fgp, a, b),
{
}

fn manual_matches_exec(row: &ManualResultRow, fgp: &Vec<char>, a: i64, b: i64) -> (r: bool)
    ensures
        r == manual_matches(row@, fgp@, a as int, b as int),
{
    let fgv = text::str_to_chars(row.fg.as_str());
    if !text::starts_with_chars(&fgv, fgp) {
        return false;
    }
    if !serial_in_range_exec(row.sn.as_str(), a, b) {
        return false;
    }
    let pf = text::str_to_chars(row.passfail.as_str());
    text::chars_eq_str(&pf, "PASS")
}

/// Works one matching manual row into the result being built, mirroring
/// [`place_row`].
#[verifier::rlimit(100)]
fn place_manual_row(
    picked: &mut Vec<ManualResultRow>,
    row: &ManualResultRow,
    Ghost(sv): Ghost<Seq<ManualResultV>>,
    Ghost(j): Ghost<int>,
    Ghost(fgp): Ghost<Seq<char>>,
    Ghost(a): Ghost<int>,
    Ghost(b): Ghost<int>,
)
    requires
        0 <= j < sv.len(),
        row@ == sv[j],
        manual_matches(sv[j], fgp, a, b),
        manual_query_inv(old(picked)@, sv, j, fgp, a, b),
    ensures
        manual_query_inv(final(picked)@, sv, j + 1, fgp, a, b),
{
    let m = picked.len();
    let ghost pv0 = picked@;
    let mut k: usize = 0;
    let mut found = false;
    while k < m
        invariant
            0 <= k <= m == picked@.len(),
            picked@ == pv0,
            row@ == sv[j],
            !found ==> forall|i: int|
                0 <= i < k ==> (#[trigger] picked@[i])@.sn != sv[j].sn,
            found ==> k < m && (picked@[k as int])@.sn == sv[j].sn,
        ensures
            picked@ == pv0,
            found ==> k < m && (picked@[k as int])@.sn == sv[j].sn,
            !found ==> forall|i: int| 0 <= i < m ==> (#[trigger] picked@[i])@.sn != sv[j].sn,
        decreases m - k, (if found { 0int } else { 1int }),
    {
        if picked[k].sn == row.sn {
            found = true;
            break ;
        }
        k = k + 1;
    }
    if found {
        if row.created_at > picked[k].created_at {
            let fresh = row.duplicate();
            picked.remove(k);
            picked.insert(k, fresh);
            proof {
                assert(picked@.len() == pv0.len());
                assert((picked@[k as int])@ == sv[j]);
                assert(forall|i: int|
                    0 <= i < picked@.len() && i != k ==> #[trigger] picked@[i] == pv0[i]);
                assert forall|i: int| 0 <= i < picked@.len() implies (
                #[trigger] picked@[i])@.sn == (pv0[i])@.sn by {
                    if i != k {
                        assert(picked@[i] == pv0[i]);
                    }
                }
                assert forall|i: int, t: int| 0 <= i < t < picked@.len() implies (
                #[trigger] picked@[i])@.sn != (#[trigger] picked@[t])@.sn by {
                    assert((pv0[i])@.sn != (pv0[t])@.sn);
                }
                assert forall|i: int, t: int| 0 <= i < t < picked@.len() implies serial_int(
                    (#[trigger] picked@[i])@.sn,
                ) <= serial_int((#[trigger] picked@[t])@.sn) by {
                    assert(serial_int((pv0[i])@.sn) <= serial_int((pv0[t])@.sn));
                }
                assert forall|i: int, t: int|
                    0 <= i < picked@.len() && 0 <= t < j + 1 && t < sv.len() && manual_matches(
                        #[trigger] sv[t],
                        fgp,
                        a,
                        b,
                    ) && sv[t].sn == (#[trigger] picked@[i])@.sn implies sv[t].created_at
                    <= picked@[i]@.created_at by {
                    if i == k {
                        if t < j {
                            assert(sv[t].sn == (pv0[k as int])@.sn);
                            assert(sv[t].created_at <= (pv0[k as int])@.created_at);
                        }
                    } else {
                        assert(picked@[i] == pv0[i]);
                        if t == j {
                            assert(sv[j].sn == (pv0[k as int])@.sn);
                            assert((pv0[i])@.sn != (pv0[k as int])@.sn);
                        }
                    }
                }
                assert forall|t: int|
                    0 <= t < j + 1 && t < sv.len() && manual_matches(
                        #[trigger] sv[t],
                        fgp,
                        a,
                        b,
                    ) implies exists|i: int|
                    0 <= i < picked@.len() && (#[trigger] picked@[i])@.sn == sv[t].sn by {
                    if t < j {
                        let i = choose|i: int|
                            0 <= i < pv0.len() && (#[trigger] pv0[i])@.sn == sv[t].sn;
                        assert((picked@[i])@.sn == sv[t].sn);
                    } else {
                        assert((picked@[k as int])@.sn == sv[j].sn);
                    }
                }
            }
        } else {
            proof {
                assert forall|t: int|
                    0 <= t < j + 1 && t < sv.len() && manual_matches(
                        #[trigger] sv[t],
                        fgp,
                        a,
                        b,
                    ) implies exists|i: int|
                    0 <= i < picked@.len() && (#[trigger] picked@[i])@.sn == sv[t].sn by {
                    if t == j {
                        assert((picked@[k as int])@.sn == sv[j].sn);
                    }
                }
                assert forall|i: int, t: int|
                    0 <= i < picked@.len() && 0 <= t < j + 1 && t < sv.len() && manual_matches(
                        #[trigger] sv[t],
                        fgp,
                        a,
                        b,
                    ) && sv[t].sn == (#[trigger] picked@[i])@.sn implies sv[t].created_at
                    <= picked@[i]@.created_at by {
                    if t == j {
                        if i != k {
                            assert((picked@[i])@.sn != (picked@[k as int])@.sn);
                        } else {
                            assert(sv[j].created_at <= (picked@[k as int])@.created_at);
                        }
                    }
                }
            }
        }
        return ;
    }
    // a new serial: insert a copy at its sorted position
    let key = serial_int_exec(row.sn.as_str());
    let w = picked.len();
    let mut pos: usize = 0;
    while pos < w
        invariant
            0 <= pos <= w == picked@.len(),
            picked@ == pv0,
            key as int == serial_int(sv[j].sn),
            forall|i: int|
                0 <= i < pos ==> serial_int((#[trigger] picked@[i])@.sn) <= key as int,
        ensures
            picked@ == pv0,
            0 <= pos <= w,
            forall|i: int|
                0 <= i < pos ==> serial_int((#[trigger] picked@[i])@.sn) <= key as int,
            pos < w ==> serial_int((picked@[pos as int])@.sn) > key as int,
        decreases w - pos,
    {
        let ekey = serial_int_exec(picked[pos].sn.as_str());
        if ekey > key {
            break ;
        }
        pos = pos + 1;
    }
    let fresh = row.duplicate();
    picked.insert(pos, fresh);
    proof {
        assert(picked@.len() == pv0.len() + 1);
        assert((picked@[pos as int])@ == sv[j]);
        assert(forall|i: int| 0 <= i < pos ==> #[trigger] picked@[i] == pv0[i]);
        assert(forall|i: int|
            pos < i < picked@.len() ==> #[trigger] picked@[i] == pv0[i - 1]);
        assert forall|i: int, t: int| 0 <= i < t < picked@.len() implies (
        #[trigger] picked@[i])@.sn != (#[trigger] picked@[t])@.sn by {
            let i0 = if i < pos {
                i
            } else {
                i - 1
            };
            let t0 = if t < pos {
                t
            } else {
                t - 1
            };
            if i == pos {
                assert(picked@[t] == pv0[t0]);
                assert((pv0[t0])@.sn != sv[j].sn);
            } else if t == pos {
                assert(picked@[i] == pv0[i0]);
                assert((pv0[i0])@.sn != sv[j].sn);
            } else {
                assert(picked@[i] == pv0[i0] && picked@[t] == pv0[t0]);
            }
        }
        assert forall|i: int, t: int| 0 <= i < t < picked@.len() implies serial_int(
            (#[trigger] picked@[i])@.sn,
        ) <= serial_int((#[trigger] picked@[t])@.sn) by {
            let i0 = if i < pos {
                i
            } else {
                i - 1
            };
            let t0 = if t < pos {
                t
            } else {
                t - 1
            };
            if i == pos {
                assert(picked@[t] == pv0[t0]);
                assert(t0 >= pos);
                if pos < pv0.len() {
                    assert(serial_int((pv0[pos as int])@.sn) > key as int);
                    assert(serial_int((pv0[t0])@.sn) >= serial_int((pv0[pos as int])@.sn));
                }
            } else if t == pos {
                assert(picked@[i] == pv0[i0]);
                assert(i0 < pos);
            } else {
                assert(picked@[i] == pv0[i0] && picked@[t] == pv0[t0]);
            }
        }
        assert forall|i: int, t: int|
            0 <= i < picked@.len() && 0 <= t < j + 1 && t < sv.len() && manual_matches(
                #[trigger] sv[t],
                fgp,
                a,
                b,
            ) && sv[t].sn == (#[trigger] picked@[i])@.sn implies sv[t].created_at
            <= picked@[i]@.created_at by {
            if i == pos {
                if t < j {
                    let i0 = choose|i0: int|
                        0 <= i0 < pv0.len() && (#[trigger] pv0[i0])@.sn == sv[t].sn;
                    assert((pv0[i0])@.sn != sv[j].sn);
                }
            } else {
                let i0 = if i < pos {
                    i
                } else {
                    i - 1
                };
                assert(picked@[i] == pv0[i0]);
                if t == j {
                    assert((pv0[i0])@.sn != sv[j].sn);
                }
            }
        }
        assert forall|t: int|
            0 <= t < j + 1 && t < sv.len() && manual_matches(#[trigger] sv[t], fgp, a, b) implies
            exists|i: int|
            0 <= i < picked@.len() && (#[trigger] picked@[i])@.sn == sv[t].sn by {
            if t < j {
                let i0 = choose|i0: int|
                    0 <= i0 < pv0.len() && (#[trigger] pv0[i0])@.sn == sv[t].sn;
                if i0 < pos {
                    assert((picked@[i0])@.sn == sv[t].sn);
                } else {
                    assert((picked@[i0 + 1])@.sn == sv[t].sn);
                }
            } else {
                assert((picked@[pos as int])@.sn == sv[j].sn);
            }
        }
        assert forall|i: int| 0 <= i < picked@.len() implies exists|t: int|
            0 <= t < sv.len() && (#[trigger] picked@[i])@ == sv[t] by {
            if i == pos {
                assert((picked@[i])@ == sv[j]);
            } else {
                let i0 = if i < pos {
                    i
                } else {
                    i - 1
                };
                assert(picked@[i] == pv0[i0]);
                let t = choose|t: int| 0 <= t < sv.len() && ((#[trigger] pv0[i0])@ == sv[t]);
            }
        }
    }
}

/// The manual serialized-mode query: every passing manual row whose
/// finished good starts with `fg` and whose serial lies in the range in
/// either sense, deduplicated by serial keeping a most-recent row, sorted by
/// numeric serial ascending, per [`manual_query_inv`]. The revision is
/// accepted for call-shape fidelity; as in the discovery paths, manual
/// matching goes by the finished good alone.
pub fn query_manual_serialized(
    rows: &Vec<ManualResultRow>,
    fg: &str,
    _rev: &str,
    start_serial: i64,
    end_serial: i64,
) -> (r: Vec<ManualResultRow>)
    ensures
        manual_query_inv(
            r@,
            manual_rows_view(rows@),
            manual_rows_view(rows@).len() as int,
            fg@,
            start_serial as int,
            end_serial as int,
        ),
{
    let fgp = text::str_to_chars(fg);
    let ghost sv = manual_rows_view(rows@);
    let ghost av = start_serial as int;
    let ghost bv = end_serial as int;
    let n = rows.len();
    let mut picked: Vec<ManualResultRow> = Vec::new();
    let mut j: usize = 0;
    while j < n
        invariant
            0 <= j <= n == rows@.len(),
            fgp@ == fg@,
            av == start_serial as int,
            bv == end_serial as int,
            sv == manual_rows_view(rows@),
            sv.len() == n,
            manual_query_inv(picked@, sv, j as int, fg@, av, bv),
        decreases n - j,
    {
        let row = &rows[j];
        proof {
            assert(row@ == sv[j as int]);
        }
        if manual_matches_exec(row, &fgp, start_serial, end_serial) {
            place_manual_row(
                &mut picked,
                row,
                Ghost(sv),
                Ghost(j as int),
                Ghost(fg@),
                Ghost(av),
                Ghost(bv),
            );
        } else {
            proof {
                lemma_manual_query_inv_skip(picked@, sv, j as int, fg@, av, bv);
            }
        }
        j = j + 1;
    }
    picked
}


// ===================== part discovery =====================

proof fn lemma_parts_lex_total(a: Seq<char>, b: Seq<char>)
    ensures
        text::lex_le(a, b) || text::lex_le(b, a),
        text::lex_le(a, b) && text::lex_le(b, a) ==> a == b,
    decreases a.len(),
{
    if a.len() > 0 && b.len() > 0 && a[0] == b[0] {
        lemma_parts_lex_total(a.drop_first(), b.drop_first());
        if text::lex_le(a, b) && text::lex_le(b, a) {
            assert(a =~= seq![a[0]] + a.drop_first());
            assert(b =~= seq![b[0]] + b.drop_first());
        }
    }
}

proof fn lemma_parts_lex_trans(a: Seq<char>, b: Seq<char>, c: Seq<char>)
    requires
        text::lex_le(a, b),
        text::lex_le(b, c),
    ensures
        text::lex_le(a, c),
    decreases a.len(),
{
    if a.len() > 0 && b.len() > 0 && c.len() > 0 && a[0] == b[0] && b[0] == c[0] {
        lemma_parts_lex_trans(a.drop_first(), b.drop_first(), c.drop_first());
    }
}

/// The distinct part numbers of the store, in ascending text order:
/// strictly sorted, every entry a stored part, every stored part present.
#[verifier::rlimit(100)]
pub fn get_all_part_numbers(store: &VoltechStore) -> (r: Vec<String>)
    ensures
        forall|i: int, t: int|
            0 <= i < t < r@.len() ==> text::lex_le((#[trigger] r@[i])@, (#[trigger] r@[t])@)
                && r@[i]@ != r@[t]@,
        forall|i: int|
            0 <= i < r@.len() ==> store@.results.map(
                |t: int, row: TestResultV| row.part,
            ).contains((#[trigger] r@[i])@),
        forall|t: int|
            0 <= t < store@.results.len() ==> r@.map(|i: int, s: String| s@).contains(
                (#[trigger] store@.results[t]).part,
            ),
{
    let ghost sv = store@.results;
    let n = store.results.len();
    let mut parts: Vec<String> = Vec::new();
    let mut j: usize = 0;
    while j < n
        invariant
            0 <= j <= n == store.results@.len(),
            sv == store@.results,
            sv == rows_view(store.results@),
            sv.len() == n,
            forall|i: int, t: int|
                0 <= i < t < parts@.len() ==> text::lex_le(
                    (#[trigger] parts@[i])@,
                    (#[trigger] parts@[t])@,
                ) && parts@[i]@ != parts@[t]@,
            forall|i: int|
                0 <= i < parts@.len() ==> exists|t: int|
                    0 <= t < sv.len() && (#[trigger] parts@[i])@ == sv[t].part,
            forall|t: int|
                0 <= t < j ==> exists|i: int|
                    0 <= i < parts@.len() && (#[trigger] sv[t]).part == parts@[i]@,
        decreases n - j,
    {
        let row = &store.results[j];
        proof {
            assert(row@ == sv[j as int]);
        }
        let pv = text::str_to_chars(row.part.as_str());
        let ghost ps0 = parts@;
        let m = parts.len();
        let mut pos: usize = 0;
        let mut present = false;
        while pos < m && !present
            invariant
                0 <= pos <= m == parts@.len(),
                parts@ == ps0,
                pv@ == sv[j as int].part,
                !present ==> forall|i: int|
                    0 <= i < pos ==> text::lex_le((#[trigger] parts@[i])@, pv@) && parts@[i]@
                        != pv@,
                present ==> pos < m && parts@[pos as int]@ == pv@,
            ensures
                0 <= pos <= m,
                parts@ == ps0,
                present ==> pos < m && parts@[pos as int]@ == pv@,
                !present ==> forall|i: int|
                    0 <= i < pos ==> text::lex_le((#[trigger] parts@[i])@, pv@) && parts@[i]@
                        != pv@,
                !present && pos < m ==> text::lex_le(pv@, parts@[pos as int]@) && pv@ != parts@[
                    pos as int
                ]@,
            decreases m - pos, (if present { 0int } else { 1int }),
        {
            let ev = text::str_to_chars(parts[pos].as_str());
            let le = text::lex_le_chars(&ev, &pv);
            let ge = text::lex_le_chars(&pv, &ev);
            if le && ge {
                proof {
                    lemma_parts_lex_total(parts@[pos as int]@, pv@);
                }
                present = true;
            } else if le {
                pos = pos + 1;
            } else {
                proof {
                    lemma_parts_lex_total(parts@[pos as int]@, pv@);
                    if pv@ == parts@[pos as int]@ {
                        lemma_parts_lex_total(pv@, pv@);
                    }
                }
                break ;
            }
        }
        if !present {
            let fresh = row.part.clone();
            parts.insert(pos, fresh);
            proof {
                assert(parts@.len() == ps0.len() + 1);
                assert(parts@[pos as int]@ == pv@);
                assert(forall|i: int| 0 <= i < pos ==> #[trigger] parts@[i] == ps0[i]);
                assert(forall|i: int|
                    pos < i < parts@.len() ==> #[trigger] parts@[i] == ps0[i - 1]);
                assert forall|i: int, t: int| 0 <= i < t < parts@.len() implies text::lex_le(
                    (#[trigger] parts@[i])@,
                    (#[trigger] parts@[t])@,
                ) && parts@[i]@ != parts@[t]@ by {
                    let i0 = if i < pos {
                        i
                    } else {
                        i - 1
                    };
                    let t0 = if t < pos {
                        t
                    } else {
                        t - 1
                    };
                    if i == pos {
                        assert(parts@[t] == ps0[t0]);
                        assert(t0 >= pos);
                        if pos < ps0.len() {
                            assert(text::lex_le(pv@, ps0[pos as int]@) && pv@ != ps0[
                                pos as int
                            ]@);
                            if t0 > pos {
                                assert(text::lex_le(ps0[pos as int]@, ps0[t0]@) && ps0[
                                    pos as int
                                ]@ != ps0[t0]@);
                                lemma_parts_lex_trans(pv@, ps0[pos as int]@, ps0[t0]@);
                                if pv@ == ps0[t0]@ {
                                    lemma_parts_lex_total(ps0[pos as int]@, ps0[t0]@);
                                }
                            }
                        }
                    } else if t == pos {
                        assert(parts@[i] == ps0[i0]);
                        assert(i0 < pos);
                        assert(text::lex_le(ps0[i0]@, pv@) && ps0[i0]@ != pv@);
                    } else {
                        assert(parts@[i] == ps0[i0] && parts@[t] == ps0[t0]);
                    }
                }
                assert forall|i: int| 0 <= i < parts@.len() implies exists|t: int|
                    0 <= t < sv.len() && (#[trigger] parts@[i])@ == sv[t].part by {
                    if i == pos {
                        assert(parts@[i]@ == sv[j as int].part);
                    } else {
                        let i0 = if i < pos {
                            i
                        } else {
                            i - 1
                        };
                        assert(parts@[i] == ps0[i0]);
                        let t = choose|t: int|
                            0 <= t < sv.len() && ((#[trigger] ps0[i0])@ == sv[t].part);
                    }
                }
                assert forall|t: int| 0 <= t < j + 1 implies exists|i: int|
                    0 <= i < parts@.len() && (#[trigger] sv[t]).part == parts@[i]@ by {
                    if t < j {
                        let i0 = choose|i0: int|
                            0 <= i0 < ps0.len() && ((#[trigger] sv[t]).part == ps0[i0]@);
                        if i0 < pos {
                            assert(sv[t].part == parts@[i0]@);
                        } else {
                            assert(sv[t].part == parts@[i0 + 1]@);
                        }
                    } else {
                        assert(sv[j as int].part == parts@[pos as int]@);
                    }
                }
            }
        } else {
            proof {
                assert forall|t: int| 0 <= t < j + 1 implies exists|i: int|
                    0 <= i < parts@.len() && (#[trigger] sv[t]).part == parts@[i]@ by {
                    if t == j {
                        assert(sv[j as int].part == parts@[pos as int]@);
                    }
                }
            }
        }
        j = j + 1;
    }
    proof {
        assert forall|i: int| 0 <= i < parts@.len() implies store@.results.map(
            |t: int, row: TestResultV| row.part,
        ).contains((#[trigger] parts@[i])@) by {
            let t = choose|t: int| 0 <= t < sv.len() && ((#[trigger] parts@[i])@ == sv[t].part);
            let mapped = store@.results.map(|t2: int, row: TestResultV| row.part);
            assert(mapped[t] == parts@[i]@);
        }
        assert forall|t: int| 0 <= t < store@.results.len() implies parts@.map(
            |q: int, s: String| s@,
        ).contains((#[trigger] store@.results[t]).part) by {
            assert(sv[t].part == store@.results[t].part);
            let i = choose|i: int| 0 <= i < parts@.len() && ((#[trigger] sv[t]).part == parts@[i]@);
            let mapped = parts@.map(|q: int, s: String| s@);
            assert(mapped[i] == store@.results[t].part);
        }
    }
    parts
}

} // verus!
