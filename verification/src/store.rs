//! The Voltech measurement store: result rows under the
//! `(file_path, result_num)` idempotency key, the processed-file ledger that
//! short-circuits unchanged files, parse-error records, a key/value settings
//! table kept sorted, and the single advisory watcher lock.

use vstd::prelude::*;
use crate::model::{TestResultV, TestResultRow, rows_view};
use crate::text;

verus! {

/// How many seconds without a heartbeat make the watcher lock stale.
pub open spec fn stale_threshold() -> int {
    120
}

// ===================== record types =====================

/// The view of a processed-file record.
pub struct ProcessedV {
    pub file_path: Seq<char>,
    pub relative_path: Option<Seq<char>>,
    pub file_size: i32,
    pub file_modified: i32,
    pub record_count: i32,
    pub processed_at: i64,
}

/// One processed-file record: which file was ingested, at what size and
/// modification time, and how many rows it yielded.
#[derive(Debug)]
pub struct ProcessedFileRec {
    pub file_path: String,
    pub relative_path: Option<String>,
    pub file_size: i32,
    pub file_modified: i32,
    pub record_count: i32,
    pub processed_at: i64,
}

impl View for ProcessedFileRec {
    type V = ProcessedV;

    open spec fn view(&self) -> ProcessedV {
        ProcessedV {
            file_path: self.file_path@,
            relative_path: match &self.relative_path {
                Some(p) => Some(p@),
                None => None,
            },
            file_size: self.file_size,
            file_modified: self.file_modified,
            record_count: self.record_count,
            processed_at: self.processed_at,
        }
    }
}

impl ProcessedFileRec {
    /// A copy with the same view.
    pub fn duplicate(&self) -> (r: ProcessedFileRec)
        ensures
            r@ == self@,
    {
        ProcessedFileRec {
            file_path: self.file_path.clone(),
            relative_path: crate::model::duplicate_opt_string(&self.relative_path),
            file_size: self.file_size,
            file_modified: self.file_modified,
            record_count: self.record_count,
            processed_at: self.processed_at,
        }
    }
}

/// The view of a parse-error record.
pub struct ParseErrorV {
    pub id: i32,
    pub file_path: Seq<char>,
    pub error_message: Seq<char>,
    pub line_number: Option<i32>,
    pub timestamp: i64,
    pub acknowledged: bool,
}

/// One logged parse error, append-only until acknowledged.
#[derive(Debug)]
pub struct ParseErrorRec {
    pub id: i32,
    pub file_path: String,
    pub error_message: String,
    pub line_number: Option<i32>,
    pub timestamp: i64,
    pub acknowledged: bool,
}

impl View for ParseErrorRec {
    type V = ParseErrorV;

    open spec fn view(&self) -> ParseErrorV {
        ParseErrorV {
            id: self.id,
            file_path: self.file_path@,
            error_message: self.error_message@,
            line_number: self.line_number,
            timestamp: self.timestamp,
            acknowledged: self.acknowledged,
        }
    }
}

impl ParseErrorRec {
    /// A copy with the same view.
    pub fn duplicate(&self) -> (r: ParseErrorRec)
        ensures
            r@ == self@,
    {
        ParseErrorRec {
            id: self.id,
            file_path: self.file_path.clone(),
            error_message: self.error_message.clone(),
            line_number: self.line_number,
            timestamp: self.timestamp,
            acknowledged: self.acknowledged,
        }
    }
}

/// The view of the watcher lock row.
pub struct LockV {
    pub holder_id: Seq<char>,
    pub holder_name: Seq<char>,
    pub acquired_at: i64,
    pub last_heartbeat: i64,
    pub is_active: bool,
}

/// The single advisory lock row: who watches, since when, and whether the
/// claim is live.
#[derive(Debug)]
pub struct LockRow {
    pub holder_id: String,
    pub holder_name: String,
    pub acquired_at: i64,
    pub last_heartbeat: i64,
    pub is_active: bool,
}

impl View for LockRow {
    type V = LockV;

    open spec fn view(&self) -> LockV {
        LockV {
            holder_id: self.holder_id@,
            holder_name: self.holder_name@,
            acquired_at: self.acquired_at,
            last_heartbeat: self.last_heartbeat,
            is_active: self.is_active,
        }
    }
}

impl LockRow {
    /// A copy with the same view.
    pub fn duplicate(&self) -> (r: LockRow)
        ensures
            r@ == self@,
    {
        LockRow {
            holder_id: self.holder_id.clone(),
            holder_name: self.holder_name.clone(),
            acquired_at: self.acquired_at,
            last_heartbeat: self.last_heartbeat,
            is_active: self.is_active,
        }
    }
}

/// One settings entry.
#[derive(Debug)]
pub struct SettingRec {
    pub key: String,
    pub value: String,
    pub updated_at: i64,
}

impl View for SettingRec {
    type V = (Seq<char>, Seq<char>, i64);

    open spec fn view(&self) -> (Seq<char>, Seq<char>, i64) {
        (self.key@, self.value@, self.updated_at)
    }
}

impl SettingRec {
    /// A copy with the same view.
    pub fn duplicate(&self) -> (r: SettingRec)
        ensures
            r@ == self@,
    {
        SettingRec { key: self.key.clone(), value: self.value.clone(), updated_at: self.updated_at }
    }
}

// ===================== the store =====================

/// The view of the whole store.
#[verifier::ext_equal]
pub struct StoreV {
    pub results: Seq<TestResultV>,
    pub processed: Seq<ProcessedV>,
    pub errors: Seq<ParseErrorV>,
    pub settings: Seq<(Seq<char>, Seq<char>, i64)>,
    pub lock: Option<LockV>,
    pub next_error_id: i32,
}

/// The Voltech measurement store.
pub struct VoltechStore {
    pub results: Vec<TestResultRow>,
    pub processed: Vec<ProcessedFileRec>,
    pub errors: Vec<ParseErrorRec>,
    pub settings: Vec<SettingRec>,
    pub lock: Option<LockRow>,
    pub next_error_id: i32,
}

impl View for VoltechStore {
    type V = StoreV;

    open spec fn view(&self) -> StoreV {
        StoreV {
            results: rows_view(self.results@),
            processed: self.processed@.map(|i: int, r: ProcessedFileRec| r@),
            errors: self.errors@.map(|i: int, r: ParseErrorRec| r@),
            settings: self.settings@.map(|i: int, r: SettingRec| r@),
            lock: match &self.lock {
                Some(l) => Some(l@),
                None => None,
            },
            next_error_id: self.next_error_id,
        }
    }
}

/// No two result rows share the `(file_path, result_num)` key: the
/// uniqueness every insert preserves.
pub open spec fn results_unique(rs: Seq<TestResultV>) -> bool {
    forall|i: int, j: int|
        0 <= i < j < rs.len() ==> !((#[trigger] rs[i]).file_path == (#[trigger] rs[j]).file_path
            && rs[i].result_num == rs[j].result_num)
}

/// No two processed-file records share a path.
pub open spec fn processed_unique(ps: Seq<ProcessedV>) -> bool {
    forall|i: int, j: int|
        0 <= i < j < ps.len() ==> (#[trigger] ps[i]).file_path != (#[trigger] ps[j]).file_path
}

/// The settings table is strictly sorted by key.
pub open spec fn settings_sorted(ss: Seq<(Seq<char>, Seq<char>, i64)>) -> bool {
    forall|i: int, j: int|
        0 <= i < j < ss.len() ==> text::lex_le((#[trigger] ss[i]).0, (#[trigger] ss[j]).0)
            && ss[i].0 != ss[j].0
}

impl StoreV {
    /// Store well-formedness: unique result keys, unique processed paths,
    /// sorted settings, and error identifiers below the next free one.
    pub open spec fn wf(self) -> bool {
        &&& results_unique(self.results)
        &&& processed_unique(self.processed)
        &&& settings_sorted(self.settings)
        &&& forall|i: int|
            0 <= i < self.errors.len() ==> (#[trigger] self.errors[i]).id < self.next_error_id
    }
}

impl VoltechStore {
    /// An empty store.
    pub fn new() -> (r: VoltechStore)
        ensures
            r@.wf(),
            r@.results.len() == 0,
            r@.processed.len() == 0,
            r@.errors.len() == 0,
            r@.settings.len() == 0,
            r@.lock is None,
            r@.next_error_id == 1,
    {
        let r = VoltechStore {
            results: Vec::new(),
            processed: Vec::new(),
            errors: Vec::new(),
            settings: Vec::new(),
            lock: None,
            next_error_id: 1,
        };
        proof {
            assert(r@.results =~= Seq::<TestResultV>::empty());
            assert(r@.processed =~= Seq::<ProcessedV>::empty());
            assert(r@.errors =~= Seq::<ParseErrorV>::empty());
            assert(r@.settings =~= Seq::<(Seq<char>, Seq<char>, i64)>::empty());
        }
        r
    }
}

// ===================== processed-file tracking =====================

/// The index of the first processed record for `fp`, or a negative value.
pub open spec fn find_processed(ps: Seq<ProcessedV>, fp: Seq<char>) -> int
    decreases ps.len(),
{
    if ps.len() == 0 {
        -1
    } else if ps[0].file_path == fp {
        0
    } else {
        let r = find_processed(ps.drop_first(), fp);
        if r < 0 {
            -1
        } else {
            r + 1
        }
    }
}

/// What [`find_processed`] returns.
pub proof fn lemma_find_processed(ps: Seq<ProcessedV>, fp: Seq<char>)
    ensures
        find_processed(ps, fp) < 0 ==> forall|i: int|
            0 <= i < ps.len() ==> (#[trigger] ps[i]).file_path != fp,
        find_processed(ps, fp) >= 0 ==> 0 <= find_processed(ps, fp) < ps.len() && ps[find_processed(
            ps,
            fp,
        )].file_path == fp && forall|i: int|
            0 <= i < find_processed(ps, fp) ==> (#[trigger] ps[i]).file_path != fp,
    decreases ps.len(),
{
    if ps.len() > 0 && ps[0].file_path != fp {
        let t = ps.drop_first();
        lemma_find_processed(t, fp);
        let r = find_processed(t, fp);
        if r < 0 {
            assert forall|i: int| 0 <= i < ps.len() implies (#[trigger] ps[i]).file_path != fp by {
                if i >= 1 {
                    assert(t[i - 1].file_path != fp);
                }
            }
        } else {
            assert(ps[r + 1].file_path == t[r].file_path);
            assert forall|i: int| 0 <= i < r + 1 implies (#[trigger] ps[i]).file_path != fp by {
                if i >= 1 {
                    assert(t[i - 1].file_path != fp);
                }
            }
        }
    }
}

/// A file needs processing: no record of it exists, or its size or
/// modification time differ from the record.
pub open spec fn spec_needs_processing(
    ps: Seq<ProcessedV>,
    fp: Seq<char>,
    size: i32,
    modified: i32,
) -> bool {
    let i = find_processed(ps, fp);
    if i < 0 {
        true
    } else {
        ps[i].file_size != size || ps[i].file_modified != modified
    }
}

/// The ledger after marking `fp` processed: the record for `fp` is replaced
/// in place, or appended if none exists. The relative path of an existing
/// record is kept.
pub open spec fn spec_mark_processed(
    ps: Seq<ProcessedV>,
    fp: Seq<char>,
    size: i32,
    modified: i32,
    count: i32,
    now: i64,
) -> Seq<ProcessedV> {
    let i = find_processed(ps, fp);
    if i < 0 {
        ps.push(
            ProcessedV {
                file_path: fp,
                relative_path: None,
                file_size: size,
                file_modified: modified,
                record_count: count,
                processed_at: now,
            },
        )
    } else {
        ps.update(
            i,
            ProcessedV {
                file_path: fp,
                relative_path: ps[i].relative_path,
                file_size: size,
                file_modified: modified,
                record_count: count,
                processed_at: now,
            },
        )
    }
}

/// Marking keeps paths unique.
pub proof fn lemma_mark_processed_unique(
    ps: Seq<ProcessedV>,
    fp: Seq<char>,
    size: i32,
    modified: i32,
    count: i32,
    now: i64,
)
    requires
        processed_unique(ps),
    ensures
        processed_unique(spec_mark_processed(ps, fp, size, modified, count, now)),
{
    lemma_find_processed(ps, fp);
    let i = find_processed(ps, fp);
    let r = spec_mark_processed(ps, fp, size, modified, count, now);
    if i < 0 {
        assert forall|a: int, b: int| 0 <= a < b < r.len() implies (#[trigger] r[a]).file_path != (
        #[trigger] r[b]).file_path by {
            if b == r.len() - 1 {
                assert(r[a] == ps[a]);
                assert(r[b].file_path == fp);
            }
        }
    } else {
        assert forall|a: int, b: int| 0 <= a < b < r.len() implies (#[trigger] r[a]).file_path != (
        #[trigger] r[b]).file_path by {
            assert(ps[i].file_path == fp);
            if a != i && b != i {
                assert(r[a] == ps[a] && r[b] == ps[b]);
            } else if a == i {
                assert(r[b] == ps[b]);
            } else {
                assert(r[a] == ps[a]);
            }
        }
    }
}

/// After marking, the file no longer needs processing at that size and
/// time: the heart of idempotent re-scans.
pub proof fn lemma_mark_then_no_reprocess(
    ps: Seq<ProcessedV>,
    fp: Seq<char>,
    size: i32,
    modified: i32,
    count: i32,
    now: i64,
)
    ensures
        !spec_needs_processing(spec_mark_processed(ps, fp, size, modified, count, now), fp, size, modified),
{
    lemma_find_processed(ps, fp);
    let r = spec_mark_processed(ps, fp, size, modified, count, now);
    lemma_find_processed(r, fp);
    let i = find_processed(ps, fp);
    let j = find_processed(r, fp);
    if i < 0 {
        assert(r[r.len() - 1].file_path == fp);
        if j < 0 {
            assert(r[r.len() - 1].file_path != fp);
        }
        assert(r[j].file_size == size && r[j].file_modified == modified) by {
            if j < r.len() - 1 {
                assert(r[j] == ps[j]);
            }
        }
    } else {
        assert(r[i].file_path == fp);
        if j < 0 {
            assert(r[i].file_path != fp);
        }
        if j < i {
            assert(r[j] == ps[j]);
            assert(ps[j].file_path != fp);
        }
        if j > i {
            assert(r[i].file_path != fp);
        }
        assert(j == i);
    }
}

fn find_processed_exec(ps: &Vec<ProcessedFileRec>, fp: &str) -> (r: Option<usize>)
    ensures
        match r {
            Some(i) => i < ps@.len() && find_processed(ps@.map(|t: int, p: ProcessedFileRec| p@), fp@)
                == i,
            None => find_processed(ps@.map(|t: int, p: ProcessedFileRec| p@), fp@) < 0,
        },
{
    let ghost pv = ps@.map(|t: int, p: ProcessedFileRec| p@);
    let n = ps.len();
    let fps = String::from_str(fp);
    let mut i: usize = 0;
    while i < n
        invariant
            0 <= i <= n == ps@.len(),
            pv == ps@.map(|t: int, p: ProcessedFileRec| p@),
            pv.len() == n,
            fps@ == fp@,
            forall|t: int| 0 <= t < i ==> (#[trigger] pv[t]).file_path != fp@,
        decreases n - i,
    {
        if ps[i].file_path == fps {
            proof {
                assert(pv[i as int].file_path == fp@);
                lemma_find_processed_at(pv, fp@, i as int);
            }
            return Some(i);
        }
        i = i + 1;
    }
    proof {
        lemma_find_processed(pv, fp@);
        if find_processed(pv, fp@) >= 0 {
            assert(pv[find_processed(pv, fp@)].file_path == fp@);
        }
    }
    None
}

/// The first match is exactly where the scan stops.
proof fn lemma_find_processed_at(ps: Seq<ProcessedV>, fp: Seq<char>, i: int)
    requires
        0 <= i < ps.len(),
        ps[i].file_path == fp,
        forall|t: int| 0 <= t < i ==> (#[trigger] ps[t]).file_path != fp,
    ensures
        find_processed(ps, fp) == i,
    decreases i,
{
    if i > 0 {
        lemma_find_processed_at(ps.drop_first(), fp, i - 1);
    }
}

impl VoltechStore {
    /// Whether a file must be (re)processed, per [`spec_needs_processing`]:
    /// true exactly when no processed record exists for the path or its
    /// size or modification time differ.
    pub fn needs_processing(&self, file_path: &str, file_size: i32, file_modified: i32) -> (r:
        bool)
        ensures
            r == spec_needs_processing(self@.processed, file_path@, file_size, file_modified),
    {
        match find_processed_exec(&self.processed, file_path) {
            None => true,
            Some(i) => {
                let rec = &self.processed[i];
                proof {
                    assert(rec@ == self@.processed[i as int]);
                }
                rec.file_size != file_size || rec.file_modified != file_modified
            },
        }
    }

    /// Marks a file processed, per [`spec_mark_processed`]: an upsert keyed
    /// on the path. Afterwards the same size and time need no processing.
    pub fn mark_file_processed(
        &mut self,
        file_path: &str,
        file_size: i32,
        file_modified: i32,
        record_count: i32,
        now: i64,
    )
        ensures
            final(self)@ == (StoreV {
                processed: spec_mark_processed(
                    old(self)@.processed,
                    file_path@,
                    file_size,
                    file_modified,
                    record_count,
                    now,
                ),
                ..old(self)@
            }),
            !spec_needs_processing(final(self)@.processed, file_path@, file_size, file_modified),
            old(self)@.wf() ==> final(self)@.wf(),
    {
        let ghost ps0 = self@.processed;
        let found = find_processed_exec(&self.processed, file_path);
        match found {
            None => {
                let rec = ProcessedFileRec {
                    file_path: String::from_str(file_path),
                    relative_path: None,
                    file_size,
                    file_modified,
                    record_count,
                    processed_at: now,
                };
                self.processed.push(rec);
                proof {
                    assert(self@.processed =~= spec_mark_processed(
                        ps0,
                        file_path@,
                        file_size,
                        file_modified,
                        record_count,
                        now,
                    ));
                }
            },
            Some(i) => {
                let old_rec = self.processed.remove(i);
                let rec = ProcessedFileRec {
                    file_path: String::from_str(file_path),
                    relative_path: old_rec.relative_path,
                    file_size,
                    file_modified,
                    record_count,
                    processed_at: now,
                };
                self.processed.insert(i, rec);
                proof {
                    assert(self@.processed =~= spec_mark_processed(
                        ps0,
                        file_path@,
                        file_size,
                        file_modified,
                        record_count,
                        now,
                    ));
                }
            },
        }
        proof {
            lemma_mark_then_no_reprocess(
                ps0,
                file_path@,
                file_size,
                file_modified,
                record_count,
                now,
            );
            if old(self)@.wf() {
                lemma_mark_processed_unique(
                    ps0,
                    file_path@,
                    file_size,
                    file_modified,
                    record_count,
                    now,
                );
            }
        }
    }
}

// ===================== relative-path tracking =====================

/// The index of the first processed record keyed on relative path `rp`, or
/// a negative value.
pub open spec fn find_relative(ps: Seq<ProcessedV>, rp: Seq<char>) -> int
    decreases ps.len(),
{
    if ps.len() == 0 {
        -1
    } else if ps[0].relative_path == Some(rp) {
        0
    } else {
        let r = find_relative(ps.drop_first(), rp);
        if r < 0 {
            -1
        } else {
            r + 1
        }
    }
}

/// What [`find_relative`] returns.
pub proof fn lemma_find_relative(ps: Seq<ProcessedV>, rp: Seq<char>)
    ensures
        find_relative(ps, rp) < 0 ==> forall|i: int|
            0 <= i < ps.len() ==> (#[trigger] ps[i]).relative_path != Some(rp),
        find_relative(ps, rp) >= 0 ==> 0 <= find_relative(ps, rp) < ps.len() && ps[find_relative(
            ps,
            rp,
        )].relative_path == Some(rp) && forall|i: int|
            0 <= i < find_relative(ps, rp) ==> (#[trigger] ps[i]).relative_path != Some(rp),
    decreases ps.len(),
{
    if ps.len() > 0 && ps[0].relative_path != Some(rp) {
        let t = ps.drop_first();
        lemma_find_relative(t, rp);
        let r = find_relative(t, rp);
        if r < 0 {
            assert forall|i: int| 0 <= i < ps.len() implies (#[trigger] ps[i]).relative_path
                != Some(rp) by {
                if i >= 1 {
                    assert(t[i - 1].relative_path != Some(rp));
                }
            }
        } else {
            assert forall|i: int| 0 <= i < r + 1 implies (#[trigger] ps[i]).relative_path != Some(
                rp,
            ) by {
                if i >= 1 {
                    assert(t[i - 1].relative_path != Some(rp));
                }
            }
        }
    }
}

/// A file needs processing under relative-path tracking: no record keyed on
/// the relative path exists, or its size or modification time differ.
pub open spec fn spec_needs_processing_relative(
    ps: Seq<ProcessedV>,
    rp: Seq<char>,
    size: i32,
    modified: i32,
) -> bool {
    let i = find_relative(ps, rp);
    if i < 0 {
        true
    } else {
        ps[i].file_size != size || ps[i].file_modified != modified
    }
}

/// The ledger after marking a file processed under its relative path: the
/// record keyed on the relative path is refreshed in place; failing that,
/// the record of the same absolute path adopts the relative key; failing
/// both, a new record is appended.
pub open spec fn spec_mark_processed_relative(
    ps: Seq<ProcessedV>,
    full: Seq<char>,
    rp: Seq<char>,
    size: i32,
    modified: i32,
    count: i32,
    now: i64,
) -> Seq<ProcessedV> {
    let i = find_relative(ps, rp);
    if i >= 0 {
        ps.update(
            i,
            ProcessedV {
                file_path: ps[i].file_path,
                relative_path: Some(rp),
                file_size: size,
                file_modified: modified,
                record_count: count,
                processed_at: now,
            },
        )
    } else {
        let j = find_processed(ps, full);
        if j >= 0 {
            ps.update(
                j,
                ProcessedV {
                    file_path: full,
                    relative_path: Some(rp),
                    file_size: size,
                    file_modified: modified,
                    record_count: count,
                    processed_at: now,
                },
            )
        } else {
            ps.push(
                ProcessedV {
                    file_path: full,
                    relative_path: Some(rp),
                    file_size: size,
                    file_modified: modified,
                    record_count: count,
                    processed_at: now,
                },
            )
        }
    }
}

fn find_relative_exec(ps: &Vec<ProcessedFileRec>, rp: &str) -> (r: Option<usize>)
    ensures
        (match r {
            Some(i) => i < ps@.len() && find_relative(
                ps@.map(|t: int, p: ProcessedFileRec| p@),
                rp@,
            ) == i,
            None => find_relative(ps@.map(|t: int, p: ProcessedFileRec| p@), rp@) < 0,
        }),
{
    let ghost pv = ps@.map(|t: int, p: ProcessedFileRec| p@);
    let n = ps.len();
    let rps = String::from_str(rp);
    let mut i: usize = 0;
    while i < n
        invariant
            0 <= i <= n == ps@.len(),
            pv == ps@.map(|t: int, p: ProcessedFileRec| p@),
            pv.len() == n,
            rps@ == rp@,
            forall|t: int| 0 <= t < i ==> (#[trigger] pv[t]).relative_path != Some(rp@),
        decreases n - i,
    {
        let hit = match &ps[i].relative_path {
            Some(p) => *p == rps,
            None => false,
        };
        if hit {
            proof {
                assert(pv[i as int].relative_path == Some(rp@));
                lemma_find_relative_at(pv, rp@, i as int);
            }
            return Some(i);
        }
        proof {
            assert(pv[i as int].relative_path != Some(rp@));
        }
        i = i + 1;
    }
    proof {
        lemma_find_relative(pv, rp@);
        if find_relative(pv, rp@) >= 0 {
            assert(pv[find_relative(pv, rp@)].relative_path == Some(rp@));
        }
    }
    None
}

proof fn lemma_find_relative_at(ps: Seq<ProcessedV>, rp: Seq<char>, i: int)
    requires
        0 <= i < ps.len(),
        ps[i].relative_path == Some(rp),
        forall|t: int| 0 <= t < i ==> (#[trigger] ps[t]).relative_path != Some(rp),
    ensures
        find_relative(ps, rp) == i,
    decreases i,
{
    if i > 0 {
        lemma_find_relative_at(ps.drop_first(), rp, i - 1);
    }
}

impl VoltechStore {
    /// Whether a file must be (re)processed under relative-path tracking,
    /// per [`spec_needs_processing_relative`] — the variant used when the
    /// configured root can change.
    pub fn needs_processing_relative(
        &self,
        relative_path: &str,
        file_size: i32,
        file_modified: i32,
    ) -> (r: bool)
        ensures
            r == spec_needs_processing_relative(
                self@.processed,
                relative_path@,
                file_size,
                file_modified,
            ),
    {
        match find_relative_exec(&self.processed, relative_path) {
            None => true,
            Some(i) => {
                let rec = &self.processed[i];
                proof {
                    assert(rec@ == self@.processed[i as int]);
                }
                rec.file_size != file_size || rec.file_modified != file_modified
            },
        }
    }

    /// Marks a file processed under its relative path, per
    /// [`spec_mark_processed_relative`]. Afterwards the same size and time
    /// need no relative-keyed processing.
    pub fn mark_file_processed_relative(
        &mut self,
        file_path: &str,
        relative_path: &str,
        file_size: i32,
        file_modified: i32,
        record_count: i32,
        now: i64,
    )
        ensures
            final(self)@ == (StoreV {
                processed: spec_mark_processed_relative(
                    old(self)@.processed,
                    file_path@,
                    relative_path@,
                    file_size,
                    file_modified,
                    record_count,
                    now,
                ),
                ..old(self)@
            }),
            !spec_needs_processing_relative(
                final(self)@.processed,
                relative_path@,
                file_size,
                file_modified,
            ),
            old(self)@.wf() ==> final(self)@.wf(),
    {
        let ghost ps0 = self@.processed;
        let found_rel = find_relative_exec(&self.processed, relative_path);
        match found_rel {
            Some(i) => {
                let old_rec = self.processed.remove(i);
                let rec = ProcessedFileRec {
                    file_path: old_rec.file_path,
                    relative_path: Some(String::from_str(relative_path)),
                    file_size,
                    file_modified,
                    record_count,
                    processed_at: now,
                };
                self.processed.insert(i, rec);
                proof {
                    lemma_find_relative(ps0, relative_path@);
                    assert(self@.processed =~= spec_mark_processed_relative(
                        ps0,
                        file_path@,
                        relative_path@,
                        file_size,
                        file_modified,
                        record_count,
                        now,
                    ));
                    let pn = self@.processed;
                    assert(pn[i as int].relative_path == Some(relative_path@));
                    assert forall|t: int| 0 <= t < i implies (#[trigger] pn[t]).relative_path
                        != Some(relative_path@) by {
                        assert(pn[t] == ps0[t]);
                    }
                    lemma_find_relative_at(pn, relative_path@, i as int);
                    if old(self)@.wf() {
                        assert forall|x: int, y: int| 0 <= x < y < pn.len() implies (
                        #[trigger] pn[x]).file_path != (#[trigger] pn[y]).file_path by {
                            assert(pn[x].file_path == ps0[x].file_path);
                            assert(pn[y].file_path == ps0[y].file_path);
                        }
                    }
                }
            },
            None => {
                let found_abs = find_processed_exec(&self.processed, file_path);
                match found_abs {
                    Some(j) => {
                        self.processed.remove(j);
                        let rec = ProcessedFileRec {
                            file_path: String::from_str(file_path),
                            relative_path: Some(String::from_str(relative_path)),
                            file_size,
                            file_modified,
                            record_count,
                            processed_at: now,
                        };
                        self.processed.insert(j, rec);
                        proof {
                            lemma_find_processed(ps0, file_path@);
                            assert(ps0[j as int].file_path == file_path@);
                            assert(self@.processed =~= spec_mark_processed_relative(
                                ps0,
                                file_path@,
                                relative_path@,
                                file_size,
                                file_modified,
                                record_count,
                                now,
                            ));
                            let pn = self@.processed;
                            lemma_find_relative(ps0, relative_path@);
                            assert(pn[j as int].relative_path == Some(relative_path@));
                            assert forall|t: int| 0 <= t < j implies (
                            #[trigger] pn[t]).relative_path != Some(relative_path@) by {
                                assert(pn[t] == ps0[t]);
                            }
                            lemma_find_relative_at(pn, relative_path@, j as int);
                            if old(self)@.wf() {
                                assert forall|x: int, y: int| 0 <= x < y < pn.len() implies (
                                #[trigger] pn[x]).file_path != (#[trigger] pn[y]).file_path by {
                                    if x != j && y != j {
                                        assert(pn[x] == ps0[x] && pn[y] == ps0[y]);
                                    } else if x == j {
                                        assert(pn[y] == ps0[y]);
                                        assert(pn[x].file_path == ps0[j as int].file_path);
                                    } else {
                                        assert(pn[x] == ps0[x]);
                                        assert(pn[y].file_path == ps0[j as int].file_path);
                                    }
                                }
                            }
                        }
                    },
                    None => {
                        let rec = ProcessedFileRec {
                            file_path: String::from_str(file_path),
                            relative_path: Some(String::from_str(relative_path)),
                            file_size,
                            file_modified,
                            record_count,
                            processed_at: now,
                        };
                        self.processed.push(rec);
                        proof {
                            lemma_find_processed(ps0, file_path@);
                            lemma_find_relative(ps0, relative_path@);
                            assert(self@.processed =~= spec_mark_processed_relative(
                                ps0,
                                file_path@,
                                relative_path@,
                                file_size,
                                file_modified,
                                record_count,
                                now,
                            ));
                            let pn = self@.processed;
                            assert(pn[pn.len() - 1].relative_path == Some(relative_path@));
                            assert forall|t: int| 0 <= t < pn.len() - 1 implies (
                            #[trigger] pn[t]).relative_path != Some(relative_path@) by {
                                assert(pn[t] == ps0[t]);
                            }
                            lemma_find_relative_at(pn, relative_path@, pn.len() - 1);
                            if old(self)@.wf() {
                                assert forall|x: int, y: int| 0 <= x < y < pn.len() implies (
                                #[trigger] pn[x]).file_path != (#[trigger] pn[y]).file_path by {
                                    if y == pn.len() - 1 {
                                        assert(pn[x] == ps0[x]);
                                        assert(pn[y].file_path == file_path@);
                                        assert(ps0[x].file_path != file_path@);
                                    } else {
                                        assert(pn[x] == ps0[x] && pn[y] == ps0[y]);
                                    }
                                }
                            }
                        }
                    },
                }
            },
        }
    }
}

// ===================== result insertion =====================

/// Some row already holds the `(file_path, result_num)` key.
pub open spec fn has_result_key(rs: Seq<TestResultV>, fp: Seq<char>, rn: i32) -> bool {
    exists|i: int| 0 <= i < rs.len() && (#[trigger] rs[i]).file_path == fp && rs[i].result_num == rn
}

/// The rows after a bulk insert with conflicts skipped, and how many were
/// inserted: each incoming row, stamped with `now`, is appended exactly when
/// its key is not yet present.
pub open spec fn spec_insert_rows(rs: Seq<TestResultV>, rows: Seq<TestResultV>, now: i64) -> (
    Seq<TestResultV>,
    int,
)
    decreases rows.len(),
{
    if rows.len() == 0 {
        (rs, 0)
    } else {
        let r0 = TestResultV { created_at: now, ..rows[0] };
        if has_result_key(rs, r0.file_path, r0.result_num) {
            spec_insert_rows(rs, rows.drop_first(), now)
        } else {
            let rec = spec_insert_rows(rs.push(r0), rows.drop_first(), now);
            (rec.0, rec.1 + 1)
        }
    }
}

/// Inserting never breaks key uniqueness, never removes a row, and never
/// duplicates a key.
pub proof fn lemma_insert_rows_unique(rs: Seq<TestResultV>, rows: Seq<TestResultV>, now: i64)
    requires
        results_unique(rs),
    ensures
        results_unique(spec_insert_rows(rs, rows, now).0),
        spec_insert_rows(rs, rows, now).0.len() == rs.len() + spec_insert_rows(rs, rows, now).1,
        forall|i: int|
            0 <= i < rs.len() ==> spec_insert_rows(rs, rows, now).0[i] == #[trigger] rs[i],
    decreases rows.len(),
{
    if rows.len() > 0 {
        let r0 = TestResultV { created_at: now, ..rows[0] };
        if has_result_key(rs, r0.file_path, r0.result_num) {
            lemma_insert_rows_unique(rs, rows.drop_first(), now);
        } else {
            let rs2 = rs.push(r0);
            assert(results_unique(rs2)) by {
                assert forall|a: int, b: int| 0 <= a < b < rs2.len() implies !((
                #[trigger] rs2[a]).file_path == (#[trigger] rs2[b]).file_path && rs2[a].result_num
                    == rs2[b].result_num) by {
                    if b == rs2.len() - 1 {
                        assert(rs2[a] == rs[a]);
                        if rs[a].file_path == r0.file_path && rs[a].result_num == r0.result_num {
                            assert(has_result_key(rs, r0.file_path, r0.result_num));
                        }
                    }
                }
            }
            lemma_insert_rows_unique(rs2, rows.drop_first(), now);
            assert forall|i: int| 0 <= i < rs.len() implies spec_insert_rows(rs, rows, now).0[i]
                == #[trigger] rs[i] by {
                assert(spec_insert_rows(rs2, rows.drop_first(), now).0[i] == rs2[i]);
                assert(rs2[i] == rs[i]);
            }
        }
    }
}

fn has_result_key_exec(rs: &Vec<TestResultRow>, fp: &String, rn: i32) -> (r: bool)
    ensures
        r == has_result_key(rows_view(rs@), fp@, rn),
{
    let ghost rv = rows_view(rs@);
    let n = rs.len();
    let mut i: usize = 0;
    while i < n
        invariant
            0 <= i <= n == rs@.len(),
            rv == rows_view(rs@),
            rv.len() == n,
            forall|t: int|
                0 <= t < i ==> !((#[trigger] rv[t]).file_path == fp@ && rv[t].result_num == rn),
        decreases n - i,
    {
        if rs[i].file_path == *fp && rs[i].result_num == rn {
            proof {
                assert(rv[i as int].file_path == fp@ && rv[i as int].result_num == rn);
            }
            return true;
        }
        i = i + 1;
    }
    false
}

impl VoltechStore {
    /// Bulk-inserts parsed rows under the `ON CONFLICT DO NOTHING` policy on
    /// `(file_path, result_num)`, per [`spec_insert_rows`]; returns how many
    /// rows were inserted. Re-running the same batch inserts nothing.
    pub fn insert_results(&mut self, rows: &Vec<TestResultRow>, now: i64) -> (count: usize)
        ensures
            final(self)@ == (StoreV {
                results: spec_insert_rows(old(self)@.results, rows_view(rows@), now).0,
                ..old(self)@
            }),
            count == spec_insert_rows(old(self)@.results, rows_view(rows@), now).1,
            old(self)@.wf() ==> final(self)@.wf(),
    {
        let ghost rs0 = self@.results;
        let ghost rowsv = rows_view(rows@);
        let ghost others = StoreV { results: Seq::empty(), ..self@ };
        let n = rows.len();
        let mut count: usize = 0;
        let mut i: usize = 0;
        proof {
            assert(rowsv.skip(0) =~= rowsv);
        }
        while i < n
            invariant
                0 <= i <= n == rows@.len(),
                rowsv == rows_view(rows@),
                rowsv.len() == n,
                count <= i,
                spec_insert_rows(rs0, rowsv, now).0 == spec_insert_rows(
                    self@.results,
                    rowsv.skip(i as int),
                    now,
                ).0,
                spec_insert_rows(rs0, rowsv, now).1 == count + spec_insert_rows(
                    self@.results,
                    rowsv.skip(i as int),
                    now,
                ).1,
                self@ == (StoreV { results: self@.results, ..old(self)@ }),
            decreases n - i,
        {
            let ghost rest = rowsv.skip(i as int);
            proof {
                assert(rest[0] == rowsv[i as int]);
                assert(rest.drop_first() =~= rowsv.skip(i + 1 as int));
            }
            let row = &rows[i];
            proof {
                assert(row@ == rowsv[i as int]);
            }
            if !has_result_key_exec(&self.results, &row.file_path, row.result_num) {
                let mut stamped = row.duplicate();
                stamped.created_at = now;
                let ghost cur = rows_view(self.results@);
                proof {
                    assert(stamped@ == (TestResultV { created_at: now, ..rest[0] }));
                }
                self.results.push(stamped);
                count = count + 1;
                proof {
                    assert(rows_view(self.results@) =~= cur.push(
                        TestResultV { created_at: now, ..rest[0] },
                    ));
                }
            }
            i = i + 1;
        }
        proof {
            assert(rowsv.skip(n as int) =~= Seq::<TestResultV>::empty());
            if old(self)@.wf() {
                lemma_insert_rows_unique(rs0, rowsv, now);
            }
        }
        count
    }

    /// Parses nothing itself: takes the rows decoded from one file together
    /// with the file's size and modification time, and performs the
    /// idempotent ingest step — nothing happens if the file is unchanged,
    /// else the rows are inserted under the conflict policy and the file is
    /// marked processed. Returns how many rows were inserted.
    pub fn ingest_file(
        &mut self,
        file_path: &str,
        file_size: i32,
        file_modified: i32,
        rows: &Vec<TestResultRow>,
        now: i64,
    ) -> (count: usize)
        ensures
            final(self)@ == spec_ingest(
                old(self)@,
                file_path@,
                file_size,
                file_modified,
                rows_view(rows@),
                now,
            ).0,
            count == spec_ingest(
                old(self)@,
                file_path@,
                file_size,
                file_modified,
                rows_view(rows@),
                now,
            ).1,
            old(self)@.wf() ==> final(self)@.wf(),
    {
        if !self.needs_processing(file_path, file_size, file_modified) {
            return 0;
        }
        let count = self.insert_results(rows, now);
        let rc: i32 = if rows.len() <= i32::MAX as usize {
            rows.len() as i32
        } else {
            i32::MAX
        };
        self.mark_file_processed(file_path, file_size, file_modified, rc, now);
        count
    }
}

/// The whole idempotent ingest step for one file: nothing changes if the
/// ledger says the file is unchanged; otherwise the rows are inserted under
/// the conflict policy and the ledger is updated.
pub open spec fn spec_ingest(
    s: StoreV,
    fp: Seq<char>,
    size: i32,
    modified: i32,
    rows: Seq<TestResultV>,
    now: i64,
) -> (StoreV, int) {
    if !spec_needs_processing(s.processed, fp, size, modified) {
        (s, 0)
    } else {
        let ins = spec_insert_rows(s.results, rows, now);
        let rc: i32 = if rows.len() <= i32::MAX {
            rows.len() as i32
        } else {
            i32::MAX
        };
        (
            StoreV {
                results: ins.0,
                processed: spec_mark_processed(s.processed, fp, size, modified, rc, now),
                ..s
            },
            ins.1,
        )
    }
}

/// Ingesting a file twice with the same size and modification time inserts
/// nothing the second time and leaves the store unchanged.
pub proof fn lemma_ingest_idempotent(
    s: StoreV,
    fp: Seq<char>,
    size: i32,
    modified: i32,
    rows: Seq<TestResultV>,
    rows2: Seq<TestResultV>,
    t1: i64,
    t2: i64,
)
    ensures
        spec_ingest(spec_ingest(s, fp, size, modified, rows, t1).0, fp, size, modified, rows2, t2)
            == (spec_ingest(s, fp, size, modified, rows, t1).0, 0int),
{
    let s1 = spec_ingest(s, fp, size, modified, rows, t1).0;
    if spec_needs_processing(s.processed, fp, size, modified) {
        lemma_mark_then_no_reprocess(s.processed, fp, size, modified, (if rows.len() <= i32::MAX {
            rows.len() as i32
        } else {
            i32::MAX
        }), t1);
    }
    assert(!spec_needs_processing(s1.processed, fp, size, modified));
}

// ===================== the watcher lock =====================

/// The lock's heartbeat is older than the stale threshold.
pub open spec fn lock_stale(l: LockV, now: i64) -> bool {
    now as int - l.last_heartbeat as int > stale_threshold()
}

/// The lock can be taken: no row, an inactive claim, or a stale heartbeat.
pub open spec fn can_take(lock: Option<LockV>, now: i64) -> bool {
    match lock {
        None => true,
        Some(l) => !l.is_active || lock_stale(l, now),
    }
}

/// The lock row after an acquire attempt: a fresh claim when it could be
/// taken, the old row otherwise.
pub open spec fn spec_acquire(lock: Option<LockV>, id: Seq<char>, name: Seq<char>, now: i64) -> Option<
    LockV,
> {
    if can_take(lock, now) {
        Some(
            LockV {
                holder_id: id,
                holder_name: name,
                acquired_at: now,
                last_heartbeat: now,
                is_active: true,
            },
        )
    } else {
        lock
    }
}

/// Of two serialized acquire attempts against a takeable lock, exactly the
/// first succeeds: the second, within the stale window, finds an active
/// claim by the first holder and leaves it untouched.
pub proof fn lemma_acquire_exclusive(
    lock0: Option<LockV>,
    id1: Seq<char>,
    name1: Seq<char>,
    t1: i64,
    id2: Seq<char>,
    name2: Seq<char>,
    t2: i64,
)
    requires
        can_take(lock0, t1),
        t1 <= t2,
        t2 as int - t1 as int <= stale_threshold(),
    ensures
        spec_acquire(lock0, id1, name1, t1) == Some(
            LockV {
                holder_id: id1,
                holder_name: name1,
                acquired_at: t1,
                last_heartbeat: t1,
                is_active: true,
            },
        ),
        !can_take(spec_acquire(lock0, id1, name1, t1), t2),
        spec_acquire(spec_acquire(lock0, id1, name1, t1), id2, name2, t2) == spec_acquire(
            lock0,
            id1,
            name1,
            t1,
        ),
        (spec_acquire(lock0, id1, name1, t1)->0).is_active,
        (spec_acquire(lock0, id1, name1, t1)->0).holder_id == id1,
{
}

/// A fresh per-process instance identifier.
///
/// Relies on `uuid::Uuid::new_v4` and its `Display` form: a random
/// version-4 UUID rendered in the 36-character hyphenated shape.
#[verifier::external_body]
fn fresh_instance_id() -> (r: String)
    ensures
        r@.len() == 36,
{
    uuid::Uuid::new_v4().to_string()
}

impl VoltechStore {
    /// The acquire protocol with a caller-chosen instance id, per
    /// [`spec_acquire`]: takes the lock exactly when the row is absent,
    /// inactive, or stale; returns whether this process became the master.
    pub fn acquire_lock_as(&mut self, holder_id: &str, holder_name: &str, now: i64) -> (took:
        bool)
        ensures
            final(self)@ == (StoreV {
                lock: spec_acquire(old(self)@.lock, holder_id@, holder_name@, now),
                ..old(self)@
            }),
            took == can_take(old(self)@.lock, now),
            old(self)@.wf() ==> final(self)@.wf(),
    {
        let takeable: bool = match &self.lock {
            None => true,
            Some(l) => {
                if !l.is_active {
                    true
                } else {
                    let diff: i128 = (now as i128) - (l.last_heartbeat as i128);
                    diff > 120
                }
            },
        };
        if takeable {
            self.lock = Some(
                LockRow {
                    holder_id: String::from_str(holder_id),
                    holder_name: String::from_str(holder_name),
                    acquired_at: now,
                    last_heartbeat: now,
                    is_active: true,
                },
            );
            true
        } else {
            false
        }
    }

    /// The acquire protocol with a fresh instance id: on success the new
    /// id is returned and the lock row carries it; otherwise the row is
    /// untouched and the caller is a follower.
    pub fn acquire_lock(&mut self, holder_name: &str, now: i64) -> (r: Option<String>)
        ensures
            (match r {
                Some(id) => can_take(old(self)@.lock, now) && id@.len() == 36 && final(self)@
                    == (StoreV {
                    lock: spec_acquire(old(self)@.lock, id@, holder_name@, now),
                    ..old(self)@
                }),
                None => !can_take(old(self)@.lock, now) && final(self)@ == old(self)@,
            }),
            old(self)@.wf() ==> final(self)@.wf(),
    {
        let id = fresh_instance_id();
        let took = self.acquire_lock_as(id.as_str(), holder_name, now);
        if took {
            Some(id)
        } else {
            proof {
                assert(self@ =~= old(self)@);
            }
            None
        }
    }

    /// The master's heartbeat: bumps `last_heartbeat` exactly when the row
    /// is an active claim by `holder_id`; reports whether a row changed —
    /// `false` demotes the caller.
    pub fn update_heartbeat(&mut self, holder_id: &str, now: i64) -> (r: bool)
        ensures
            r == (match old(self)@.lock {
                Some(l) => l.holder_id == holder_id@ && l.is_active,
                None => false,
            }),
            r ==> final(self)@ == (StoreV {
                lock: Some(LockV { last_heartbeat: now, ..old(self)@.lock->0 }),
                ..old(self)@
            }),
            !r ==> final(self)@ == old(self)@,
            old(self)@.wf() ==> final(self)@.wf(),
    {
        let hid = String::from_str(holder_id);
        match &mut self.lock {
            Some(l) => {
                if l.holder_id == hid && l.is_active {
                    l.last_heartbeat = now;
                    return true;
                }
            },
            None => {},
        }
        proof {
            assert(self@ =~= old(self)@);
        }
        false
    }

    /// A clean release: clears `is_active` on the caller's own claim,
    /// whoever holds it now being left alone.
    pub fn release_lock(&mut self, holder_id: &str)
        ensures
            final(self)@ == (StoreV {
                lock: match old(self)@.lock {
                    Some(l) => if l.holder_id == holder_id@ {
                        Some(LockV { is_active: false, ..l })
                    } else {
                        Some(l)
                    },
                    None => None,
                },
                ..old(self)@
            }),
            old(self)@.wf() ==> final(self)@.wf(),
    {
        let hid = String::from_str(holder_id);
        match &mut self.lock {
            Some(l) => {
                if l.holder_id == hid {
                    l.is_active = false;
                }
            },
            None => {},
        }
        proof {
            assert(final(self)@ =~= (StoreV {
                lock: match old(self)@.lock {
                    Some(l) => if l.holder_id == holder_id@ {
                        Some(LockV { is_active: false, ..l })
                    } else {
                        Some(l)
                    },
                    None => None,
                },
                ..old(self)@
            }));
        }
    }

    /// Whether the active claim's heartbeat is older than the stale
    /// threshold; an absent or inactive row is not stale.
    pub fn check_stale_lock(&self, now: i64) -> (r: bool)
        ensures
            r == (match self@.lock {
                Some(l) => l.is_active && lock_stale(l, now),
                None => false,
            }),
    {
        match &self.lock {
            Some(l) => {
                if l.is_active {
                    let diff: i128 = (now as i128) - (l.last_heartbeat as i128);
                    diff > 120
                } else {
                    false
                }
            },
            None => false,
        }
    }

    /// A copy of the lock row, if any.
    pub fn get_lock_info(&self) -> (r: Option<LockRow>)
        ensures
            (match r {
                Some(l) => self@.lock == Some(l@),
                None => self@.lock is None,
            }),
    {
        match &self.lock {
            Some(l) => Some(l.duplicate()),
            None => None,
        }
    }

    /// The admin override: clears `is_active` unconditionally, so that the
    /// next acquire succeeds.
    pub fn force_release_lock(&mut self)
        ensures
            final(self)@ == (StoreV {
                lock: match old(self)@.lock {
                    Some(l) => Some(LockV { is_active: false, ..l }),
                    None => None,
                },
                ..old(self)@
            }),
            forall|t: i64| can_take(final(self)@.lock, t),
            old(self)@.wf() ==> final(self)@.wf(),
    {
        match &mut self.lock {
            Some(l) => {
                l.is_active = false;
            },
            None => {},
        }
        proof {
            assert(final(self)@ =~= (StoreV {
                lock: match old(self)@.lock {
                    Some(l) => Some(LockV { is_active: false, ..l }),
                    None => None,
                },
                ..old(self)@
            }));
        }
    }
}

// ===================== settings =====================

/// The index of the entry for `k`, or a negative value.
pub open spec fn find_setting(ss: Seq<(Seq<char>, Seq<char>, i64)>, k: Seq<char>) -> int
    decreases ss.len(),
{
    if ss.len() == 0 {
        -1
    } else if ss[0].0 == k {
        0
    } else {
        let r = find_setting(ss.drop_first(), k);
        if r < 0 {
            -1
        } else {
            r + 1
        }
    }
}

/// What [`find_setting`] returns.
pub proof fn lemma_find_setting(ss: Seq<(Seq<char>, Seq<char>, i64)>, k: Seq<char>)
    ensures
        find_setting(ss, k) < 0 ==> forall|i: int|
            0 <= i < ss.len() ==> (#[trigger] ss[i]).0 != k,
        find_setting(ss, k) >= 0 ==> 0 <= find_setting(ss, k) < ss.len() && ss[find_setting(
            ss,
            k,
        )].0 == k && forall|i: int| 0 <= i < find_setting(ss, k) ==> (#[trigger] ss[i]).0 != k,
    decreases ss.len(),
{
    if ss.len() > 0 && ss[0].0 != k {
        let t = ss.drop_first();
        lemma_find_setting(t, k);
        let r = find_setting(t, k);
        if r < 0 {
            assert forall|i: int| 0 <= i < ss.len() implies (#[trigger] ss[i]).0 != k by {
                if i >= 1 {
                    assert(t[i - 1].0 != k);
                }
            }
        } else {
            assert forall|i: int| 0 <= i < r + 1 implies (#[trigger] ss[i]).0 != k by {
                if i >= 1 {
                    assert(t[i - 1].0 != k);
                }
            }
        }
    }
}

/// The value stored under `k`, if any.
pub open spec fn spec_get_setting(ss: Seq<(Seq<char>, Seq<char>, i64)>, k: Seq<char>) -> Option<
    Seq<char>,
> {
    let i = find_setting(ss, k);
    if i < 0 {
        None
    } else {
        Some(ss[i].1)
    }
}

fn find_setting_exec(ss: &Vec<SettingRec>, key: &String) -> (r: Option<usize>)
    ensures
        match r {
            Some(i) => i < ss@.len() && find_setting(ss@.map(|t: int, s: SettingRec| s@), key@)
                == i,
            None => find_setting(ss@.map(|t: int, s: SettingRec| s@), key@) < 0,
        },
{
    let ghost sv = ss@.map(|t: int, s: SettingRec| s@);
    let n = ss.len();
    let mut i: usize = 0;
    while i < n
        invariant
            0 <= i <= n == ss@.len(),
            sv == ss@.map(|t: int, s: SettingRec| s@),
            sv.len() == n,
            forall|t: int| 0 <= t < i ==> (#[trigger] sv[t]).0 != key@,
        decreases n - i,
    {
        if ss[i].key == *key {
            proof {
                assert(sv[i as int].0 == key@);
                lemma_find_setting_at(sv, key@, i as int);
            }
            return Some(i);
        }
        i = i + 1;
    }
    proof {
        lemma_find_setting(sv, key@);
        if find_setting(sv, key@) >= 0 {
            assert(sv[find_setting(sv, key@)].0 == key@);
        }
    }
    None
}

proof fn lemma_find_setting_at(ss: Seq<(Seq<char>, Seq<char>, i64)>, k: Seq<char>, i: int)
    requires
        0 <= i < ss.len(),
        ss[i].0 == k,
        forall|t: int| 0 <= t < i ==> (#[trigger] ss[t]).0 != k,
    ensures
        find_setting(ss, k) == i,
    decreases i,
{
    if i > 0 {
        lemma_find_setting_at(ss.drop_first(), k, i - 1);
    }
}

impl VoltechStore {
    /// The value of one setting, per [`spec_get_setting`].
    pub fn get_setting(&self, key: &str) -> (r: Option<String>)
        ensures
            (match r {
                Some(v) => spec_get_setting(self@.settings, key@) == Some(v@),
                None => spec_get_setting(self@.settings, key@) is None,
            }),
    {
        let ks = String::from_str(key);
        match find_setting_exec(&self.settings, &ks) {
            Some(i) => Some(self.settings[i].value.clone()),
            None => None,
        }
    }

    /// Stores `value` under `key`: an upsert. The new table is sorted,
    /// holds `value` under `key` stamped with `now`, and binds every other
    /// key exactly as before — which pins it completely.
    pub fn set_setting(&mut self, key: &str, value: &str, now: i64)
        requires
            old(self)@.wf(),
        ensures
            final(self)@ == (StoreV { settings: final(self)@.settings, ..old(self)@ }),
            final(self)@.wf(),
            spec_get_setting(final(self)@.settings, key@) == Some(value@),
            forall|e: (Seq<char>, Seq<char>, i64)|
                #[trigger] final(self)@.settings.contains(e) ==> e.0 == key@
                    || old(self)@.settings.contains(e),
            forall|e: (Seq<char>, Seq<char>, i64)|
                #[trigger] old(self)@.settings.contains(e) && e.0 != key@
                    ==> final(self)@.settings.contains(e),
            forall|e: (Seq<char>, Seq<char>, i64)|
                #[trigger] final(self)@.settings.contains(e) && e.0 == key@ ==> e == (
                    key@,
                    value@,
                    now,
                ),
    {
        let ghost sv0 = self@.settings;
        let ks = String::from_str(key);
        let n = self.settings.len();
        let kc = crate::text::str_to_chars(key);
        let mut i: usize = 0;
        while i < n
            invariant
                0 <= i <= n == self.settings@.len(),
                sv0 == self@.settings,
                sv0 == old(self)@.settings,
                self@ == old(self)@,
                old(self)@.wf(),
                sv0.len() == n,
                kc@ == key@,
                ks@ == key@,
                forall|t: int|
                    0 <= t < i ==> text::lex_le((#[trigger] sv0[t]).0, key@) && sv0[t].0 != key@,
            decreases n - i,
        {
            let ekc = crate::text::str_to_chars(self.settings[i].key.as_str());
            proof {
                assert(ekc@ == sv0[i as int].0);
            }
            if text::lex_le_chars(&kc, &ekc) {
                if self.settings[i].key == ks {
                    let had = self.settings.remove(i);
                    self.settings.insert(
                        i,
                        SettingRec {
                            key: String::from_str(key),
                            value: String::from_str(value),
                            updated_at: now,
                        },
                    );
                    proof {
                        let svn = self@.settings;
                        assert(svn =~= sv0.update(i as int, (key@, value@, now)));
                        lemma_settings_update_ok(sv0, i as int, key@, value@, now);
                        lemma_find_setting_at(svn, key@, i as int);
                    }
                    return ;
                }
                proof {
                    lemma_lex_total(key@, sv0[i as int].0);
                }
                self.settings.insert(
                    i,
                    SettingRec {
                        key: String::from_str(key),
                        value: String::from_str(value),
                        updated_at: now,
                    },
                );
                proof {
                    let svn = self@.settings;
                    assert(svn =~= sv0.insert(i as int, (key@, value@, now)));
                    assert forall|t: int| i <= t < sv0.len() implies text::lex_le(
                        key@,
                        (#[trigger] sv0[t]).0,
                    ) && sv0[t].0 != key@ by {
                        if t > i {
                            assert(text::lex_le(sv0[i as int].0, sv0[t].0) && sv0[i as int].0
                                != sv0[t].0);
                            lemma_lex_trans(key@, sv0[i as int].0, sv0[t].0);
                            if sv0[t].0 == key@ {
                                lemma_lex_total(sv0[i as int].0, key@);
                            }
                        }
                    }
                    lemma_settings_insert_ok(sv0, i as int, key@, value@, now);
                    lemma_find_setting_at(svn, key@, i as int);
                }
                return ;
            }
            proof {
                lemma_lex_total(key@, sv0[i as int].0);
            }
            i = i + 1;
        }
        self.settings.push(
            SettingRec {
                key: String::from_str(key),
                value: String::from_str(value),
                updated_at: now,
            },
        );
        proof {
            let svn = self@.settings;
            assert(svn =~= sv0.insert(n as int, (key@, value@, now)));
            lemma_settings_insert_ok(sv0, n as int, key@, value@, now);
            lemma_find_setting_at(svn, key@, n as int);
        }
    }

    /// Removes the entry for `key`, if any; every other binding stays.
    pub fn delete_setting(&mut self, key: &str)
        requires
            old(self)@.wf(),
        ensures
            final(self)@ == (StoreV { settings: final(self)@.settings, ..old(self)@ }),
            final(self)@.wf(),
            spec_get_setting(final(self)@.settings, key@) is None,
            forall|e: (Seq<char>, Seq<char>, i64)|
                #[trigger] final(self)@.settings.contains(e) <==> (old(self)@.settings.contains(e)
                    && e.0 != key@),
    {
        let ghost sv0 = self@.settings;
        let ks = String::from_str(key);
        match find_setting_exec(&self.settings, &ks) {
            Some(i) => {
                self.settings.remove(i);
                proof {
                    lemma_find_setting(sv0, key@);
                    let svn = self@.settings;
                    assert(svn =~= sv0.remove(i as int));
                    lemma_settings_remove_ok(sv0, i as int, key@);
                }
            },
            None => {
                proof {
                    lemma_find_setting(sv0, key@);
                    assert(self@.settings =~= sv0);
                    assert forall|e: (Seq<char>, Seq<char>, i64)| #[trigger] sv0.contains(e)
                        implies e.0 != key@ by {
                        let t = choose|t: int| 0 <= t < sv0.len() && sv0[t] == e;
                        assert(sv0[t].0 != key@);
                    }
                }
            },
        }
    }

    /// Copies of all settings, in key order.
    pub fn get_all_settings(&self) -> (r: Vec<SettingRec>)
        ensures
            r@.map(|i: int, s: SettingRec| s@) == self@.settings,
    {
        let n = self.settings.len();
        let mut r: Vec<SettingRec> = Vec::new();
        let mut i: usize = 0;
        proof {
            assert(r@.map(|t: int, s: SettingRec| s@) =~= self@.settings.take(0));
        }
        while i < n
            invariant
                0 <= i <= n == self.settings@.len(),
                r@.map(|t: int, s: SettingRec| s@) == self@.settings.take(i as int),
            decreases n - i,
        {
            let ghost rv0 = r@.map(|t: int, s: SettingRec| s@);
            r.push(self.settings[i].duplicate());
            proof {
                assert(r@.map(|t: int, s: SettingRec| s@) =~= rv0.push(
                    self@.settings[i as int],
                ));
                assert(self@.settings.take(i + 1 as int) =~= self@.settings.take(i as int).push(
                    self@.settings[i as int],
                ));
            }
            i = i + 1;
        }
        proof {
            assert(self@.settings.take(n as int) =~= self@.settings);
        }
        r
    }
}

/// Lexicographic order is transitive.
proof fn lemma_lex_trans(a: Seq<char>, b: Seq<char>, c: Seq<char>)
    requires
        text::lex_le(a, b),
        text::lex_le(b, c),
    ensures
        text::lex_le(a, c),
    decreases a.len(),
{
    if a.len() > 0 && b.len() > 0 && c.len() > 0 && a[0] == b[0] && b[0] == c[0] {
        lemma_lex_trans(a.drop_first(), b.drop_first(), c.drop_first());
    }
}

/// Lexicographic order is total.
proof fn lemma_lex_total(a: Seq<char>, b: Seq<char>)
    ensures
        text::lex_le(a, b) || text::lex_le(b, a),
        text::lex_le(a, b) && text::lex_le(b, a) ==> a == b,
    decreases a.len(),
{
    if a.len() > 0 && b.len() > 0 && a[0] == b[0] {
        lemma_lex_total(a.drop_first(), b.drop_first());
        if text::lex_le(a, b) && text::lex_le(b, a) {
            assert(a =~= seq![a[0]] + a.drop_first());
            assert(b =~= seq![b[0]] + b.drop_first());
        }
    }
}

proof fn lemma_settings_update_ok(
    ss: Seq<(Seq<char>, Seq<char>, i64)>,
    i: int,
    k: Seq<char>,
    v: Seq<char>,
    now: i64,
)
    requires
        settings_sorted(ss),
        0 <= i < ss.len(),
        ss[i].0 == k,
    ensures
        settings_sorted(ss.update(i, (k, v, now))),
        forall|e: (Seq<char>, Seq<char>, i64)|
            #[trigger] ss.update(i, (k, v, now)).contains(e) ==> e.0 == k || ss.contains(e),
        forall|e: (Seq<char>, Seq<char>, i64)|
            #[trigger] ss.contains(e) && e.0 != k ==> ss.update(i, (k, v, now)).contains(e),
        forall|e: (Seq<char>, Seq<char>, i64)|
            #[trigger] ss.update(i, (k, v, now)).contains(e) && e.0 == k ==> e == (k, v, now),
{
    let r = ss.update(i, (k, v, now));
    assert forall|a: int, b: int| 0 <= a < b < r.len() implies text::lex_le(
        (#[trigger] r[a]).0,
        (#[trigger] r[b]).0,
    ) && r[a].0 != r[b].0 by {
        assert(r[a].0 == ss[a].0 && r[b].0 == ss[b].0);
    }
    assert forall|e: (Seq<char>, Seq<char>, i64)| #[trigger] r.contains(e) implies e.0 == k
        || ss.contains(e) by {
        let t = choose|t: int| 0 <= t < r.len() && r[t] == e;
        if t != i {
            assert(ss[t] == e);
        }
    }
    assert forall|e: (Seq<char>, Seq<char>, i64)| #[trigger] ss.contains(e) && e.0 != k implies
        r.contains(e) by {
        let t = choose|t: int| 0 <= t < ss.len() && ss[t] == e;
        assert(t != i);
        assert(r[t] == e);
    }
    assert forall|e: (Seq<char>, Seq<char>, i64)| #[trigger] r.contains(e) && e.0 == k implies e
        == (k, v, now) by {
        let t = choose|t: int| 0 <= t < r.len() && r[t] == e;
        if t != i {
            assert(ss[t] == e);
            if t < i {
                assert(text::lex_le(ss[t].0, ss[i].0) && ss[t].0 != ss[i].0);
            } else {
                assert(text::lex_le(ss[i].0, ss[t].0) && ss[i].0 != ss[t].0);
            }
        }
    }
}

proof fn lemma_settings_insert_ok(
    ss: Seq<(Seq<char>, Seq<char>, i64)>,
    i: int,
    k: Seq<char>,
    v: Seq<char>,
    now: i64,
)
    requires
        settings_sorted(ss),
        0 <= i <= ss.len(),
        forall|t: int| 0 <= t < i ==> text::lex_le((#[trigger] ss[t]).0, k) && ss[t].0 != k,
        forall|t: int| i <= t < ss.len() ==> text::lex_le(k, (#[trigger] ss[t]).0) && ss[t].0 != k,
    ensures
        settings_sorted(ss.insert(i, (k, v, now))),
        forall|e: (Seq<char>, Seq<char>, i64)|
            #[trigger] ss.insert(i, (k, v, now)).contains(e) ==> e.0 == k || ss.contains(e),
        forall|e: (Seq<char>, Seq<char>, i64)|
            #[trigger] ss.contains(e) && e.0 != k ==> ss.insert(i, (k, v, now)).contains(e),
        forall|e: (Seq<char>, Seq<char>, i64)|
            #[trigger] ss.insert(i, (k, v, now)).contains(e) && e.0 == k ==> e == (k, v, now),
{
    let r = ss.insert(i, (k, v, now));
    assert forall|a: int, b: int| 0 <= a < b < r.len() implies text::lex_le(
        (#[trigger] r[a]).0,
        (#[trigger] r[b]).0,
    ) && r[a].0 != r[b].0 by {
        if a < i && b < i {
            assert(r[a] == ss[a] && r[b] == ss[b]);
        } else if a < i && b == i {
            assert(r[a] == ss[a]);
        } else if a < i && b > i {
            assert(r[a] == ss[a] && r[b] == ss[b - 1]);
        } else if a == i {
            assert(r[b] == ss[b - 1]);
        } else {
            assert(r[a] == ss[a - 1] && r[b] == ss[b - 1]);
        }
    }
    assert forall|e: (Seq<char>, Seq<char>, i64)| #[trigger] r.contains(e) implies e.0 == k
        || ss.contains(e) by {
        let t = choose|t: int| 0 <= t < r.len() && r[t] == e;
        if t < i {
            assert(ss[t] == e);
        } else if t > i {
            assert(ss[t - 1] == e);
        }
    }
    assert forall|e: (Seq<char>, Seq<char>, i64)| #[trigger] ss.contains(e) && e.0 != k implies
        r.contains(e) by {
        let t = choose|t: int| 0 <= t < ss.len() && ss[t] == e;
        if t < i {
            assert(r[t] == e);
        } else {
            assert(r[t + 1] == e);
        }
    }
    assert forall|e: (Seq<char>, Seq<char>, i64)| #[trigger] r.contains(e) && e.0 == k implies e
        == (k, v, now) by {
        let t = choose|t: int| 0 <= t < r.len() && r[t] == e;
        if t < i {
            assert(ss[t] == e);
        } else if t > i {
            assert(ss[t - 1] == e);
        }
    }
}

proof fn lemma_settings_remove_ok(ss: Seq<(Seq<char>, Seq<char>, i64)>, i: int, k: Seq<char>)
    requires
        settings_sorted(ss),
        0 <= i < ss.len(),
        ss[i].0 == k,
    ensures
        settings_sorted(ss.remove(i)),
        find_setting(ss.remove(i), k) < 0,
        forall|e: (Seq<char>, Seq<char>, i64)|
            #[trigger] ss.remove(i).contains(e) <==> (ss.contains(e) && e.0 != k),
{
    let r = ss.remove(i);
    assert forall|a: int, b: int| 0 <= a < b < r.len() implies text::lex_le(
        (#[trigger] r[a]).0,
        (#[trigger] r[b]).0,
    ) && r[a].0 != r[b].0 by {
        let a2 = if a < i {
            a
        } else {
            a + 1
        };
        let b2 = if b < i {
            b
        } else {
            b + 1
        };
        assert(r[a] == ss[a2] && r[b] == ss[b2]);
    }
    assert forall|t: int| 0 <= t < r.len() implies (#[trigger] r[t]).0 != k by {
        let t2 = if t < i {
            t
        } else {
            t + 1
        };
        assert(r[t] == ss[t2]);
        if t2 < i {
            assert(text::lex_le(ss[t2].0, ss[i].0) && ss[t2].0 != ss[i].0);
        } else {
            assert(text::lex_le(ss[i].0, ss[t2].0) && ss[i].0 != ss[t2].0);
        }
    }
    lemma_find_setting(r, k);
    if find_setting(r, k) >= 0 {
        assert(r[find_setting(r, k)].0 == k);
    }
    assert forall|e: (Seq<char>, Seq<char>, i64)| #[trigger] r.contains(e) implies (ss.contains(e)
        && e.0 != k) by {
        let t = choose|t: int| 0 <= t < r.len() && r[t] == e;
        let t2 = if t < i {
            t
        } else {
            t + 1
        };
        assert(ss[t2] == e);
        assert(r[t].0 != k);
    }
    assert forall|e: (Seq<char>, Seq<char>, i64)| #[trigger] ss.contains(e) && e.0 != k implies
        r.contains(e) by {
        let t = choose|t: int| 0 <= t < ss.len() && ss[t] == e;
        assert(t != i);
        if t < i {
            assert(r[t] == e);
        } else {
            assert(r[t - 1] == e);
        }
    }
}

// ===================== parse errors =====================

/// Whether an error record passes the optional filters.
pub open spec fn error_matches(
    e: ParseErrorV,
    acknowledged: Option<bool>,
    file_path: Option<Seq<char>>,
) -> bool {
    &&& (match acknowledged {
        Some(a) => e.acknowledged == a,
        None => true,
    })
    &&& (match file_path {
        Some(p) => e.file_path == p,
        None => true,
    })
}

/// An error record after acknowledging a set of identifiers.
pub open spec fn ack_by_ids(e: ParseErrorV, ids: Seq<i32>) -> ParseErrorV {
    if ids.contains(e.id) {
        ParseErrorV { acknowledged: true, ..e }
    } else {
        e
    }
}

/// An error record after acknowledging a file's errors.
pub open spec fn ack_by_path(e: ParseErrorV, fp: Seq<char>) -> ParseErrorV {
    if e.file_path == fp {
        ParseErrorV { acknowledged: true, ..e }
    } else {
        e
    }
}

/// An error record survives the retention sweep unless it is acknowledged
/// and older than the cutoff.
pub open spec fn keeps_after_cleanup(e: ParseErrorV, cutoff: int) -> bool {
    !(e.acknowledged && (e.timestamp as int) < cutoff)
}

/// The filter predicate of [`VoltechStore::get_errors`].
pub open spec fn error_filter(acknowledged: Option<bool>, file_path: Option<Seq<char>>) -> spec_fn(
    ParseErrorV,
) -> bool {
    |e: ParseErrorV| error_matches(e, acknowledged, file_path)
}

/// The keep predicate of [`VoltechStore::cleanup_old_errors`].
pub open spec fn cleanup_keep(cutoff: int) -> spec_fn(ParseErrorV) -> bool {
    |e: ParseErrorV| keeps_after_cleanup(e, cutoff)
}

fn id_in(ids: &Vec<i32>, id: i32) -> (r: bool)
    ensures
        r == ids@.contains(id),
{
    let n = ids.len();
    let mut i: usize = 0;
    while i < n
        invariant
            0 <= i <= n == ids@.len(),
            forall|t: int| 0 <= t < i ==> ids@[t] != id,
        decreases n - i,
    {
        if ids[i] == id {
            return true;
        }
        i = i + 1;
    }
    proof {
        if ids@.contains(id) {
            let t = choose|t: int| 0 <= t < ids@.len() && ids@[t] == id;
        }
    }
    false
}


/// One step of filtering: extending the prefix by one element appends it
/// exactly when it passes.
proof fn lemma_error_filter_step(s: Seq<ParseErrorV>, pred: spec_fn(ParseErrorV) -> bool, i: int)
    requires
        0 <= i < s.len(),
    ensures
        s.take(i + 1).filter(pred) == (if pred(s[i]) {
            s.take(i).filter(pred).push(s[i])
        } else {
            s.take(i).filter(pred)
        }),
        s.take(i).filter(pred).len() <= i,
{
    reveal(Seq::filter);
    assert(s.take(i + 1).drop_last() =~= s.take(i));
    assert(s.take(i + 1).last() == s[i]);
    s.take(i).lemma_filter_len(pred);
}

/// Filtering an empty prefix yields nothing.
proof fn lemma_error_filter_zero(s: Seq<ParseErrorV>, pred: spec_fn(ParseErrorV) -> bool)
    ensures
        s.take(0).filter(pred) == Seq::<ParseErrorV>::empty(),
{
    reveal(Seq::filter);
    assert(s.take(0) =~= Seq::<ParseErrorV>::empty());
}

impl VoltechStore {
    /// Appends one parse error under a fresh identifier and returns that
    /// identifier.
    pub fn log_parse_error(
        &mut self,
        file_path: &str,
        error_message: &str,
        line_number: Option<i32>,
        now: i64,
    ) -> (id: i32)
        requires
            old(self)@.next_error_id < i32::MAX,
        ensures
            id == old(self)@.next_error_id,
            final(self)@ == (StoreV {
                errors: old(self)@.errors.push(
                    ParseErrorV {
                        id: old(self)@.next_error_id,
                        file_path: file_path@,
                        error_message: error_message@,
                        line_number: line_number,
                        timestamp: now,
                        acknowledged: false,
                    },
                ),
                next_error_id: (old(self)@.next_error_id + 1) as i32,
                ..old(self)@
            }),
            old(self)@.wf() ==> final(self)@.wf(),
    {
        let id = self.next_error_id;
        let rec = ParseErrorRec {
            id,
            file_path: String::from_str(file_path),
            error_message: String::from_str(error_message),
            line_number,
            timestamp: now,
            acknowledged: false,
        };
        let ghost ev0 = self@.errors;
        self.errors.push(rec);
        self.next_error_id = id + 1;
        proof {
            assert(self@.errors =~= ev0.push(
                ParseErrorV {
                    id: id,
                    file_path: file_path@,
                    error_message: error_message@,
                    line_number: line_number,
                    timestamp: now,
                    acknowledged: false,
                },
            ));
        }
        id
    }

    /// Copies of the error records passing the optional filters. They come
    /// in store order — the order of logging — rather than the display
    /// order; a host that wants newest-first sorts by `timestamp`.
    pub fn get_errors(&self, acknowledged: Option<bool>, file_path: Option<&str>) -> (r: Vec<
        ParseErrorRec,
    >)
        ensures
            r@.map(|i: int, e: ParseErrorRec| e@) == self@.errors.filter(
                error_filter(
                    acknowledged,
                    match file_path {
                        Some(p) => Some(p@),
                        None => None,
                    },
                ),
            ),
    {
        let ghost fpv: Option<Seq<char>> = match file_path {
            Some(p) => Some(p@),
            None => None,
        };
        let ghost pred = error_filter(acknowledged, fpv);
        let fps: Option<String> = match file_path {
            Some(p) => Some(String::from_str(p)),
            None => None,
        };
        let n = self.errors.len();
        let mut r: Vec<ParseErrorRec> = Vec::new();
        let mut i: usize = 0;
        proof {
            lemma_error_filter_zero(self@.errors, pred);
            assert(r@.map(|t: int, e: ParseErrorRec| e@) =~= Seq::<ParseErrorV>::empty());
        }
        while i < n
            invariant
                0 <= i <= n == self.errors@.len(),
                self@.errors.len() == n,
                pred == error_filter(acknowledged, fpv),
                (match (&fps, fpv) {
                    (Some(s), Some(p)) => s@ == p,
                    (None, None) => true,
                    _ => false,
                }),
                r@.map(|t: int, e: ParseErrorRec| e@) == self@.errors.take(i as int).filter(pred),
            decreases n - i,
        {
            let e = &self.errors[i];
            proof {
                assert(e@ == self@.errors[i as int]);
                lemma_error_filter_step(self@.errors, pred, i as int);
            }
            let ack_ok = match acknowledged {
                Some(a) => e.acknowledged == a,
                None => true,
            };
            let fp_ok = match &fps {
                Some(p) => e.file_path == *p,
                None => true,
            };
            let ghost rv0 = r@.map(|t: int, e2: ParseErrorRec| e2@);
            if ack_ok && fp_ok {
                r.push(e.duplicate());
                proof {
                    assert(pred(self@.errors[i as int]));
                    assert(r@.map(|t: int, e2: ParseErrorRec| e2@) =~= rv0.push(
                        self@.errors[i as int],
                    ));
                }
            } else {
                proof {
                    assert(!pred(self@.errors[i as int]));
                }
            }
            i = i + 1;
        }
        proof {
            assert(self@.errors.take(n as int) =~= self@.errors);
        }
        r
    }

    /// Acknowledges the errors whose identifiers are listed; returns how
    /// many records matched.
    pub fn acknowledge_errors(&mut self, ids: &Vec<i32>) -> (count: u64)
        ensures
            final(self)@ == (StoreV {
                errors: old(self)@.errors.map(|i: int, e: ParseErrorV| ack_by_ids(e, ids@)),
                ..old(self)@
            }),
            count == old(self)@.errors.filter(|e: ParseErrorV| ids@.contains(e.id)).len(),
            old(self)@.wf() ==> final(self)@.wf(),
    {
        let ghost ev0 = self@.errors;
        let n = self.errors.len();
        let mut out: Vec<ParseErrorRec> = Vec::new();
        let mut count: u64 = 0;
        let mut i: usize = 0;
        proof {
            assert(out@.map(|t: int, e: ParseErrorRec| e@) =~= ev0.take(0).map(
                |t: int, e: ParseErrorV| ack_by_ids(e, ids@),
            ));
            lemma_error_filter_zero(ev0, |e: ParseErrorV| ids@.contains(e.id));
        }
        while i < n
            invariant
                0 <= i <= n == self.errors@.len(),
                ev0 == self@.errors,
                self@ == old(self)@,
                ev0.len() == n,
                count <= i,
                out@.map(|t: int, e: ParseErrorRec| e@) == ev0.take(i as int).map(
                    |t: int, e: ParseErrorV| ack_by_ids(e, ids@),
                ),
                count == ev0.take(i as int).filter(|e: ParseErrorV| ids@.contains(e.id)).len(),
            decreases n - i,
        {
            let e = &self.errors[i];
            proof {
                assert(e@ == ev0[i as int]);
                lemma_error_filter_step(ev0, |e2: ParseErrorV| ids@.contains(e2.id), i as int);
            }
            let ghost outv0 = out@.map(|t: int, e2: ParseErrorRec| e2@);
            let hit = id_in(ids, e.id);
            let mut rec = e.duplicate();
            if hit {
                rec.acknowledged = true;
                count = count + 1;

            }
            out.push(rec);
            proof {
                assert(out@.map(|t: int, e2: ParseErrorRec| e2@) =~= outv0.push(
                    ack_by_ids(ev0[i as int], ids@),
                ));
                assert(ev0.take(i + 1 as int).map(|t: int, e2: ParseErrorV| ack_by_ids(e2, ids@))
                    =~= ev0.take(i as int).map(|t: int, e2: ParseErrorV| ack_by_ids(e2, ids@)).push(
                    ack_by_ids(ev0[i as int], ids@),
                ));
            }
            i = i + 1;
        }
        self.errors = out;
        proof {
            assert(ev0.take(n as int) =~= ev0);
            assert(self@.errors =~= ev0.map(|t: int, e: ParseErrorV| ack_by_ids(e, ids@)));
            if old(self)@.wf() {
                assert forall|t: int| 0 <= t < final(self)@.errors.len() implies (
                #[trigger] final(self)@.errors[t]).id < final(self)@.next_error_id by {
                    assert(final(self)@.errors[t] == ack_by_ids(ev0[t], ids@));
                    assert(ev0[t].id < old(self)@.next_error_id);
                }
            }
        }
        count
    }

    /// Acknowledges every error of one file; returns how many records
    /// matched.
    pub fn acknowledge_file_errors(&mut self, file_path: &str) -> (count: u64)
        ensures
            final(self)@ == (StoreV {
                errors: old(self)@.errors.map(|i: int, e: ParseErrorV| ack_by_path(e, file_path@)),
                ..old(self)@
            }),
            count == old(self)@.errors.filter(
                |e: ParseErrorV| e.file_path == file_path@,
            ).len(),
            old(self)@.wf() ==> final(self)@.wf(),
    {
        let fps = String::from_str(file_path);
        let ghost ev0 = self@.errors;
        let n = self.errors.len();
        let mut out: Vec<ParseErrorRec> = Vec::new();
        let mut count: u64 = 0;
        let mut i: usize = 0;
        proof {
            assert(out@.map(|t: int, e: ParseErrorRec| e@) =~= ev0.take(0).map(
                |t: int, e: ParseErrorV| ack_by_path(e, file_path@),
            ));
            lemma_error_filter_zero(ev0, |e: ParseErrorV| e.file_path == file_path@);
        }
        while i < n
            invariant
                0 <= i <= n == self.errors@.len(),
                ev0 == self@.errors,
                self@ == old(self)@,
                ev0.len() == n,
                count <= i,
                fps@ == file_path@,
                out@.map(|t: int, e: ParseErrorRec| e@) == ev0.take(i as int).map(
                    |t: int, e: ParseErrorV| ack_by_path(e, file_path@),
                ),
                count == ev0.take(i as int).filter(
                    |e: ParseErrorV| e.file_path == file_path@,
                ).len(),
            decreases n - i,
        {
            let e = &self.errors[i];
            proof {
                assert(e@ == ev0[i as int]);
                lemma_error_filter_step(ev0, |e2: ParseErrorV| e2.file_path == file_path@, i as int);
            }
            let ghost outv0 = out@.map(|t: int, e2: ParseErrorRec| e2@);
            let hit = e.file_path == fps;
            let mut rec = e.duplicate();
            if hit {
                rec.acknowledged = true;
                count = count + 1;

            }
            out.push(rec);
            proof {
                assert(out@.map(|t: int, e2: ParseErrorRec| e2@) =~= outv0.push(
                    ack_by_path(ev0[i as int], file_path@),
                ));
                assert(ev0.take(i + 1 as int).map(
                    |t: int, e2: ParseErrorV| ack_by_path(e2, file_path@),
                ) =~= ev0.take(i as int).map(
                    |t: int, e2: ParseErrorV| ack_by_path(e2, file_path@),
                ).push(ack_by_path(ev0[i as int], file_path@)));
            }
            i = i + 1;
        }
        self.errors = out;
        proof {
            assert(ev0.take(n as int) =~= ev0);
            assert(self@.errors =~= ev0.map(
                |t: int, e: ParseErrorV| ack_by_path(e, file_path@),
            ));
            if old(self)@.wf() {
                assert forall|t: int| 0 <= t < final(self)@.errors.len() implies (
                #[trigger] final(self)@.errors[t]).id < final(self)@.next_error_id by {
                    assert(final(self)@.errors[t] == ack_by_path(ev0[t], file_path@));
                    assert(ev0[t].id < old(self)@.next_error_id);
                }
            }
        }
        count
    }

    /// The retention sweep: deletes acknowledged errors older than
    /// `days` days before `now`; returns how many were removed.
    pub fn cleanup_old_errors(&mut self, days: i64, now: i64) -> (count: u64)
        requires
            0 <= days <= 0x7fff_ffff,
            -0x2000_0000_0000_0000 < now < 0x2000_0000_0000_0000,
        ensures
            final(self)@ == (StoreV {
                errors: old(self)@.errors.filter(
                    cleanup_keep(now as int - days as int * 86400),
                ),
                ..old(self)@
            }),
            count as int == old(self)@.errors.len() - final(self)@.errors.len(),
            old(self)@.wf() ==> final(self)@.wf(),
    {
        let cutoff: i64 = now - days * 86400;
        let ghost cut = now as int - days as int * 86400;
        proof {
            assert(cutoff == cut);
        }
        let ghost ev0 = self@.errors;
        let ghost pred = cleanup_keep(cut);
        let n = self.errors.len();
        let mut out: Vec<ParseErrorRec> = Vec::new();
        let mut i: usize = 0;
        proof {
            lemma_error_filter_zero(ev0, pred);
            assert(out@.map(|t: int, e: ParseErrorRec| e@) =~= Seq::<ParseErrorV>::empty());
        }
        while i < n
            invariant
                0 <= i <= n == self.errors@.len(),
                ev0 == self@.errors,
                self@ == old(self)@,
                ev0.len() == n,
                pred == cleanup_keep(cut),
                cutoff == cut,
                out@.len() <= i,
                out@.map(|t: int, e: ParseErrorRec| e@) == ev0.take(i as int).filter(pred),
                old(self)@.wf() ==> forall|t: int|
                    0 <= t < out@.len() ==> (#[trigger] out@[t])@.id < old(self)@.next_error_id,
            decreases n - i,
        {
            let e = &self.errors[i];
            proof {
                assert(e@ == ev0[i as int]);
                lemma_error_filter_step(ev0, pred, i as int);
            }
            let ghost outv0 = out@.map(|t: int, e2: ParseErrorRec| e2@);
            let drop = e.acknowledged && e.timestamp < cutoff;
            if !drop {
                out.push(e.duplicate());
                proof {
                    assert(pred(ev0[i as int]));
                    assert(out@.map(|t: int, e2: ParseErrorRec| e2@) =~= outv0.push(
                        ev0[i as int],
                    ));
                }
            } else {
                proof {
                    assert(!pred(ev0[i as int]));
                }
            }
            i = i + 1;
        }
        let kept = out.len();
        self.errors = out;
        let count: u64 = ((n - kept) as u64);
        proof {
            assert(ev0.take(n as int) =~= ev0);
        }
        count
    }
}

} // verus!
