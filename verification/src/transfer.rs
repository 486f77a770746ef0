use vstd::prelude::*;
use crate::entries::{display_path, display_path_of};
use crate::paths::{extension, parent, path_extension, path_file_name, path_parent, push_rel};
use crate::taildrive::taildrive_parse_panics;
use crate::text::{chars_eq_ignore_ascii_case, chars_of, concat_texts, eq_ignore_ascii_case, same_chars};

verus! {

/// How many finished transfers the list keeps once it is full.
pub const TRANSFER_HISTORY_LIMIT: usize = 32;

/// What a background transfer does, as far as its bookkeeping needs to
/// know: a TailDrive download (with the name shown and whether the file is
/// opened afterwards), upload, relay between devices or other command, or
/// a local copy or move.
#[derive(Debug, Clone)]
pub enum TransferJob {
    TaildriveDownload { display_name: String, open_after: bool },
    TaildriveUpload,
    TaildriveRelay,
    TaildriveOther,
    LocalCopyMove { cut: bool },
    LocalOther,
}

/// The mathematical content of a [`TransferJob`].
pub enum JobView {
    TaildriveDownload(Seq<char>, bool),
    TaildriveUpload,
    TaildriveRelay,
    TaildriveOther,
    LocalCopyMove(bool),
    LocalOther,
}

impl View for TransferJob {
    type V = JobView;

    open spec fn view(&self) -> JobView {
        match self {
            TransferJob::TaildriveDownload { display_name, open_after } => JobView::TaildriveDownload(
                display_name@,
                *open_after,
            ),
            TransferJob::TaildriveUpload => JobView::TaildriveUpload,
            TransferJob::TaildriveRelay => JobView::TaildriveRelay,
            TransferJob::TaildriveOther => JobView::TaildriveOther,
            TransferJob::LocalCopyMove { cut } => JobView::LocalCopyMove(*cut),
            TransferJob::LocalOther => JobView::LocalOther,
        }
    }
}

/// Whether a file name is an Android package that is installed after a
/// download: extension `apk` or `aab` in any ASCII case.
pub open spec fn is_install_package(name: Seq<char>) -> bool {
    match path_extension(name) {
        Some(e) => eq_ignore_ascii_case(e, "apk"@) || eq_ignore_ascii_case(e, "aab"@),
        None => false,
    }
}

/// Whether a file name is an Android package that is installed after a
/// download.
pub fn is_android_install_name(name: &str) -> (r: bool)
    ensures
        r == is_install_package(name@),
{
    match extension(name) {
        Some(e) => {
            let ec = chars_of(e.as_str());
            let apk = chars_of("apk");
            let aab = chars_of("aab");
            chars_eq_ignore_ascii_case(ec.as_slice(), apk.as_slice()) || chars_eq_ignore_ascii_case(
                ec.as_slice(),
                aab.as_slice(),
            )
        },
        None => false,
    }
}

/// The phase a transfer starts in.
pub open spec fn initial_phase_of(job: JobView) -> Seq<char> {
    match job {
        JobView::TaildriveDownload(name, open_after) => if open_after && is_install_package(name) {
            "Preparing app install"@
        } else {
            "Downloading"@
        },
        JobView::TaildriveUpload => "Uploading"@,
        JobView::TaildriveRelay => "Copying"@,
        JobView::TaildriveOther => "Transferring"@,
        JobView::LocalCopyMove(cut) => if cut {
            "Moving"@
        } else {
            "Copying"@
        },
        JobView::LocalOther => "Copying"@,
    }
}

/// The phase a transfer starts in.
pub fn initial_phase(job: &TransferJob) -> (r: String)
    ensures
        r@ == initial_phase_of(job@),
{
    match job {
        TransferJob::TaildriveDownload { display_name, open_after } => {
            if *open_after && is_android_install_name(display_name.as_str()) {
                "Preparing app install".to_string()
            } else {
                "Downloading".to_string()
            }
        },
        TransferJob::TaildriveUpload => "Uploading".to_string(),
        TransferJob::TaildriveRelay => "Copying".to_string(),
        TransferJob::TaildriveOther => "Transferring".to_string(),
        TransferJob::LocalCopyMove { cut } => if *cut {
            "Moving".to_string()
        } else {
            "Copying".to_string()
        },
        TransferJob::LocalOther => "Copying".to_string(),
    }
}

/// The ids under which the TailDrive worker knows a transfer: a relay runs
/// as a download and an upload, `-download` and `-upload` after the id.
pub open spec fn control_ids_of(is_relay: bool, id: Seq<char>) -> Seq<Seq<char>> {
    if is_relay {
        seq![id + "-download"@, id + "-upload"@]
    } else {
        seq![id]
    }
}

/// The ids under which the TailDrive worker knows a transfer.
pub fn taildrive_control_ids(job: &TransferJob, transfer_id: &str) -> (r: Vec<String>)
    ensures
        r@.map_values(|s: String| s@) == control_ids_of(job@ is TaildriveRelay, transfer_id@),
{
    let mut out: Vec<String> = Vec::new();
    if let TransferJob::TaildriveRelay = job {
        out.push(concat_texts(transfer_id, "-download"));
        out.push(concat_texts(transfer_id, "-upload"));
    } else {
        out.push(transfer_id.to_string());
    }
    assert(out@.map_values(|s: String| s@) =~= control_ids_of(job@ is TaildriveRelay, transfer_id@));
    out
}

/// The label of a local path: its file name, else the path shown.
pub open spec fn path_label(path: Seq<char>) -> Seq<char> {
    match path_file_name(path) {
        Some(f) => if f.len() > 0 {
            f
        } else {
            display_path_of(path)
        },
        None => display_path_of(path),
    }
}

/// The label of a local path.
pub fn file_name(path: &str) -> (r: String)
    requires
        !taildrive_parse_panics(path@),
    ensures
        r@ == path_label(path@),
{
    match crate::paths::file_name(path) {
        Some(f) => if chars_of(f.as_str()).len() > 0 {
            f
        } else {
            display_path(path)
        },
        None => display_path(path),
    }
}

/// Adds the file name of a path to a set of protected cache files.
pub fn protect_path(path: &str, protected: &mut Vec<String>)
    requires
        names_of(old(protected)@).no_duplicates(),
    ensures
        names_of(final(protected)@).no_duplicates(),
        names_of(final(protected)@).to_set() == match path_file_name(path@) {
            Some(f) => names_of(old(protected)@).to_set().insert(f),
            None => names_of(old(protected)@).to_set(),
        },
{
    if let Some(name) = crate::paths::file_name(path) {
        let ghost o = names_of(protected@);
        if !contains_text(protected, name.as_str()) {
            protected.push(name);
            proof {
                assert(names_of(protected@) =~= o.push(name@));
                lemma_push_fresh_no_dup(o, name@);
                lemma_push_to_set(o, name@);
            }
        } else {
            assert(o.to_set().insert(name@) =~= o.to_set());
        }
    }
}

/// Where a local copy is staged before it replaces its destination: a
/// hidden `.fastexplorer-transfer-` file named by the transfer id, in the
/// destination's folder (`.` when it has none).
pub open spec fn staging_path_of(destination: Seq<char>, id: Seq<char>) -> Seq<char> {
    push_rel(
        match path_parent(destination) {
            Some(p) => p,
            None => seq!['.'],
        },
        ".fastexplorer-transfer-"@ + id,
    )
}

/// Where a local copy is staged before it replaces its destination.
pub fn local_staging_path(destination: &str, transfer_id: &str) -> (r: String)
    ensures
        r@ == staging_path_of(destination@, transfer_id@),
{
    let base = match parent(destination) {
        Some(p) => p,
        None => ".".to_string(),
    };
    proof {
        reveal_strlit(".");
    }
    let name = concat_texts(".fastexplorer-transfer-", transfer_id);
    let bc = chars_of(base.as_str());
    let needs_sep = bc.len() > 0 && bc[bc.len() - 1] != '/';
    let joined = if needs_sep {
        let with_sep = concat_texts(base.as_str(), "/");
        proof {
            reveal_strlit("/");
        }
        concat_texts(with_sep.as_str(), name.as_str())
    } else {
        concat_texts(base.as_str(), name.as_str())
    };
    joined
}

/// What the transfer list shows of one transfer.
#[derive(Debug, Clone)]
pub struct TransferSnapshot {
    pub transfer_id: String,
    pub label: String,
    pub phase: String,
    pub bytes_done: u64,
    pub bytes_total: u64,
    pub items_done: u64,
    pub items_total: u64,
    pub paused: bool,
    pub cancelling: bool,
    pub cancelled: bool,
    pub done: bool,
    pub error: Option<String>,
}

/// One transfer: what is shown of it, its job, the cache files it must
/// keep, the phase it goes back to after a pause, and whether it was asked
/// to stop.
#[derive(Debug, Clone)]
pub struct TransferRecord {
    pub snapshot: TransferSnapshot,
    pub job: TransferJob,
    pub protected_files: Vec<String>,
    pub resume_phase: String,
    pub cancel_requested: bool,
}

/// The mathematical content of a [`TransferRecord`].
pub struct RecordView {
    pub id: Seq<char>,
    pub label: Seq<char>,
    pub phase: Seq<char>,
    pub bytes_done: u64,
    pub bytes_total: u64,
    pub items_done: u64,
    pub items_total: u64,
    pub paused: bool,
    pub cancelling: bool,
    pub cancelled: bool,
    pub done: bool,
    pub error: Option<Seq<char>>,
    pub job: JobView,
    pub protected: Seq<Seq<char>>,
    pub resume_phase: Seq<char>,
    pub cancel_requested: bool,
}

impl View for TransferRecord {
    type V = RecordView;

    open spec fn view(&self) -> RecordView {
        RecordView {
            id: self.snapshot.transfer_id@,
            label: self.snapshot.label@,
            phase: self.snapshot.phase@,
            bytes_done: self.snapshot.bytes_done,
            bytes_total: self.snapshot.bytes_total,
            items_done: self.snapshot.items_done,
            items_total: self.snapshot.items_total,
            paused: self.snapshot.paused,
            cancelling: self.snapshot.cancelling,
            cancelled: self.snapshot.cancelled,
            done: self.snapshot.done,
            error: match self.snapshot.error {
                Some(e) => Some(e@),
                None => None,
            },
            job: self.job@,
            protected: self.protected_files@.map_values(|s: String| s@),
            resume_phase: self.resume_phase@,
            cancel_requested: self.cancel_requested,
        }
    }
}

/// The transfers of this session, oldest first, with the count of failures
/// and the last finished transfer of the current batch.
pub struct TransferRegistry {
    records: Vec<TransferRecord>,
    batch_failed_count: usize,
    batch_last_finished: Option<String>,
}

/// The mathematical content of a [`TransferRegistry`].
pub struct RegistryView {
    pub records: Seq<RecordView>,
    pub batch_failed_count: usize,
    pub batch_last_finished: Option<Seq<char>>,
}

impl View for TransferRegistry {
    type V = RegistryView;

    closed spec fn view(&self) -> RegistryView {
        RegistryView {
            records: self.records@.map_values(|r: TransferRecord| r@),
            batch_failed_count: self.batch_failed_count,
            batch_last_finished: match self.batch_last_finished {
                Some(s) => Some(s@),
                None => None,
            },
        }
    }
}

/// Whether a record has this id (and, if `active_only`, is unfinished).
pub open spec fn matches_record(r: RecordView, id: Seq<char>, active_only: bool) -> bool {
    r.id == id && (!active_only || !r.done)
}

/// The index of the first record with this id (and, if `active_only`, not
/// finished).
#[verifier::opaque]
pub open spec fn find_record(records: Seq<RecordView>, id: Seq<char>, active_only: bool) -> Option<int> {
    if exists|i: int|
        0 <= i < records.len() && matches_record(records[i], id, active_only) && forall|k: int|
            0 <= k < i ==> !matches_record(#[trigger] records[k], id, active_only) {
        Some(
            choose|i: int|
                0 <= i < records.len() && matches_record(records[i], id, active_only) && forall|k: int|
                    0 <= k < i ==> !matches_record(#[trigger] records[k], id, active_only),
        )
    } else {
        None
    }
}

/// Whether some transfer is still running.
#[verifier::opaque]
pub open spec fn any_active(records: Seq<RecordView>) -> bool {
    exists|i: int| 0 <= i < records.len() && !(#[trigger] records[i]).done
}

/// No two records share an id.
#[verifier::opaque]
pub open spec fn ids_unique(records: Seq<RecordView>) -> bool {
    forall|i: int, j: int| 0 <= i < j < records.len() ==> (#[trigger] records[i]).id != (#[trigger] records[j]).id
}

/// A new record for a transfer that starts in `phase`.
pub open spec fn fresh_record(
    id: Seq<char>,
    label: Seq<char>,
    phase: Seq<char>,
    protected: Seq<Seq<char>>,
    job: JobView,
) -> RecordView {
    RecordView {
        id,
        label,
        phase,
        bytes_done: 0,
        bytes_total: 0,
        items_done: 0,
        items_total: 0,
        paused: false,
        cancelling: false,
        cancelled: false,
        done: false,
        error: None,
        job,
        protected,
        resume_phase: phase,
        cancel_requested: false,
    }
}

/// The index of the first finished record.
#[verifier::opaque]
pub open spec fn first_done(records: Seq<RecordView>) -> Option<int> {
    if exists|i: int|
        0 <= i < records.len() && records[i].done && forall|k: int| 0 <= k < i ==> !(#[trigger] records[k]).done {
        Some(
            choose|i: int|
                0 <= i < records.len() && records[i].done && forall|k: int| 0 <= k < i ==> !(#[trigger] records[k]).done,
        )
    } else {
        None
    }
}

/// The records without those of one id.
pub open spec fn without_id(records: Seq<RecordView>, id: Seq<char>) -> Seq<RecordView>
    decreases records.len(),
{
    if records.len() == 0 {
        records
    } else {
        let rest = without_id(records.drop_last(), id);
        if records.last().id == id {
            rest
        } else {
            rest.push(records.last())
        }
    }
}

/// The registry after registering a transfer: nothing changes while a
/// transfer with the same id runs; otherwise older records of that id go,
/// an idle list starts a new batch, a full list drops its oldest finished
/// record, and the new record comes last.
pub open spec fn registered(
    v: RegistryView,
    id: Seq<char>,
    label: Seq<char>,
    phase: Seq<char>,
    protected: Seq<Seq<char>>,
    job: JobView,
) -> RegistryView {
    if find_record(v.records, id, true) is Some {
        v
    } else {
        let kept = without_id(v.records, id);
        let idle = !any_active(kept);
        let trimmed = if kept.len() >= TRANSFER_HISTORY_LIMIT && first_done(kept) is Some {
            kept.remove(first_done(kept).unwrap())
        } else {
            kept
        };
        RegistryView {
            records: trimmed.push(fresh_record(id, label, phase, protected, job)),
            batch_failed_count: if idle {
                0
            } else {
                v.batch_failed_count
            },
            batch_last_finished: if idle {
                None
            } else {
                v.batch_last_finished
            },
        }
    }
}

/// The texts of a list of strings.
pub open spec fn names_of(v: Seq<String>) -> Seq<Seq<char>> {
    v.map_values(|s: String| s@)
}

/// The text of an optional string.
pub open spec fn opt_view(o: Option<String>) -> Option<Seq<char>> {
    match o {
        Some(s) => Some(s@),
        None => None,
    }
}

/// Whether a snapshot shows exactly what a record holds.
pub open spec fn shows(s: TransferSnapshot, r: RecordView) -> bool {
    &&& s.transfer_id@ == r.id
    &&& s.label@ == r.label
    &&& s.phase@ == r.phase
    &&& s.bytes_done == r.bytes_done
    &&& s.bytes_total == r.bytes_total
    &&& s.items_done == r.items_done
    &&& s.items_total == r.items_total
    &&& s.paused == r.paused
    &&& s.cancelling == r.cancelling
    &&& s.cancelled == r.cancelled
    &&& s.done == r.done
    &&& (match s.error {
        Some(e) => r.error == Some(e@),
        None => r.error is None,
    })
}

/// What the TailDrive worker reports of a running transfer.
#[derive(Debug, Clone)]
pub struct TaildriveProgress {
    pub phase: String,
    pub paused: bool,
    pub cancelled: bool,
    pub bytes_done: u64,
    pub bytes_total: u64,
    pub items_done: u64,
    pub items_total: u64,
}

/// A record after a progress report from the TailDrive worker: a reported
/// pause sticks, a reported cancel marks the record as stopping, the
/// reported phase is taken unless the record is paused or stopping or
/// prepares an app install, and the counters are taken as reported.
pub open spec fn after_taildrive_progress(r: RecordView, p: TaildriveProgress) -> RecordView {
    let paused = p.paused || r.paused;
    let cancelling = p.cancelled || r.cancelling;
    let take_phase = p.phase@.len() > 0 && !paused && !cancelling && r.phase != "Preparing app install"@;
    RecordView {
        paused,
        cancelling,
        cancel_requested: p.cancelled || r.cancel_requested,
        phase: if take_phase {
            p.phase@
        } else {
            r.phase
        },
        resume_phase: if take_phase {
            p.phase@
        } else {
            r.resume_phase
        },
        bytes_done: p.bytes_done,
        bytes_total: p.bytes_total,
        items_done: p.items_done,
        items_total: p.items_total,
        ..r
    }
}

/// A record after a progress report of a local copy or move.
pub open spec fn after_local_progress(r: RecordView, bytes_done: u64, bytes_total: u64, items_done: u64, items_total: u64) -> RecordView {
    RecordView { bytes_done, bytes_total, items_done, items_total, ..r }
}

/// Whether a finished transfer counts as cancelled: it was asked to stop,
/// or its error says `transfer cancelled` in any ASCII case.
pub open spec fn finish_cancelled(r: RecordView, error: Option<Seq<char>>) -> bool {
    r.cancel_requested || (error matches Some(m) && eq_ignore_ascii_case(m, "transfer cancelled"@))
}

/// A record after its transfer ends: cancelled, failed with the error, or
/// completed with its counters filled up.
pub open spec fn after_finish(r: RecordView, error: Option<Seq<char>>) -> RecordView {
    let cancelled = finish_cancelled(r, error);
    let completed = !cancelled && error is None;
    RecordView {
        done: true,
        paused: false,
        cancelling: false,
        cancelled,
        error: if cancelled {
            None
        } else {
            error
        },
        phase: if cancelled {
            "Cancelled"@
        } else if error is Some {
            "Failed"@
        } else {
            "Completed"@
        },
        bytes_done: if completed && r.bytes_total > 0 {
            r.bytes_total
        } else {
            r.bytes_done
        },
        items_done: if completed && r.items_total > 0 {
            r.items_total
        } else {
            r.items_done
        },
        ..r
    }
}

/// A record after the worker names its next phase: it is remembered for
/// after a pause and shown unless the transfer is paused or stopping.
pub open spec fn after_phase(r: RecordView, phase: Seq<char>) -> RecordView {
    RecordView {
        resume_phase: phase,
        phase: if !r.paused && !r.cancelling {
            phase
        } else {
            r.phase
        },
        ..r
    }
}

/// The registry with record `i` replaced.
pub open spec fn with_record(v: RegistryView, i: int, r: RecordView) -> RegistryView {
    RegistryView { records: v.records.update(i, r), ..v }
}

/// The registry after a record's update when the record is found; the same
/// registry otherwise.
pub open spec fn updated_at(v: RegistryView, found: Option<int>, f: spec_fn(RecordView) -> RecordView) -> RegistryView {
    match found {
        Some(i) => with_record(v, i, f(v.records[i])),
        None => v,
    }
}

/// The cache files that running transfers still need.
pub open spec fn protected_set(records: Seq<RecordView>) -> Set<Seq<char>> {
    Set::new(
        |name: Seq<char>|
            exists|i: int, k: int|
                #![trigger records[i].protected[k]]
                0 <= i < records.len() && !records[i].done && 0 <= k < records[i].protected.len()
                    && records[i].protected[k] == name,
    )
}

/// Whether a phase is the final commit of a transfer.
pub open spec fn is_finishing(phase: Seq<char>) -> bool {
    phase.len() >= 9 && phase.take(9) == "Finishing"@
}

/// A record after a pause: paused, showing `Paused`.
pub open spec fn after_pause(r: RecordView) -> RecordView {
    RecordView { paused: true, phase: "Paused"@, ..r }
}

/// A record after a resume: running again in the phase it paused in.
pub open spec fn after_resume(r: RecordView) -> RecordView {
    RecordView { paused: false, phase: r.resume_phase, ..r }
}

/// A record after a cancel request: asked to stop, not paused, showing
/// `Cancelling`.
pub open spec fn after_cancel(r: RecordView) -> RecordView {
    RecordView { cancel_requested: true, paused: false, cancelling: true, phase: "Cancelling"@, ..r }
}

/// A record set up to run again: its initial phase, counters at zero, no
/// error, not finished.
pub open spec fn after_retry(r: RecordView) -> RecordView {
    RecordView {
        phase: initial_phase_of(r.job),
        resume_phase: initial_phase_of(r.job),
        bytes_done: 0,
        bytes_total: 0,
        items_done: 0,
        items_total: 0,
        paused: false,
        cancelling: false,
        cancelled: false,
        done: false,
        error: None,
        cancel_requested: false,
        ..r
    }
}

/// What a local worker does at a control point.
#[derive(Debug, Clone, PartialEq, Eq)]
pub enum LocalControl {
    /// Go on copying.
    Proceed,
    /// Wait until the transfer is resumed or cancelled.
    Wait,
    /// Stop with this error.
    Stop(String),
}

fn copy_job(job: &TransferJob) -> (r: TransferJob)
    ensures
        r@ == job@,
{
    match job {
        TransferJob::TaildriveDownload { display_name, open_after } => TransferJob::TaildriveDownload {
            display_name: display_name.clone(),
            open_after: *open_after,
        },
        TransferJob::TaildriveUpload => TransferJob::TaildriveUpload,
        TransferJob::TaildriveRelay => TransferJob::TaildriveRelay,
        TransferJob::TaildriveOther => TransferJob::TaildriveOther,
        TransferJob::LocalCopyMove { cut } => TransferJob::LocalCopyMove { cut: *cut },
        TransferJob::LocalOther => TransferJob::LocalOther,
    }
}

fn copy_text(s: &Option<String>) -> (r: Option<String>)
    ensures
        r == *s,
{
    match s {
        Some(t) => Some(t.clone()),
        None => None,
    }
}

fn copy_snapshot(s: &TransferSnapshot) -> (r: TransferSnapshot)
    ensures
        r == *s,
{
    TransferSnapshot {
        transfer_id: s.transfer_id.clone(),
        label: s.label.clone(),
        phase: s.phase.clone(),
        bytes_done: s.bytes_done,
        bytes_total: s.bytes_total,
        items_done: s.items_done,
        items_total: s.items_total,
        paused: s.paused,
        cancelling: s.cancelling,
        cancelled: s.cancelled,
        done: s.done,
        error: copy_text(&s.error),
    }
}

impl TransferRegistry {
    /// Whether the registry's records have distinct ids.
    pub open spec fn wf(&self) -> bool {
        ids_unique(self@.records)
    }

    /// An empty registry.
    pub fn new() -> (r: Self)
        ensures
            r@.records == Seq::<RecordView>::empty(),
            r@.batch_failed_count == 0,
            r@.batch_last_finished is None,
            r.wf(),
    {
        let r = TransferRegistry { records: Vec::new(), batch_failed_count: 0, batch_last_finished: None };
        assert(r@.records =~= Seq::<RecordView>::empty());
        reveal(ids_unique);
        r
    }

    /// What the transfer list shows, oldest first.
    pub fn snapshots(&self) -> (r: Vec<TransferSnapshot>)
        ensures
            r@.len() == self@.records.len(),
            forall|i: int| 0 <= i < r@.len() ==> shows(r@[i], self@.records[i]),
    {
        let mut out: Vec<TransferSnapshot> = Vec::new();
        for i in 0..self.records.len()
            invariant
                out@.len() == i,
                self@.records.len() == self.records@.len(),
                forall|k: int| 0 <= k < i ==> shows(out@[k], self@.records[k]),
        {
            assert(self@.records[i as int] == self.records@[i as int]@);
            out.push(copy_snapshot(&self.records[i].snapshot));
        }
        out
    }

    /// The index of the first record with this id (unfinished only, if
    /// asked).
    #[verifier::rlimit(30)]
    fn find_index(&self, id: &str, active_only: bool) -> (r: Option<usize>)
        ensures
            r matches Some(i) ==> find_record(self@.records, id@, active_only) == Some(i as int) && i
                < self@.records.len(),
            r is None ==> find_record(self@.records, id@, active_only) is None,
    {
        let ghost recs = self@.records;
        let idc = chars_of(id);
        reveal(find_record);
        for i in 0..self.records.len()
            invariant
                recs == self@.records,
                recs.len() == self.records@.len(),
                idc@ == id@,
                forall|k: int| 0 <= k < i ==> !matches_record(#[trigger] recs[k], id@, active_only),
        {
            assert(recs[i as int] == self.records@[i as int]@);
            let rc = chars_of(self.records[i].snapshot.transfer_id.as_str());
            assert(recs[i as int].id == rc@);
            assert(recs[i as int].done == self.records[i as int].snapshot.done);
            let same = same_chars(rc.as_slice(), idc.as_slice());
            if same && (!active_only || !self.records[i].snapshot.done) {
                assert(matches_record(recs[i as int], id@, active_only));
                proof {
                    reveal(find_record);
                }
                return Some(i);
            }
            assert(!matches_record(recs[i as int], id@, active_only));
        }
        None
    }

    /// Whether some transfer is still running.
    pub fn has_active_transfers(&self) -> (r: bool)
        ensures
            r == any_active(self@.records),
    {
        let ghost recs = self@.records;
        reveal(any_active);
        for i in 0..self.records.len()
            invariant
                recs == self@.records,
                recs.len() == self.records@.len(),
                forall|k: int| 0 <= k < i ==> (#[trigger] recs[k]).done,
        {
            assert(recs[i as int] == self.records@[i as int]@);
            if !self.records[i].snapshot.done {
                proof {
                    reveal(any_active);
                }
                return true;
            }
        }
        false
    }

    /// Applies a TailDrive progress report to the running transfer with
    /// this id, if any (the transfer rate is measured by the caller).
    pub fn update_taildrive_progress(&mut self, transfer_id: &str, progress: TaildriveProgress)
        requires
            old(self).wf(),
        ensures
            final(self).wf(),
            final(self)@ == updated_at(
                old(self)@,
                find_record(old(self)@.records, transfer_id@, true),
                |r: RecordView| after_taildrive_progress(r, progress),
            ),
    {
        let ghost v = self@;
        match self.find_index(transfer_id, true) {
            Some(i) => {
                let mut r = self.records.remove(i);
                proof {
                    assert(self.records@ == old(self).records@.remove(i as int));
                    assert(r@ == v.records[i as int]);
                }
                let paused = progress.paused || r.snapshot.paused;
                r.snapshot.paused = paused;
                if progress.cancelled {
                    r.cancel_requested = true;
                    r.snapshot.cancelling = true;
                }
                let preparing = chars_of(r.snapshot.phase.as_str());
                let install = same_chars(preparing.as_slice(), chars_of("Preparing app install").as_slice());
                let has_phase = chars_of(progress.phase.as_str()).len() > 0;
                if has_phase && !r.snapshot.paused && !r.snapshot.cancelling && !install {
                    r.resume_phase = progress.phase.clone();
                    r.snapshot.phase = progress.phase;
                }
                r.snapshot.bytes_done = progress.bytes_done;
                r.snapshot.bytes_total = progress.bytes_total;
                r.snapshot.items_done = progress.items_done;
                r.snapshot.items_total = progress.items_total;
                self.records.insert(i, r);
                proof {
                    assert(self@.records =~= v.records.update(i as int, after_taildrive_progress(v.records[i as int], progress)));
                    lemma_update_keeps_unique(v.records, i as int, after_taildrive_progress(v.records[i as int], progress));
                }
            },
            None => {},
        }
    }

    /// Applies a local copy's progress to the running transfer with this
    /// id, if any.
    pub fn update_local_progress(
        &mut self,
        transfer_id: &str,
        bytes_done: u64,
        bytes_total: u64,
        items_done: u64,
        items_total: u64,
    )
        requires
            old(self).wf(),
        ensures
            final(self).wf(),
            final(self)@ == updated_at(
                old(self)@,
                find_record(old(self)@.records, transfer_id@, true),
                |r: RecordView| after_local_progress(r, bytes_done, bytes_total, items_done, items_total),
            ),
    {
        let ghost v = self@;
        match self.find_index(transfer_id, true) {
            Some(i) => {
                let mut r = self.records.remove(i);
                proof {
                    assert(r@ == v.records[i as int]);
                }
                r.snapshot.bytes_done = bytes_done;
                r.snapshot.bytes_total = bytes_total;
                r.snapshot.items_done = items_done;
                r.snapshot.items_total = items_total;
                self.records.insert(i, r);
                proof {
                    let nr = after_local_progress(v.records[i as int], bytes_done, bytes_total, items_done, items_total);
                    assert(self@.records =~= v.records.update(i as int, nr));
                    lemma_update_keeps_unique(v.records, i as int, nr);
                }
            },
            None => {},
        }
    }

    /// Ends the transfer with this id (the first record of it), with its
    /// error if it failed, and counts the batch's failures.
    pub fn finish_transfer(&mut self, transfer_id: &str, error: Option<String>)
        requires
            old(self).wf(),
        ensures
            final(self).wf(),
            ({
                let v = old(self)@;
                let err = opt_view(error);
                match find_record(v.records, transfer_id@, false) {
                    Some(i) => final(self)@ == (RegistryView {
                        records: v.records.update(i, after_finish(v.records[i], err)),
                        batch_failed_count: if err is Some && !finish_cancelled(v.records[i], err) {
                            if v.batch_failed_count == usize::MAX {
                                usize::MAX
                            } else {
                                (v.batch_failed_count + 1) as usize
                            }
                        } else {
                            v.batch_failed_count
                        },
                        batch_last_finished: Some(v.records[i].id),
                    }),
                    None => final(self)@ == v,
                }
            }),
    {
        let ghost v = self@;
        let ghost err = opt_view(error);
        let i = match self.find_index(transfer_id, false) {
            Some(i) => i,
            None => return,
        };
        let mut r = self.records.remove(i);
        proof {
            assert(r@ == v.records[i as int]);
        }
        let said_cancelled = match &error {
            Some(m) => {
                let mc = chars_of(m.as_str());
                let word = chars_of("transfer cancelled");
                chars_eq_ignore_ascii_case(mc.as_slice(), word.as_slice())
            },
            None => false,
        };
        let cancelled = r.cancel_requested || said_cancelled;
        let failed = error.is_some();
        r.snapshot.done = true;
        r.snapshot.paused = false;
        r.snapshot.cancelling = false;
        r.snapshot.cancelled = cancelled;
        if cancelled {
            r.snapshot.phase = "Cancelled".to_string();
            r.snapshot.error = None;
        } else if failed {
            r.snapshot.phase = "Failed".to_string();
            r.snapshot.error = error;
        } else {
            r.snapshot.phase = "Completed".to_string();
            r.snapshot.error = None;
            if r.snapshot.bytes_total > 0 {
                r.snapshot.bytes_done = r.snapshot.bytes_total;
            }
            if r.snapshot.items_total > 0 {
                r.snapshot.items_done = r.snapshot.items_total;
            }
        }
        let finished_id = r.snapshot.transfer_id.clone();
        self.records.insert(i, r);
        if failed && !cancelled {
            self.batch_failed_count = self.batch_failed_count.saturating_add(1);
        }
        self.batch_last_finished = Some(finished_id);
        proof {
            let nr = after_finish(v.records[i as int], err);
            assert(self@.records =~= v.records.update(i as int, nr));
            lemma_update_keeps_unique(v.records, i as int, nr);
        }
    }

    /// Names the next phase of the running transfer with this id, if any.
    pub fn set_transfer_phase(&mut self, transfer_id: &str, phase: &str)
        requires
            old(self).wf(),
        ensures
            final(self).wf(),
            final(self)@ == updated_at(
                old(self)@,
                find_record(old(self)@.records, transfer_id@, true),
                |r: RecordView| after_phase(r, phase@),
            ),
    {
        let ghost v = self@;
        match self.find_index(transfer_id, true) {
            Some(i) => {
                let mut r = self.records.remove(i);
                proof {
                    assert(r@ == v.records[i as int]);
                }
                r.resume_phase = phase.to_string();
                if !r.snapshot.paused && !r.snapshot.cancelling {
                    r.snapshot.phase = phase.to_string();
                }
                self.records.insert(i, r);
                proof {
                    let nr = after_phase(v.records[i as int], phase@);
                    assert(self@.records =~= v.records.update(i as int, nr));
                    lemma_update_keeps_unique(v.records, i as int, nr);
                }
            },
            None => {},
        }
    }

    /// The cache files that running transfers still need, each once.
    pub fn protected_cache_files(&self) -> (r: Vec<String>)
        ensures
            names_of(r@).to_set() == protected_set(self@.records),
            names_of(r@).no_duplicates(),
    {
        let ghost recs = self@.records;
        let mut out: Vec<String> = Vec::new();
        assert(names_of(out@).to_set() =~= protected_upto(recs, 0));
        for i in 0..self.records.len()
            invariant
                recs == self@.records,
                recs.len() == self.records@.len(),
                names_of(out@).no_duplicates(),
                names_of(out@).to_set() == protected_upto(recs, i as int),
        {
            assert(recs[i as int] == self.records@[i as int]@);
            let ghost before = protected_upto(recs, i as int);
            if !self.records[i].snapshot.done {
                let files = &self.records[i].protected_files;
                assert(recs[i as int].protected == names_of(files@));
                for k in 0..files.len()
                    invariant
                        files@ == self.records@[i as int].protected_files@,
                        recs[i as int].protected == names_of(files@),
                        names_of(out@).no_duplicates(),
                        names_of(out@).to_set() == before + names_of(files@).take(k as int).to_set(),
                {
                    let ghost o = names_of(out@);
                    let name = &files[k];
                    let present = contains_text(&out, name.as_str());
                    if !present {
                        out.push(name.clone());
                        proof {
                            assert(names_of(out@) =~= o.push(name@));
                            lemma_push_fresh_no_dup(o, name@);
                        }
                    }
                    proof {
                        assert(names_of(files@).take(k + 1) =~= names_of(files@).take(k as int).push(name@));
                        lemma_push_to_set(o, name@);
                        lemma_push_to_set(names_of(files@).take(k as int), name@);
                        assert(names_of(out@).to_set() =~= before + names_of(files@).take(k + 1).to_set());
                    }
                }
                proof {
                    assert(names_of(files@).take(files@.len() as int) =~= names_of(files@));
                    lemma_protected_upto_step(recs, i as int);
                }
            } else {
                proof {
                    lemma_protected_upto_step(recs, i as int);
                }
            }
        }
        proof {
            assert(protected_upto(recs, recs.len() as int) =~= protected_set(recs));
        }
        out
    }

    /// Whether the running transfer with this id can be paused: answers
    /// whether it is a TailDrive job (whose worker must then be asked to
    /// pause), or why it cannot.
    pub fn prepare_pause(&self, transfer_id: &str) -> (r: Result<bool, String>)
        ensures
            match find_record(self@.records, transfer_id@, true) {
                None => r matches Err(e) && e@ == "transfer is not active"@,
                Some(i) => if is_finishing(self@.records[i].phase) || self@.records[i].cancelling {
                    r matches Err(e) && e@ == "transfer is finishing and cannot be paused safely"@
                } else {
                    r == Ok::<bool, String>(job_is_taildrive(self@.records[i].job))
                },
            },
    {
        match self.find_index(transfer_id, true) {
            None => Err("transfer is not active".to_string()),
            Some(i) => {
                let r = &self.records[i];
                assert(self@.records[i as int] == r@);
                if starts_with_finishing(r.snapshot.phase.as_str()) || r.snapshot.cancelling {
                    Err("transfer is finishing and cannot be paused safely".to_string())
                } else {
                    Ok(is_taildrive_job(&r.job))
                }
            },
        }
    }

    /// Pauses the running transfer with this id once its worker agreed
    /// (`controlled`); the caller clears its transfer rate.
    pub fn pause(&mut self, transfer_id: &str, controlled: bool) -> (r: Result<(), String>)
        requires
            old(self).wf(),
        ensures
            final(self).wf(),
            !controlled ==> (r matches Err(e) && e@ == "cannot pause transfer right now"@ && final(self)@ == old(self)@),
            controlled ==> final(self)@ == updated_at(
                old(self)@,
                find_record(old(self)@.records, transfer_id@, true),
                |r: RecordView| after_pause(r),
            ),
            controlled ==> (r is Ok <==> find_record(old(self)@.records, transfer_id@, true) is Some),
            controlled && r is Err ==> (r matches Err(e) && e@ == "transfer is not active"@),
    {
        if !controlled {
            return Err("cannot pause transfer right now".to_string());
        }
        let ghost v = self@;
        match self.find_index(transfer_id, true) {
            Some(i) => {
                let mut r = self.records.remove(i);
                proof {
                    assert(r@ == v.records[i as int]);
                }
                r.snapshot.paused = true;
                r.snapshot.phase = "Paused".to_string();
                self.records.insert(i, r);
                proof {
                    let nr = after_pause(v.records[i as int]);
                    assert(self@.records =~= v.records.update(i as int, nr));
                    lemma_update_keeps_unique(v.records, i as int, nr);
                }
                Ok(())
            },
            None => Err("transfer is not active".to_string()),
        }
    }

    /// Whether the running transfer with this id can be resumed: answers
    /// whether it is a TailDrive job (whose worker must then be asked to
    /// resume).
    pub fn prepare_resume(&self, transfer_id: &str) -> (r: Result<bool, String>)
        ensures
            match find_record(self@.records, transfer_id@, true) {
                None => r matches Err(e) && e@ == "transfer is not active"@,
                Some(i) => r == Ok::<bool, String>(job_is_taildrive(self@.records[i].job)),
            },
    {
        match self.find_index(transfer_id, true) {
            None => Err("transfer is not active".to_string()),
            Some(i) => {
                assert(self@.records[i as int] == self.records@[i as int]@);
                Ok(is_taildrive_job(&self.records[i].job))
            },
        }
    }

    /// Resumes the running transfer with this id once its worker agreed
    /// (`controlled`), in the phase it paused in; the caller restarts its
    /// rate sampling and wakes waiting workers.
    pub fn resume(&mut self, transfer_id: &str, controlled: bool) -> (r: Result<(), String>)
        requires
            old(self).wf(),
        ensures
            final(self).wf(),
            !controlled ==> (r matches Err(e) && e@ == "cannot resume transfer right now"@ && final(self)@ == old(self)@),
            controlled ==> final(self)@ == updated_at(
                old(self)@,
                find_record(old(self)@.records, transfer_id@, true),
                |r: RecordView| after_resume(r),
            ),
            controlled ==> (r is Ok <==> find_record(old(self)@.records, transfer_id@, true) is Some),
            controlled && r is Err ==> (r matches Err(e) && e@ == "transfer is not active"@),
    {
        if !controlled {
            return Err("cannot resume transfer right now".to_string());
        }
        let ghost v = self@;
        match self.find_index(transfer_id, true) {
            Some(i) => {
                let mut r = self.records.remove(i);
                proof {
                    assert(r@ == v.records[i as int]);
                }
                r.snapshot.paused = false;
                r.snapshot.phase = r.resume_phase.clone();
                self.records.insert(i, r);
                proof {
                    let nr = after_resume(v.records[i as int]);
                    assert(self@.records =~= v.records.update(i as int, nr));
                    lemma_update_keeps_unique(v.records, i as int, nr);
                }
                Ok(())
            },
            None => Err("transfer is not active".to_string()),
        }
    }

    /// Asks the running transfer with this id to stop. Answers whether its
    /// TailDrive worker must be told; a transfer that is already stopping
    /// is left as it is, and one that is being committed cannot stop.
    pub fn cancel(&mut self, transfer_id: &str) -> (r: Result<bool, String>)
        requires
            old(self).wf(),
        ensures
            final(self).wf(),
            ({
                let v = old(self)@;
                match find_record(v.records, transfer_id@, true) {
                    None => r matches Err(e) && e@ == "transfer is not active"@ && final(self)@ == v,
                    Some(i) => if v.records[i].cancelling {
                        r == Ok::<bool, String>(false) && final(self)@ == v
                    } else if is_finishing(v.records[i].phase) {
                        r matches Err(e) && e@ == "transfer is already being committed"@ && final(self)@ == v
                    } else {
                        r == Ok::<bool, String>(job_is_taildrive(v.records[i].job)) && final(self)@
                            == with_record(v, i, after_cancel(v.records[i]))
                    },
                }
            }),
    {
        let ghost v = self@;
        let i = match self.find_index(transfer_id, true) {
            Some(i) => i,
            None => return Err("transfer is not active".to_string()),
        };
        assert(v.records[i as int] == self.records@[i as int]@);
        if self.records[i].snapshot.cancelling {
            return Ok(false);
        }
        if starts_with_finishing(self.records[i].snapshot.phase.as_str()) {
            return Err("transfer is already being committed".to_string());
        }
        let mut r = self.records.remove(i);
        r.cancel_requested = true;
        r.snapshot.paused = false;
        r.snapshot.cancelling = true;
        r.snapshot.phase = "Cancelling".to_string();
        let taildrive = is_taildrive_job(&r.job);
        self.records.insert(i, r);
        proof {
            let nr = after_cancel(v.records[i as int]);
            assert(self@.records =~= v.records.update(i as int, nr));
            lemma_update_keeps_unique(v.records, i as int, nr);
        }
        Ok(taildrive)
    }

    /// Sets a failed or cancelled transfer with this id up to run again and
    /// hands back its job, which the caller starts again.
    pub fn retry(&mut self, transfer_id: &str) -> (r: Result<TransferJob, String>)
        requires
            old(self).wf(),
        ensures
            final(self).wf(),
            ({
                let v = old(self)@;
                match find_record(v.records, transfer_id@, false) {
                    Some(i) if v.records[i].done => if v.records[i].error is None && !v.records[i].cancelled {
                        r matches Err(e) && e@ == "only failed or cancelled transfers can be retried"@
                            && final(self)@ == v
                    } else {
                        r matches Ok(job) && job@ == v.records[i].job && final(self)@ == with_record(
                            v,
                            i,
                            after_retry(v.records[i]),
                        )
                    },
                    _ => r matches Err(e) && e@ == "transfer cannot be retried"@ && final(self)@ == v,
                }
            }),
    {
        let ghost v = self@;
        let i = match self.find_done_index(transfer_id) {
            Some(i) => i,
            None => return Err("transfer cannot be retried".to_string()),
        };
        assert(v.records[i as int] == self.records@[i as int]@);
        if self.records[i].snapshot.error.is_none() && !self.records[i].snapshot.cancelled {
            return Err("only failed or cancelled transfers can be retried".to_string());
        }
        let mut r = self.records.remove(i);
        let phase = initial_phase(&r.job);
        r.resume_phase = phase.clone();
        r.snapshot.phase = phase;
        r.snapshot.bytes_done = 0;
        r.snapshot.bytes_total = 0;
        r.snapshot.items_done = 0;
        r.snapshot.items_total = 0;
        r.snapshot.paused = false;
        r.snapshot.cancelling = false;
        r.snapshot.cancelled = false;
        r.snapshot.done = false;
        r.snapshot.error = None;
        r.cancel_requested = false;
        let job = copy_job(&r.job);
        self.records.insert(i, r);
        proof {
            let nr = after_retry(v.records[i as int]);
            assert(self@.records =~= v.records.update(i as int, nr));
            lemma_update_keeps_unique(v.records, i as int, nr);
        }
        Ok(job)
    }

    /// The first record with this id when it is finished.
    fn find_done_index(&self, transfer_id: &str) -> (r: Option<usize>)
        ensures
            r matches Some(i) ==> find_record(self@.records, transfer_id@, false) == Some(i as int) && i
                < self@.records.len() && self@.records[i as int].done,
            r is None ==> !(find_record(self@.records, transfer_id@, false) matches Some(i) && self@.records[i].done),
    {
        match self.find_index(transfer_id, false) {
            Some(i) => {
                assert(self@.records[i as int] == self.records@[i as int]@);
                if self.records[i].snapshot.done {
                    Some(i)
                } else {
                    None
                }
            },
            None => None,
        }
    }

    /// What a local worker does at a control point: stop when its record is
    /// gone or it was asked to stop, wait while paused, else go on.
    pub fn local_control(&self, transfer_id: &str) -> (r: LocalControl)
        ensures
            match find_record(self@.records, transfer_id@, false) {
                None => r matches LocalControl::Stop(e) && e@ == "transfer state disappeared"@,
                Some(i) => if self@.records[i].cancel_requested {
                    r matches LocalControl::Stop(e) && e@ == "transfer cancelled"@
                } else if !self@.records[i].paused {
                    r == LocalControl::Proceed
                } else {
                    r == LocalControl::Wait
                },
            },
    {
        match self.find_index(transfer_id, false) {
            None => LocalControl::Stop("transfer state disappeared".to_string()),
            Some(i) => {
                assert(self@.records[i as int] == self.records@[i as int]@);
                if self.records[i].cancel_requested {
                    LocalControl::Stop("transfer cancelled".to_string())
                } else if !self.records[i].snapshot.paused {
                    LocalControl::Proceed
                } else {
                    LocalControl::Wait
                }
            },
        }
    }

    /// Adds a transfer to the list, unless one with the same id is still
    /// running (see `registered`).
    #[verifier::rlimit(40)]
    pub fn register_transfer(
        &mut self,
        transfer_id: String,
        label: String,
        phase: String,
        protected_files: Vec<String>,
        job: TransferJob,
    )
        requires
            old(self).wf(),
        ensures
            final(self).wf(),
            final(self)@ == registered(
                old(self)@,
                transfer_id@,
                label@,
                phase@,
                protected_files@.map_values(|s: String| s@),
                job@,
            ),
    {
        if self.find_index(transfer_id.as_str(), true).is_some() {
            return;
        }
        let ghost orig = self@.records;
        let mut kept = take_without_id(&mut self.records, transfer_id.as_str());
        let ghost kept_view = without_id(orig, transfer_id@);
        proof {
            lemma_without_id(orig, transfer_id@);
        }
        if !any_unfinished(&kept) {
            self.batch_failed_count = 0;
            self.batch_last_finished = None;
        }
        trim_full_history(&mut kept);
        let ghost trimmed = trimmed_history(kept_view);
        let ghost protected_view = protected_files@.map_values(|s: String| s@);
        let ghost fresh = fresh_record(transfer_id@, label@, phase@, protected_view, job@);
        let record = TransferRecord {
            snapshot: TransferSnapshot {
                transfer_id,
                label,
                phase: phase.clone(),
                bytes_done: 0,
                bytes_total: 0,
                items_done: 0,
                items_total: 0,
                paused: false,
                cancelling: false,
                cancelled: false,
                done: false,
                error: None,
            },
            job,
            protected_files,
            resume_phase: phase,
            cancel_requested: false,
        };
        assert(record@ == fresh);
        kept.push(record);
        self.records = kept;
        proof {
            assert(self@.records =~= trimmed.push(fresh));
            if kept_view.len() >= TRANSFER_HISTORY_LIMIT && first_done(kept_view) is Some {
                reveal(first_done);
                lemma_remove_keeps(kept_view, fresh.id, first_done(kept_view).unwrap());
            }
            lemma_push_unique(trimmed, fresh);
        }
    }
}


/// A full history without its oldest finished record.
pub open spec fn trimmed_history(kept: Seq<RecordView>) -> Seq<RecordView> {
    if kept.len() >= TRANSFER_HISTORY_LIMIT && first_done(kept) is Some {
        kept.remove(first_done(kept).unwrap())
    } else {
        kept
    }
}

fn take_without_id(records: &mut Vec<TransferRecord>, id: &str) -> (kept: Vec<TransferRecord>)
    ensures
        kept@.map_values(|r: TransferRecord| r@) == without_id(old(records)@.map_values(|r: TransferRecord| r@), id@),
        final(records)@.len() == 0,
{
    let ghost orig = records@.map_values(|r: TransferRecord| r@);
    let idc = chars_of(id);
    let mut kept: Vec<TransferRecord> = Vec::new();
    let n = records.len();
    let mut k: usize = 0;
    assert(orig.take(0) =~= Seq::<RecordView>::empty());
    assert(records@.map_values(|r: TransferRecord| r@) =~= orig.skip(0));
    assert(kept@.map_values(|r: TransferRecord| r@) =~= Seq::<RecordView>::empty());
    while k < n
        invariant
            n == orig.len(),
            k <= n,
            idc@ == id@,
            kept@.map_values(|r: TransferRecord| r@) == without_id(orig.take(k as int), id@),
            records@.map_values(|r: TransferRecord| r@) == orig.skip(k as int),
            records@.len() == n - k,
        decreases n - k,
    {
        let ghost before = records@;
        let r = records.remove(0);
        proof {
            assert(orig.skip(k as int)[0] == orig[k as int]);
            assert(before.map_values(|r: TransferRecord| r@)[0] == before[0]@);
            assert(records@ == before.remove(0));
            assert(records@.map_values(|r: TransferRecord| r@) =~= before.map_values(|r: TransferRecord| r@).skip(1));
            assert(orig.skip(k as int).skip(1) =~= orig.skip(k + 1));
            assert(orig.take(k + 1).drop_last() == orig.take(k as int));
            assert(orig.take(k + 1).last() == orig[k as int]);
        }
        let rc = chars_of(r.snapshot.transfer_id.as_str());
        if !same_chars(rc.as_slice(), idc.as_slice()) {
            kept.push(r);
            proof {
                assert(kept@.map_values(|r: TransferRecord| r@) =~= without_id(orig.take(k as int), id@).push(orig[k as int]));
            }
        }
        k = k + 1;
    }
    assert(orig.take(n as int) == orig);
    kept
}

fn any_unfinished(records: &Vec<TransferRecord>) -> (r: bool)
    ensures
        r == any_active(records@.map_values(|r: TransferRecord| r@)),
{
    let ghost v = records@.map_values(|r: TransferRecord| r@);
    reveal(any_active);
    for i in 0..records.len()
        invariant
            v == records@.map_values(|r: TransferRecord| r@),
            forall|q: int| 0 <= q < i ==> (#[trigger] v[q]).done,
    {
        assert(v[i as int] == records@[i as int]@);
        if !records[i].snapshot.done {
            proof {
                reveal(any_active);
            }
            return true;
        }
    }
    false
}

fn trim_full_history(kept: &mut Vec<TransferRecord>)
    ensures
        final(kept)@.map_values(|r: TransferRecord| r@) == trimmed_history(old(kept)@.map_values(|r: TransferRecord| r@)),
{
    let ghost v = kept@.map_values(|r: TransferRecord| r@);
    reveal(first_done);
    if kept.len() >= TRANSFER_HISTORY_LIMIT {
        let mut found: Option<usize> = None;
        for i in 0..kept.len()
            invariant
                v == kept@.map_values(|r: TransferRecord| r@),
                found matches Some(q) ==> q < v.len() && v[q as int].done && forall|m: int| 0 <= m < q ==> !(#[trigger] v[m]).done,
                found is None ==> forall|m: int| 0 <= m < i ==> !(#[trigger] v[m]).done,
        {
            assert(v[i as int] == kept@[i as int]@);
            if found.is_none() && kept[i].snapshot.done {
                found = Some(i);
            }
        }
        if let Some(q) = found {
            assert(first_done(v) == Some(q as int));
            let _ = kept.remove(q);
            assert(kept@.map_values(|r: TransferRecord| r@) =~= v.remove(q as int));
        } else {
            assert(first_done(v) is None);
        }
    }
}

proof fn lemma_push_unique(records: Seq<RecordView>, fresh: RecordView)
    requires
        ids_unique(records),
        forall|q: int| 0 <= q < records.len() ==> (#[trigger] records[q]).id != fresh.id,
    ensures
        ids_unique(records.push(fresh)),
{
    reveal(ids_unique);
    let out = records.push(fresh);
    assert forall|a: int, b: int| 0 <= a < b < out.len() implies (#[trigger] out[a]).id != (#[trigger] out[b]).id by {
        assert(out[a] == records[a]);
        if b < records.len() {
            assert(out[b] == records[b]);
        }
    }
}

proof fn lemma_update_keeps_unique(records: Seq<RecordView>, i: int, r: RecordView)
    requires
        0 <= i < records.len(),
        r.id == records[i].id,
        ids_unique(records),
    ensures
        ids_unique(records.update(i, r)),
{
    reveal(ids_unique);
    let out = records.update(i, r);
    assert forall|a: int, b: int| 0 <= a < b < out.len() implies (#[trigger] out[a]).id != (#[trigger] out[b]).id by {
        assert(out[a].id == records[a].id);
        assert(out[b].id == records[b].id);
    }
}

/// The cache files that unfinished records before index `n` need.
pub open spec fn protected_upto(records: Seq<RecordView>, n: int) -> Set<Seq<char>> {
    Set::new(
        |name: Seq<char>|
            exists|i: int, k: int|
                #![trigger records[i].protected[k]]
                0 <= i < n && i < records.len() && !records[i].done && 0 <= k < records[i].protected.len()
                    && records[i].protected[k] == name,
    )
}

proof fn lemma_protected_upto_step(records: Seq<RecordView>, n: int)
    requires
        0 <= n < records.len(),
    ensures
        protected_upto(records, n + 1) == if records[n].done {
            protected_upto(records, n)
        } else {
            protected_upto(records, n) + records[n].protected.to_set()
        },
{
    let next = protected_upto(records, n + 1);
    let prev = protected_upto(records, n);
    if records[n].done {
        assert forall|name: Seq<char>| next.contains(name) <==> prev.contains(name) by {
            if next.contains(name) {
                let (i, k) = choose|i: int, k: int|
                    #![trigger records[i].protected[k]]
                    0 <= i < n + 1 && i < records.len() && !records[i].done && 0 <= k < records[i].protected.len()
                        && records[i].protected[k] == name;
                assert(i < n);
            }
        }
        assert(next =~= prev);
    } else {
        let add = records[n].protected.to_set();
        assert forall|name: Seq<char>| next.contains(name) <==> (prev + add).contains(name) by {
            if next.contains(name) {
                let (i, k) = choose|i: int, k: int|
                    #![trigger records[i].protected[k]]
                    0 <= i < n + 1 && i < records.len() && !records[i].done && 0 <= k < records[i].protected.len()
                        && records[i].protected[k] == name;
                if i == n {
                    assert(records[n].protected.contains(name));
                }
            }
            if add.contains(name) {
                assert(records[n].protected.contains(name));
                let k = choose|k: int| 0 <= k < records[n].protected.len() && records[n].protected[k] == name;
                assert(records[n].protected[k] == name);
            }
        }
        assert(next =~= prev + add);
    }
}

proof fn lemma_push_to_set(s: Seq<Seq<char>>, x: Seq<char>)
    ensures
        s.push(x).to_set() == s.to_set().insert(x),
{
    assert forall|y: Seq<char>| s.push(x).to_set().contains(y) <==> s.to_set().insert(x).contains(y) by {
        if s.push(x).contains(y) && y != x {
            let k = choose|k: int| 0 <= k < s.push(x).len() && s.push(x)[k] == y;
            assert(k < s.len());
            assert(s[k] == y);
        }
        if s.contains(y) {
            let k = choose|k: int| 0 <= k < s.len() && s[k] == y;
            assert(s.push(x)[k] == y);
        }
        if y == x {
            assert(s.push(x)[s.len() as int] == x);
        }
    }
    assert(s.push(x).to_set() =~= s.to_set().insert(x));
}

proof fn lemma_push_fresh_no_dup(s: Seq<Seq<char>>, x: Seq<char>)
    requires
        s.no_duplicates(),
        !s.contains(x),
    ensures
        s.push(x).no_duplicates(),
{
    let t = s.push(x);
    assert forall|a: int, b: int| 0 <= a < t.len() && 0 <= b < t.len() && a != b implies t[a] != t[b] by {
        if a < s.len() && b < s.len() {
            assert(t[a] == s[a] && t[b] == s[b]);
        } else if a < s.len() {
            assert(t[a] == s[a]);
        } else if b < s.len() {
            assert(t[b] == s[b]);
        }
    }
}

fn contains_text(v: &Vec<String>, s: &str) -> (r: bool)
    ensures
        r == names_of(v@).contains(s@),
{
    let sc = chars_of(s);
    for j in 0..v.len()
        invariant
            sc@ == s@,
            forall|t: int| 0 <= t < j ==> names_of(v@)[t] != s@,
    {
        let a = chars_of(v[j].as_str());
        if same_chars(a.as_slice(), sc.as_slice()) {
            assert(names_of(v@)[j as int] == s@);
            return true;
        }
    }
    false
}

/// Whether a job runs on the TailDrive worker.
pub open spec fn job_is_taildrive(job: JobView) -> bool {
    match job {
        JobView::LocalCopyMove(_) | JobView::LocalOther => false,
        _ => true,
    }
}

fn is_taildrive_job(job: &TransferJob) -> (r: bool)
    ensures
        r == job_is_taildrive(job@),
{
    match job {
        TransferJob::LocalCopyMove { .. } | TransferJob::LocalOther => false,
        _ => true,
    }
}

fn starts_with_finishing(phase: &str) -> (r: bool)
    ensures
        r == is_finishing(phase@),
{
    let pc = chars_of(phase);
    let word = chars_of("Finishing");
    proof {
        reveal_strlit("Finishing");
    }
    if pc.len() < 9 {
        return false;
    }
    let mut head: Vec<char> = Vec::new();
    for i in 0..9
        invariant
            pc@.len() >= 9,
            head@ == pc@.take(i as int),
    {
        head.push(pc[i]);
        assert(pc@.take(i + 1) == pc@.take(i as int).push(pc@[i as int]));
    }
    same_chars(head.as_slice(), word.as_slice())
}

proof fn lemma_without_id(records: Seq<RecordView>, id: Seq<char>)
    ensures
        forall|q: int| 0 <= q < without_id(records, id).len() ==> (#[trigger] without_id(records, id)[q]).id != id,
        forall|q: int| 0 <= q < without_id(records, id).len() ==> exists|m: int| 0 <= m < records.len() && records[m] == #[trigger] without_id(records, id)[q],
        ids_unique(records) ==> ids_unique(without_id(records, id)),
        without_id(records, id).len() <= records.len(),
    decreases records.len(),
{
    reveal(ids_unique);
    if records.len() > 0 {
        let init = records.drop_last();
        lemma_without_id(init, id);
        let rest = without_id(init, id);
        assert forall|q: int| 0 <= q < without_id(records, id).len() implies exists|m: int| 0 <= m < records.len() && records[m] == #[trigger] without_id(records, id)[q] by {
            if q < rest.len() {
                let m = choose|m: int| 0 <= m < init.len() && init[m] == rest[q];
                assert(records[m] == init[m]);
            } else {
                assert(records[records.len() - 1] == without_id(records, id)[q]);
            }
        }
        if ids_unique(records) {
            assert(ids_unique(init)) by {
                assert forall|a: int, b: int| 0 <= a < b < init.len() implies (#[trigger] init[a]).id != (#[trigger] init[b]).id by {
                    assert(init[a] == records[a] && init[b] == records[b]);
                }
            }
            if records.last().id != id {
                assert forall|q: int| 0 <= q < rest.len() implies (#[trigger] rest[q]).id != records.last().id by {
                    let m = choose|m: int| 0 <= m < init.len() && init[m] == rest[q];
                    assert(records[m] == init[m]);
                    assert(records[m].id != records[records.len() - 1].id);
                }
                let out = without_id(records, id);
                assert forall|a: int, b: int| 0 <= a < b < out.len() implies (#[trigger] out[a]).id != (#[trigger] out[b]).id by {
                    assert(out[a] == rest[a]);
                    if b < rest.len() {
                        assert(out[b] == rest[b]);
                    }
                }
            }
        }
    }
}

proof fn lemma_remove_keeps(records: Seq<RecordView>, id: Seq<char>, k: int)
    requires
        0 <= k < records.len(),
        forall|q: int| 0 <= q < records.len() ==> (#[trigger] records[q]).id != id,
    ensures
        forall|q: int| 0 <= q < records.remove(k).len() ==> (#[trigger] records.remove(k)[q]).id != id,
        ids_unique(records) ==> ids_unique(records.remove(k)),
{
    reveal(ids_unique);
    let r = records.remove(k);
    assert forall|q: int| 0 <= q < r.len() implies (#[trigger] r[q]).id != id by {
        if q < k {
            assert(r[q] == records[q]);
        } else {
            assert(r[q] == records[q + 1]);
        }
    }
    if ids_unique(records) {
        assert forall|a: int, b: int| 0 <= a < b < r.len() implies (#[trigger] r[a]).id != (#[trigger] r[b]).id by {
            let ia = if a < k { a } else { a + 1 };
            let ib = if b < k { b } else { b + 1 };
            assert(r[a] == records[ia]);
            assert(r[b] == records[ib]);
        }
    }
}

/// A registered transfer is running: after registering, the list holds an
/// unfinished record with that id, so some transfer is active.
pub proof fn lemma_registered_is_active(
    v: RegistryView,
    id: Seq<char>,
    label: Seq<char>,
    phase: Seq<char>,
    protected: Seq<Seq<char>>,
    job: JobView,
)
    ensures
        any_active(registered(v, id, label, phase, protected, job).records),
        exists|i: int|
            0 <= i < registered(v, id, label, phase, protected, job).records.len() && matches_record(
                #[trigger] registered(v, id, label, phase, protected, job).records[i],
                id,
                true,
            ),
{
    reveal(any_active);
    reveal(find_record);
    let out = registered(v, id, label, phase, protected, job);
    if find_record(v.records, id, true) is Some {
        let i = find_record(v.records, id, true).unwrap();
        assert(matches_record(out.records[i], id, true));
    } else {
        let last = out.records.len() - 1;
        assert(matches_record(out.records[last], id, true));
    }
}

/// Pausing and then resuming a transfer that shows its resume phase gives
/// back the same record.
pub proof fn lemma_pause_resume(r: RecordView)
    requires
        !r.paused,
        r.phase == r.resume_phase,
    ensures
        after_resume(after_pause(r)) == r,
{
}

/// A transfer that failed (not by cancelling) can be retried, and the retry
/// leaves it running in its initial phase with nothing transferred yet.
pub proof fn lemma_failed_transfer_retries(r: RecordView, error: Seq<char>)
    requires
        !finish_cancelled(r, Some(error)),
    ensures
        after_finish(r, Some(error)).done,
        after_finish(r, Some(error)).error == Some(error),
        after_finish(r, Some(error)).phase == "Failed"@,
        !after_retry(after_finish(r, Some(error))).done,
        after_retry(after_finish(r, Some(error))).phase == initial_phase_of(r.job),
        after_retry(after_finish(r, Some(error))).bytes_done == 0,
        after_retry(after_finish(r, Some(error))).error is None,
        after_retry(after_finish(r, Some(error))).id == r.id,
{
}

/// A transfer asked to stop ends cancelled, without an error, whatever its
/// worker reports.
pub proof fn lemma_cancel_then_finish(r: RecordView, error: Option<Seq<char>>)
    ensures
        after_finish(after_cancel(r), error).cancelled,
        after_finish(after_cancel(r), error).error is None,
        after_finish(after_cancel(r), error).phase == "Cancelled"@,
{
}

} // verus!
