//! The transfer list of the window: one item per file transfer started in
//! this session, with its phase, counters and outcome. The transfer speed
//! and the time left, which the window measures with a clock and floating
//! point, are kept by the window itself.
use vstd::prelude::*;
use crate::text::{chars_eq_ignore_ascii_case, chars_of, eq_ignore_ascii_case, same_text};
use crate::transfer::TRANSFER_HISTORY_LIMIT;

verus! {

/// One transfer of the list.
pub struct FileTransferItem {
    pub transfer_id: String,
    pub label: String,
    pub phase: String,
    pub bytes_done: u64,
    pub bytes_total: u64,
    pub items_done: u64,
    pub items_total: u64,
    pub paused: bool,
    pub cancelling: bool,
    pub cancelled: bool,
    pub done: bool,
    pub error: Option<String>,
}

/// The mathematical content of a [`FileTransferItem`].
pub struct ItemView {
    pub transfer_id: Seq<char>,
    pub label: Seq<char>,
    pub phase: Seq<char>,
    pub bytes_done: u64,
    pub bytes_total: u64,
    pub items_done: u64,
    pub items_total: u64,
    pub paused: bool,
    pub cancelling: bool,
    pub cancelled: bool,
    pub done: bool,
    pub error: Option<Seq<char>>,
}

impl View for FileTransferItem {
    type V = ItemView;

    closed spec fn view(&self) -> ItemView {
        ItemView {
            transfer_id: self.transfer_id@,
            label: self.label@,
            phase: self.phase@,
            bytes_done: self.bytes_done,
            bytes_total: self.bytes_total,
            items_done: self.items_done,
            items_total: self.items_total,
            paused: self.paused,
            cancelling: self.cancelling,
            cancelled: self.cancelled,
            done: self.done,
            error: match self.error {
                Some(e) => Some(e@),
                None => None,
            },
        }
    }
}

/// The views of a list of transfers.
pub open spec fn items_view(list: Seq<FileTransferItem>) -> Seq<ItemView> {
    list.map_values(|t: FileTransferItem| t@)
}

/// The first index at or after `from` whose item satisfies `done` (when
/// `want_done`) or carries the transfer id `id` (otherwise).
pub open spec fn first_index_from(list: Seq<ItemView>, from: int, want_done: bool, id: Seq<char>) -> Option<int>
    decreases list.len() - from,
{
    if from < 0 || from >= list.len() {
        None
    } else if (want_done && list[from].done) || (!want_done && list[from].transfer_id == id) {
        Some(from)
    } else {
        first_index_from(list, from + 1, want_done, id)
    }
}

/// The first finished transfer.
pub open spec fn first_finished(list: Seq<ItemView>) -> Option<int> {
    first_index_from(list, 0, true, Seq::empty())
}

/// The first transfer with this id.
pub open spec fn first_with_id(list: Seq<ItemView>, id: Seq<char>) -> Option<int> {
    first_index_from(list, 0, false, id)
}

/// A transfer that has just started.
pub open spec fn started_item(id: Seq<char>, label: Seq<char>, phase: Seq<char>) -> ItemView {
    ItemView {
        transfer_id: id,
        label,
        phase,
        bytes_done: 0,
        bytes_total: 0,
        items_done: 0,
        items_total: 0,
        paused: false,
        cancelling: false,
        cancelled: false,
        done: false,
        error: None,
    }
}

/// The list after a transfer starts: a full list first drops its oldest
/// finished transfer, or its oldest one when none has finished; the new
/// transfer goes last.
pub open spec fn begun(list: Seq<ItemView>, id: Seq<char>, label: Seq<char>, phase: Seq<char>) -> Seq<ItemView> {
    let trimmed = if list.len() >= TRANSFER_HISTORY_LIMIT {
        match first_finished(list) {
            Some(i) => list.remove(i),
            None => list.remove(0),
        }
    } else {
        list
    };
    trimmed.push(started_item(id, label, phase))
}

/// Whether an error message means that the transfer was cancelled.
pub open spec fn is_cancellation(error: Option<Seq<char>>) -> bool {
    match error {
        Some(e) => eq_ignore_ascii_case(e, "transfer cancelled"@),
        None => false,
    }
}

/// A transfer once it has ended: cancelled (no error kept), completed
/// (known totals become the counts done) or failed.
pub open spec fn finished_item(t: ItemView, error: Option<Seq<char>>) -> ItemView {
    let cancelled = is_cancellation(error);
    let base = ItemView {
        done: true,
        paused: false,
        cancelling: false,
        cancelled,
        error: if cancelled {
            None
        } else {
            error
        },
        ..t
    };
    if cancelled {
        ItemView { phase: "Cancelled"@, ..base }
    } else if error is None {
        ItemView {
            phase: "Completed"@,
            bytes_done: if t.bytes_total > 0 {
                t.bytes_total
            } else {
                t.bytes_done
            },
            items_done: if t.items_total > 0 {
                t.items_total
            } else {
                t.items_done
            },
            ..base
        }
    } else {
        ItemView { phase: "Failed"@, ..base }
    }
}

/// A transfer after a progress report: a non-empty phase replaces the
/// shown one unless an app install is being prepared; the counters are
/// those reported.
pub open spec fn progressed_item(
    t: ItemView,
    phase: Seq<char>,
    bytes_done: u64,
    bytes_total: u64,
    items_done: u64,
    items_total: u64,
) -> ItemView {
    ItemView {
        phase: if phase.len() != 0 && t.phase != "Preparing app install"@ {
            phase
        } else {
            t.phase
        },
        bytes_done,
        bytes_total,
        items_done,
        items_total,
        ..t
    }
}

/// The transfers that have not finished, in their order.
pub open spec fn unfinished(list: Seq<ItemView>) -> Seq<ItemView>
    decreases list.len(),
{
    if list.len() == 0 {
        Seq::empty()
    } else if list.last().done {
        unfinished(list.drop_last())
    } else {
        unfinished(list.drop_last()).push(list.last())
    }
}

/// The transfer the toolbar icon follows: the oldest unfinished one, else
/// the newest.
pub open spec fn icon_index(list: Seq<ItemView>) -> Option<int> {
    match unfinished_first(list, 0) {
        Some(i) => Some(i),
        None => if list.len() == 0 {
            None
        } else {
            Some(list.len() - 1)
        },
    }
}

/// The first unfinished transfer at or after `from`.
pub open spec fn unfinished_first(list: Seq<ItemView>, from: int) -> Option<int>
    decreases list.len() - from,
{
    if from < 0 || from >= list.len() {
        None
    } else if !list[from].done {
        Some(from)
    } else {
        unfinished_first(list, from + 1)
    }
}

fn find_index(list: &Vec<FileTransferItem>, want_done: bool, id: &str) -> (r: Option<usize>)
    ensures
        match r {
            Some(k) => first_index_from(items_view(list@), 0, want_done, id@) == Some(k as int) && k < list@.len(),
            None => first_index_from(items_view(list@), 0, want_done, id@) is None,
        },
{
    let ghost v = items_view(list@);
    let mut i: usize = 0;
    while i < list.len()
        invariant
            i <= list@.len(),
            v == items_view(list@),
            first_index_from(v, 0, want_done, id@) == first_index_from(v, i as int, want_done, id@),
        decreases list@.len() - i,
    {
        assert(v[i as int] == list@[i as int]@);
        let hit = if want_done {
            list[i].done
        } else {
            same_text(list[i].transfer_id.as_str(), id)
        };
        if hit {
            return Some(i);
        }
        i = i + 1;
    }
    None
}

/// Adds a transfer that has just started, making room in a full list.
pub fn begin_file_transfer(list: &mut Vec<FileTransferItem>, transfer_id: String, label: String, phase: &str)
    ensures
        items_view(final(list)@) == begun(items_view(old(list)@), transfer_id@, label@, phase@),
{
    let ghost v = items_view(list@);
    if list.len() >= TRANSFER_HISTORY_LIMIT {
        match find_index(list, true, "") {
            Some(i) => {
                list.remove(i);
            },
            None => {
                list.remove(0);
            },
        }
        proof {
            reveal_strlit("");
            assert(""@ =~= Seq::<char>::empty());
        }
    }
    let ghost trimmed = items_view(list@);
    list.push(
        FileTransferItem {
            transfer_id,
            label,
            phase: phase.to_owned(),
            bytes_done: 0,
            bytes_total: 0,
            items_done: 0,
            items_total: 0,
            paused: false,
            cancelling: false,
            cancelled: false,
            done: false,
            error: None,
        },
    );
    proof {
        assert(items_view(list@) =~= trimmed.push(started_item(transfer_id@, label@, phase@)));
        if v.len() >= TRANSFER_HISTORY_LIMIT {
            match first_finished(v) {
                Some(i) => assert(trimmed =~= v.remove(i)),
                None => assert(trimmed =~= v.remove(0)),
            }
        } else {
            assert(trimmed =~= v);
        }
    }
}

fn finished(t: FileTransferItem, error: Option<String>) -> (r: FileTransferItem)
    ensures
        r@ == finished_item(t@, match error {
            Some(e) => Some(e@),
            None => None,
        }),
{
    let cancelled = match &error {
        Some(message) => {
            let a = chars_of(message.as_str());
            let b = chars_of("transfer cancelled");
            chars_eq_ignore_ascii_case(a.as_slice(), b.as_slice())
        },
        None => false,
    };
    let failed = !cancelled && error.is_some();
    let mut t = t;
    t.done = true;
    t.paused = false;
    t.cancelling = false;
    t.cancelled = cancelled;
    t.error = if cancelled {
        None
    } else {
        error
    };
    if cancelled {
        t.phase = "Cancelled".to_owned();
    } else if !failed {
        t.phase = "Completed".to_owned();
        if t.bytes_total > 0 {
            t.bytes_done = t.bytes_total;
        }
        if t.items_total > 0 {
            t.items_done = t.items_total;
        }
    } else {
        t.phase = "Failed".to_owned();
    }
    t
}

/// Marks a transfer as ended; a transfer not in the list changes nothing.
pub fn finish_file_transfer(list: &mut Vec<FileTransferItem>, transfer_id: &str, error: Option<String>)
    ensures
        match first_with_id(items_view(old(list)@), transfer_id@) {
            Some(i) => items_view(final(list)@) == items_view(old(list)@).update(i, finished_item(
                items_view(old(list)@)[i],
                match error {
                    Some(e) => Some(e@),
                    None => None,
                },
            )),
            None => final(list)@ == old(list)@,
        },
{
    let ghost v = items_view(list@);
    match find_index(list, false, transfer_id) {
        None => {},
        Some(i) => {
            let t = list.remove(i);
            let t = finished(t, error);
            list.insert(i, t);
            proof {
                assert(items_view(list@) =~= v.update(i as int, t@));
            }
        },
    }
}

/// Records a progress report of a transfer; a transfer not in the list
/// changes nothing.
pub fn record_transfer_progress(
    list: &mut Vec<FileTransferItem>,
    transfer_id: &str,
    phase: &str,
    bytes_done: u64,
    bytes_total: u64,
    items_done: u64,
    items_total: u64,
)
    ensures
        match first_with_id(items_view(old(list)@), transfer_id@) {
            Some(i) => items_view(final(list)@) == items_view(old(list)@).update(
                i,
                progressed_item(items_view(old(list)@)[i], phase@, bytes_done, bytes_total, items_done, items_total),
            ),
            None => final(list)@ == old(list)@,
        },
{
    let ghost v = items_view(list@);
    match find_index(list, false, transfer_id) {
        None => {},
        Some(i) => {
            let mut t = list.remove(i);
            proof {
                reveal_strlit("Preparing app install");
            }
            if !phase.is_empty() && !same_text(t.phase.as_str(), "Preparing app install") {
                t.phase = phase.to_owned();
            }
            t.bytes_done = bytes_done;
            t.bytes_total = bytes_total;
            t.items_done = items_done;
            t.items_total = items_total;
            let ghost tv = t@;
            list.insert(i, t);
            proof {
                assert(items_view(list@) =~= v.update(i as int, tv));
            }
        },
    }
}

/// Drops the finished transfers from the list.
pub fn clear_finished_transfers(list: &mut Vec<FileTransferItem>)
    ensures
        items_view(final(list)@) == unfinished(items_view(old(list)@)),
{
    let ghost orig = list@;
    let mut rest: Vec<FileTransferItem> = Vec::new();
    std::mem::swap(&mut rest, list);
    let n = rest.len();
    assert(orig.skip(0) == orig);
    assert(items_view(orig).take(0) == Seq::<ItemView>::empty());
    let mut k: usize = 0;
    while k < n
        invariant
            n == orig.len(),
            k <= n,
            rest@ == orig.skip(k as int),
            items_view(list@) == unfinished(items_view(orig).take(k as int)),
        decreases n - k,
    {
        let t = rest.remove(0);
        assert(rest@ == orig.skip(k + 1));
        assert(t == orig[k as int]);
        assert(items_view(orig).take(k + 1).drop_last() == items_view(orig).take(k as int));
        if !t.done {
            let ghost before = items_view(list@);
            let ghost tv = t@;
            list.push(t);
            assert(items_view(list@) == before.push(tv));
        }
        k = k + 1;
    }
    assert(items_view(orig).take(n as int) == items_view(orig));
}

/// The transfer the toolbar icon follows: the oldest unfinished one, else
/// the newest; none in an empty list.
pub fn transfer_for_icon(list: &Vec<FileTransferItem>) -> (r: Option<usize>)
    ensures
        match r {
            Some(k) => icon_index(items_view(list@)) == Some(k as int) && k < list@.len(),
            None => icon_index(items_view(list@)) is None,
        },
{
    let ghost v = items_view(list@);
    let mut i: usize = 0;
    while i < list.len()
        invariant
            i <= list@.len(),
            v == items_view(list@),
            unfinished_first(v, 0) == unfinished_first(v, i as int),
        decreases list@.len() - i,
    {
        assert(v[i as int] == list@[i as int]@);
        if !list[i].done {
            return Some(i);
        }
        i = i + 1;
    }
    if list.len() == 0 {
        None
    } else {
        Some(list.len() - 1)
    }
}

proof fn lemma_first_index_range(list: Seq<ItemView>, from: int, want_done: bool, id: Seq<char>)
    ensures
        first_index_from(list, from, want_done, id) matches Some(i) ==> from <= i < list.len(),
    decreases list.len() - from,
{
    if 0 <= from < list.len() && !((want_done && list[from].done) || (!want_done && list[from].transfer_id == id)) {
        lemma_first_index_range(list, from + 1, want_done, id);
    }
}

/// Starting a transfer never lets the list grow past its limit, and the
/// new transfer is the last one.
pub proof fn lemma_begun_within_limit(list: Seq<ItemView>, id: Seq<char>, label: Seq<char>, phase: Seq<char>)
    requires
        list.len() <= TRANSFER_HISTORY_LIMIT,
    ensures
        begun(list, id, label, phase).len() <= TRANSFER_HISTORY_LIMIT,
        begun(list, id, label, phase).last() == started_item(id, label, phase),
{
    lemma_first_index_range(list, 0, true, Seq::empty());
}

} // verus!
