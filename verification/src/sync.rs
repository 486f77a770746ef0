//! The device-sync panel's state and how each reply of the sync service
//! changes it. The service itself (sign-in, device list, inbox, uploads)
//! is driven by the application, which hands every reply to
//! [`apply_sync_event`].
use vstd::prelude::*;
use crate::text::{concat_texts, same_text};

verus! {

/// An item waiting in the transfer inbox: its transfer id and what the
/// service sent with it.
pub struct InboxEntry<P> {
    pub id: String,
    pub item: P,
}

/// What the sync panel shows: the account, the last status line, the
/// other devices, the inbox and the push token registered for this device.
pub struct SyncState<D, P> {
    pub signed_in: bool,
    pub user_email: String,
    pub status: String,
    pub devices: Vec<D>,
    pub inbox: Vec<InboxEntry<P>>,
    pub push_token: String,
}

/// A reply of the sync service.
pub enum SyncEvent<D, P> {
    AuthState { signed_in: bool, email: String, status: String },
    OtpSent(String),
    Devices(Result<Vec<D>, String>),
    Inbox(Result<Vec<InboxEntry<P>>, String>),
    PushTokenUpdated { token: String, result: Result<(), String> },
    Sent(Result<String, String>),
    FileReceived { transfer_id: String, result: Result<String, String> },
    TransferAcked { transfer_id: String, result: Result<(), String> },
}

/// The mathematical content of a [`SyncState`].
pub struct SyncView<D, P> {
    pub signed_in: bool,
    pub user_email: Seq<char>,
    pub status: Seq<char>,
    pub devices: Seq<D>,
    pub inbox: Seq<InboxEntry<P>>,
    pub push_token: Seq<char>,
}

impl<D, P> View for SyncState<D, P> {
    type V = SyncView<D, P>;

    closed spec fn view(&self) -> SyncView<D, P> {
        SyncView {
            signed_in: self.signed_in,
            user_email: self.user_email@,
            status: self.status@,
            devices: self.devices@,
            inbox: self.inbox@,
            push_token: self.push_token@,
        }
    }
}

/// Whether some inbox item carries the transfer id `id`.
pub open spec fn has_inbox_id<P>(inbox: Seq<InboxEntry<P>>, id: Seq<char>) -> bool {
    exists|i: int| 0 <= i < inbox.len() && #[trigger] inbox[i].id@ == id
}

/// How many items of `fresh` carry an id that no item of `known` carries.
pub open spec fn unseen_count<P>(known: Seq<InboxEntry<P>>, fresh: Seq<InboxEntry<P>>) -> nat
    decreases fresh.len(),
{
    if fresh.len() == 0 {
        0
    } else {
        unseen_count(known, fresh.drop_last()) + if has_inbox_id(known, fresh.last().id@) {
            0nat
        } else {
            1nat
        }
    }
}

/// The inbox without the items that carry the transfer id `id`, the
/// others in their order.
pub open spec fn without_inbox_id<P>(inbox: Seq<InboxEntry<P>>, id: Seq<char>) -> Seq<InboxEntry<P>>
    decreases inbox.len(),
{
    if inbox.len() == 0 {
        seq![]
    } else {
        let rest = without_inbox_id(inbox.drop_last(), id);
        if inbox.last().id@ == id {
            rest
        } else {
            rest.push(inbox.last())
        }
    }
}

/// The panel after a reply: signing out forgets the devices, the inbox
/// and the push token; a received or acknowledged transfer leaves the
/// inbox; every failure becomes the status line.
pub open spec fn sync_after<D, P>(v: SyncView<D, P>, event: SyncEvent<D, P>) -> SyncView<D, P> {
    match event {
        SyncEvent::AuthState { signed_in, email, status } => if signed_in {
            SyncView { signed_in, user_email: email@, status: status@, ..v }
        } else {
            SyncView {
                signed_in,
                user_email: email@,
                status: status@,
                devices: seq![],
                inbox: seq![],
                push_token: seq![],
            }
        },
        SyncEvent::OtpSent(status) => SyncView { status: status@, ..v },
        SyncEvent::Devices(result) => match result {
            Ok(devices) => SyncView { devices: devices@, status: "Device list updated"@, ..v },
            Err(e) => SyncView { status: e@, ..v },
        },
        SyncEvent::Inbox(result) => match result {
            Ok(inbox) => SyncView { inbox: inbox@, ..v },
            Err(e) => SyncView { status: e@, ..v },
        },
        SyncEvent::PushTokenUpdated { token, result } => match result {
            Ok(_) => SyncView { push_token: token@, ..v },
            Err(e) => SyncView { status: e@, ..v },
        },
        SyncEvent::Sent(result) => match result {
            Ok(s) => SyncView { status: s@, ..v },
            Err(e) => SyncView { status: e@, ..v },
        },
        SyncEvent::FileReceived { transfer_id, result } => match result {
            Ok(path) => SyncView {
                inbox: without_inbox_id(v.inbox, transfer_id@),
                status: "Received "@ + path@,
                ..v
            },
            Err(e) => SyncView { status: e@, ..v },
        },
        SyncEvent::TransferAcked { transfer_id, result } => match result {
            Ok(_) => SyncView { inbox: without_inbox_id(v.inbox, transfer_id@), ..v },
            Err(e) => SyncView { status: e@, ..v },
        },
    }
}

/// How many new items a reply brings for the "ready to receive"
/// notification: those of a fresh inbox whose id was not in the old one.
pub open spec fn sync_new_items<D, P>(v: SyncView<D, P>, event: SyncEvent<D, P>) -> nat {
    match event {
        SyncEvent::Inbox(Ok(inbox)) => unseen_count(v.inbox, inbox@),
        _ => 0,
    }
}

fn inbox_has_id<P>(inbox: &Vec<InboxEntry<P>>, id: &str) -> (r: bool)
    ensures
        r == has_inbox_id(inbox@, id@),
{
    let mut i: usize = 0;
    while i < inbox.len()
        invariant
            i <= inbox@.len(),
            forall|k: int| 0 <= k < i ==> inbox@[k].id@ != id@,
        decreases inbox@.len() - i,
    {
        if same_text(inbox[i].id.as_str(), id) {
            return true;
        }
        i = i + 1;
    }
    false
}

fn count_unseen<P>(known: &Vec<InboxEntry<P>>, fresh: &Vec<InboxEntry<P>>) -> (r: usize)
    ensures
        r == unseen_count(known@, fresh@),
{
    let mut count: usize = 0;
    let mut j: usize = 0;
    while j < fresh.len()
        invariant
            j <= fresh@.len(),
            count == unseen_count(known@, fresh@.take(j as int)),
            count <= j,
        decreases fresh@.len() - j,
    {
        assert(fresh@.take(j + 1).drop_last() == fresh@.take(j as int));
        if !inbox_has_id(known, fresh[j].id.as_str()) {
            count = count + 1;
        }
        j = j + 1;
    }
    assert(fresh@.take(fresh@.len() as int) == fresh@);
    count
}

fn drop_inbox_id<P>(inbox: Vec<InboxEntry<P>>, id: &str) -> (r: Vec<InboxEntry<P>>)
    ensures
        r@ == without_inbox_id(inbox@, id@),
{
    let ghost orig = inbox@;
    let n = inbox.len();
    assert(orig.skip(0) == orig);
    assert(orig.take(0) == Seq::<InboxEntry<P>>::empty());
    let mut rest = inbox;
    let mut kept: Vec<InboxEntry<P>> = Vec::new();
    let mut k: usize = 0;
    while k < n
        invariant
            n == orig.len(),
            k <= n,
            rest@ == orig.skip(k as int),
            kept@ == without_inbox_id(orig.take(k as int), id@),
        decreases n - k,
    {
        let e = rest.remove(0);
        assert(orig.take(k + 1).drop_last() == orig.take(k as int));
        assert(rest@ == orig.skip(k + 1));
        if !same_text(e.id.as_str(), id) {
            kept.push(e);
        }
        k = k + 1;
    }
    assert(orig.take(k as int) == orig);
    kept
}

/// Applies a reply of the sync service to the panel and returns how many
/// new inbox items it brought (the application notifies when that is not
/// zero).
pub fn apply_sync_event<D, P>(state: &mut SyncState<D, P>, event: SyncEvent<D, P>) -> (new_items: usize)
    ensures
        final(state)@ == sync_after(old(state)@, event),
        new_items == sync_new_items(old(state)@, event),
{
    match event {
        SyncEvent::AuthState { signed_in, email, status } => {
            state.signed_in = signed_in;
            state.user_email = email;
            state.status = status;
            if !signed_in {
                state.devices = Vec::new();
                state.inbox = Vec::new();
                state.push_token = String::new();
            }
            0
        },
        SyncEvent::OtpSent(status) => {
            state.status = status;
            0
        },
        SyncEvent::Devices(result) => {
            match result {
                Ok(devices) => {
                    state.devices = devices;
                    state.status = "Device list updated".to_owned();
                },
                Err(e) => state.status = e,
            }
            0
        },
        SyncEvent::Inbox(result) => match result {
            Ok(inbox) => {
                let fresh = count_unseen(&state.inbox, &inbox);
                state.inbox = inbox;
                fresh
            },
            Err(e) => {
                state.status = e;
                0
            },
        },
        SyncEvent::PushTokenUpdated { token, result } => {
            match result {
                Ok(()) => state.push_token = token,
                Err(e) => state.status = e,
            }
            0
        },
        SyncEvent::Sent(result) => {
            match result {
                Ok(s) => state.status = s,
                Err(e) => state.status = e,
            }
            0
        },
        SyncEvent::FileReceived { transfer_id, result } => {
            match result {
                Ok(path) => {
                    let mut inbox: Vec<InboxEntry<P>> = Vec::new();
                    std::mem::swap(&mut inbox, &mut state.inbox);
                    state.inbox = drop_inbox_id(inbox, transfer_id.as_str());
                    state.status = concat_texts("Received ", path.as_str());
                },
                Err(e) => state.status = e,
            }
            0
        },
        SyncEvent::TransferAcked { transfer_id, result } => {
            match result {
                Ok(()) => {
                    let mut inbox: Vec<InboxEntry<P>> = Vec::new();
                    std::mem::swap(&mut inbox, &mut state.inbox);
                    state.inbox = drop_inbox_id(inbox, transfer_id.as_str());
                },
                Err(e) => state.status = e,
            }
            0
        },
    }
}

/// Once a transfer is received or acknowledged, no inbox item carries its
/// id, and every other item stays.
pub proof fn lemma_settled_transfer_leaves_inbox<P>(inbox: Seq<InboxEntry<P>>, id: Seq<char>)
    ensures
        !has_inbox_id(without_inbox_id(inbox, id), id),
        forall|i: int| 0 <= i < inbox.len() && inbox[i].id@ != id ==> without_inbox_id(inbox, id).contains(
            #[trigger] inbox[i],
        ),
    decreases inbox.len(),
{
    if inbox.len() > 0 {
        let init = inbox.drop_last();
        lemma_settled_transfer_leaves_inbox(init, id);
        let rest = without_inbox_id(init, id);
        if inbox.last().id@ != id {
            assert forall|k: int| 0 <= k < rest.push(inbox.last()).len() implies #[trigger] rest.push(inbox.last())[k].id@ != id by {
                if k < rest.len() {
                    assert(rest.push(inbox.last())[k] == rest[k]);
                }
            }
        }
        assert forall|i: int| 0 <= i < inbox.len() && inbox[i].id@ != id implies without_inbox_id(inbox, id).contains(
            #[trigger] inbox[i],
        ) by {
            if i < inbox.len() - 1 {
                assert(init[i] == inbox[i]);
                let k = choose|k: int| 0 <= k < rest.len() && rest[k] == init[i];
                if inbox.last().id@ != id {
                    assert(rest.push(inbox.last())[k] == inbox[i]);
                }
            } else {
                assert(rest.push(inbox.last())[rest.len() as int] == inbox[i]);
            }
        }
    }
}

} // verus!
