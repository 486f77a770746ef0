use vstd::prelude::*;
use crate::tabs::{lemma_forgetting_keeps_identity, paths_showable, saved_tab_view, texts, without_removed_profiles, GroupView, SavedTab, TabGroupColor, TabGroupState, TabState, TabView};
use crate::taildrive::taildrive_parse_panics;
use crate::colors::{
    color_for_new_group_at_tab, drag_layout, layout_color, leaving_group, new_group_layout,
    tab_group_color_for_drag,
};
use crate::text::{chars_of, string_from_chars};

verus! {

/// Whether every group's tabs stand side by side: between two tabs of one
/// group there is no tab of another group and no ungrouped tab.
#[verifier::opaque]
pub open spec fn contiguous(gs: Seq<Option<u64>>) -> bool {
    forall|i: int, j: int, k: int|
        #![trigger gs[i], gs[j], gs[k]]
        0 <= i < j < k < gs.len() && gs[i] is Some && gs[i] == gs[k] ==> gs[j] == gs[i]
}

/// Between two tabs of one group stands a tab of that group.
pub proof fn lemma_contig(gs: Seq<Option<u64>>, i: int, j: int, k: int)
    requires
        contiguous(gs),
        0 <= i < j < k < gs.len(),
        gs[i] is Some,
        gs[i] == gs[k],
    ensures
        gs[j] == gs[i],
{
    reveal(contiguous);
}

/// Whether some tab belongs to group `g`.
pub open spec fn has_member(gs: Seq<Option<u64>>, g: u64) -> bool {
    exists|i: int| 0 <= i < gs.len() && gs[i] == Some(g)
}

/// Whether putting a tab of group `g` (or of none) at position `p` keeps the
/// groups side by side: a grouped tab goes next to its group when the group
/// has tabs, and no tab goes between two tabs of another group.
pub open spec fn insert_ok(gs: Seq<Option<u64>>, p: int, g: Option<u64>) -> bool {
    &&& (g matches Some(h) && has_member(gs, h)) ==> ((p > 0 && gs[p - 1] == g) || (p < gs.len() && gs[p] == g))
    &&& !(0 < p < gs.len() && gs[p - 1] is Some && gs[p - 1] == gs[p] && gs[p] != g)
}

pub proof fn lemma_contiguous_remove(gs: Seq<Option<u64>>, r: int)
    requires
        contiguous(gs),
        0 <= r < gs.len(),
    ensures
        contiguous(gs.remove(r)),
{
    reveal(contiguous);
    let n = gs.remove(r);
    assert forall|i: int, j: int, k: int|
        #![trigger n[i], n[j], n[k]]
        0 <= i < j < k < n.len() && n[i] is Some && n[i] == n[k] implies n[j] == n[i] by {
        let oi = if i < r { i } else { i + 1 };
        let oj = if j < r { j } else { j + 1 };
        let ok = if k < r { k } else { k + 1 };
        assert(n[i] == gs[oi]);
        assert(n[j] == gs[oj]);
        assert(n[k] == gs[ok]);
        assert(gs[oj] == gs[oi]);
    }
}

pub proof fn lemma_contiguous_insert(gs: Seq<Option<u64>>, p: int, g: Option<u64>)
    requires
        contiguous(gs),
        0 <= p <= gs.len(),
        insert_ok(gs, p, g),
    ensures
        contiguous(gs.insert(p, g)),
{
    reveal(contiguous);
    let n = gs.insert(p, g);
    assert forall|i: int, j: int, k: int|
        #![trigger n[i], n[j], n[k]]
        0 <= i < j < k < n.len() && n[i] is Some && n[i] == n[k] implies n[j] == n[i] by {
        let oi = if i < p { i } else { i - 1 };
        let oj = if j < p { j } else { j - 1 };
        let ok = if k < p { k } else { k - 1 };
        if i != p && j != p && k != p {
            assert(n[i] == gs[oi]);
            assert(n[j] == gs[oj]);
            assert(n[k] == gs[ok]);
            assert(gs[oj] == gs[oi]);
        } else if j == p {
            assert(n[i] == gs[i]);
            assert(n[k] == gs[k - 1]);
            assert(gs[p - 1] == gs[i]);
            assert(gs[p] == gs[i]);
        } else if i == p {
            assert(n[k] == gs[k - 1]);
            assert(n[j] == gs[j - 1]);
            let h = g.unwrap();
            assert(has_member(gs, h)) by {
                assert(gs[k - 1] == Some(h));
            }
            if p < gs.len() && gs[p] == g {
                if j - 1 > p {
                    assert(gs[j - 1] == gs[p]);
                }
            } else {
                assert(gs[p - 1] == g);
                assert(gs[j - 1] == gs[p - 1]);
            }
        } else {
            assert(n[i] == gs[i]);
            assert(n[j] == gs[j]);
            let h = g.unwrap();
            assert(has_member(gs, h)) by {
                assert(gs[i] == Some(h));
            }
            if p > 0 && gs[p - 1] == g {
                if j < p - 1 {
                    assert(gs[j] == gs[i]);
                }
            } else {
                assert(gs[p] == g);
                assert(gs[j] == gs[i]);
            }
        }
    }
}


/// The groups of the tabs, in tab order.
pub open spec fn layout(tabs: Seq<TabView>) -> Seq<Option<u64>> {
    tabs.map_values(|t: TabView| t.group_id)
}

/// The index of the tab with this id.
pub open spec fn tab_index(tabs: Seq<TabView>, id: u64) -> Option<int> {
    if exists|i: int| 0 <= i < tabs.len() && tabs[i].id == id {
        Some(choose|i: int| 0 <= i < tabs.len() && tabs[i].id == id)
    } else {
        None
    }
}

/// Whether a group with this id exists.
pub open spec fn group_exists(groups: Seq<GroupView>, id: u64) -> bool {
    exists|k: int| 0 <= k < groups.len() && groups[k].id == id
}

/// The position of the group with this id.
pub open spec fn group_at(groups: Seq<GroupView>, id: u64) -> int {
    choose|k: int| 0 <= k < groups.len() && groups[k].id == id
}

/// The groups with the one of this id changed by `f`, if it exists.
pub open spec fn with_group(groups: Seq<GroupView>, id: u64, f: spec_fn(GroupView) -> GroupView) -> Seq<GroupView> {
    if group_exists(groups, id) {
        groups.update(group_at(groups, id), f(groups[group_at(groups, id)]))
    } else {
        groups
    }
}

/// A group name cut to its first 48 characters.
pub open spec fn group_name_of(value: Seq<char>) -> Seq<char> {
    if value.len() <= 48 {
        value
    } else {
        value.take(48)
    }
}

/// The tabs, their groups and the active tab.
pub struct StripView {
    pub tabs: Seq<TabView>,
    pub groups: Seq<GroupView>,
    pub active: int,
}

/// The rules every tab strip keeps: at least one tab and an active one;
/// distinct tab ids and group ids; every tab's group exists; and every
/// group has a tab. (That each group's tabs stand side by side is kept by
/// every operation that starts from such a strip; see `contiguous`.)
#[verifier::opaque]
pub open spec fn strip_wf(v: StripView) -> bool {
    &&& v.tabs.len() >= 1
    &&& 0 <= v.active < v.tabs.len()
    &&& forall|i: int, j: int| 0 <= i < j < v.tabs.len() ==> (#[trigger] v.tabs[i]).id != (#[trigger] v.tabs[j]).id
    &&& forall|i: int, j: int| 0 <= i < j < v.groups.len() ==> (#[trigger] v.groups[i]).id != (#[trigger] v.groups[j]).id
    &&& forall|i: int| 0 <= i < v.tabs.len() ==> ((#[trigger] v.tabs[i]).group_id matches Some(g) ==> group_exists(v.groups, g))
    &&& forall|k: int| 0 <= k < v.groups.len() ==> has_member(layout(v.tabs), (#[trigger] v.groups[k]).id)
}

/// The tabs of a window, in order, with their groups and the active tab.
pub struct TabStrip {
    tabs: Vec<TabState>,
    groups: Vec<TabGroupState>,
    active: usize,
}

impl View for TabStrip {
    type V = StripView;

    closed spec fn view(&self) -> StripView {
        StripView {
            tabs: self.tabs@.map_values(|t: TabState| t@),
            groups: self.groups@.map_values(|g: TabGroupState| g@),
            active: self.active as int,
        }
    }
}

/// The tab at `from` moved to `to` (an index among the other tabs) and put
/// into group `g`.
pub open spec fn moved(tabs: Seq<TabView>, from: int, to: int, g: Option<u64>) -> Seq<TabView> {
    tabs.remove(from).insert(to, TabView { group_id: g, ..tabs[from] })
}

/// Where a tab joins a group: after the group's last tab, else at the end.
pub open spec fn after_group(gs: Seq<Option<u64>>, g: u64, fallback: int) -> int {
    if has_member(gs, g) {
        1 + choose|l: int| 0 <= l < gs.len() && gs[l] == Some(g) && forall|m: int| l < m < gs.len() ==> gs[m] != Some(g)
    } else {
        fallback
    }
}

/// The index of the active tab after tabs move: where the tab with the
/// active id went, else the first tab.
pub open spec fn active_after(tabs: Seq<TabView>, id: u64) -> int {
    match tab_index(tabs, id) {
        Some(i) => i,
        None => 0,
    }
}

/// The groups without the one of this id.
pub open spec fn without_group(groups: Seq<GroupView>, id: u64) -> Seq<GroupView> {
    if group_exists(groups, id) {
        groups.remove(choose|k: int| 0 <= k < groups.len() && groups[k].id == id)
    } else {
        groups
    }
}

/// The groups without group `g` when no tab is left in it.
pub open spec fn pruned(groups: Seq<GroupView>, gs: Seq<Option<u64>>, g: Option<u64>) -> Seq<GroupView> {
    match g {
        Some(id) => if has_member(gs, id) {
            groups
        } else {
            without_group(groups, id)
        },
        None => groups,
    }
}

/// The strip after moving the tab at `from` to `to` into group `g`.
#[verifier::opaque]
pub open spec fn moved_strip(v: StripView, from: int, to: int, g: Option<u64>) -> StripView {
    let tabs = moved(v.tabs, from, to, g);
    StripView {
        tabs,
        groups: pruned(v.groups, layout(tabs), v.tabs[from].group_id),
        active: active_after(tabs, v.tabs[v.active].id),
    }
}

proof fn lemma_layout_remove(tabs: Seq<TabView>, r: int)
    requires
        0 <= r < tabs.len(),
    ensures
        layout(tabs.remove(r)) == layout(tabs).remove(r),
{
    assert(layout(tabs.remove(r)) =~= layout(tabs).remove(r));
}

proof fn lemma_layout_insert(tabs: Seq<TabView>, p: int, t: TabView)
    requires
        0 <= p <= tabs.len(),
    ensures
        layout(tabs.insert(p, t)) == layout(tabs).insert(p, t.group_id),
{
    assert(layout(tabs.insert(p, t)) =~= layout(tabs).insert(p, t.group_id));
}

fn tab_position(tabs: &Vec<TabState>, id: u64) -> (r: Option<usize>)
    ensures
        r matches Some(i) ==> i < tabs@.len() && tabs@[i as int]@.id == id,
        r is None ==> forall|i: int| 0 <= i < tabs@.len() ==> tabs@[i]@.id != id,
{
    for i in 0..tabs.len()
        invariant
            forall|k: int| 0 <= k < i ==> tabs@[k]@.id != id,
    {
        if tabs[i].id() == id {
            return Some(i);
        }
    }
    None
}

fn last_of_group(tabs: &Vec<TabState>, g: u64) -> (r: Option<usize>)
    ensures
        r matches Some(l) ==> l < tabs@.len() && tabs@[l as int]@.group_id == Some(g) && forall|m: int|
            l < m < tabs@.len() ==> tabs@[m]@.group_id != Some(g),
        r is None ==> forall|m: int| 0 <= m < tabs@.len() ==> tabs@[m]@.group_id != Some(g),
{
    let mut i = tabs.len();
    while i > 0
        invariant
            i <= tabs@.len(),
            forall|m: int| i <= m < tabs@.len() ==> tabs@[m]@.group_id != Some(g),
        decreases i,
    {
        if tabs[i - 1].group_id() == Some(g) {
            return Some(i - 1);
        }
        i = i - 1;
    }
    None
}

fn first_of_group(tabs: &Vec<TabState>, g: u64) -> (r: Option<usize>)
    ensures
        r matches Some(f) ==> f < tabs@.len() && tabs@[f as int]@.group_id == Some(g) && forall|m: int|
            0 <= m < f ==> tabs@[m]@.group_id != Some(g),
        r is None ==> forall|m: int| 0 <= m < tabs@.len() ==> tabs@[m]@.group_id != Some(g),
{
    for i in 0..tabs.len()
        invariant
            forall|m: int| 0 <= m < i ==> tabs@[m]@.group_id != Some(g),
    {
        if tabs[i].group_id() == Some(g) {
            return Some(i);
        }
    }
    None
}

fn group_position(groups: &Vec<TabGroupState>, id: u64) -> (r: Option<usize>)
    ensures
        r matches Some(k) ==> k < groups@.len() && groups@[k as int]@.id == id,
        r is None ==> forall|k: int| 0 <= k < groups@.len() ==> groups@[k]@.id != id,
{
    for k in 0..groups.len()
        invariant
            forall|q: int| 0 <= q < k ==> groups@[q]@.id != id,
    {
        if groups[k].id() == id {
            return Some(k);
        }
    }
    None
}


proof fn lemma_moved_ids(tabs: Seq<TabView>, from: int, to: int, g: Option<u64>)
    requires
        0 <= from < tabs.len(),
        0 <= to < tabs.len(),
        forall|i: int, j: int| 0 <= i < j < tabs.len() ==> (#[trigger] tabs[i]).id != (#[trigger] tabs[j]).id,
    ensures
        moved(tabs, from, to, g).len() == tabs.len(),
        forall|i: int, j: int|
            0 <= i < j < tabs.len() ==> (#[trigger] moved(tabs, from, to, g)[i]).id != (#[trigger] moved(tabs, from, to, g)[j]).id,
        forall|i: int| 0 <= i < tabs.len() ==> exists|j: int| 0 <= j < tabs.len() && (#[trigger] moved(tabs, from, to, g)[j]).id == (#[trigger] tabs[i]).id,
        forall|j: int| 0 <= j < tabs.len() ==> ((#[trigger] moved(tabs, from, to, g)[j]).group_id == g || exists|i: int|
            0 <= i < tabs.len() && i != from && tabs[i] == moved(tabs, from, to, g)[j]),
{
    let rest = tabs.remove(from);
    let n = moved(tabs, from, to, g);
    // where each old index lands
    assert forall|i: int, j: int| 0 <= i < j < tabs.len() implies (#[trigger] n[i]).id != (#[trigger] n[j]).id by {
        let oi = if i == to { from } else { let r = if i < to { i } else { i - 1 }; if r < from { r } else { r + 1 } };
        let oj = if j == to { from } else { let r = if j < to { j } else { j - 1 }; if r < from { r } else { r + 1 } };
        assert(n[i].id == tabs[oi].id);
        assert(n[j].id == tabs[oj].id);
        assert(oi != oj);
    }
    assert forall|i: int| 0 <= i < tabs.len() implies exists|j: int| 0 <= j < tabs.len() && (#[trigger] n[j]).id == (#[trigger] tabs[i]).id by {
        if i == from {
            assert(n[to].id == tabs[i].id);
        } else {
            let r = if i < from { i } else { i - 1 };
            let j = if r < to { r } else { r + 1 };
            assert(n[j] == tabs[i]);
        }
    }
    assert forall|j: int| 0 <= j < tabs.len() implies ((#[trigger] n[j]).group_id == g || exists|i: int|
        0 <= i < tabs.len() && i != from && tabs[i] == n[j]) by {
        if j != to {
            let r = if j < to { j } else { j - 1 };
            let oi = if r < from { r } else { r + 1 };
            assert(n[j] == tabs[oi]);
        }
    }
}

proof fn lemma_without_group(groups: Seq<GroupView>, id: u64)
    requires
        forall|i: int, j: int| 0 <= i < j < groups.len() ==> (#[trigger] groups[i]).id != (#[trigger] groups[j]).id,
    ensures
        forall|i: int, j: int|
            0 <= i < j < without_group(groups, id).len() ==> (#[trigger] without_group(groups, id)[i]).id != (#[trigger] without_group(groups, id)[j]).id,
        forall|x: u64| group_exists(without_group(groups, id), x) <==> (group_exists(groups, x) && x != id),
        forall|k: int| 0 <= k < without_group(groups, id).len() ==> group_exists(groups, (#[trigger] without_group(groups, id)[k]).id)
            && without_group(groups, id)[k].id != id,
{
    if group_exists(groups, id) {
        let k = choose|k: int| 0 <= k < groups.len() && groups[k].id == id;
        let w = groups.remove(k);
        assert forall|i: int, j: int| 0 <= i < j < w.len() implies (#[trigger] w[i]).id != (#[trigger] w[j]).id by {
            let oi = if i < k { i } else { i + 1 };
            let oj = if j < k { j } else { j + 1 };
            assert(w[i] == groups[oi] && w[j] == groups[oj]);
        }
        assert forall|x: u64| group_exists(w, x) <==> (group_exists(groups, x) && x != id) by {
            if group_exists(w, x) {
                let q = choose|q: int| 0 <= q < w.len() && w[q].id == x;
                let oq = if q < k { q } else { q + 1 };
                assert(w[q] == groups[oq]);
                assert(oq != k);
            }
            if group_exists(groups, x) && x != id {
                let q = choose|q: int| 0 <= q < groups.len() && groups[q].id == x;
                assert(q != k);
                let nq = if q < k { q } else { q - 1 };
                assert(w[nq] == groups[q]);
            }
        }
        assert forall|i: int| 0 <= i < w.len() implies group_exists(groups, (#[trigger] w[i]).id) && w[i].id != id by {
            let oi = if i < k { i } else { i + 1 };
            assert(w[i] == groups[oi]);
            assert(oi != k);
        }
    } else {
        assert forall|i: int| 0 <= i < groups.len() implies group_exists(groups, (#[trigger] groups[i]).id) && groups[i].id != id by {
            assert(groups[i].id == groups[i].id);
        }
    }
}

/// Where assigning a tab to a group moves it: the group and the tab exist
/// and the tab is not in the group yet; it goes after the group's last tab,
/// or to the end.
#[verifier::opaque]
pub open spec fn assign_target(v: StripView, tab_id: u64, group_id: u64) -> Option<(int, int)> {
    match tab_index(v.tabs, tab_id) {
        Some(from) => if group_exists(v.groups, group_id) && v.tabs[from].group_id != Some(group_id) {
            Some((from, after_group(layout(v.tabs).remove(from), group_id, v.tabs.len() - 1)))
        } else {
            None
        },
        None => None,
    }
}

/// Where taking a tab out of its group moves it: right after the group's
/// other tabs, or where it is when it was alone.
#[verifier::opaque]
pub open spec fn ungroup_target(v: StripView, tab_id: u64) -> Option<(int, int)> {
    match tab_index(v.tabs, tab_id) {
        Some(from) => match v.tabs[from].group_id {
            Some(g) => Some((from, after_group(layout(v.tabs).remove(from), g, from))),
            None => None,
        },
        None => None,
    }
}

/// What every well-formed strip gives: an active tab, distinct tab ids
/// and distinct group ids.
pub proof fn lemma_wf_basics(v: StripView)
    requires
        strip_wf(v),
    ensures
        v.tabs.len() >= 1,
        0 <= v.active < v.tabs.len(),
        forall|i: int, j: int| 0 <= i < j < v.tabs.len() ==> (#[trigger] v.tabs[i]).id != (#[trigger] v.tabs[j]).id,
        forall|i: int, j: int| 0 <= i < j < v.groups.len() ==> (#[trigger] v.groups[i]).id != (#[trigger] v.groups[j]).id,
{
    reveal(strip_wf);
}

/// What moving a tab into group `g` needs of a strip: the rules of
/// `strip_wf`, except that `g` may still be waiting for its first tab.
#[verifier::opaque]
pub open spec fn movable(v: StripView, g: Option<u64>) -> bool {
    &&& v.tabs.len() >= 1
    &&& 0 <= v.active < v.tabs.len()
    &&& forall|i: int, j: int| 0 <= i < j < v.tabs.len() ==> (#[trigger] v.tabs[i]).id != (#[trigger] v.tabs[j]).id
    &&& forall|i: int, j: int| 0 <= i < j < v.groups.len() ==> (#[trigger] v.groups[i]).id != (#[trigger] v.groups[j]).id
    &&& forall|i: int| 0 <= i < v.tabs.len() ==> ((#[trigger] v.tabs[i]).group_id matches Some(x) ==> group_exists(v.groups, x))
    &&& forall|k: int| 0 <= k < v.groups.len() ==> has_member(layout(v.tabs), (#[trigger] v.groups[k]).id) || Some(v.groups[k].id) == g
    &&& g matches Some(h) ==> group_exists(v.groups, h)
}

proof fn lemma_wf_movable(v: StripView, g: Option<u64>)
    requires
        strip_wf(v),
        g matches Some(h) ==> group_exists(v.groups, h),
    ensures
        movable(v, g),
{
    reveal(strip_wf);
    reveal(movable);
}

proof fn lemma_movable_basics(v: StripView, g: Option<u64>)
    requires
        movable(v, g),
    ensures
        v.tabs.len() >= 1,
        0 <= v.active < v.tabs.len(),
        forall|i: int, j: int| 0 <= i < j < v.tabs.len() ==> (#[trigger] v.tabs[i]).id != (#[trigger] v.tabs[j]).id,
        forall|i: int, j: int| 0 <= i < j < v.groups.len() ==> (#[trigger] v.groups[i]).id != (#[trigger] v.groups[j]).id,
{
    reveal(movable);
}

/// Where a tab stands once it starts a group of its own: right after the
/// other tabs of its old group, or where it is when it was alone or in no
/// group.
pub open spec fn new_group_slot(gs: Seq<Option<u64>>, from: int) -> int {
    match gs[from] {
        Some(og) => {
            let rest = gs.remove(from);
            after_group(rest, og, if from < rest.len() { from } else { rest.len() as int })
        },
        None => from,
    }
}

/// The strip after the tab at `from` starts the new group `grp`: the group
/// joins the list and the tab moves into it (see `new_group_slot`), its old
/// group going when left empty.
pub open spec fn regrouped_strip(v: StripView, from: int, grp: GroupView) -> StripView {
    moved_strip(StripView { groups: v.groups.push(grp), ..v }, from, new_group_slot(layout(v.tabs), from), Some(grp.id))
}

proof fn lemma_new_group_movable(v: StripView, grp: GroupView)
    requires
        strip_wf(v),
        !group_exists(v.groups, grp.id),
    ensures
        movable(StripView { groups: v.groups.push(grp), ..v }, Some(grp.id)),
{
    reveal(strip_wf);
    reveal(movable);
    let w = StripView { groups: v.groups.push(grp), ..v };
    let n = v.groups.len();
    assert forall|i: int, j: int| 0 <= i < j < w.groups.len() implies (#[trigger] w.groups[i]).id != (#[trigger] w.groups[j]).id by {
        if j == n {
            assert(w.groups[i] == v.groups[i]);
        } else {
            assert(w.groups[i] == v.groups[i] && w.groups[j] == v.groups[j]);
        }
    }
    assert forall|i: int| 0 <= i < w.tabs.len() implies ((#[trigger] w.tabs[i]).group_id matches Some(x) ==> group_exists(w.groups, x)) by {
        if let Some(x) = w.tabs[i].group_id {
            assert(group_exists(v.groups, x));
            let k = choose|k: int| 0 <= k < v.groups.len() && v.groups[k].id == x;
            assert(w.groups[k] == v.groups[k]);
        }
    }
    assert forall|k: int| 0 <= k < w.groups.len() implies has_member(layout(w.tabs), (#[trigger] w.groups[k]).id) || Some(w.groups[k].id) == Some(grp.id) by {
        if k < n {
            assert(w.groups[k] == v.groups[k]);
        }
    }
    assert(w.groups[n as int].id == grp.id);
}

proof fn lemma_new_group_insert_ok(gs: Seq<Option<u64>>, from: int, gid: u64)
    requires
        contiguous(gs),
        0 <= from < gs.len(),
        !has_member(gs, gid),
    ensures
        insert_ok(gs.remove(from), new_group_slot(gs, from), Some(gid)),
{
    let rest = gs.remove(from);
    let to = new_group_slot(gs, from);
    assert(!has_member(rest, gid)) by {
        if has_member(rest, gid) {
            let m = choose|m: int| 0 <= m < rest.len() && rest[m] == Some(gid);
            let om = if m < from { m } else { m + 1 };
            assert(gs[om] == rest[m]);
        }
    }
    match gs[from] {
        Some(og) => {
            if has_member(rest, og) {
                let i = choose|i: int| 0 <= i < rest.len() && rest[i] == Some(og);
                lemma_last_exists(rest, og, i);
                let l = choose|l: int| 0 <= l < rest.len() && rest[l] == Some(og) && forall|m: int| l < m < rest.len() ==> rest[m] != Some(og);
                assert(to == l + 1);
                assert(rest[to - 1] == Some(og));
                assert forall|m: int| to <= m < rest.len() implies rest[m] != Some(og) by {
                    assert(l < m);
                }
            }
            lemma_ungroup_insert_ok(gs, from, og, to);
        },
        None => {
            if 0 < from < rest.len() && rest[from - 1] is Some && rest[from - 1] == rest[from] {
                assert(rest[from - 1] == gs[from - 1]);
                assert(rest[from] == gs[from + 1]);
                lemma_contig(gs, from - 1, from, from + 1);
            }
        },
    }
}

/// The strip after dragging the ungrouped tab at `s` onto the ungrouped
/// tab at `t` to make the new group `grp`: the target joins the group
/// where it stands, and the dragged tab joins it on the side it came from.
pub open spec fn dragged_strip(v: StripView, s: int, t: int, grp: GroupView) -> StripView {
    moved_strip(regrouped_strip(v, t, grp), s, if s < t { t - 1 } else { t + 1 }, Some(grp.id))
}

/// Whether dragging the tab with id `source` onto the tab with id `target`
/// makes a group: both exist, differ, and are in no group.
pub open spec fn drag_groups(v: StripView, source: u64, target: u64) -> bool {
    match (tab_index(v.tabs, source), tab_index(v.tabs, target)) {
        (Some(s), Some(t)) => s != t && v.tabs[s].group_id is None && v.tabs[t].group_id is None,
        _ => false,
    }
}

/// The tabs outside group `g`, in order.
pub open spec fn outside_group(tabs: Seq<TabView>, g: u64) -> Seq<TabView> {
    tabs.filter(|t: TabView| t.group_id != Some(g))
}

/// Whether every tab belongs to group `g`.
pub open spec fn all_in_group(tabs: Seq<TabView>, g: u64) -> bool {
    forall|i: int| 0 <= i < tabs.len() ==> (#[trigger] tabs[i]).group_id == Some(g)
}

/// The strip after closing group `g` while other tabs remain: its tabs and
/// the group go; the active tab stays active when it remains, else the tab
/// at its index (or the last one) becomes active.
pub open spec fn group_closed_strip(v: StripView, g: u64) -> StripView {
    let tabs = outside_group(v.tabs, g);
    StripView {
        tabs,
        groups: without_group(v.groups, g),
        active: if v.tabs[v.active].group_id != Some(g) {
            active_after(tabs, v.tabs[v.active].id)
        } else if v.active < tabs.len() {
            v.active
        } else {
            tabs.len() - 1
        },
    }
}

/// The tabs inside group `g`, in order.
pub open spec fn inside_group(tabs: Seq<TabView>, g: u64) -> Seq<TabView> {
    tabs.filter(|t: TabView| t.group_id == Some(g))
}

/// The picked tabs `kept` are the tabs of `tabs` at the increasing indices
/// `idx`, and every tab among the first `n` that is in group `g` (when
/// `inside`) or outside it (otherwise) is picked.
pub open spec fn picks(tabs: Seq<TabView>, kept: Seq<TabView>, idx: Seq<int>, g: u64, n: int, inside: bool) -> bool {
    &&& idx.len() == kept.len()
    &&& forall|a: int| 0 <= a < idx.len() ==> 0 <= #[trigger] idx[a] < n && kept[a] == tabs[idx[a]]
    &&& forall|a: int, b: int| 0 <= a < b < idx.len() ==> #[trigger] idx[a] < #[trigger] idx[b]
    &&& forall|j: int| 0 <= j < n && ((#[trigger] tabs[j]).group_id == Some(g)) == inside ==> exists|a: int| 0 <= a < idx.len() && idx[a] == j
}

#[verifier::rlimit(60)]
proof fn lemma_group_closed_wf(v: StripView, g: u64, idx: Seq<int>)
    requires
        strip_wf(v),
        picks(v.tabs, outside_group(v.tabs, g), idx, g, v.tabs.len() as int, false),
        has_member(layout(v.tabs), g),
        !all_in_group(v.tabs, g),
    ensures
        strip_wf(group_closed_strip(v, g)),
        contiguous(layout(v.tabs)) ==> contiguous(layout(group_closed_strip(v, g).tabs)),
        v.tabs[v.active].group_id != Some(g) ==> exists|a: int| 0 <= a < idx.len() && idx[a] == v.active,
{
    reveal(strip_wf);
    let w = group_closed_strip(v, g);
    let kept = w.tabs;
    let n = v.tabs.len() as int;
    lemma_without_group(v.groups, g);
    let j0 = choose|j: int| 0 <= j < v.tabs.len() && !((#[trigger] v.tabs[j]).group_id == Some(g));
    assert(v.tabs[j0].group_id != Some(g));
    assert(kept.len() >= 1);
    if v.tabs[v.active].group_id != Some(g) {
        assert(v.tabs[v.active].group_id != Some(g));
        let a = choose|a: int| 0 <= a < idx.len() && idx[a] == v.active;
        assert(kept[a].id == v.tabs[v.active].id);
        assert(tab_index(kept, v.tabs[v.active].id) is Some);
    }
    assert forall|i: int, j: int| 0 <= i < j < kept.len() implies (#[trigger] kept[i]).id != (#[trigger] kept[j]).id by {
        assert(idx[i] < idx[j]);
        assert(kept[i] == v.tabs[idx[i]] && kept[j] == v.tabs[idx[j]]);
    }
    assert forall|i: int| 0 <= i < kept.len() implies ((#[trigger] kept[i]).group_id matches Some(x) ==> group_exists(w.groups, x)) by {
        assert(kept[i] == v.tabs[idx[i]]);
        kept_outside(v.tabs, g, i);
    }
    assert forall|k: int| 0 <= k < w.groups.len() implies has_member(layout(kept), (#[trigger] w.groups[k]).id) by {
        let x = w.groups[k].id;
        assert(group_exists(v.groups, x) && x != g);
        let q = choose|q: int| 0 <= q < v.groups.len() && v.groups[q].id == x;
        assert(has_member(layout(v.tabs), v.groups[q].id));
        let m = choose|m: int| 0 <= m < layout(v.tabs).len() && layout(v.tabs)[m] == Some(x);
        assert(v.tabs[m].group_id == Some(x));
        let a = choose|a: int| 0 <= a < idx.len() && idx[a] == m;
        assert(layout(kept)[a] == Some(x));
    }
    if contiguous(layout(v.tabs)) {
        let gs = layout(v.tabs);
        let ks = layout(kept);
        assert forall|i: int, j: int, k: int|
            #![trigger ks[i], ks[j], ks[k]]
            0 <= i < j < k < ks.len() && ks[i] is Some && ks[i] == ks[k] implies ks[j] == ks[i] by {
            assert(idx[i] < idx[j]);
            assert(idx[j] < idx[k]);
            assert(ks[i] == gs[idx[i]] && ks[j] == gs[idx[j]] && ks[k] == gs[idx[k]]);
            lemma_contig(gs, idx[i], idx[j], idx[k]);
        }
        reveal(contiguous);
    }
}

proof fn lemma_group_closed_ids(v: StripView, g: u64, idx: Seq<int>)
    requires
        strip_wf(v),
        picks(v.tabs, outside_group(v.tabs, g), idx, g, v.tabs.len() as int, false),
    ensures
        forall|i: int, j: int|
            0 <= i < j < outside_group(v.tabs, g).len() ==> (#[trigger] outside_group(v.tabs, g)[i]).id != (#[trigger] outside_group(v.tabs, g)[j]).id,
{
    reveal(strip_wf);
    let kept = outside_group(v.tabs, g);
    assert forall|i: int, j: int| 0 <= i < j < kept.len() implies (#[trigger] kept[i]).id != (#[trigger] kept[j]).id by {
        assert(idx[i] < idx[j]);
        assert(kept[i] == v.tabs[idx[i]] && kept[j] == v.tabs[idx[j]]);
    }
}

proof fn kept_outside(tabs: Seq<TabView>, g: u64, i: int)
    requires
        0 <= i < outside_group(tabs, g).len(),
    ensures
        outside_group(tabs, g)[i].group_id != Some(g),
{
    tabs.lemma_filter_pred(|t: TabView| t.group_id != Some(g), i);
}

/// Where a moved group goes among the other tabs, next to the target at
/// `t`: after (or before) the whole group the target is in, else right
/// after (or before) the target itself.
pub open spec fn group_slot(rest: Seq<TabView>, t: int, after: bool) -> int {
    match rest[t].group_id {
        Some(tg) => if after {
            last_of(layout(rest), tg) + 1
        } else {
            first_of(layout(rest), tg)
        },
        None => if after {
            t + 1
        } else {
            t
        },
    }
}

/// Whether moving group `g` next to the tab with id `target` does
/// anything: the target exists outside the group and the group has tabs.
pub open spec fn group_moves(v: StripView, g: u64, target: u64) -> bool {
    match tab_index(v.tabs, target) {
        Some(ti) => v.tabs[ti].group_id != Some(g) && has_member(layout(v.tabs), g),
        None => false,
    }
}

/// The strip after moving the tabs of group `g`, in their order, next to
/// the tab with id `target` (see `group_slot`); the same tab stays active.
pub open spec fn group_moved_strip(v: StripView, g: u64, target: u64, after: bool) -> StripView {
    let rest = outside_group(v.tabs, g);
    let p = group_slot(rest, tab_index(rest, target).unwrap(), after);
    let tabs = spliced(v.tabs, g, p);
    StripView { tabs, groups: v.groups, active: active_after(tabs, v.tabs[v.active].id) }
}

/// The tabs with those of group `g` moved, in order, to stand at `p`
/// among the others.
pub open spec fn spliced(tabs: Seq<TabView>, g: u64, p: int) -> Seq<TabView> {
    outside_group(tabs, g).take(p) + inside_group(tabs, g) + outside_group(tabs, g).skip(p)
}

/// The index in the old tabs of the tab at `a` once the picked tabs `mem`
/// (indices `midx`) stand at `p` among the others (indices `ridx`).
pub open spec fn spliced_index(ridx: Seq<int>, midx: Seq<int>, p: int, a: int) -> int {
    if a < p {
        ridx[a]
    } else if a < p + midx.len() {
        midx[a - p]
    } else {
        ridx[a - midx.len()]
    }
}

proof fn lemma_picks_contiguous(tabs: Seq<TabView>, kept: Seq<TabView>, idx: Seq<int>, g: u64, inside: bool)
    requires
        contiguous(layout(tabs)),
        picks(tabs, kept, idx, g, tabs.len() as int, inside),
    ensures
        contiguous(layout(kept)),
{
    let gs = layout(tabs);
    let ks = layout(kept);
    assert forall|i: int, j: int, k: int|
        #![trigger ks[i], ks[j], ks[k]]
        0 <= i < j < k < ks.len() && ks[i] is Some && ks[i] == ks[k] implies ks[j] == ks[i] by {
        assert(idx[i] < idx[j]);
        assert(idx[j] < idx[k]);
        assert(ks[i] == gs[idx[i]] && ks[j] == gs[idx[j]] && ks[k] == gs[idx[k]]);
        lemma_contig(gs, idx[i], idx[j], idx[k]);
    }
    reveal(contiguous);
}

#[verifier::rlimit(100)]
#[verifier::spinoff_prover]
proof fn lemma_spliced(v: StripView, g: u64, ridx: Seq<int>, midx: Seq<int>, p: int)
    requires
        strip_wf(v),
        picks(v.tabs, outside_group(v.tabs, g), ridx, g, v.tabs.len() as int, false),
        picks(v.tabs, inside_group(v.tabs, g), midx, g, v.tabs.len() as int, true),
        outside_group(v.tabs, g).len() + inside_group(v.tabs, g).len() == v.tabs.len(),
        0 <= p <= outside_group(v.tabs, g).len(),
    ensures
        spliced(v.tabs, g, p).len() == v.tabs.len(),
        forall|a: int| 0 <= a < spliced(v.tabs, g, p).len() ==> 0 <= #[trigger] spliced_index(ridx, midx, p, a) < v.tabs.len()
            && spliced(v.tabs, g, p)[a] == v.tabs[spliced_index(ridx, midx, p, a)],
        forall|a: int, b: int|
            0 <= a < b < spliced(v.tabs, g, p).len() ==> (#[trigger] spliced(v.tabs, g, p)[a]).id != (#[trigger] spliced(v.tabs, g, p)[b]).id,
{
    reveal(strip_wf);
    let rest = outside_group(v.tabs, g);
    let mem = inside_group(v.tabs, g);
    let nt = spliced(v.tabs, g, p);
    assert(nt == rest.take(p) + mem + rest.skip(p));
    let m = mem.len();
    let n = v.tabs.len();
    assert forall|a: int| 0 <= a < nt.len() implies 0 <= #[trigger] spliced_index(ridx, midx, p, a) < n
        && nt[a] == v.tabs[spliced_index(ridx, midx, p, a)] by {
        if a < p {
            assert(nt[a] == rest[a]);
        } else if a < p + m {
            assert(nt[a] == mem[a - p]);
        } else {
            assert(nt[a] == rest[a - m]);
        }
    }
    assert forall|a: int, b: int| 0 <= a < b < nt.len() implies (#[trigger] nt[a]).id != (#[trigger] nt[b]).id by {
        let oa = spliced_index(ridx, midx, p, a);
        let ob = spliced_index(ridx, midx, p, b);
        assert(nt[a] == v.tabs[oa] && nt[b] == v.tabs[ob]);
        if a < p {
            if b < p {
                assert(ridx[a] < ridx[b]);
            } else if b < p + m {
                kept_outside(v.tabs, g, a);
                kept_inside(v.tabs, g, b - p);
            } else {
                assert(ridx[a] < ridx[b - m]);
            }
        } else if a < p + m {
            if b < p + m {
                assert(midx[a - p] < midx[b - p]);
            } else {
                kept_inside(v.tabs, g, a - p);
                kept_outside(v.tabs, g, b - m);
            }
        } else {
            assert(ridx[a - m] < ridx[b - m]);
        }
        assert(oa != ob);
    }
}

/// Where the tab at old index `j` stands once group `g` is spliced in at `p`.
proof fn lemma_spliced_has(v: StripView, g: u64, ridx: Seq<int>, midx: Seq<int>, p: int, j: int) -> (a: int)
    requires
        picks(v.tabs, outside_group(v.tabs, g), ridx, g, v.tabs.len() as int, false),
        picks(v.tabs, inside_group(v.tabs, g), midx, g, v.tabs.len() as int, true),
        0 <= p <= outside_group(v.tabs, g).len(),
        0 <= j < v.tabs.len(),
    ensures
        0 <= a < spliced(v.tabs, g, p).len(),
        spliced(v.tabs, g, p)[a] == v.tabs[j],
{
    let rest = outside_group(v.tabs, g);
    let mem = inside_group(v.tabs, g);
    let nt = spliced(v.tabs, g, p);
    let m = mem.len();
    if v.tabs[j].group_id == Some(g) {
        let b = choose|b: int| 0 <= b < midx.len() && midx[b] == j;
        assert(nt[p + b] == mem[b]);
        p + b
    } else {
        let b = choose|b: int| 0 <= b < ridx.len() && ridx[b] == j;
        if b < p {
            assert(nt[b] == rest[b]);
            b
        } else {
            assert(nt[b + m] == rest[b]);
            b + m
        }
    }
}

proof fn lemma_target_outside(v: StripView, g: u64, ridx: Seq<int>, ti: int)
    requires
        strip_wf(v),
        picks(v.tabs, outside_group(v.tabs, g), ridx, g, v.tabs.len() as int, false),
        0 <= ti < v.tabs.len(),
        v.tabs[ti].group_id != Some(g),
    ensures
        tab_index(outside_group(v.tabs, g), v.tabs[ti].id) is Some,
        forall|x: int, y: int|
            0 <= x < y < outside_group(v.tabs, g).len() ==> (#[trigger] outside_group(v.tabs, g)[x]).id != (#[trigger] outside_group(v.tabs, g)[y]).id,
{
    reveal(strip_wf);
    let rv = outside_group(v.tabs, g);
    let a = choose|a: int| 0 <= a < ridx.len() && ridx[a] == ti;
    assert(rv[a].id == v.tabs[ti].id);
    assert forall|x: int, y: int| 0 <= x < y < rv.len() implies (#[trigger] rv[x]).id != (#[trigger] rv[y]).id by {
        assert(ridx[x] < ridx[y]);
        assert(rv[x] == v.tabs[ridx[x]] && rv[y] == v.tabs[ridx[y]]);
    }
    lemma_tab_index(rv, v.tabs[ti].id, a);
}

proof fn kept_inside(tabs: Seq<TabView>, g: u64, i: int)
    requires
        0 <= i < inside_group(tabs, g).len(),
    ensures
        inside_group(tabs, g)[i].group_id == Some(g),
{
    tabs.lemma_filter_pred(|t: TabView| t.group_id == Some(g), i);
}

#[verifier::rlimit(100)]
#[verifier::spinoff_prover]
proof fn lemma_group_moved_wf(v: StripView, g: u64, ridx: Seq<int>, midx: Seq<int>, target: u64, after: bool)
    requires
        strip_wf(v),
        group_moves(v, g, target),
        picks(v.tabs, outside_group(v.tabs, g), ridx, g, v.tabs.len() as int, false),
        picks(v.tabs, inside_group(v.tabs, g), midx, g, v.tabs.len() as int, true),
        outside_group(v.tabs, g).len() + inside_group(v.tabs, g).len() == v.tabs.len(),
        tab_index(outside_group(v.tabs, g), target) is Some,
        0 <= group_slot(outside_group(v.tabs, g), tab_index(outside_group(v.tabs, g), target).unwrap(), after)
            <= outside_group(v.tabs, g).len(),
        ({
            let rest = layout(outside_group(v.tabs, g));
            let p = group_slot(outside_group(v.tabs, g), tab_index(outside_group(v.tabs, g), target).unwrap(), after);
            !(0 < p < rest.len() && rest[p - 1] is Some && rest[p - 1] == rest[p])
        }),
    ensures
        strip_wf(group_moved_strip(v, g, target, after)),
        contiguous(layout(v.tabs)) ==> contiguous(layout(group_moved_strip(v, g, target, after).tabs)),
        tab_index(group_moved_strip(v, g, target, after).tabs, v.tabs[v.active].id) is Some,
{
    let rest = outside_group(v.tabs, g);
    let mem = inside_group(v.tabs, g);
    let t = tab_index(rest, target).unwrap();
    let p = group_slot(rest, t, after);
    let w = group_moved_strip(v, g, target, after);
    let nt = w.tabs;
    let m = mem.len();
    lemma_spliced(v, g, ridx, midx, p);
    assert(nt == rest.take(p) + mem + rest.skip(p));
    lemma_wf_basics(v);
    let ai = lemma_spliced_has(v, g, ridx, midx, p, v.active);
    assert(nt[ai].id == v.tabs[v.active].id);
    assert(tab_index(nt, v.tabs[v.active].id) is Some);
    assert(strip_wf(w)) by {
        reveal(strip_wf);
        assert forall|i: int| 0 <= i < nt.len() implies ((#[trigger] nt[i]).group_id matches Some(x) ==> group_exists(w.groups, x)) by {
            let o = spliced_index(ridx, midx, p, i);
            assert(nt[i] == v.tabs[o]);
        }
        assert forall|k: int| 0 <= k < w.groups.len() implies has_member(layout(nt), (#[trigger] w.groups[k]).id) by {
            let x = w.groups[k].id;
            assert(has_member(layout(v.tabs), v.groups[k].id));
            let j = choose|j: int| 0 <= j < layout(v.tabs).len() && layout(v.tabs)[j] == Some(x);
            let a = lemma_spliced_has(v, g, ridx, midx, p, j);
            assert(layout(nt)[a] == Some(x));
        }
        let tv = tab_index(nt, v.tabs[v.active].id).unwrap();
        assert(0 <= w.active < nt.len());
    }
    if contiguous(layout(v.tabs)) {
        lemma_picks_contiguous(v.tabs, rest, ridx, g, false);
        let rs = layout(rest);
        let ns = layout(nt);
        assert forall|i: int, j: int, k: int|
            #![trigger ns[i], ns[j], ns[k]]
            0 <= i < j < k < ns.len() && ns[i] is Some && ns[i] == ns[k] implies ns[j] == ns[i] by {
            let x = ns[i].unwrap();
            if x == g {
                if i < p {
                    assert(ns[i] == rs[i]);
                    kept_outside(v.tabs, g, i);
                } else if i >= p + m {
                    assert(ns[i] == rs[i - m]);
                    kept_outside(v.tabs, g, i - m);
                }
                if k < p {
                    assert(ns[k] == rs[k]);
                    kept_outside(v.tabs, g, k);
                } else if k >= p + m {
                    assert(ns[k] == rs[k - m]);
                    kept_outside(v.tabs, g, k - m);
                }
                assert(p <= i && k < p + m);
                assert(ns[j] == layout(mem)[j - p]);
                kept_inside(v.tabs, g, j - p);
            } else {
                // i and k lie outside the moved block
                if p <= i < p + m {
                    kept_inside(v.tabs, g, i - p);
                    assert(ns[i] == layout(mem)[i - p]);
                }
                if p <= k < p + m {
                    kept_inside(v.tabs, g, k - p);
                    assert(ns[k] == layout(mem)[k - p]);
                }
                let ri = if i < p { i } else { i - m };
                let rk = if k < p { k } else { k - m };
                assert(ns[i] == rs[ri]);
                assert(ns[k] == rs[rk]);
                if j < p || j >= p + m {
                    let rj = if j < p { j } else { j - m };
                    assert(ns[j] == rs[rj]);
                    lemma_contig(rs, ri, rj, rk);
                } else {
                    // the block sits inside a run of group x: impossible
                    assert(ri < p && p <= rk);
                    if ri < p - 1 {
                        lemma_contig(rs, ri, p - 1, rk);
                    }
                    if p < rk {
                        lemma_contig(rs, ri, p, rk);
                    }
                    assert(rs[p - 1] == Some(x) && rs[p] == Some(x));
                }
            }
        }
        reveal(contiguous);
    }
}

proof fn lemma_ungroup_insert_ok(gs: Seq<Option<u64>>, from: int, g: u64, to: int)
    requires
        contiguous(gs),
        0 <= from < gs.len(),
        gs[from] == Some(g),
        has_member(gs.remove(from), g) ==> gs.remove(from)[to - 1] == Some(g) && (forall|m: int|
            to <= m < gs.remove(from).len() ==> gs.remove(from)[m] != Some(g)) && 1 <= to <= gs.remove(from).len(),
        !has_member(gs.remove(from), g) ==> to == from,
    ensures
        insert_ok(gs.remove(from), to, None),
{
    let rest = gs.remove(from);
    if !has_member(rest, g) {
        if 0 < from < rest.len() && rest[from - 1] is Some && rest[from - 1] == rest[from] {
            assert(rest[from - 1] == gs[from - 1]);
            assert(rest[from] == gs[from + 1]);
            lemma_contig(gs, from - 1, from, from + 1);
            assert(rest[from - 1] == Some(g));
        }
    } else {
        if to < rest.len() {
            assert(rest[to] != Some(g));
        }
    }
}

pub proof fn lemma_tab_index(tabs: Seq<TabView>, id: u64, i: int)
    requires
        0 <= i < tabs.len(),
        tabs[i].id == id,
        forall|a: int, b: int| 0 <= a < b < tabs.len() ==> (#[trigger] tabs[a]).id != (#[trigger] tabs[b]).id,
    ensures
        tab_index(tabs, id) == Some(i),
{
    let c = choose|c: int| 0 <= c < tabs.len() && tabs[c].id == id;
    if c < i {
        assert(tabs[c].id != tabs[i].id);
    } else if c > i {
        assert(tabs[i].id != tabs[c].id);
    }
}

/// The strip after closing the tab at `index`: the tab goes, its group
/// goes when left empty, and the active tab stays active when it remains,
/// else the tab now at `index` (or the last) becomes active.
#[verifier::opaque]
pub open spec fn closed_strip(v: StripView, index: int) -> StripView {
    let tabs = v.tabs.remove(index);
    StripView {
        tabs,
        groups: pruned(v.groups, layout(tabs), v.tabs[index].group_id),
        active: match tab_index(tabs, v.tabs[v.active].id) {
            Some(i) => i,
            None => if index < tabs.len() {
                index
            } else {
                tabs.len() - 1
            },
        },
    }
}

proof fn lemma_closed_strip_wf(v: StripView, index: int)
    requires
        strip_wf(v),
        0 <= index < v.tabs.len(),
        v.tabs.len() >= 2,
    ensures
        strip_wf(closed_strip(v, index)),
        contiguous(layout(v.tabs)) ==> contiguous(layout(closed_strip(v, index).tabs)),
{
    reveal(strip_wf);
    reveal(closed_strip);
    let w = closed_strip(v, index);
    let nt = w.tabs;
    let gs = layout(nt);
    let old_group = v.tabs[index].group_id;
    lemma_layout_remove(v.tabs, index);
    if contiguous(layout(v.tabs)) {
        lemma_contiguous_remove(layout(v.tabs), index);
    }
    lemma_without_group(v.groups, old_group.unwrap_or(0));
    assert forall|i: int, j: int| 0 <= i < j < nt.len() implies (#[trigger] nt[i]).id != (#[trigger] nt[j]).id by {
        let oi = if i < index { i } else { i + 1 };
        let oj = if j < index { j } else { j + 1 };
        assert(nt[i] == v.tabs[oi] && nt[j] == v.tabs[oj]);
    }
    assert forall|q: int| 0 <= q < nt.len() implies ((#[trigger] nt[q]).group_id matches Some(x) ==> group_exists(w.groups, x)) by {
        if let Some(x) = nt[q].group_id {
            let oq = if q < index { q } else { q + 1 };
            assert(nt[q] == v.tabs[oq]);
            assert(gs[q] == Some(x));
        }
    }
    assert forall|k: int| 0 <= k < w.groups.len() implies has_member(gs, (#[trigger] w.groups[k]).id) by {
        let x = w.groups[k].id;
        if !(old_group == Some(x) && !has_member(gs, x)) {
            assert(group_exists(v.groups, x));
            let q = choose|q: int| 0 <= q < v.groups.len() && v.groups[q].id == x;
            assert(has_member(layout(v.tabs), v.groups[q].id));
            let m = choose|m: int| 0 <= m < layout(v.tabs).len() && layout(v.tabs)[m] == Some(x);
            if m != index {
                let j = if m < index { m } else { m - 1 };
                assert(nt[j] == v.tabs[m]);
                assert(gs[j] == Some(x));
            }
        }
    }
}

/// The first tab of a group that has tabs.
pub open spec fn first_of(gs: Seq<Option<u64>>, g: u64) -> int {
    choose|f: int| 0 <= f < gs.len() && gs[f] == Some(g) && forall|m: int| 0 <= m < f ==> gs[m] != Some(g)
}

/// The last tab of a group that has tabs.
pub open spec fn last_of(gs: Seq<Option<u64>>, g: u64) -> int {
    choose|l: int| 0 <= l < gs.len() && gs[l] == Some(g) && forall|m: int| l < m < gs.len() ==> gs[m] != Some(g)
}

/// Where a tab lands that joins no group already there: at the target
/// index, unless that is inside a group, when it moves to that group's
/// nearer end in the direction of the drag.
pub open spec fn free_slot(rest: Seq<Option<u64>>, t: int, moving_right: bool) -> int {
    if t < rest.len() && rest[t] is Some {
        let h = rest[t].unwrap();
        if t > first_of(rest, h) {
            if moving_right {
                last_of(rest, h) + 1
            } else {
                first_of(rest, h)
            }
        } else {
            t
        }
    } else {
        t
    }
}

/// Where a dragged tab lands among the other tabs: at the target index,
/// pulled into its target group's span when that group has other tabs;
/// otherwise (outside every group, or the only tab of its group) it never
/// lands inside another group but moves to that group's nearer end in the
/// direction of the drag.
#[verifier::opaque]
pub open spec fn drop_slot(rest: Seq<Option<u64>>, t: int, g: Option<u64>, moving_right: bool) -> int {
    let p = match g {
        Some(x) => if has_member(rest, x) {
            if t < first_of(rest, x) {
                first_of(rest, x)
            } else if t > last_of(rest, x) + 1 {
                last_of(rest, x) + 1
            } else {
                t
            }
        } else {
            free_slot(rest, t, moving_right)
        },
        None => free_slot(rest, t, moving_right),
    };
    if p > rest.len() {
        rest.len() as int
    } else {
        p
    }
}

/// A saved group id, kept when a saved group has it, dropped otherwise.
pub open spec fn known_group(groups: Seq<GroupView>, g: Option<u64>) -> Option<u64> {
    match g {
        Some(x) => if group_exists(groups, x) {
            Some(x)
        } else {
            None
        },
        None => None,
    }
}

/// The tab with id `id` restored from `saved` among the saved groups
/// `groups`.
pub open spec fn restored_tab(id: u64, saved: SavedTab, groups: Seq<GroupView>) -> TabView {
    TabView { group_id: known_group(groups, saved.group_id), ..saved_tab_view(id, saved) }
}

/// Whether no two groups share an id.
pub open spec fn distinct_groups(groups: Seq<GroupView>) -> bool {
    forall|i: int, j: int| 0 <= i < j < groups.len() ==> (#[trigger] groups[i]).id != (#[trigger] groups[j]).id
}

/// What dropping a tab does: nothing when the tab is unknown or stays where
/// it is in the same group; else it moves from its index to its slot and
/// into the target group (when that group exists) or into none.
#[verifier::opaque]
pub open spec fn drop_target(v: StripView, tab_id: u64, target: int, target_group: Option<u64>, moving_right: bool) -> Option<(int, int, Option<u64>)> {
    match tab_index(v.tabs, tab_id) {
        None => None,
        Some(from) => {
            let g = match target_group {
                Some(x) => if group_exists(v.groups, x) {
                    Some(x)
                } else {
                    None
                },
                None => None,
            };
            let t = if target > v.tabs.len() - 1 {
                v.tabs.len() - 1
            } else {
                target
            };
            if t == from && g == v.tabs[from].group_id {
                None
            } else {
                Some((from, drop_slot(layout(v.tabs).remove(from), t, g, moving_right), g))
            }
        },
    }
}

proof fn lemma_first_last(gs: Seq<Option<u64>>, x: u64)
    requires
        contiguous(gs),
        has_member(gs, x),
    ensures
        0 <= first_of(gs, x) <= last_of(gs, x) < gs.len(),
        forall|m: int| first_of(gs, x) <= m <= last_of(gs, x) ==> gs[m] == Some(x),
        forall|m: int| 0 <= m < first_of(gs, x) ==> gs[m] != Some(x),
        forall|m: int| last_of(gs, x) < m < gs.len() ==> gs[m] != Some(x),
{
    let i = choose|i: int| 0 <= i < gs.len() && gs[i] == Some(x);
    assert(exists|f: int| 0 <= f < gs.len() && gs[f] == Some(x) && forall|m: int| 0 <= m < f ==> gs[m] != Some(x)) by {
        lemma_first_exists(gs, x, i);
    }
    assert(exists|l: int| 0 <= l < gs.len() && gs[l] == Some(x) && forall|m: int| l < m < gs.len() ==> gs[m] != Some(x)) by {
        lemma_last_exists(gs, x, i);
    }
    let f = first_of(gs, x);
    let l = last_of(gs, x);
    assert forall|m: int| f <= m <= l implies gs[m] == Some(x) by {
        if f < m < l {
            lemma_contig(gs, f, m, l);
        }
    }
}

proof fn lemma_first_exists(gs: Seq<Option<u64>>, x: u64, i: int)
    requires
        0 <= i < gs.len(),
        gs[i] == Some(x),
    ensures
        exists|f: int| 0 <= f < gs.len() && gs[f] == Some(x) && forall|m: int| 0 <= m < f ==> gs[m] != Some(x),
    decreases i,
{
    if exists|m: int| 0 <= m < i && gs[m] == Some(x) {
        let m = choose|m: int| 0 <= m < i && gs[m] == Some(x);
        lemma_first_exists(gs, x, m);
    } else {
        assert(forall|m: int| 0 <= m < i ==> gs[m] != Some(x));
    }
}

proof fn lemma_last_exists(gs: Seq<Option<u64>>, x: u64, i: int)
    requires
        0 <= i < gs.len(),
        gs[i] == Some(x),
    ensures
        exists|l: int| 0 <= l < gs.len() && gs[l] == Some(x) && forall|m: int| l < m < gs.len() ==> gs[m] != Some(x),
    decreases gs.len() - i,
{
    if exists|m: int| i < m < gs.len() && gs[m] == Some(x) {
        let m = choose|m: int| i < m < gs.len() && gs[m] == Some(x);
        lemma_last_exists(gs, x, m);
    } else {
        assert(forall|m: int| i < m < gs.len() ==> gs[m] != Some(x));
    }
}

#[verifier::spinoff_prover]
#[verifier::rlimit(100)]
proof fn lemma_drop_slot_group(rest: Seq<Option<u64>>, t: int, x: u64, moving_right: bool)
    requires
        contiguous(rest),
        0 <= t <= rest.len(),
        has_member(rest, x),
    ensures
        0 <= drop_slot(rest, t, Some(x), moving_right) <= rest.len(),
        insert_ok(rest, drop_slot(rest, t, Some(x), moving_right), Some(x)),
{
    lemma_first_last(rest, x);
    let f = first_of(rest, x);
    let l = last_of(rest, x);
    let p = if t < f {
        f
    } else if t > l + 1 {
        l + 1
    } else {
        t
    };
    assert(drop_slot(rest, t, Some(x), moving_right) == p) by {
        reveal(drop_slot);
    }
    assert(f <= p <= l + 1);
    if p > f {
        assert(rest[p - 1] == Some(x));
    } else {
        assert(rest[p] == Some(x));
    }
}

proof fn lemma_drop_slot_free(rest: Seq<Option<u64>>, t: int, g: Option<u64>, moving_right: bool)
    requires
        contiguous(rest),
        0 <= t <= rest.len(),
        g matches Some(x) ==> !has_member(rest, x),
    ensures
        0 <= drop_slot(rest, t, g, moving_right) <= rest.len(),
        insert_ok(rest, drop_slot(rest, t, g, moving_right), g),
{
    if t < rest.len() && rest[t] is Some {
        let h = rest[t].unwrap();
        assert(has_member(rest, h));
        lemma_first_last(rest, h);
        let f = first_of(rest, h);
        let l = last_of(rest, h);
        let p = if t > f {
            if moving_right {
                l + 1
            } else {
                f
            }
        } else {
            t
        };
        assert(drop_slot(rest, t, g, moving_right) == p) by {
            reveal(drop_slot);
        }
        if 0 < p < rest.len() {
            if t > f && moving_right {
                assert(rest[p] != Some(h));
                assert(rest[p - 1] == Some(h));
            } else {
                assert(rest[p - 1] != Some(h));
                assert(rest[p] == Some(h));
            }
        }
    } else {
        assert(drop_slot(rest, t, g, moving_right) == t) by {
            reveal(drop_slot);
        }
        if 0 < t < rest.len() {
            assert(rest[t] is None);
        }
    }
}

/// The tabs with group `g` taken out of it.
pub open spec fn ungrouped_tabs(tabs: Seq<TabView>, g: u64) -> Seq<TabView> {
    tabs.map_values(
        |t: TabView|
            if t.group_id == Some(g) {
                TabView { group_id: None, ..t }
            } else {
                t
            },
    )
}

proof fn lemma_ungroup_wf(v: StripView, g: u64)
    requires
        strip_wf(v),
    ensures
        strip_wf(StripView { tabs: ungrouped_tabs(v.tabs, g), groups: without_group(v.groups, g), active: v.active }),
        contiguous(layout(v.tabs)) ==> contiguous(layout(ungrouped_tabs(v.tabs, g))),
{
    reveal(strip_wf);
    let nt = ungrouped_tabs(v.tabs, g);
    let w = StripView { tabs: nt, groups: without_group(v.groups, g), active: v.active };
    let gs = layout(v.tabs);
    let ns = layout(nt);
    lemma_without_group(v.groups, g);
    assert forall|i: int| 0 <= i < nt.len() implies #[trigger] ns[i] == (if gs[i] == Some(g) { None } else { gs[i] }) by {
        assert(nt[i].group_id == ns[i]);
        assert(v.tabs[i].group_id == gs[i]);
    }
    assert forall|i: int, j: int| 0 <= i < j < nt.len() implies (#[trigger] nt[i]).id != (#[trigger] nt[j]).id by {
        assert(nt[i].id == v.tabs[i].id && nt[j].id == v.tabs[j].id);
    }
    assert forall|q: int| 0 <= q < nt.len() implies ((#[trigger] nt[q]).group_id matches Some(x) ==> group_exists(w.groups, x)) by {
        assert(ns[q] == nt[q].group_id);
        if let Some(x) = nt[q].group_id {
            assert(gs[q] == Some(x));
            assert(v.tabs[q].group_id == Some(x));
        }
    }
    assert forall|k: int| 0 <= k < w.groups.len() implies has_member(ns, (#[trigger] w.groups[k]).id) by {
        let x = w.groups[k].id;
        assert(group_exists(v.groups, x) && x != g);
        let q = choose|q: int| 0 <= q < v.groups.len() && v.groups[q].id == x;
        assert(has_member(gs, v.groups[q].id));
        let m = choose|m: int| 0 <= m < gs.len() && gs[m] == Some(x);
        assert(ns[m] == Some(x));
    }
    if contiguous(gs) {
        reveal(contiguous);
        assert forall|i: int, j: int, k: int|
            #![trigger ns[i], ns[j], ns[k]]
            0 <= i < j < k < ns.len() && ns[i] is Some && ns[i] == ns[k] implies ns[j] == ns[i] by {
            assert(gs[i] == ns[i] && gs[k] == ns[k]);
            assert(gs[j] == gs[i]);
        }
    }
}

/// The strip after opening a tab at the end of a group, active, when the
/// group exists.
#[verifier::opaque]
pub open spec fn with_new_tab(v: StripView, group_id: u64, tab: TabView) -> StripView {
    if group_exists(v.groups, group_id) {
        let p = after_group(layout(v.tabs), group_id, v.tabs.len() as int);
        StripView {
            tabs: v.tabs.insert(p, TabView { group_id: Some(group_id), ..tab }),
            groups: v.groups,
            active: p,
        }
    } else {
        v
    }
}

proof fn lemma_wf_group_member(v: StripView, g: u64)
    requires
        strip_wf(v),
        group_exists(v.groups, g),
    ensures
        has_member(layout(v.tabs), g),
{
    reveal(strip_wf);
    let k = choose|k: int| 0 <= k < v.groups.len() && v.groups[k].id == g;
    assert(has_member(layout(v.tabs), v.groups[k].id));
}

proof fn lemma_new_tab_wf(v: StripView, p: int, t: TabView)
    requires
        strip_wf(v),
        0 <= p <= v.tabs.len(),
        t.group_id matches Some(g) && group_exists(v.groups, g),
        forall|i: int| 0 <= i < v.tabs.len() ==> v.tabs[i].id != t.id,
    ensures
        strip_wf(StripView { tabs: v.tabs.insert(p, t), groups: v.groups, active: p }),
{
    reveal(strip_wf);
    let nt = v.tabs.insert(p, t);
    let gs = layout(v.tabs);
    let w = StripView { tabs: nt, groups: v.groups, active: p };
    lemma_layout_insert(v.tabs, p, t);
    assert forall|i: int, j: int| 0 <= i < j < nt.len() implies (#[trigger] nt[i]).id != (#[trigger] nt[j]).id by {
        let oi = if i < p { i } else { i - 1 };
        let oj = if j < p { j } else { j - 1 };
        if i != p && j != p {
            assert(nt[i] == v.tabs[oi] && nt[j] == v.tabs[oj]);
        } else if i == p {
            assert(nt[j] == v.tabs[oj]);
        } else {
            assert(nt[i] == v.tabs[oi]);
        }
    }
    assert forall|q: int| 0 <= q < nt.len() implies ((#[trigger] nt[q]).group_id matches Some(x) ==> group_exists(w.groups, x)) by {
        if q != p {
            let oq = if q < p { q } else { q - 1 };
            assert(nt[q] == v.tabs[oq]);
        }
    }
    assert forall|k: int| 0 <= k < w.groups.len() implies has_member(layout(nt), (#[trigger] w.groups[k]).id) by {
        let x = w.groups[k].id;
        assert(has_member(gs, x));
        let m = choose|m: int| 0 <= m < gs.len() && gs[m] == Some(x);
        let nm = if m < p { m } else { m + 1 };
        assert(nt[nm] == v.tabs[m]);
        assert(layout(nt)[nm] == Some(x));
    }
}

proof fn lemma_moved_groups_exist(v: StripView, from: int, to: int, g: Option<u64>)
    requires
        movable(v, g),
        0 <= from < v.tabs.len(),
        0 <= to < v.tabs.len(),
    ensures
        forall|q: int|
            0 <= q < moved_strip(v, from, to, g).tabs.len() ==> ((#[trigger] moved_strip(v, from, to, g).tabs[q]).group_id matches Some(x)
                ==> group_exists(moved_strip(v, from, to, g).groups, x)),
{
    reveal(moved_strip);
    reveal(movable);
    let w = moved_strip(v, from, to, g);
    let nt = w.tabs;
    let gs = layout(nt);
    lemma_moved_ids(v.tabs, from, to, g);
    lemma_without_group(v.groups, v.tabs[from].group_id.unwrap_or(0));
    assert forall|q: int| 0 <= q < nt.len() implies ((#[trigger] nt[q]).group_id matches Some(x) ==> group_exists(w.groups, x)) by {
        if let Some(x) = nt[q].group_id {
            assert(gs[q] == Some(x));
            assert(has_member(gs, x));
            if nt[q].group_id != g {
                let i0 = choose|i0: int| 0 <= i0 < v.tabs.len() && i0 != from && v.tabs[i0] == nt[q];
                assert(v.tabs[i0].group_id == Some(x));
            }
        }
    }
}

proof fn lemma_moved_members(v: StripView, from: int, to: int, g: Option<u64>)
    requires
        0 <= from < v.tabs.len(),
        0 <= to < v.tabs.len(),
        forall|i: int, j: int| 0 <= i < j < v.groups.len() ==> (#[trigger] v.groups[i]).id != (#[trigger] v.groups[j]).id,
        forall|k: int| 0 <= k < v.groups.len() ==> has_member(layout(v.tabs), (#[trigger] v.groups[k]).id) || Some(v.groups[k].id) == g,
    ensures
        forall|k: int|
            0 <= k < moved_strip(v, from, to, g).groups.len() ==> has_member(
                layout(moved_strip(v, from, to, g).tabs),
                (#[trigger] moved_strip(v, from, to, g).groups[k]).id,
            ),
{
    reveal(moved_strip);
    let w = moved_strip(v, from, to, g);
    let nt = w.tabs;
    let gs = layout(nt);
    let old_group = v.tabs[from].group_id;
    lemma_without_group(v.groups, old_group.unwrap_or(0));
    assert forall|k: int| 0 <= k < w.groups.len() implies has_member(gs, (#[trigger] w.groups[k]).id) by {
        let x = w.groups[k].id;
        if Some(x) == g {
            assert(nt[to].group_id == g);
            assert(gs[to] == Some(x));
        } else if !(old_group == Some(x) && !has_member(gs, x)) {
            assert(group_exists(v.groups, x));
            let q = choose|q: int| 0 <= q < v.groups.len() && v.groups[q].id == x;
            assert(has_member(layout(v.tabs), v.groups[q].id));
            let m = choose|m: int| 0 <= m < layout(v.tabs).len() && layout(v.tabs)[m] == Some(x);
            if m != from {
                let r = if m < from { m } else { m - 1 };
                let j = if r < to { r } else { r + 1 };
                assert(nt[j] == v.tabs[m]);
                assert(gs[j] == Some(x));
            }
        }
    }
}

proof fn lemma_moved_strip_wf(v: StripView, from: int, to: int, g: Option<u64>)
    requires
        movable(v, g),
        0 <= from < v.tabs.len(),
        0 <= to < v.tabs.len(),
        0 <= moved_strip(v, from, to, g).active < v.tabs.len(),
    ensures
        strip_wf(moved_strip(v, from, to, g)),
        contiguous(layout(v.tabs)) && insert_ok(layout(v.tabs).remove(from), to, g) ==> contiguous(
            layout(moved_strip(v, from, to, g).tabs),
        ),
{
    reveal(moved_strip);
    reveal(strip_wf);
    reveal(movable);
    let w = moved_strip(v, from, to, g);
    lemma_moved_ids(v.tabs, from, to, g);
    lemma_layout_remove(v.tabs, from);
    lemma_layout_insert(v.tabs.remove(from), to, TabView { group_id: g, ..v.tabs[from] });
    if contiguous(layout(v.tabs)) && insert_ok(layout(v.tabs).remove(from), to, g) {
        lemma_contiguous_remove(layout(v.tabs), from);
        lemma_contiguous_insert(layout(v.tabs).remove(from), to, g);
    }
    lemma_without_group(v.groups, v.tabs[from].group_id.unwrap_or(0));
    lemma_moved_groups_exist(v, from, to, g);
    lemma_moved_members(v, from, to, g);
}

/// Splits tabs into those outside group `g` and those inside it, each in
/// their order.
/// Where a group moved next to the tab at `t` of `rest` goes (see
/// `group_slot`); it never splits a group of `rest`.
fn group_slot_at(rest: &Vec<TabState>, t: usize, after: bool) -> (p: usize)
    requires
        t < rest@.len(),
    ensures
        ({
            let rv = rest@.map_values(|x: TabState| x@);
            let rs = layout(rv);
            &&& p as int == group_slot(rv, t as int, after)
            &&& p <= rs.len()
            &&& !(0 < p < rs.len() && rs[p - 1] is Some && rs[p - 1] == rs[p as int])
        }),
{
    let ghost rv = rest@.map_values(|x: TabState| x@);
    let ghost rs = layout(rv);
    let n = rest.len();
    assert(rs[t as int] == rest@[t as int]@.group_id);
    let p = match rest[t].group_id() {
        Some(tg) => {
            if after {
                match last_of_group(rest, tg) {
                    Some(l) => {
                        proof {
                            assert(rs[l as int] == Some(tg));
                            assert forall|q: int| l < q < rs.len() implies rs[q] != Some(tg) by {
                                assert(rs[q] == rest@[q]@.group_id);
                            }
                            let c = choose|c: int| 0 <= c < rs.len() && rs[c] == Some(tg) && forall|q: int| c < q < rs.len() ==> rs[q] != Some(tg);
                            assert(c == l as int);
                        }
                        l + 1
                    },
                    None => t + 1,
                }
            } else {
                match first_of_group(rest, tg) {
                    Some(f) => {
                        proof {
                            assert(rs[f as int] == Some(tg));
                            assert forall|q: int| 0 <= q < f implies rs[q] != Some(tg) by {
                                assert(rs[q] == rest@[q]@.group_id);
                            }
                            let c = choose|c: int| 0 <= c < rs.len() && rs[c] == Some(tg) && forall|q: int| 0 <= q < c ==> rs[q] != Some(tg);
                            assert(c == f as int);
                        }
                        f
                    },
                    None => t,
                }
            }
        },
        None => if after {
            t + 1
        } else {
            t
        },
    };
    proof {
        let pp = p as int;
        if 0 < pp < rs.len() && rs[pp - 1] is Some && rs[pp - 1] == rs[pp] {
            assert(rs[pp - 1] == rest@[pp - 1]@.group_id);
            assert(rs[pp] == rest@[pp]@.group_id);
            assert(false);
        }
    }
    p
}

fn take_apart(tabs: Vec<TabState>, g: u64) -> (r: (Vec<TabState>, Vec<TabState>))
    ensures
        ({
            let tv = tabs@.map_values(|t: TabState| t@);
            &&& r.0@.map_values(|t: TabState| t@) == outside_group(tv, g)
            &&& r.1@.map_values(|t: TabState| t@) == inside_group(tv, g)
            &&& outside_group(tv, g).len() + inside_group(tv, g).len() == tv.len()
            &&& exists|idx: Seq<int>| picks(tv, outside_group(tv, g), idx, g, tv.len() as int, false)
            &&& exists|idx: Seq<int>| picks(tv, inside_group(tv, g), idx, g, tv.len() as int, true)
        }),
{
    let ghost tv = tabs@.map_values(|t: TabState| t@);
    let ghost out_pred = |t: TabView| t.group_id != Some(g);
    let ghost in_pred = |t: TabView| t.group_id == Some(g);
    let n = tabs.len();
    let mut tabs = tabs;
    let mut outside: Vec<TabState> = Vec::new();
    let mut inside: Vec<TabState> = Vec::new();
    let ghost mut oidx: Seq<int> = Seq::empty();
    let ghost mut iidx: Seq<int> = Seq::empty();
    let mut i: usize = 0;
    while tabs.len() > 0
        invariant
            i <= n,
            n == tv.len(),
            tabs@.map_values(|t: TabState| t@) == tv.skip(i as int),
            outside@.map_values(|t: TabState| t@) == tv.take(i as int).filter(out_pred),
            inside@.map_values(|t: TabState| t@) == tv.take(i as int).filter(in_pred),
            outside@.len() + inside@.len() == i,
            picks(tv, outside@.map_values(|t: TabState| t@), oidx, g, i as int, false),
            picks(tv, inside@.map_values(|t: TabState| t@), iidx, g, i as int, true),
            out_pred == (|t: TabView| t.group_id != Some(g)),
            in_pred == (|t: TabView| t.group_id == Some(g)),
        decreases tabs.len(),
    {
        assert(tv.skip(i as int).len() == n - i);
        let ghost raw = tabs@;
        assert(raw.map_values(|t: TabState| t@)[0] == tv[i as int]);
        let t = tabs.remove(0);
        let ghost x = t@;
        assert(t == raw[0]);
        assert(x == tv[i as int]);
        assert(tabs@ == raw.remove(0));
        assert(tabs@.map_values(|t: TabState| t@) =~= raw.remove(0).map_values(|t: TabState| t@));
        assert(raw.remove(0).map_values(|t: TabState| t@) =~= raw.map_values(|t: TabState| t@).drop_first());
        assert(tv.skip(i as int).drop_first() =~= tv.skip(i + 1));
        assert(tv.take(i + 1).drop_last() =~= tv.take(i as int));
        assert(tv.take(i + 1).last() == x);
        assert(out_pred(x) == (x.group_id != Some(g)));
        assert(in_pred(x) == (x.group_id == Some(g)));
        let ghost before_out = outside@.map_values(|t: TabState| t@);
        let ghost before_in = inside@.map_values(|t: TabState| t@);
        if t.group_id() != Some(g) {
            outside.push(t);
            proof {
                assert(tv.take(i + 1).filter(out_pred) == tv.take(i as int).filter(out_pred).push(x)) by {
                    reveal(Seq::filter);
                }
                assert(tv.take(i + 1).filter(in_pred) == tv.take(i as int).filter(in_pred)) by {
                    reveal(Seq::filter);
                }
                assert(outside@.map_values(|t: TabState| t@) =~= before_out.push(x));
                lemma_picks_push(tv, before_out, oidx, g, i as int, false);
                lemma_picks_skip(tv, before_in, iidx, g, i as int, true);
                oidx = oidx.push(i as int);
            }
        } else {
            inside.push(t);
            proof {
                assert(tv.take(i + 1).filter(in_pred) == tv.take(i as int).filter(in_pred).push(x)) by {
                    reveal(Seq::filter);
                }
                assert(tv.take(i + 1).filter(out_pred) == tv.take(i as int).filter(out_pred)) by {
                    reveal(Seq::filter);
                }
                assert(inside@.map_values(|t: TabState| t@) =~= before_in.push(x));
                lemma_picks_push(tv, before_in, iidx, g, i as int, true);
                lemma_picks_skip(tv, before_out, oidx, g, i as int, false);
                iidx = iidx.push(i as int);
            }
        }
        i = i + 1;
    }
    proof {
        assert(tv.take(n as int) =~= tv);
        assert(out_pred =~= (|t: TabView| t.group_id != Some(g)));
        assert(in_pred =~= (|t: TabView| t.group_id == Some(g)));
        assert(outside@.map_values(|t: TabState| t@) == outside_group(tv, g));
        assert(inside@.map_values(|t: TabState| t@) == inside_group(tv, g));
        assert(picks(tv, outside_group(tv, g), oidx, g, tv.len() as int, false));
        assert(picks(tv, inside_group(tv, g), iidx, g, tv.len() as int, true));
    }
    (outside, inside)
}

proof fn lemma_picks_push(tabs: Seq<TabView>, kept: Seq<TabView>, idx: Seq<int>, g: u64, i: int, inside: bool)
    requires
        0 <= i < tabs.len(),
        picks(tabs, kept, idx, g, i, inside),
        (tabs[i].group_id == Some(g)) == inside,
    ensures
        picks(tabs, kept.push(tabs[i]), idx.push(i), g, i + 1, inside),
{
    let k = kept.push(tabs[i]);
    let nidx = idx.push(i);
    assert forall|j: int| 0 <= j < i + 1 && ((#[trigger] tabs[j]).group_id == Some(g)) == inside
        implies exists|a: int| 0 <= a < nidx.len() && nidx[a] == j by {
        if j == i {
            assert(nidx[idx.len() as int] == j);
        } else {
            let a = choose|a: int| 0 <= a < idx.len() && idx[a] == j;
            assert(nidx[a] == j);
        }
    }
    assert forall|a: int| 0 <= a < nidx.len() implies 0 <= #[trigger] nidx[a] < i + 1 && k[a] == tabs[nidx[a]] by {
        if a < idx.len() {
            assert(nidx[a] == idx[a]);
        }
    }
    assert forall|a: int, b: int| 0 <= a < b < nidx.len() implies #[trigger] nidx[a] < #[trigger] nidx[b] by {
        if b < idx.len() {
            assert(nidx[a] == idx[a] && nidx[b] == idx[b]);
        } else {
            assert(nidx[a] == idx[a]);
        }
    }
}

proof fn lemma_picks_skip(tabs: Seq<TabView>, kept: Seq<TabView>, idx: Seq<int>, g: u64, i: int, inside: bool)
    requires
        0 <= i < tabs.len(),
        picks(tabs, kept, idx, g, i, inside),
        (tabs[i].group_id == Some(g)) != inside,
    ensures
        picks(tabs, kept, idx, g, i + 1, inside),
{
}

impl TabStrip {
    /// A strip holding one tab, which is active.
    pub fn new(tab: TabState) -> (r: Self)
        requires
            tab@.group_id is None,
        ensures
            r@.tabs == seq![tab@],
            r@.groups == Seq::<GroupView>::empty(),
            r@.active == 0,
            strip_wf(r@),
            contiguous(layout(r@.tabs)),
    {
        let r = TabStrip { tabs: vec![tab], groups: Vec::new(), active: 0 };
        assert(r@.tabs =~= seq![tab@]);
        assert(r@.groups =~= Seq::<GroupView>::empty());
        proof {
            reveal(strip_wf);
            reveal(contiguous);
            let gs = layout(r@.tabs);
            assert(gs.len() == 1);
        }
        r
    }

    /// Restores a saved session: one tab per saved tab, with the ids
    /// `first_tab_id`, `first_tab_id + 1`, ... in order, each out of its
    /// group when no saved group has that id; the saved groups; and the
    /// saved active tab, the last one when it is past the end. Nothing is
    /// restored from a session without tabs.
    pub fn restore(active_tab: usize, saved: Vec<SavedTab>, groups: Vec<TabGroupState>, first_tab_id: u64) -> (r: Option<TabStrip>)
        requires
            first_tab_id + saved@.len() <= u64::MAX,
            forall|i: int| 0 <= i < saved@.len() ==> !taildrive_parse_panics(#[trigger] saved@[i].current_dir@),
        ensures
            r is None <==> saved@.len() == 0,
            r matches Some(s) ==> {
                let gv = groups@.map_values(|g: TabGroupState| g@);
                &&& s@.active == (if active_tab < saved@.len() - 1 {
                    active_tab as int
                } else {
                    saved@.len() - 1
                })
                &&& s@.tabs.len() == saved@.len()
                &&& forall|i: int|
                    0 <= i < saved@.len() ==> #[trigger] s@.tabs[i] == restored_tab(
                        (first_tab_id + i) as u64,
                        saved@[i],
                        gv,
                    )
                &&& s@.groups == gv
                &&& (distinct_groups(gv) && forall|k: int|
                    0 <= k < gv.len() ==> has_member(layout(s@.tabs), (#[trigger] gv[k]).id)) ==> strip_wf(s@)
            },
    {
        let n = saved.len();
        if n == 0 {
            return None;
        }
        let ghost sv = saved@;
        let ghost gv = groups@.map_values(|g: TabGroupState| g@);
        let mut rest = saved;
        let mut tabs: Vec<TabState> = Vec::new();
        let mut i: usize = 0;
        while rest.len() > 0
            invariant
                i <= n,
                n == sv.len(),
                rest@ == sv.skip(i as int),
                first_tab_id + sv.len() <= u64::MAX,
                forall|k: int| 0 <= k < sv.len() ==> !taildrive_parse_panics(#[trigger] sv[k].current_dir@),
                gv == groups@.map_values(|g: TabGroupState| g@),
                tabs@.len() == i,
                forall|k: int|
                    0 <= k < i ==> #[trigger] tabs@[k]@ == restored_tab((first_tab_id + k) as u64, sv[k], gv),
            decreases rest@.len(),
        {
            assert(sv.skip(i as int).len() == n - i);
            let t = rest.remove(0);
            assert(t == sv[i as int]);
            assert(rest@ =~= sv.skip(i + 1));
            let g = match t.group_id {
                Some(x) => match group_position(&groups, x) {
                    Some(k) => {
                        assert(gv[k as int].id == x);
                        Some(x)
                    },
                    None => {
                        assert(!group_exists(gv, x));
                        None
                    },
                },
                None => None,
            };
            let mut tab = TabState::from_saved(first_tab_id + i as u64, t);
            tab.set_group_id(g);
            tabs.push(tab);
            i = i + 1;
        }
        let active = if active_tab < n - 1 {
            active_tab
        } else {
            n - 1
        };
        let strip = TabStrip { tabs, groups, active };
        proof {
            let v = strip@;
            assert forall|k: int| 0 <= k < n implies #[trigger] v.tabs[k] == restored_tab(
                (first_tab_id + k) as u64,
                sv[k],
                gv,
            ) by {
                assert(v.tabs[k] == strip.tabs@[k]@);
            }
            if distinct_groups(gv) && forall|k: int| 0 <= k < gv.len() ==> has_member(layout(v.tabs), (#[trigger] gv[k]).id) {
                reveal(strip_wf);
                assert forall|a: int, b: int| 0 <= a < b < v.tabs.len() implies (#[trigger] v.tabs[a]).id != (#[trigger] v.tabs[b]).id by {
                    assert(v.tabs[a] == restored_tab((first_tab_id + a) as u64, sv[a], gv));
                    assert(v.tabs[b] == restored_tab((first_tab_id + b) as u64, sv[b], gv));
                }
                assert forall|a: int| 0 <= a < v.tabs.len() implies ((#[trigger] v.tabs[a]).group_id matches Some(x) ==> group_exists(v.groups, x)) by {
                    assert(v.tabs[a] == restored_tab((first_tab_id + a) as u64, sv[a], gv));
                }
            }
        }
        Some(strip)
    }

    /// The smallest group id above every saved group's id (saturating),
    /// if there are saved groups; new groups take ids from there on.
    pub fn next_group_id_after(groups: &Vec<TabGroupState>) -> (r: Option<u64>)
        ensures
            groups@.len() == 0 <==> r is None,
            r matches Some(m) ==> (forall|k: int| 0 <= k < groups@.len() ==> (#[trigger] groups@[k]@.id < m
                || m == u64::MAX)) && exists|k: int|
                0 <= k < groups@.len() && (m == (if groups@[k]@.id == u64::MAX {
                    u64::MAX as int
                } else {
                    groups@[k]@.id + 1
                })),
    {
        if groups.len() == 0 {
            return None;
        }
        let mut best: u64 = groups[0].id();
        let mut w: usize = 0;
        for k in 1..groups.len()
            invariant
                groups@.len() > 0,
                w < groups@.len(),
                best == groups@[w as int]@.id,
                forall|q: int| 0 <= q < k ==> #[trigger] groups@[q]@.id <= best,
        {
            if groups[k].id() > best {
                best = groups[k].id();
                w = k;
            }
        }
        let m = if best == u64::MAX {
            u64::MAX
        } else {
            best + 1
        };
        assert(groups@[w as int]@.id == best);
        Some(m)
    }

    /// The tabs in order.
    pub fn tabs(&self) -> (r: &Vec<TabState>)
        ensures
            r@.map_values(|t: TabState| t@) == self@.tabs,
    {
        &self.tabs
    }

    /// The groups.
    pub fn groups(&self) -> (r: &Vec<TabGroupState>)
        ensures
            r@.map_values(|g: TabGroupState| g@) == self@.groups,
    {
        &self.groups
    }

    /// The index of the active tab.
    pub fn active_index(&self) -> (r: usize)
        ensures
            r == self@.active,
    {
        self.active
    }

    /// Drops group `g` when no tab is left in it.
    fn prune_group(&mut self, g: Option<u64>)
        requires
            forall|i: int, j: int|
                0 <= i < j < old(self)@.groups.len() ==> (#[trigger] old(self)@.groups[i]).id != (#[trigger] old(self)@.groups[j]).id,
        ensures
            final(self)@ == (StripView { groups: pruned(old(self)@.groups, layout(old(self)@.tabs), g), ..old(self)@ }),
    {
        if let Some(id) = g {
            let mut used = false;
            let ghost gs = layout(self@.tabs);
            for i in 0..self.tabs.len()
                invariant
                    gs == layout(self@.tabs),
                    gs.len() == self.tabs@.len(),
                    used == (exists|m: int| 0 <= m < i && gs[m] == Some(id)),
            {
                assert(gs[i as int] == self.tabs@[i as int]@.group_id);
                if self.tabs[i].group_id() == Some(id) {
                    used = true;
                }
            }
            if !used {
                match group_position(&self.groups, id) {
                    Some(k) => {
                        let ghost gv = self@.groups;
                        let _ = self.groups.remove(k);
                        proof {
                            assert(gv[k as int].id == id);
                            assert(group_exists(gv, id));
                            let c = choose|c: int| 0 <= c < gv.len() && gv[c].id == id;
                            assert(self@.groups =~= gv.remove(k as int));
                            if c < k {
                                assert(gv[c].id != gv[k as int].id);
                            } else if c > k {
                                assert(gv[k as int].id != gv[c].id);
                            }
                        }
                    },
                    None => {
                        proof {
                            assert(!group_exists(self@.groups, id));
                        }
                    },
                }
            }
        }
    }
    /// Moves the tab at `from` to position `to` among the other tabs, puts it
    /// into group `g`, drops its old group when that is left empty, and keeps
    /// the same tab active.
    #[verifier::rlimit(40)]
    fn move_tab(&mut self, from: usize, to: usize, g: Option<u64>)
        requires
            movable(old(self)@, g),
            from < old(self)@.tabs.len(),
            to < old(self)@.tabs.len(),
        ensures
            strip_wf(final(self)@),
            final(self)@ == moved_strip(old(self)@, from as int, to as int, g),
            contiguous(layout(old(self)@.tabs)) && insert_ok(layout(old(self)@.tabs).remove(from as int), to as int, g)
                ==> contiguous(layout(final(self)@.tabs)),
    {
        let ghost v = self@;
        proof {
            lemma_movable_basics(v, g);
        }
        let active_id = self.tabs[self.active].id();
        assert(active_id == v.tabs[v.active].id);
        let mut t = self.tabs.remove(from);
        let old_group = t.group_id();
        t.set_group_id(g);
        self.tabs.insert(to, t);
        let ghost nt = moved(v.tabs, from as int, to as int, g);
        assert(self@.tabs =~= nt);
        proof {
            lemma_moved_ids(v.tabs, from as int, to as int, g);
        }
        self.prune_group(old_group);
        proof {
            lemma_without_group(v.groups, old_group.unwrap_or(0));
        }
        match tab_position(&self.tabs, active_id) {
            Some(i) => {
                self.active = i;
            },
            None => {
                proof {
                    let j = choose|j: int| 0 <= j < v.tabs.len() && (#[trigger] nt[j]).id == v.tabs[v.active].id;
                    assert(self.tabs@[j]@.id == active_id);
                }
                self.active = 0;
            },
        }
        proof {
            reveal(moved_strip);
            let w = self@;
            assert(tab_index(nt, active_id) == Some(w.active)) by {
                let c = choose|c: int| 0 <= c < nt.len() && nt[c].id == active_id;
                if c != w.active {
                    if c < w.active {
                        assert(nt[c].id != nt[w.active].id);
                    } else {
                        assert(nt[w.active].id != nt[c].id);
                    }
                }
            }
            lemma_moved_strip_wf(v, from as int, to as int, g);
        }
    }


    /// The last tab of group `g` among the tabs other than the one at
    /// `from`, as an index among those tabs.
    fn last_of_group_without(&self, from: usize, g: u64) -> (r: Option<usize>)
        requires
            from < self@.tabs.len(),
        ensures
            r matches Some(l) ==> (forall|fb: int| after_group(layout(self@.tabs).remove(from as int), g, fb) == l + 1)
                && l < self@.tabs.len() - 1 && layout(self@.tabs).remove(from as int)[l as int] == Some(g)
                && forall|m: int| l < m < layout(self@.tabs).remove(from as int).len() ==> layout(self@.tabs).remove(from as int)[m] != Some(g),
            r matches Some(l) ==> has_member(layout(self@.tabs).remove(from as int), g) && last_of(layout(self@.tabs).remove(from as int), g) == l,
            r is None ==> !has_member(layout(self@.tabs).remove(from as int), g),
    {
        let ghost rest = layout(self@.tabs).remove(from as int);
        let ghost gs = layout(self@.tabs);
        let n = self.tabs.len();
        let mut i = n;
        while i > 0
            invariant
                i <= n,
                n == self@.tabs.len(),
                from < n,
                gs == layout(self@.tabs),
                rest == gs.remove(from as int),
                forall|m: int| i <= m < n && m != from ==> gs[m] != Some(g),
            decreases i,
        {
            let l = i - 1;
            assert(gs[l as int] == self.tabs@[l as int]@.group_id);
            if l != from && self.tabs[l].group_id() == Some(g) {
                let k = if l < from {
                    l
                } else {
                    l - 1
                };
                proof {
                    assert(rest[k as int] == Some(g));
                    assert forall|m: int| k < m < rest.len() implies rest[m] != Some(g) by {
                        let om = if m < from { m } else { m + 1 };
                        assert(rest[m] == gs[om]);
                        assert(om > l);
                    }
                    assert(has_member(rest, g));
                    let c = choose|c: int| 0 <= c < rest.len() && rest[c] == Some(g) && forall|m: int| c < m < rest.len() ==> rest[m] != Some(g);
                    assert(c == k as int);
                    assert(last_of(rest, g) == k as int);
                }
                return Some(k);
            }
            i = i - 1;
        }
        proof {
            assert forall|m: int| 0 <= m < rest.len() implies rest[m] != Some(g) by {
                let om = if m < from { m } else { m + 1 };
                assert(rest[m] == gs[om]);
            }
        }
        None
    }

    /// Moves a tab to the end of a group (see `assign_target`).
    #[verifier::rlimit(40)]
    pub fn assign_tab_to_group(&mut self, tab_id: u64, group_id: u64)
        requires
            strip_wf(old(self)@),
        ensures
            contiguous(layout(old(self)@.tabs)) ==> contiguous(layout(final(self)@.tabs)),
            strip_wf(final(self)@),
            final(self)@ == match assign_target(old(self)@, tab_id, group_id) {
                Some((from, to)) => moved_strip(old(self)@, from, to, Some(group_id)),
                None => old(self)@,
            },
    {
        match group_position(&self.groups, group_id) {
            Some(k) => {
                assert(self@.groups[k as int].id == group_id);
            },
            None => {
                assert(assign_target(self@, tab_id, group_id) is None) by {
                    reveal(assign_target);
                }
                return;
            },
        }
        let from = match tab_position(&self.tabs, tab_id) {
            Some(from) => from,
            None => {
                assert(assign_target(self@, tab_id, group_id) is None) by {
                    reveal(assign_target);
                }
                return;
            },
        };
        proof {
            lemma_wf_basics(self@);
            lemma_tab_index(self@.tabs, tab_id, from as int);
        }
        assert(self@.tabs.len() == self.tabs@.len());
        if self.tabs[from].group_id() == Some(group_id) {
            assert(assign_target(self@, tab_id, group_id) is None) by {
                reveal(assign_target);
            }
            return;
        }
        let to = match self.last_of_group_without(from, group_id) {
            Some(l) => {
                let n = self.tabs.len();
                assert(self@.tabs.len() == n);
                l + 1
            },
            None => self.tabs.len() - 1,
        };
        proof {
            let rest = layout(self@.tabs).remove(from as int);
            if has_member(rest, group_id) {
                assert(rest[to - 1] == Some(group_id));
            }
            let k = choose|k: int| 0 <= k < self@.groups.len() && self@.groups[k].id == group_id;
        }
        assert(assign_target(self@, tab_id, group_id) == Some((from as int, to as int))) by {
            reveal(assign_target);
        }
        proof {
            lemma_wf_movable(self@, Some(group_id));
        }
        self.move_tab(from, to, Some(group_id));
    }

    /// Takes a tab out of its group, placing it right after the group's
    /// other tabs (see `ungroup_target`).
    #[verifier::rlimit(40)]
    pub fn remove_tab_from_group(&mut self, tab_id: u64)
        requires
            strip_wf(old(self)@),
        ensures
            contiguous(layout(old(self)@.tabs)) ==> contiguous(layout(final(self)@.tabs)),
            strip_wf(final(self)@),
            final(self)@ == match ungroup_target(old(self)@, tab_id) {
                Some((from, to)) => moved_strip(old(self)@, from, to, None),
                None => old(self)@,
            },
    {
        let from = match tab_position(&self.tabs, tab_id) {
            Some(from) => from,
            None => {
                assert(ungroup_target(self@, tab_id) is None) by {
                    reveal(ungroup_target);
                }
                return;
            },
        };
        proof {
            lemma_wf_basics(self@);
            lemma_tab_index(self@.tabs, tab_id, from as int);
        }
        assert(self@.tabs.len() == self.tabs@.len());
        let old_group = match self.tabs[from].group_id() {
            Some(g) => g,
            None => {
                assert(ungroup_target(self@, tab_id) is None) by {
                    reveal(ungroup_target);
                }
                return;
            },
        };
        let to = match self.last_of_group_without(from, old_group) {
            Some(l) => {
                let n = self.tabs.len();
                assert(self@.tabs.len() == n);
                l + 1
            },
            None => from,
        };
        proof {
            if contiguous(layout(self@.tabs)) {
                lemma_ungroup_insert_ok(layout(self@.tabs), from as int, old_group, to as int);
            }
        }
        assert(ungroup_target(self@, tab_id) == Some((from as int, to as int))) by {
            reveal(ungroup_target);
        }
        proof {
            lemma_wf_movable(self@, None);
        }
        self.move_tab(from, to, None);
    }


    /// Closes the tab at `index`. Answers whether the window should close:
    /// closing its only tab closes the window and changes nothing here; an
    /// index past the end changes nothing.
    pub fn close_tab(&mut self, index: usize) -> (exit: bool)
        requires
            strip_wf(old(self)@),
        ensures
            contiguous(layout(old(self)@.tabs)) ==> contiguous(layout(final(self)@.tabs)),
            strip_wf(final(self)@),
            exit == (index < old(self)@.tabs.len() && old(self)@.tabs.len() == 1),
            index >= old(self)@.tabs.len() || old(self)@.tabs.len() == 1 ==> final(self)@ == old(self)@,
            index < old(self)@.tabs.len() && old(self)@.tabs.len() > 1 ==> final(self)@ == closed_strip(old(self)@, index as int),
    {
        let ghost v = self@;
        proof {
            lemma_wf_basics(v);
        }
        assert(self@.tabs.len() == self.tabs@.len());
        if index >= self.tabs.len() {
            return false;
        }
        if self.tabs.len() == 1 {
            return true;
        }
        let active_id = self.tabs[self.active].id();
        let removed = self.tabs.remove(index);
        let removed_group = removed.group_id();
        assert(self@.tabs =~= v.tabs.remove(index as int));
        self.prune_group(removed_group);
        let n = self.tabs.len();
        let found = tab_position(&self.tabs, active_id);
        match found {
            Some(i) => {
                self.active = i;
            },
            None => {
                self.active = if index < n {
                    index
                } else {
                    n - 1
                };
            },
        }
        proof {
            reveal(closed_strip);
            let nt = v.tabs.remove(index as int);
            assert(self@.tabs == nt);
            assert(self@.groups == pruned(v.groups, layout(nt), v.tabs[index as int].group_id));
            assert(active_id == v.tabs[v.active].id);
            assert forall|a: int, b: int| 0 <= a < b < nt.len() implies (#[trigger] nt[a]).id != (#[trigger] nt[b]).id by {
                let oa = if a < index { a } else { a + 1 };
                let ob = if b < index { b } else { b + 1 };
                assert(nt[a] == v.tabs[oa] && nt[b] == v.tabs[ob]);
            }
            match found {
                Some(i) => {
                    lemma_tab_index(nt, active_id, i as int);
                },
                None => {
                    assert(tab_index(nt, active_id) is None);
                },
            }
            assert(self@.active == closed_strip(v, index as int).active);
            assert(self@ == closed_strip(v, index as int));
            lemma_closed_strip_wf(v, index as int);
        }
        false
    }

    /// Makes the tab at `index` active; answers whether there is one.
    pub fn select_tab(&mut self, index: usize) -> (selected: bool)
        requires
            strip_wf(old(self)@),
        ensures
            contiguous(layout(old(self)@.tabs)) ==> contiguous(layout(final(self)@.tabs)),
            strip_wf(final(self)@),
            selected == (index < old(self)@.tabs.len()),
            final(self)@ == (if selected {
                StripView { active: index as int, ..old(self)@ }
            } else {
                old(self)@
            }),
    {
        assert(self@.tabs.len() == self.tabs@.len());
        if index < self.tabs.len() {
            self.active = index;
            proof {
                reveal(strip_wf);
            }
            true
        } else {
            false
        }
    }


    /// The first tab of group `g` among the tabs other than the one at
    /// `from`, as an index among those tabs.
    fn first_of_group_without(&self, from: usize, g: u64) -> (r: Option<usize>)
        requires
            from < self@.tabs.len(),
        ensures
            r matches Some(f) ==> has_member(layout(self@.tabs).remove(from as int), g) && first_of(
                layout(self@.tabs).remove(from as int),
                g,
            ) == f && f < self@.tabs.len() - 1,
            r is None ==> !has_member(layout(self@.tabs).remove(from as int), g),
    {
        let ghost rest = layout(self@.tabs).remove(from as int);
        let ghost gs = layout(self@.tabs);
        let n = self.tabs.len();
        for i in 0..n
            invariant
                n == self@.tabs.len(),
                from < n,
                gs == layout(self@.tabs),
                rest == gs.remove(from as int),
                forall|m: int| 0 <= m < i && m != from ==> gs[m] != Some(g),
        {
            assert(gs[i as int] == self.tabs@[i as int]@.group_id);
            if i != from && self.tabs[i].group_id() == Some(g) {
                let k = if i < from {
                    i
                } else {
                    i - 1
                };
                proof {
                    assert(rest[k as int] == Some(g));
                    assert forall|m: int| 0 <= m < k implies rest[m] != Some(g) by {
                        let om = if m < from { m } else { m + 1 };
                        assert(rest[m] == gs[om]);
                        assert(om < i);
                    }
                    assert(has_member(rest, g));
                    let c = choose|c: int| 0 <= c < rest.len() && rest[c] == Some(g) && forall|m: int| 0 <= m < c ==> rest[m] != Some(g);
                    assert(c == k as int);
                }
                return Some(k);
            }
        }
        proof {
            assert forall|m: int| 0 <= m < rest.len() implies rest[m] != Some(g) by {
                let om = if m < from { m } else { m + 1 };
                assert(rest[m] == gs[om]);
            }
        }
        None
    }

    /// The slot where a dragged tab lands (see `drop_slot`).
    fn drop_slot_exec(&self, from: usize, t: usize, g: Option<u64>, moving_right: bool) -> (r: usize)
        requires
            from < self@.tabs.len(),
            t < self@.tabs.len(),
        ensures
            r == drop_slot(layout(self@.tabs).remove(from as int), t as int, g, moving_right),
            r < self@.tabs.len(),
    {
        let ghost rest = layout(self@.tabs).remove(from as int);
        let n = self.tabs.len();
        assert(self@.tabs.len() == n);
        let joined: Option<usize> = match g {
            Some(x) => match (self.first_of_group_without(from, x), self.last_of_group_without(from, x)) {
                (Some(f), Some(l)) => Some(
                    if t < f {
                        f
                    } else if t > l + 1 {
                        l + 1
                    } else {
                        t
                    },
                ),
                _ => None,
            },
            None => None,
        };
        let p: usize = match joined {
            Some(q) => q,
            None => {
                if t < n - 1 {
                    let at = if t < from {
                        t
                    } else {
                        t + 1
                    };
                    assert(rest[t as int] == self@.tabs[at as int].group_id);
                    match self.tabs[at].group_id() {
                        Some(h) => match (self.first_of_group_without(from, h), self.last_of_group_without(from, h)) {
                            (Some(f), Some(l)) => if t > f {
                                if moving_right {
                                    l + 1
                                } else {
                                    f
                                }
                            } else {
                                t
                            },
                            _ => t,
                        },
                        None => t,
                    }
                } else {
                    t
                }
            },
        };
        let r = if p > n - 1 {
            n - 1
        } else {
            p
        };
        assert(r == drop_slot(rest, t as int, g, moving_right)) by {
            reveal(drop_slot);
            if joined is None && t < n - 1 {
                let at: int = if t < from { t as int } else { t + 1 };
                assert(rest[t as int] == self@.tabs[at].group_id);
                if let Some(h) = rest[t as int] {
                    assert(has_member(rest, h));
                }
            }
        }
        r
    }

    /// Drops a dragged tab at `target` (an index among the other tabs) into
    /// `target_group` (`None`: outside every group) in one step, so that no
    /// group is ever split (see `drop_target` and `drop_slot`).
    pub fn drop_tab_at(&mut self, tab_id: u64, target: usize, target_group: Option<u64>, moving_right: bool)
        requires
            strip_wf(old(self)@),
        ensures
            strip_wf(final(self)@),
            final(self)@ == match drop_target(old(self)@, tab_id, target as int, target_group, moving_right) {
                Some((from, to, g)) => moved_strip(old(self)@, from, to, g),
                None => old(self)@,
            },
            contiguous(layout(old(self)@.tabs)) ==> contiguous(layout(final(self)@.tabs)),
    {
        let ghost v = self@;
        proof {
            lemma_wf_basics(v);
        }
        let from = match tab_position(&self.tabs, tab_id) {
            Some(from) => from,
            None => {
                assert(drop_target(v, tab_id, target as int, target_group, moving_right) is None) by {
                    reveal(drop_target);
                }
                return;
            },
        };
        proof {
            lemma_tab_index(v.tabs, tab_id, from as int);
        }
        let old_group = self.tabs[from].group_id();
        let g = match target_group {
            Some(x) => match group_position(&self.groups, x) {
                Some(k) => {
                    assert(v.groups[k as int].id == x);
                    Some(x)
                },
                None => None,
            },
            None => None,
        };
        let n = self.tabs.len();
        assert(v.tabs.len() == n);
        let t = if target > n - 1 {
            n - 1
        } else {
            target
        };
        if t == from && g == old_group {
            assert(drop_target(v, tab_id, target as int, target_group, moving_right) is None) by {
                reveal(drop_target);
            }
            return;
        }
        let p = self.drop_slot_exec(from, t, g, moving_right);
        assert(drop_target(v, tab_id, target as int, target_group, moving_right) == Some((from as int, p as int, g))) by {
            reveal(drop_target);
        }
        proof {
            let rest = layout(v.tabs).remove(from as int);
            lemma_layout_remove(v.tabs, from as int);
            if contiguous(layout(v.tabs)) {
                lemma_contiguous_remove(layout(v.tabs), from as int);
                match g {
                    Some(x) => {
                        if has_member(rest, x) {
                            lemma_drop_slot_group(rest, t as int, x, moving_right);
                        } else {
                            lemma_drop_slot_free(rest, t as int, g, moving_right);
                        }
                    },
                    None => {
                        lemma_drop_slot_free(rest, t as int, g, moving_right);
                    },
                }
            }
        }
        proof {
            lemma_wf_movable(self@, g);
        }
        self.move_tab(from, p, g);
    }

    /// Dissolves a group: its tabs stay where they are, in no group.
    pub fn ungroup_tab_group(&mut self, group_id: u64)
        requires
            strip_wf(old(self)@),
        ensures
            strip_wf(final(self)@),
            final(self)@ == (StripView {
                tabs: ungrouped_tabs(old(self)@.tabs, group_id),
                groups: without_group(old(self)@.groups, group_id),
                active: old(self)@.active,
            }),
            contiguous(layout(old(self)@.tabs)) ==> contiguous(layout(final(self)@.tabs)),
    {
        let ghost v = self@;
        proof {
            lemma_wf_basics(v);
        }
        let n = self.tabs.len();
        for i in 0..n
            invariant
                n == v.tabs.len(),
                self@.tabs.len() == n,
                self.tabs@.len() == n,
                self@.groups == v.groups,
                self@.active == v.active,
                forall|q: int| 0 <= q < i ==> self@.tabs[q] == ungrouped_tabs(v.tabs, group_id)[q],
                forall|q: int| i <= q < n ==> self@.tabs[q] == v.tabs[q],
        {
            if self.tabs[i].group_id() == Some(group_id) {
                let ghost before = self@.tabs;
                let mut t = self.tabs.remove(i);
                t.set_group_id(None);
                self.tabs.insert(i, t);
                proof {
                    assert(self@.tabs =~= before.update(i as int, TabView { group_id: None, ..before[i as int] }));
                }
            }
        }
        assert(self@.tabs =~= ungrouped_tabs(v.tabs, group_id));
        match group_position(&self.groups, group_id) {
            Some(k) => {
                let _ = self.groups.remove(k);
                proof {
                    assert(group_exists(v.groups, group_id));
                    let c = choose|c: int| 0 <= c < v.groups.len() && v.groups[c].id == group_id;
                    if c < k {
                        assert(v.groups[c].id != v.groups[k as int].id);
                    } else if c > k {
                        assert(v.groups[k as int].id != v.groups[c].id);
                    }
                    assert(self@.groups =~= without_group(v.groups, group_id));
                }
            },
            None => {
                assert(self@.groups =~= without_group(v.groups, group_id));
            },
        }
        proof {
            lemma_ungroup_wf(v, group_id);
        }
    }

    /// Makes a new group, of id `group_id`, for the tab with id `tab_id`
    /// (see `regrouped_strip`); its colour avoids its neighbours' (see
    /// `color_for_new_group_at_tab`). Answers whether the tab exists.
    #[verifier::rlimit(40)]
    pub fn create_tab_group_for_tab(&mut self, tab_id: u64, group_id: u64) -> (created: bool)
        requires
            strip_wf(old(self)@),
            !group_exists(old(self)@.groups, group_id),
            old(self)@.groups.len() < u64::MAX,
        ensures
            strip_wf(final(self)@),
            created == (tab_index(old(self)@.tabs, tab_id) is Some),
            !created ==> final(self)@ == old(self)@,
            created ==> ({
                let from = tab_index(old(self)@.tabs, tab_id).unwrap();
                let gs = layout(old(self)@.tabs);
                final(self)@ == regrouped_strip(
                    old(self)@,
                    from,
                    GroupView {
                        id: group_id,
                        name: Seq::empty(),
                        color: layout_color(
                            old(self)@.groups,
                            new_group_layout(gs, from).0,
                            new_group_layout(gs, from).1,
                            leaving_group(gs, from),
                        ),
                        collapsed: false,
                    },
                )
            }),
            contiguous(layout(old(self)@.tabs)) ==> contiguous(layout(final(self)@.tabs)),
    {
        let ghost v = self@;
        proof {
            lemma_wf_basics(v);
        }
        let from = match tab_position(&self.tabs, tab_id) {
            Some(i) => i,
            None => {
                return false;
            },
        };
        proof {
            lemma_tab_index(v.tabs, tab_id, from as int);
        }
        let color = color_for_new_group_at_tab(self, from);
        self.start_group(from, TabGroupState::new(group_id, String::new(), color, false));
        true
    }

    /// Puts the tab at `from` into the new group `group` (see
    /// `regrouped_strip`).
    #[verifier::rlimit(40)]
    fn start_group(&mut self, from: usize, group: TabGroupState)
        requires
            strip_wf(old(self)@),
            from < old(self)@.tabs.len(),
            !group_exists(old(self)@.groups, group@.id),
        ensures
            strip_wf(final(self)@),
            final(self)@ == regrouped_strip(old(self)@, from as int, group@),
            contiguous(layout(old(self)@.tabs)) ==> contiguous(layout(final(self)@.tabs)),
    {
        let ghost v = self@;
        let group_id = group.id();
        proof {
            lemma_wf_basics(v);
        }
        let ghost gs = layout(v.tabs);
        let n = self.tabs.len();
        assert(gs[from as int] == self.tabs@[from as int]@.group_id);
        let to = match self.tabs[from].group_id() {
            Some(og) => match self.last_of_group_without(from, og) {
                Some(l) => l + 1,
                None => if from < n - 1 {
                    from
                } else {
                    n - 1
                },
            },
            None => from,
        };
        assert(to == new_group_slot(gs, from as int));
        let ghost grp = group@;
        self.groups.push(group);
        proof {
            assert(self@.groups =~= v.groups.push(grp));
            assert(self@ == (StripView { groups: v.groups.push(grp), ..v }));
            lemma_new_group_movable(v, grp);
            if contiguous(gs) {
                assert(!has_member(gs, group_id)) by {
                    reveal(strip_wf);
                    if has_member(gs, group_id) {
                        let m = choose|m: int| 0 <= m < gs.len() && gs[m] == Some(group_id);
                        assert(v.tabs[m].group_id == Some(group_id));
                    }
                }
                lemma_new_group_insert_ok(gs, from as int, group_id);
            }
        }
        self.move_tab(from, to, Some(group_id));
    }

    /// Makes a new group, of id `group_id`, by dragging the tab with id
    /// `source_tab_id` onto the tab with id `target_tab_id` (see
    /// `dragged_strip`); its colour is the one `tab_group_color_for_drag`
    /// previews. Answers whether a group was made (see `drag_groups`).
    #[verifier::rlimit(60)]
    pub fn create_tab_group_from_drag(&mut self, source_tab_id: u64, target_tab_id: u64, group_id: u64) -> (made: bool)
        requires
            strip_wf(old(self)@),
            !group_exists(old(self)@.groups, group_id),
            old(self)@.groups.len() < u64::MAX,
        ensures
            strip_wf(final(self)@),
            made == drag_groups(old(self)@, source_tab_id, target_tab_id),
            !made ==> final(self)@ == old(self)@,
            made ==> ({
                let s = tab_index(old(self)@.tabs, source_tab_id).unwrap();
                let t = tab_index(old(self)@.tabs, target_tab_id).unwrap();
                let gs = layout(old(self)@.tabs);
                final(self)@ == dragged_strip(
                    old(self)@,
                    s,
                    t,
                    GroupView {
                        id: group_id,
                        name: Seq::empty(),
                        color: layout_color(old(self)@.groups, drag_layout(gs, s, t).0, drag_layout(gs, s, t).1, None),
                        collapsed: false,
                    },
                )
            }),
            contiguous(layout(old(self)@.tabs)) ==> contiguous(layout(final(self)@.tabs)),
    {
        let ghost v = self@;
        proof {
            lemma_wf_basics(v);
        }
        let s = match tab_position(&self.tabs, source_tab_id) {
            Some(i) => i,
            None => {
                return false;
            },
        };
        let t = match tab_position(&self.tabs, target_tab_id) {
            Some(i) => i,
            None => {
                return false;
            },
        };
        proof {
            lemma_tab_index(v.tabs, source_tab_id, s as int);
            lemma_tab_index(v.tabs, target_tab_id, t as int);
        }
        if s == t || self.tabs[s].group_id().is_some() || self.tabs[t].group_id().is_some() {
            return false;
        }
        let color = tab_group_color_for_drag(self, source_tab_id, target_tab_id);
        let group = TabGroupState::new(group_id, String::new(), color, false);
        let ghost grp = group@;
        self.start_group(t, group);
        let ghost w = self@;
        let ghost gid = Some(group_id);
        proof {
            reveal(moved_strip);
            let vg = StripView { groups: v.groups.push(grp), ..v };
            assert(new_group_slot(layout(v.tabs), t as int) == t as int);
            let nt = moved(v.tabs, t as int, t as int, gid);
            assert(w.tabs == nt);
            assert(nt[t as int].group_id == gid);
            assert(nt[s as int] == v.tabs[s as int]);
            assert(w.tabs.len() == v.tabs.len());
            reveal(strip_wf);
            assert(group_exists(w.groups, group_id));
        }
        let to = if s < t {
            t - 1
        } else {
            t + 1
        };
        proof {
            lemma_wf_movable(w, gid);
            let rest = layout(w.tabs).remove(s as int);
            lemma_layout_remove(w.tabs, s as int);
            let tr = if s < t { t - 1 } else { t as int };
            assert(rest[tr] == layout(w.tabs)[t as int]);
            assert(rest[tr] == gid);
            assert(has_member(rest, group_id) ==> ((to > 0 && rest[to - 1] == gid) || (to < rest.len() && rest[to as int] == gid)));
            assert(insert_ok(rest, to as int, gid));
        }
        self.move_tab(s, to, Some(group_id));
        true
    }

    /// Closes a group and all its tabs. When every tab is in the group the
    /// strip stays as it is and the answer is that the whole application
    /// should close; a group without tabs changes nothing; otherwise see
    /// `group_closed_strip`.
    #[verifier::rlimit(60)]
    pub fn close_tab_group(&mut self, group_id: u64) -> (exit: bool)
        requires
            strip_wf(old(self)@),
        ensures
            strip_wf(final(self)@),
            exit == all_in_group(old(self)@.tabs, group_id),
            exit || !has_member(layout(old(self)@.tabs), group_id) ==> final(self)@ == old(self)@,
            !exit && has_member(layout(old(self)@.tabs), group_id) ==> final(self)@ == group_closed_strip(old(self)@, group_id),
            contiguous(layout(old(self)@.tabs)) ==> contiguous(layout(final(self)@.tabs)),
    {
        let ghost v = self@;
        let ghost gs = layout(v.tabs);
        proof {
            lemma_wf_basics(v);
        }
        let n = self.tabs.len();
        let mut any = false;
        let mut all = true;
        for i in 0..n
            invariant
                n == self.tabs@.len(),
                self@ == v,
                gs == layout(v.tabs),
                any == (exists|m: int| 0 <= m < i && gs[m] == Some(group_id)),
                all == (forall|m: int| 0 <= m < i ==> gs[m] == Some(group_id)),
        {
            assert(gs[i as int] == self.tabs@[i as int]@.group_id);
            if self.tabs[i].group_id() == Some(group_id) {
                any = true;
            } else {
                all = false;
            }
        }
        assert(all == all_in_group(v.tabs, group_id)) by {
            if all {
                assert forall|m: int| 0 <= m < v.tabs.len() implies (#[trigger] v.tabs[m]).group_id == Some(group_id) by {
                    assert(gs[m] == v.tabs[m].group_id);
                }
            }
            if all_in_group(v.tabs, group_id) {
                assert forall|m: int| 0 <= m < n implies gs[m] == Some(group_id) by {
                    assert(v.tabs[m].group_id == Some(group_id));
                }
            }
        }
        if !any || all {
            return all;
        }
        let active_id = self.tabs[self.active].id();
        let active_inside = self.tabs[self.active].group_id() == Some(group_id);
        let old_active = self.active;
        let mut all_tabs: Vec<TabState> = Vec::new();
        std::mem::swap(&mut all_tabs, &mut self.tabs);
        assert(all_tabs@.map_values(|t: TabState| t@) == v.tabs);
        let (kept, _closed) = take_apart(all_tabs, group_id);
        let ghost idx = choose|idx: Seq<int>| picks(v.tabs, outside_group(v.tabs, group_id), idx, group_id, v.tabs.len() as int, false);
        let ghost kv = kept@.map_values(|t: TabState| t@);
        assert(kv == outside_group(v.tabs, group_id));
        self.tabs = kept;
        match group_position(&self.groups, group_id) {
            Some(k) => {
                let _ = self.groups.remove(k);
                proof {
                    assert(group_exists(v.groups, group_id));
                    let c = choose|c: int| 0 <= c < v.groups.len() && v.groups[c].id == group_id;
                    if c < k {
                        assert(v.groups[c].id != v.groups[k as int].id);
                    } else if c > k {
                        assert(v.groups[k as int].id != v.groups[c].id);
                    }
                    assert(self@.groups =~= without_group(v.groups, group_id));
                }
            },
            None => {
                assert(self@.groups =~= without_group(v.groups, group_id));
            },
        }
        proof {
            assert(has_member(gs, group_id));
            lemma_group_closed_wf(v, group_id, idx);
        }
        let m = self.tabs.len();
        if !active_inside {
            match tab_position(&self.tabs, active_id) {
                Some(p) => {
                    self.active = p;
                    proof {
                        lemma_group_closed_ids(v, group_id, idx);
                        lemma_tab_index(kv, active_id, p as int);
                    }
                },
                None => {
                    proof {
                        let a = choose|a: int| 0 <= a < idx.len() && idx[a] == v.active;
                        assert(kv[a].id == active_id);
                        assert(self.tabs@[a]@.id == active_id);
                    }
                    self.active = 0;
                },
            }
        } else {
            self.active = if old_active < m {
                old_active
            } else {
                m - 1
            };
        }
        proof {
            assert(self@ == group_closed_strip(v, group_id));
        }
        false
    }

    /// Moves the tabs of a group, keeping their order, next to the tab with
    /// id `target_tab_id`: after it (or before it) when `after` (or not),
    /// and around the whole group that tab is in (see
    /// `group_moved_strip`). Answers whether anything moved (see
    /// `group_moves`).
    #[verifier::rlimit(100)]
    #[verifier::spinoff_prover]
    pub fn move_tab_group_near(&mut self, group_id: u64, target_tab_id: u64, after: bool) -> (moved_any: bool)
        requires
            strip_wf(old(self)@),
        ensures
            strip_wf(final(self)@),
            moved_any == group_moves(old(self)@, group_id, target_tab_id),
            !moved_any ==> final(self)@ == old(self)@,
            moved_any ==> final(self)@ == group_moved_strip(old(self)@, group_id, target_tab_id, after),
            contiguous(layout(old(self)@.tabs)) ==> contiguous(layout(final(self)@.tabs)),
    {
        let ghost v = self@;
        proof {
            lemma_wf_basics(v);
        }
        let ti = match tab_position(&self.tabs, target_tab_id) {
            Some(i) => i,
            None => {
                return false;
            },
        };
        proof {
            lemma_tab_index(v.tabs, target_tab_id, ti as int);
        }
        if self.tabs[ti].group_id() == Some(group_id) {
            return false;
        }
        match first_of_group(&self.tabs, group_id) {
            Some(f) => {
                assert(layout(v.tabs)[f as int] == Some(group_id));
            },
            None => {
                proof {
                    if has_member(layout(v.tabs), group_id) {
                        let m = choose|m: int| 0 <= m < layout(v.tabs).len() && layout(v.tabs)[m] == Some(group_id);
                        assert(v.tabs[m].group_id == Some(group_id));
                    }
                }
                return false;
            },
        }
        let active_id = self.tabs[self.active].id();
        let mut all_tabs: Vec<TabState> = Vec::new();
        std::mem::swap(&mut all_tabs, &mut self.tabs);
        assert(all_tabs@.map_values(|t: TabState| t@) == v.tabs);
        let (mut rest, mut members) = take_apart(all_tabs, group_id);
        let ghost rv = outside_group(v.tabs, group_id);
        let ghost ridx = choose|idx: Seq<int>| picks(v.tabs, outside_group(v.tabs, group_id), idx, group_id, v.tabs.len() as int, false);
        let ghost midx = choose|idx: Seq<int>| picks(v.tabs, inside_group(v.tabs, group_id), idx, group_id, v.tabs.len() as int, true);
        proof {
            lemma_target_outside(v, group_id, ridx, ti as int);
        }
        let t = match tab_position(&rest, target_tab_id) {
            Some(t) => t,
            None => {
                proof {
                    let a = tab_index(rv, target_tab_id).unwrap();
                    assert(rest@[a]@.id == target_tab_id);
                }
                return false;
            },
        };
        proof {
            lemma_tab_index(rv, target_tab_id, t as int);
        }
        let ghost rs = layout(rv);
        let p = group_slot_at(&rest, t, after);
        proof {
            lemma_group_moved_wf(v, group_id, ridx, midx, target_tab_id, after);
        }
        let mut tail = rest.split_off(p);
        rest.append(&mut members);
        rest.append(&mut tail);
        self.tabs = rest;
        proof {
            let nt = rv.take(p as int) + inside_group(v.tabs, group_id) + rv.skip(p as int);
            assert(self@.tabs =~= nt);
        }
        match tab_position(&self.tabs, active_id) {
            Some(i) => {
                self.active = i;
                proof {
                    let w = group_moved_strip(v, group_id, target_tab_id, after);
                    lemma_spliced(v, group_id, ridx, midx, p as int);
                    lemma_tab_index(w.tabs, active_id, i as int);
                }
            },
            None => {
                proof {
                    let w = group_moved_strip(v, group_id, target_tab_id, after);
                    let a = tab_index(w.tabs, active_id).unwrap();
                    assert(self@.tabs[a].id == active_id);
                }
                return true;
            },
        }
        proof {
            assert(self@ == group_moved_strip(v, group_id, target_tab_id, after));
        }
        true
    }

    /// Opens a tab, in no group, after all the others and makes it active;
    /// its id must be new.
    pub fn new_tab(&mut self, tab: TabState)
        requires
            strip_wf(old(self)@),
            tab@.group_id is None,
            forall|i: int| 0 <= i < old(self)@.tabs.len() ==> old(self)@.tabs[i].id != tab@.id,
        ensures
            strip_wf(final(self)@),
            final(self)@ == (StripView {
                tabs: old(self)@.tabs.push(tab@),
                active: old(self)@.tabs.len() as int,
                ..old(self)@
            }),
            contiguous(layout(old(self)@.tabs)) ==> contiguous(layout(final(self)@.tabs)),
    {
        let ghost v = self@;
        proof {
            lemma_wf_basics(v);
        }
        let ghost t = tab@;
        let n = self.tabs.len();
        self.tabs.push(tab);
        self.active = n;
        proof {
            assert(self@.tabs =~= v.tabs.push(t));
            reveal(strip_wf);
            let w = self@;
            assert forall|i: int, j: int| 0 <= i < j < w.tabs.len() implies (#[trigger] w.tabs[i]).id != (#[trigger] w.tabs[j]).id by {
                if j < n {
                    assert(w.tabs[i] == v.tabs[i] && w.tabs[j] == v.tabs[j]);
                } else {
                    assert(w.tabs[i] == v.tabs[i]);
                }
            }
            assert forall|i: int| 0 <= i < w.tabs.len() implies ((#[trigger] w.tabs[i]).group_id matches Some(x) ==> group_exists(w.groups, x)) by {
                if i < n {
                    assert(w.tabs[i] == v.tabs[i]);
                }
            }
            assert forall|k: int| 0 <= k < w.groups.len() implies has_member(layout(w.tabs), (#[trigger] w.groups[k]).id) by {
                let x = w.groups[k].id;
                assert(has_member(layout(v.tabs), v.groups[k].id));
                let m = choose|m: int| 0 <= m < layout(v.tabs).len() && layout(v.tabs)[m] == Some(x);
                assert(layout(w.tabs)[m] == Some(x));
            }
            lemma_layout_insert(v.tabs, n as int, t);
            assert(v.tabs.insert(n as int, t) =~= v.tabs.push(t));
            if contiguous(layout(v.tabs)) {
                assert(insert_ok(layout(v.tabs), n as int, None));
                lemma_contiguous_insert(layout(v.tabs), n as int, None);
            }
        }
    }

    /// Moves a tab to `target` (an index among the other tabs) within the
    /// group it is in: `drop_tab_at` into its own group, moving right when
    /// the target is not before it.
    pub fn move_tab_to_index(&mut self, tab_id: u64, target: usize)
        requires
            strip_wf(old(self)@),
        ensures
            strip_wf(final(self)@),
            final(self)@ == match tab_index(old(self)@.tabs, tab_id) {
                Some(from) => match drop_target(old(self)@, tab_id, target as int, old(self)@.tabs[from].group_id, target >= from) {
                    Some((f, to, g)) => moved_strip(old(self)@, f, to, g),
                    None => old(self)@,
                },
                None => old(self)@,
            },
            contiguous(layout(old(self)@.tabs)) ==> contiguous(layout(final(self)@.tabs)),
    {
        let ghost v = self@;
        proof {
            lemma_wf_basics(v);
        }
        let from = match tab_position(&self.tabs, tab_id) {
            Some(i) => i,
            None => {
                return;
            },
        };
        proof {
            lemma_tab_index(v.tabs, tab_id, from as int);
        }
        let g = self.tabs[from].group_id();
        self.drop_tab_at(tab_id, target, g, target >= from);
    }

    /// Changes the group of this id, if there is one: a new name, a new
    /// colour, the collapsed flag flipped; its id stays.
    fn change_group(&mut self, group_id: u64, name: Option<String>, color: Option<TabGroupColor>, toggle: bool) -> (found: bool)
        requires
            strip_wf(old(self)@),
        ensures
            found == group_exists(old(self)@.groups, group_id),
            strip_wf(final(self)@),
            final(self)@ == (StripView {
                groups: with_group(old(self)@.groups, group_id, |g: GroupView| GroupView {
                    name: match name {
                        Some(n) => n@,
                        None => g.name,
                    },
                    color: match color {
                        Some(c) => c,
                        None => g.color,
                    },
                    collapsed: g.collapsed != toggle,
                    ..g
                }),
                ..old(self)@
            }),
    {
        let ghost v = self@;
        proof {
            lemma_wf_basics(v);
        }
        match group_position(&self.groups, group_id) {
            Some(k) => {
                let mut g = self.groups.remove(k);
                let ghost g0 = g@;
                if let Some(n) = name {
                    g.set_name(n);
                }
                if let Some(c) = color {
                    g.set_color(c);
                }
                if toggle {
                    let c = g.collapsed();
                    g.set_collapsed(!c);
                }
                self.groups.insert(k, g);
                proof {
                    assert(group_exists(v.groups, group_id));
                    let c = group_at(v.groups, group_id);
                    if c < k {
                        assert(v.groups[c].id != v.groups[k as int].id);
                    } else if c > k {
                        assert(v.groups[k as int].id != v.groups[c].id);
                    }
                    assert(self@.groups =~= v.groups.update(k as int, g@));
                    reveal(strip_wf);
                    assert forall|q: int| 0 <= q < v.groups.len() implies (#[trigger] self@.groups[q]).id == v.groups[q].id by {
                    }
                    assert forall|i: int| 0 <= i < self@.tabs.len() && (#[trigger] self@.tabs[i]).group_id is Some
                        implies group_exists(self@.groups, self@.tabs[i].group_id.unwrap()) by {
                        let h = self@.tabs[i].group_id.unwrap();
                        assert(group_exists(v.groups, h));
                        let q = choose|q: int| 0 <= q < v.groups.len() && v.groups[q].id == h;
                        assert(self@.groups[q].id == h);
                    }
                }
                true
            },
            None => {
                assert(!group_exists(v.groups, group_id));
                false
            },
        }
    }

    /// Renames a group; a name keeps its first 48 characters.
    pub fn set_tab_group_name(&mut self, group_id: u64, value: String)
        requires
            strip_wf(old(self)@),
        ensures
            strip_wf(final(self)@),
            final(self)@ == (StripView {
                groups: with_group(old(self)@.groups, group_id, |g: GroupView| GroupView { name: group_name_of(value@), ..g }),
                ..old(self)@
            }),
    {
        let cs = chars_of(value.as_str());
        let n = cs.len();
        let name = if n <= 48 {
            value
        } else {
            string_from_chars(vstd::slice::slice_subrange(cs.as_slice(), 0, 48))
        };
        assert(name@ == group_name_of(value@));
        self.change_group(group_id, Some(name), None, false);
        proof {
            let f1 = |g: GroupView| GroupView { name: group_name_of(value@), ..g };
            let f2 = |g: GroupView| GroupView {
                name: match Some(name) { Some(n) => n@, None => g.name },
                color: match Option::<TabGroupColor>::None { Some(c) => c, None => g.color },
                collapsed: g.collapsed != false,
                ..g
            };
            let gs = old(self)@.groups;
            if group_exists(gs, group_id) {
                assert(f1(gs[group_at(gs, group_id)]) == f2(gs[group_at(gs, group_id)]));
            }
        }
    }

    /// Recolours a group.
    pub fn set_tab_group_color(&mut self, group_id: u64, color: TabGroupColor)
        requires
            strip_wf(old(self)@),
        ensures
            strip_wf(final(self)@),
            final(self)@ == (StripView {
                groups: with_group(old(self)@.groups, group_id, |g: GroupView| GroupView { color, ..g }),
                ..old(self)@
            }),
    {
        self.change_group(group_id, None, Some(color), false);
        proof {
            let gs = old(self)@.groups;
            if group_exists(gs, group_id) {
                let g = gs[group_at(gs, group_id)];
                assert((GroupView { color, ..g }) == (GroupView { collapsed: g.collapsed != false, color, ..g }));
            }
        }
    }

    /// Collapses an expanded group or expands a collapsed one; answers
    /// whether the group exists.
    pub fn toggle_tab_group_collapsed(&mut self, group_id: u64) -> (found: bool)
        requires
            strip_wf(old(self)@),
        ensures
            found == group_exists(old(self)@.groups, group_id),
            strip_wf(final(self)@),
            final(self)@ == (StripView {
                groups: with_group(old(self)@.groups, group_id, |g: GroupView| GroupView { collapsed: !g.collapsed, ..g }),
                ..old(self)@
            }),
    {
        let found = self.change_group(group_id, None, None, true);
        proof {
            let gs = old(self)@.groups;
            if group_exists(gs, group_id) {
                let g = gs[group_at(gs, group_id)];
                assert((GroupView { collapsed: !g.collapsed, ..g }) == (GroupView { collapsed: g.collapsed != true, ..g }));
            }
        }
        found
    }

    /// Opens a new tab at the end of a group and makes it active; the tab's
    /// id must be new.
    #[verifier::rlimit(100)]
    pub fn new_tab_in_group(&mut self, group_id: u64, tab: TabState)
        requires
            strip_wf(old(self)@),
            forall|i: int| 0 <= i < old(self)@.tabs.len() ==> old(self)@.tabs[i].id != tab@.id,
        ensures
            strip_wf(final(self)@),
            final(self)@ == with_new_tab(old(self)@, group_id, tab@),
            contiguous(layout(old(self)@.tabs)) ==> contiguous(layout(final(self)@.tabs)),
    {
        let ghost v = self@;
        proof {
            lemma_wf_basics(v);
        }
        match group_position(&self.groups, group_id) {
            Some(k) => {
                assert(v.groups[k as int].id == group_id);
            },
            None => {
                assert(with_new_tab(v, group_id, tab@) == v) by {
                    reveal(with_new_tab);
                }
                return;
            },
        }
        let ghost gs = layout(v.tabs);
        let n = self.tabs.len();
        assert(v.tabs.len() == n);
        let p = match last_of_group(&self.tabs, group_id) {
            Some(l) => l + 1,
            None => n,
        };
        proof {
            lemma_wf_group_member(v, group_id);
            let l = (p - 1) as int;
            assert(gs[l] == Some(group_id));
            assert forall|m: int| l < m < gs.len() implies gs[m] != Some(group_id) by {
                assert(gs[m] == self.tabs@[m]@.group_id);
            }
            let c = choose|c: int| 0 <= c < gs.len() && gs[c] == Some(group_id) && forall|m: int| c < m < gs.len() ==> gs[m] != Some(group_id);
            assert(c == l);
            assert(after_group(gs, group_id, n as int) == p);
        }
        let ghost t0 = tab@;
        let mut tab = tab;
        tab.set_group_id(Some(group_id));
        let ghost t = tab@;
        self.tabs.insert(p, tab);
        self.active = p;
        proof {
            assert(self@.tabs =~= v.tabs.insert(p as int, t));
            assert(self@ == with_new_tab(v, group_id, t0)) by {
                reveal(with_new_tab);
            }
            lemma_new_tab_wf(v, p as int, t);
            if contiguous(gs) {
                lemma_layout_insert(v.tabs, p as int, t);
                lemma_contiguous_insert(gs, p as int, Some(group_id));
            }
        }
    }


}

/// Reordering tabs or moving a tab between groups keeps the same tab active.
pub proof fn lemma_move_keeps_active_tab(v: StripView, from: int, to: int, g: Option<u64>)
    requires
        strip_wf(v),
        0 <= from < v.tabs.len(),
        0 <= to < v.tabs.len(),
    ensures
        0 <= moved_strip(v, from, to, g).active < v.tabs.len(),
        moved_strip(v, from, to, g).tabs[moved_strip(v, from, to, g).active].id == v.tabs[v.active].id,
{
    reveal(moved_strip);
    lemma_wf_basics(v);
    lemma_moved_ids(v.tabs, from, to, g);
    let nt = moved(v.tabs, from, to, g);
    let j = choose|j: int| 0 <= j < v.tabs.len() && (#[trigger] nt[j]).id == v.tabs[v.active].id;
    assert(nt[j].id == v.tabs[v.active].id);
}

/// The strip after dropping the tab `tab_id` (see `drop_target`).
pub open spec fn dropped_strip(v: StripView, tab_id: u64, target: int, target_group: Option<u64>, moving_right: bool) -> StripView {
    match drop_target(v, tab_id, target, target_group, moving_right) {
        Some((from, to, g)) => moved_strip(v, from, to, g),
        None => v,
    }
}

/// A drop moves just the dropped tab: the strip holds the same tabs (by
/// id), the dropped tab is now in the target group when that group exists
/// and in none otherwise, every other tab is as it was, and the same tab
/// stays active.
pub proof fn lemma_drop_moves_one_tab(v: StripView, tab_id: u64, target: int, target_group: Option<u64>, moving_right: bool)
    requires
        strip_wf(v),
        contiguous(layout(v.tabs)),
        target >= 0,
        tab_index(v.tabs, tab_id) is Some,
    ensures
        ({
            let w = dropped_strip(v, tab_id, target, target_group, moving_right);
            let from = tab_index(v.tabs, tab_id).unwrap();
            &&& w.tabs.len() == v.tabs.len()
            &&& forall|i: int| 0 <= i < v.tabs.len() ==> exists|j: int| 0 <= j < w.tabs.len() && (#[trigger] w.tabs[j]).id == (#[trigger] v.tabs[i]).id
            &&& exists|j: int| 0 <= j < w.tabs.len() && #[trigger] w.tabs[j] == (TabView {
                group_id: known_group(v.groups, target_group),
                ..v.tabs[from]
            })
            &&& forall|j: int| 0 <= j < w.tabs.len() && (#[trigger] w.tabs[j]).id != tab_id ==> exists|i: int| 0 <= i < v.tabs.len() && v.tabs[i] == w.tabs[j]
            &&& 0 <= w.active < w.tabs.len()
            &&& w.tabs[w.active].id == v.tabs[v.active].id
        }),
{
    lemma_wf_basics(v);
    let from = tab_index(v.tabs, tab_id).unwrap();
    let g = known_group(v.groups, target_group);
    let n = v.tabs.len();
    reveal(drop_target);
    let t = if target > n - 1 { n - 1 } else { target };
    if t == from && g == v.tabs[from].group_id {
        assert(dropped_strip(v, tab_id, target, target_group, moving_right) == v);
        assert((TabView { group_id: g, ..v.tabs[from] }) == v.tabs[from]);
    } else {
        let rest = layout(v.tabs).remove(from);
        lemma_contiguous_remove(layout(v.tabs), from);
        match g {
            Some(x) => {
                if has_member(rest, x) {
                    lemma_drop_slot_group(rest, t, x, moving_right);
                } else {
                    lemma_drop_slot_free(rest, t, g, moving_right);
                }
            },
            None => {
                lemma_drop_slot_free(rest, t, g, moving_right);
            },
        }
        let to = drop_slot(rest, t, g, moving_right);
        assert(0 <= to < n);
        lemma_move_keeps_active_tab(v, from, to, g);
        lemma_moved_ids(v.tabs, from, to, g);
        reveal(moved_strip);
        let w = moved_strip(v, from, to, g);
        let rem = v.tabs.remove(from);
        assert(w.tabs == rem.insert(to, TabView { group_id: g, ..v.tabs[from] }));
        assert(w.tabs[to] == (TabView { group_id: g, ..v.tabs[from] }));
        assert forall|j: int| 0 <= j < w.tabs.len() && (#[trigger] w.tabs[j]).id != tab_id implies exists|i: int|
            0 <= i < v.tabs.len() && v.tabs[i] == w.tabs[j] by {
            assert(j != to);
            let k = if j < to { j } else { j - 1 };
            assert(w.tabs[j] == rem[k]);
            let i = if k < from { k } else { k + 1 };
            assert(rem[k] == v.tabs[i]);
        }
    }
}


/// Whether every place a tab holds can be read without stopping.
pub open spec fn tab_places_readable(t: TabView) -> bool {
    &&& !taildrive_parse_panics(t.current)
    &&& paths_showable(t.back)
    &&& paths_showable(t.forward)
    &&& (t.selected matches Some(p) ==> !taildrive_parse_panics(p))
}

/// Each tab after forgetting the profiles not among `profile_ids`, and
/// whether the tab at `active` had to leave its folder.
fn forget_in_tabs(tabs: Vec<TabState>, profile_ids: &Vec<String>, active: usize) -> (r: (Vec<TabState>, bool))
    requires
        forall|i: int| 0 <= i < tabs@.len() ==> tab_places_readable(#[trigger] tabs@[i]@),
    ensures
        r.0@.len() == tabs@.len(),
        forall|i: int| 0 <= i < tabs@.len() ==> (#[trigger] r.0@[i])@ == without_removed_profiles(tabs@[i]@, texts(profile_ids@)).0,
        r.1 == (active < tabs@.len() && without_removed_profiles(tabs@[active as int]@, texts(profile_ids@)).1),
{
    let ghost orig = tabs@;
    let ghost ids = texts(profile_ids@);
    let n = tabs.len();
    assert(orig.skip(0) == orig);
    let mut rest = tabs;
    let mut done: Vec<TabState> = Vec::new();
    let mut active_reset = false;
    let mut k: usize = 0;
    while k < n
        invariant
            n == orig.len(),
            ids == texts(profile_ids@),
            k <= n,
            rest@ == orig.skip(k as int),
            done@.len() == k,
            forall|i: int| 0 <= i < n ==> tab_places_readable(#[trigger] orig[i]@),
            forall|i: int| 0 <= i < k ==> (#[trigger] done@[i])@ == without_removed_profiles(orig[i]@, ids).0,
            active_reset == (active < k && without_removed_profiles(orig[active as int]@, ids).1),
        decreases n - k,
    {
        let mut t = rest.remove(0);
        assert(rest@ == orig.skip(k + 1));
        assert(t == orig[k as int]);
        assert(tab_places_readable(orig[k as int]@));
        let reset = t.forget_removed_profiles(profile_ids);
        if reset && k == active {
            active_reset = true;
        }
        done.push(t);
        k = k + 1;
    }
    (done, active_reset)
}

impl TabStrip {
    /// Makes every tab forget the tailnet profiles that are not among
    /// `profile_ids`; answers whether the active tab had to leave its
    /// folder (it must then be loaded again).
    pub fn forget_removed_profiles(&mut self, profile_ids: &Vec<String>) -> (active_reset: bool)
        requires
            strip_wf(old(self)@),
            forall|i: int| 0 <= i < old(self)@.tabs.len() ==> tab_places_readable(#[trigger] old(self)@.tabs[i]),
        ensures
            strip_wf(final(self)@),
            layout(final(self)@.tabs) == layout(old(self)@.tabs),
            final(self)@.groups == old(self)@.groups,
            final(self)@.active == old(self)@.active,
            final(self)@.tabs.len() == old(self)@.tabs.len(),
            forall|i: int| 0 <= i < old(self)@.tabs.len() ==>
                (#[trigger] final(self)@.tabs[i]) == without_removed_profiles(old(self)@.tabs[i], texts(profile_ids@)).0,
            active_reset == without_removed_profiles(old(self)@.tabs[old(self)@.active], texts(profile_ids@)).1,
    {
        let ghost v = self@;
        let ghost ids = texts(profile_ids@);
        proof {
            lemma_wf_basics(v);
        }
        let mut tabs: Vec<TabState> = Vec::new();
        std::mem::swap(&mut tabs, &mut self.tabs);
        assert forall|i: int| 0 <= i < tabs@.len() implies tab_places_readable(#[trigger] tabs@[i]@) by {
            assert(tabs@[i]@ == v.tabs[i]);
        }
        let (done, active_reset) = forget_in_tabs(tabs, profile_ids, self.active);
        self.tabs = done;
        proof {
            let nt = self@.tabs;
            assert forall|i: int| 0 <= i < nt.len() implies (#[trigger] nt[i]).id == v.tabs[i].id && nt[i].group_id == v.tabs[i].group_id by {
                lemma_forgetting_keeps_identity(v.tabs[i], ids);
            }
            assert(layout(nt) =~= layout(v.tabs));
            reveal(strip_wf);
        }
        active_reset
    }
}

/// Closing a tab removes exactly that tab. Closing a background tab keeps
/// the same tab (by id) active; closing the active tab activates the tab
/// that moved into its place, or the new last tab when it was the last.
pub proof fn lemma_close_keeps_active_tab(v: StripView, index: int)
    requires
        strip_wf(v),
        0 <= index < v.tabs.len(),
        v.tabs.len() >= 2,
    ensures
        closed_strip(v, index).tabs == v.tabs.remove(index),
        index != v.active ==> closed_strip(v, index).tabs[closed_strip(v, index).active].id == v.tabs[v.active].id,
        index == v.active ==> closed_strip(v, index).active == (if index < v.tabs.len() - 1 {
            index
        } else {
            v.tabs.len() - 2
        }),
        forall|i: int| 0 <= i < closed_strip(v, index).tabs.len() ==> (#[trigger] closed_strip(v, index).tabs[i]).id
            != v.tabs[index].id,
{
    reveal(closed_strip);
    lemma_wf_basics(v);
    let tabs = v.tabs.remove(index);
    let id = v.tabs[v.active].id;
    if index != v.active {
        let j = if v.active < index { v.active } else { v.active - 1 };
        assert(tabs[j] == v.tabs[v.active]);
        assert(tab_index(tabs, id) is Some);
        let i = tab_index(tabs, id)->0;
        assert(tabs[i].id == id);
    } else {
        assert forall|i: int| 0 <= i < tabs.len() implies (#[trigger] tabs[i]).id != id by {
            if i < index {
                assert(tabs[i] == v.tabs[i]);
            } else {
                assert(tabs[i] == v.tabs[i + 1]);
            }
        }
        assert(tab_index(tabs, id) is None);
    }
    assert forall|i: int| 0 <= i < tabs.len() implies (#[trigger] tabs[i]).id != v.tabs[index].id by {
        if i < index {
            assert(tabs[i] == v.tabs[i]);
        } else {
            assert(tabs[i] == v.tabs[i + 1]);
        }
    }
}

} // verus!
