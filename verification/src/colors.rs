use vstd::prelude::*;
use crate::strip::{after_group, layout, lemma_tab_index, lemma_wf_basics, strip_wf, tab_index, TabStrip};
use crate::tabs::{palette, GroupView, TabGroupColor, TabGroupState, TabState};

verus! {

/// How many groups other than `ignored` have the colour at palette index
/// `c`.
pub open spec fn color_uses(groups: Seq<GroupView>, ignored: Option<u64>, c: int) -> nat
    decreases groups.len(),
{
    if groups.len() == 0 {
        0
    } else {
        color_uses(groups.drop_last(), ignored, c) + if Some(groups.last().id) != ignored && palette()[c]
            == groups.last().color {
            1nat
        } else {
            0nat
        }
    }
}

/// How far palette index `i` comes after `start`, going round.
pub open spec fn rotation(start: int, i: int) -> int {
    (i - start + 8) % 8
}

/// Whether palette index `i` is the colour to give a new group: allowed,
/// used by the fewest other groups, and among those the first counting
/// round the palette from `start`.
pub open spec fn is_best_color(groups: Seq<GroupView>, ignored: Option<u64>, forbidden: Seq<bool>, start: int, i: int) -> bool {
    &&& 0 <= i < 8
    &&& !forbidden[i]
    &&& forall|j: int|
        0 <= j < 8 && !forbidden[j] ==> color_uses(groups, ignored, i) < color_uses(groups, ignored, j) || (
        color_uses(groups, ignored, i) == color_uses(groups, ignored, j) && rotation(start, i) <= rotation(
            start,
            j,
        ))
}

/// The colour for a new group: the best allowed palette colour (see
/// `is_best_color`, counting round from the number of groups), or blue when
/// every colour is ruled out.
#[verifier::opaque]
pub open spec fn chosen_color(groups: Seq<GroupView>, ignored: Option<u64>, forbidden: Seq<bool>) -> TabGroupColor {
    if exists|i: int| #[trigger] is_best_color(groups, ignored, forbidden, (groups.len() % 8) as int, i) {
        palette()[choose|i: int| #[trigger] is_best_color(groups, ignored, forbidden, (groups.len() % 8) as int, i)]
    } else {
        TabGroupColor::Blue
    }
}

proof fn lemma_best_unique(groups: Seq<GroupView>, ignored: Option<u64>, forbidden: Seq<bool>, start: int, i: int, j: int)
    requires
        0 <= start < 8,
        is_best_color(groups, ignored, forbidden, start, i),
        is_best_color(groups, ignored, forbidden, start, j),
    ensures
        i == j,
{
}

fn count_colors(groups: &Vec<TabGroupState>, ignored: Option<u64>) -> (counts: Vec<u64>)
    requires
        groups@.len() < u64::MAX,
    ensures
        counts@.len() == 8,
        forall|c: int| 0 <= c < 8 ==> counts@[c] == color_uses(groups@.map_values(|g: TabGroupState| g@), ignored, c),
{
    let ghost gv = groups@.map_values(|g: TabGroupState| g@);
    let mut counts: Vec<u64> = vec![0, 0, 0, 0, 0, 0, 0, 0];
    for k in 0..groups.len()
        invariant
            gv == groups@.map_values(|g: TabGroupState| g@),
            gv.len() < u64::MAX,
            counts@.len() == 8,
            forall|c: int| 0 <= c < 8 ==> counts@[c] == color_uses(gv.take(k as int), ignored, c),
            forall|c: int| 0 <= c < 8 ==> counts@[c] <= k,
    {
        assert(gv.take(k + 1).drop_last() == gv.take(k as int));
        assert(gv.take(k + 1).last() == gv[k as int]);
        assert(gv[k as int] == groups@[k as int]@);
        if Some(groups[k].id()) != ignored {
            let i = groups[k].color().palette_index();
            let ghost before = counts@;
            let v = counts[i] + 1;
            counts.set(i, v);
            proof {
                assert forall|c: int| 0 <= c < 8 implies counts@[c] == color_uses(gv.take(k + 1), ignored, c) by {
                    if c == i {
                    } else {
                        assert(palette()[c] != palette()[i as int]);
                    }
                }
            }
        }
    }
    assert(gv.take(groups@.len() as int) == gv);
    counts
}

/// The colour for a new group (see `chosen_color`).
pub fn choose_tab_group_color(groups: &Vec<TabGroupState>, ignored: Option<u64>, forbidden: &[bool; 8]) -> (r: TabGroupColor)
    requires
        groups@.len() < u64::MAX,
    ensures
        r == chosen_color(groups@.map_values(|g: TabGroupState| g@), ignored, forbidden@),
{
    let ghost gv = groups@.map_values(|g: TabGroupState| g@);
    let counts = count_colors(groups, ignored);
    let start = groups.len() % 8;
    let ghost st = start as int;
    assert(st == (gv.len() % 8) as int);
    let mut best: Option<usize> = None;
    for offset in 0..8usize
        invariant
            counts@.len() == 8,
            forall|c: int| 0 <= c < 8 ==> counts@[c] == color_uses(gv, ignored, c),
            st == start,
            0 <= st < 8,
            forbidden@.len() == 8,
            best matches Some(b) ==> b < 8 && !forbidden@[b as int] && rotation(st, b as int) < offset && forall|j: int|
                0 <= j < 8 && !forbidden@[j] && rotation(st, j) < offset ==> color_uses(gv, ignored, b as int)
                    < color_uses(gv, ignored, j) || (color_uses(gv, ignored, b as int) == color_uses(gv, ignored, j)
                    && rotation(st, b as int) <= rotation(st, j)),
            best is None ==> forall|j: int| 0 <= j < 8 && rotation(st, j) < offset ==> forbidden@[j],
    {
        let index = (start + offset) % 8;
        assert(rotation(st, index as int) == offset);
        if !forbidden[index] {
            let better = match best {
                None => true,
                Some(b) => counts[index] < counts[b],
            };
            if better {
                best = Some(index);
            }
        }
        proof {
            assert forall|j: int| 0 <= j < 8 && rotation(st, j) < offset + 1 implies rotation(st, j) < offset || j == index by {
                if rotation(st, j) == offset {
                    assert(j == index);
                }
            }
        }
    }
    match best {
        Some(b) => {
            proof {
                assert(is_best_color(gv, ignored, forbidden@, st, b as int)) by {
                    assert forall|j: int| 0 <= j < 8 && !forbidden@[j] implies rotation(st, j) < 8 by {}
                }
                let c = choose|i: int| #[trigger] is_best_color(gv, ignored, forbidden@, st, i);
                lemma_best_unique(gv, ignored, forbidden@, st, b as int, c);
                reveal(chosen_color);
            }
            TabGroupColor::at_palette_index(b)
        },
        None => {
            proof {
                assert forall|i: int| !#[trigger] is_best_color(gv, ignored, forbidden@, st, i) by {
                    if 0 <= i < 8 {
                        assert(rotation(st, i) < 8);
                    }
                }
                reveal(chosen_color);
            }
            TabGroupColor::Blue
        },
    }
}

/// The place of a colour in the palette.
pub open spec fn color_index(c: TabGroupColor) -> int {
    match c {
        TabGroupColor::Blue => 0,
        TabGroupColor::Red => 1,
        TabGroupColor::Yellow => 2,
        TabGroupColor::Green => 3,
        TabGroupColor::Pink => 4,
        TabGroupColor::Purple => 5,
        TabGroupColor::Cyan => 6,
        TabGroupColor::Orange => 7,
    }
}

/// The colour of the first group with this id.
#[verifier::opaque]
pub open spec fn group_color(groups: Seq<GroupView>, id: u64) -> Option<TabGroupColor> {
    if exists|k: int| 0 <= k < groups.len() && groups[k].id == id {
        Some(
            groups[choose|k: int|
                0 <= k < groups.len() && groups[k].id == id && forall|m: int| 0 <= m < k ==> (#[trigger] groups[m]).id != id].color,
        )
    } else {
        None
    }
}

/// The palette with the colour of a neighbouring group ruled out.
pub open spec fn forbid_neighbor(groups: Seq<GroupView>, neighbor: Option<u64>, ignored: Option<u64>, f: Seq<bool>) -> Seq<bool> {
    match neighbor {
        Some(id) => if Some(id) != ignored {
            match group_color(groups, id) {
                Some(c) => f.update(color_index(c), true),
                None => f,
            }
        } else {
            f
        },
        None => f,
    }
}

/// The colour for a group whose tabs are marked in `members`, given the
/// groups of all tab slots: the colours of the groups right before and right
/// after the marked span are ruled out (unless that group is `ignored`).
#[verifier::opaque]
pub open spec fn layout_color(groups: Seq<GroupView>, ids: Seq<Option<u64>>, members: Seq<bool>, ignored: Option<u64>) -> TabGroupColor {
    let none: Seq<bool> = seq![false, false, false, false, false, false, false, false];
    if exists|i: int| 0 <= i < members.len() && members[i] {
        let start = choose|i: int| 0 <= i < members.len() && members[i] && forall|m: int| 0 <= m < i ==> !(#[trigger] members[m]);
        let end = choose|i: int| 0 <= i < members.len() && members[i] && forall|m: int| i < m < members.len() ==> !(#[trigger] members[m]);
        let before = if start >= 1 && start - 1 < ids.len() {
            ids[start - 1]
        } else {
            None
        };
        let after = if end + 1 < ids.len() {
            ids[end + 1]
        } else {
            None
        };
        chosen_color(groups, ignored, forbid_neighbor(groups, after, ignored, forbid_neighbor(groups, before, ignored, none)))
    } else {
        chosen_color(groups, ignored, none)
    }
}

fn group_color_exec(groups: &Vec<TabGroupState>, id: u64) -> (r: Option<TabGroupColor>)
    ensures
        r == group_color(groups@.map_values(|g: TabGroupState| g@), id),
{
    let ghost gv = groups@.map_values(|g: TabGroupState| g@);
    reveal(group_color);
    for k in 0..groups.len()
        invariant
            gv == groups@.map_values(|g: TabGroupState| g@),
            forall|m: int| 0 <= m < k ==> (#[trigger] gv[m]).id != id,
    {
        assert(gv[k as int] == groups@[k as int]@);
        if groups[k].id() == id {
            proof {
                let c = choose|c: int| 0 <= c < gv.len() && gv[c].id == id && forall|m: int| 0 <= m < c ==> (#[trigger] gv[m]).id != id;
                assert(c == k as int);
                reveal(group_color);
            }
            return Some(groups[k].color());
        }
    }
    proof {
        reveal(group_color);
    }
    None
}

fn forbid_neighbor_exec(groups: &Vec<TabGroupState>, neighbor: Option<u64>, ignored: Option<u64>, f: &mut [bool; 8])
    ensures
        final(f)@ == forbid_neighbor(groups@.map_values(|g: TabGroupState| g@), neighbor, ignored, old(f)@),
{
    if let Some(id) = neighbor {
        if Some(id) != ignored {
            if let Some(c) = group_color_exec(groups, id) {
                let i = c.palette_index();
                assert(i as int == color_index(c));
                f.set(i, true);
            }
        }
    }
}

/// The colour for a group whose tabs are marked in `members` (see
/// `layout_color`).
pub fn tab_group_color_for_layout(
    groups: &Vec<TabGroupState>,
    group_ids: &[Option<u64>],
    new_members: &[bool],
    ignored_group: Option<u64>,
) -> (r: TabGroupColor)
    requires
        groups@.len() < u64::MAX,
    ensures
        r == layout_color(groups@.map_values(|g: TabGroupState| g@), group_ids@, new_members@, ignored_group),
{
    let ghost gv = groups@.map_values(|g: TabGroupState| g@);
    let ghost ms = new_members@;
    let mut start: Option<usize> = None;
    for i in 0..new_members.len()
        invariant
            ms == new_members@,
            start matches Some(s) ==> s < i && ms[s as int] && forall|m: int| 0 <= m < s ==> !(#[trigger] ms[m]),
            start is None ==> forall|m: int| 0 <= m < i ==> !(#[trigger] ms[m]),
    {
        if start.is_none() && new_members[i] {
            start = Some(i);
        }
    }
    let mut forbidden = [false; 8];
    assert(forbidden@ == seq![false, false, false, false, false, false, false, false]);
    let s = match start {
        Some(s) => s,
        None => {
            proof {
                assert(!exists|i: int| 0 <= i < ms.len() && ms[i]);
                reveal(layout_color);
            }
            return choose_tab_group_color(groups, ignored_group, &forbidden);
        },
    };
    let mut end = s;
    let mut i = new_members.len();
    while i > s + 1
        invariant_except_break
            end == s,
        invariant
            s < i <= ms.len(),
            ms == new_members@,
            ms[s as int],
            forall|m: int| i <= m < ms.len() ==> !(#[trigger] ms[m]),
        ensures
            end < ms.len(),
            ms[end as int],
            forall|m: int| end < m < ms.len() ==> !(#[trigger] ms[m]),
        decreases i,
    {
        if new_members[i - 1] {
            end = i - 1;
            break;
        }
        i = i - 1;
    }
    proof {
        assert(exists|q: int| 0 <= q < ms.len() && ms[q]);
        let cs = choose|q: int| 0 <= q < ms.len() && ms[q] && forall|m: int| 0 <= m < q ==> !(#[trigger] ms[m]);
        assert(cs == s as int);
        let ce = choose|q: int| 0 <= q < ms.len() && ms[q] && forall|m: int| q < m < ms.len() ==> !(#[trigger] ms[m]);
        assert(ce == end as int);
    }
    let before = if s >= 1 && s - 1 < group_ids.len() {
        group_ids[s - 1]
    } else {
        None
    };
    let after = if end + 1 < group_ids.len() {
        group_ids[end + 1]
    } else {
        None
    };
    forbid_neighbor_exec(groups, before, ignored_group, &mut forbidden);
    forbid_neighbor_exec(groups, after, ignored_group, &mut forbidden);
    proof {
        reveal(layout_color);
    }
    choose_tab_group_color(groups, ignored_group, &forbidden)
}

/// How many of the slots belong to group `g`.
pub open spec fn members_in(gs: Seq<Option<u64>>, g: u64) -> nat
    decreases gs.len(),
{
    if gs.len() == 0 {
        0
    } else {
        members_in(gs.drop_last(), g) + if gs.last() == Some(g) {
            1nat
        } else {
            0nat
        }
    }
}

/// The group a tab leaves empty when it starts a new group: its group when
/// it is that group's only tab.
pub open spec fn leaving_group(gs: Seq<Option<u64>>, index: int) -> Option<u64> {
    if 0 <= index < gs.len() {
        match gs[index] {
            Some(g) => if members_in(gs, g) == 1 {
                Some(g)
            } else {
                None
            },
            None => None,
        }
    } else {
        None
    }
}

/// The slots' groups and the marked slot of a new group made of the tab at
/// `index`: a grouped tab leaves its group and stands right after the
/// group's other tabs (or where it was); an ungrouped tab stays.
pub open spec fn new_group_layout(gs: Seq<Option<u64>>, index: int) -> (Seq<Option<u64>>, Seq<bool>) {
    let none = Seq::new(gs.len(), |q: int| false);
    if 0 <= index < gs.len() {
        match gs[index] {
            Some(g) => {
                let rest = gs.remove(index);
                let at = after_group(rest, g, if index < rest.len() { index } else { rest.len() as int });
                (rest.insert(at, None), none.remove(index).insert(at, true))
            },
            None => (gs, none.update(index, true)),
        }
    } else {
        (gs, none)
    }
}

fn groups_of_tabs(tabs: &Vec<TabState>) -> (ids: Vec<Option<u64>>)
    ensures
        ids@ == layout(tabs@.map_values(|t: TabState| t@)),
{
    let ghost gs = layout(tabs@.map_values(|t: TabState| t@));
    let mut ids: Vec<Option<u64>> = Vec::new();
    for i in 0..tabs.len()
        invariant
            gs == layout(tabs@.map_values(|t: TabState| t@)),
            gs.len() == tabs@.len(),
            ids@ == gs.take(i as int),
    {
        assert(gs[i as int] == tabs@[i as int]@.group_id);
        ids.push(tabs[i].group_id());
        assert(gs.take(i + 1) == gs.take(i as int).push(gs[i as int]));
    }
    assert(gs.take(tabs@.len() as int) == gs);
    ids
}

fn count_members(ids: &Vec<Option<u64>>, g: u64) -> (r: usize)
    ensures
        r == members_in(ids@, g),
{
    let mut count: usize = 0;
    for i in 0..ids.len()
        invariant
            count == members_in(ids@.take(i as int), g),
            count <= i,
    {
        assert(ids@.take(i + 1).drop_last() == ids@.take(i as int));
        if ids[i] == Some(g) {
            count = count + 1;
        }
    }
    assert(ids@.take(ids@.len() as int) == ids@);
    count
}

fn place_after_group(ids: &Vec<Option<u64>>, g: u64, fallback: usize) -> (r: usize)
    requires
        fallback <= ids@.len(),
    ensures
        r == after_group(ids@, g, fallback as int),
        r <= ids@.len(),
{
    let mut k = ids.len();
    while k > 0
        invariant
            k <= ids@.len(),
            forall|m: int| k <= m < ids@.len() ==> ids@[m] != Some(g),
        decreases k,
    {
        if ids[k - 1] == Some(g) {
            proof {
                let c = choose|c: int| 0 <= c < ids@.len() && ids@[c] == Some(g) && forall|m: int| c < m < ids@.len() ==> ids@[m] != Some(g);
                assert(c == k - 1);
            }
            return k;
        }
        k = k - 1;
    }
    fallback
}

/// The colour for a new group made of the tab at `tab_index`: the colours
/// of the neighbouring groups where the tab will stand are ruled out (see
/// `new_group_layout`); a group the tab leaves empty does not count.
pub fn color_for_new_group_at_tab(strip: &TabStrip, tab_index: usize) -> (r: TabGroupColor)
    requires
        strip@.groups.len() < u64::MAX,
    ensures
        r == layout_color(
            strip@.groups,
            new_group_layout(layout(strip@.tabs), tab_index as int).0,
            new_group_layout(layout(strip@.tabs), tab_index as int).1,
            leaving_group(layout(strip@.tabs), tab_index as int),
        ),
{
    let tabs = strip.tabs();
    let mut ids = groups_of_tabs(tabs);
    let ghost gs = ids@;
    let n = ids.len();
    let mut members: Vec<bool> = Vec::new();
    for i in 0..n
        invariant
            members@ == Seq::new(i as nat, |q: int| false),
    {
        members.push(false);
        assert(members@ =~= Seq::new((i + 1) as nat, |q: int| false));
    }
    let old_group = if tab_index < n {
        ids[tab_index]
    } else {
        None
    };
    let disappearing = match old_group {
        Some(og) => if count_members(&ids, og) == 1 {
            Some(og)
        } else {
            None
        },
        None => None,
    };
    match old_group {
        Some(og) => {
            ids.remove(tab_index);
            members.remove(tab_index);
            let fallback = if tab_index < ids.len() {
                tab_index
            } else {
                ids.len()
            };
            let at = place_after_group(&ids, og, fallback);
            ids.insert(at, None);
            members.insert(at, true);
        },
        None => {
            if tab_index < n {
                members.set(tab_index, true);
            }
        },
    }
    proof {
        assert(ids@ == new_group_layout(gs, tab_index as int).0);
        assert(members@ =~= new_group_layout(gs, tab_index as int).1);
    }
    tab_group_color_for_layout(strip.groups(), ids.as_slice(), members.as_slice(), disappearing)
}

/// The slots' groups and marked slots of a new group made by dragging the
/// ungrouped tab at `source` onto the ungrouped tab at `target`: the
/// dragged tab stands next to the target, on the side it came from.
pub open spec fn drag_layout(gs: Seq<Option<u64>>, source: int, target: int) -> (Seq<Option<u64>>, Seq<bool>) {
    let none = Seq::new(gs.len(), |q: int| false);
    let ids = gs.remove(source);
    let members = none.remove(source);
    let target_after = if source < target {
        target - 1
    } else {
        target
    };
    let at = if source < target {
        target_after
    } else {
        target_after + 1
    };
    (ids.insert(at, None), members.update(target_after, true).insert(at, true))
}

/// The colour a group made by dragging one tab onto another would get:
/// the neighbours of the pair are ruled out; when either tab is missing,
/// grouped, or both are the same tab, no colour is ruled out.
pub fn tab_group_color_for_drag(strip: &TabStrip, source_tab_id: u64, target_tab_id: u64) -> (r: TabGroupColor)
    requires
        strip_wf(strip@),
        strip@.groups.len() < u64::MAX,
    ensures
        ({
            let none: Seq<bool> = seq![false, false, false, false, false, false, false, false];
            match (tab_index(strip@.tabs, source_tab_id), tab_index(strip@.tabs, target_tab_id)) {
                (Some(s), Some(t)) => if s == t || strip@.tabs[s].group_id is Some || strip@.tabs[t].group_id is Some {
                    r == chosen_color(strip@.groups, None, none)
                } else {
                    r == layout_color(
                        strip@.groups,
                        drag_layout(layout(strip@.tabs), s, t).0,
                        drag_layout(layout(strip@.tabs), s, t).1,
                        None,
                    )
                },
                _ => r == chosen_color(strip@.groups, None, none),
            }
        }),
{
    let tabs = strip.tabs();
    let ghost tv = strip@.tabs;
    proof {
        lemma_wf_basics(strip@);
        assert forall|i: int, j: int| 0 <= i < j < tabs@.len() implies (#[trigger] tabs@[i]@).id != (#[trigger] tabs@[j]@).id by {
            assert(tv[i] == tabs@[i]@ && tv[j] == tabs@[j]@);
        }
    }
    let none = [false; 8];
    assert(none@ == seq![false, false, false, false, false, false, false, false]);
    let s = match position_of_tab(tabs, source_tab_id) {
        Some(s) => s,
        None => return choose_tab_group_color(strip.groups(), None, &none),
    };
    let t = match position_of_tab(tabs, target_tab_id) {
        Some(t) => t,
        None => return choose_tab_group_color(strip.groups(), None, &none),
    };
    assert(tv[s as int] == tabs@[s as int]@ && tv[t as int] == tabs@[t as int]@);
    if s == t || tabs[s].group_id().is_some() || tabs[t].group_id().is_some() {
        return choose_tab_group_color(strip.groups(), None, &none);
    }
    let mut ids = groups_of_tabs(tabs);
    let ghost gs = ids@;
    let n = ids.len();
    let mut members: Vec<bool> = Vec::new();
    for i in 0..n
        invariant
            members@ == Seq::new(i as nat, |q: int| false),
    {
        members.push(false);
        assert(members@ =~= Seq::new((i + 1) as nat, |q: int| false));
    }
    ids.remove(s);
    members.remove(s);
    let target_after = if s < t {
        t - 1
    } else {
        t
    };
    members.set(target_after, true);
    let at = if s < t {
        target_after
    } else {
        target_after + 1
    };
    ids.insert(at, None);
    members.insert(at, true);
    proof {
        assert(ids@ == drag_layout(gs, s as int, t as int).0);
        assert(members@ =~= drag_layout(gs, s as int, t as int).1);
    }
    tab_group_color_for_layout(strip.groups(), ids.as_slice(), members.as_slice(), None)
}

/// The index of the tab with this id.
fn position_of_tab(tabs: &Vec<TabState>, id: u64) -> (r: Option<usize>)
    requires
        forall|i: int, j: int|
            0 <= i < j < tabs@.len() ==> (#[trigger] tabs@[i]@).id != (#[trigger] tabs@[j]@).id,
    ensures
        r matches Some(i) ==> i < tabs@.len() && tab_index(tabs@.map_values(|t: TabState| t@), id) == Some(i as int),
        r is None ==> tab_index(tabs@.map_values(|t: TabState| t@), id) is None,
{
    let ghost tv = tabs@.map_values(|t: TabState| t@);
    for i in 0..tabs.len()
        invariant
            tv == tabs@.map_values(|t: TabState| t@),
            forall|k: int| 0 <= k < i ==> tv[k].id != id,
            forall|a: int, b: int|
                0 <= a < b < tabs@.len() ==> (#[trigger] tabs@[a]@).id != (#[trigger] tabs@[b]@).id,
    {
        assert(tv[i as int] == tabs@[i as int]@);
        if tabs[i].id() == id {
            proof {
                assert forall|a: int, b: int| 0 <= a < b < tv.len() implies (#[trigger] tv[a]).id != (#[trigger] tv[b]).id by {
                    assert(tv[a] == tabs@[a]@ && tv[b] == tabs@[b]@);
                }
                lemma_tab_index(tv, id, i as int);
            }
            return Some(i);
        }
    }
    None
}

} // verus!
