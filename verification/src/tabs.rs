use vstd::prelude::*;
use crate::archive::{archive_title_of, parse_virtual_path, parse_virtual_spec};
use crate::commands::{LocalFileCommand, LocalFileEvent};
use crate::entries::{
    lowercase, lowercase_chars, display_path, display_path_of, display_path_panics, sort_entries, sorted_entries, EntryKind, FileEntry,
    SortDirection, SortField,
};
use crate::paths::{
    components, file_name, join_path, joined, parent, path_components, path_file_name, path_parent,
};
use crate::taildrive::{
    lemma_parsed_ids_nonempty, lemma_taildrive_path_round_trip, parse_taildrive_path, parse_taildrive_spec,
    taildrive_parse_panics, taildrive_path, taildrive_path_of, LocationView, TaildriveLocation,
};
use crate::tailnets::{is_of_removed_profile, keep_paths_of_profiles, of_removed_profile, paths_kept};
use crate::names::{keyboard_rename_suffix_for, rename_suffix_of, single_line_input, single_line_of};
use crate::text::{
    chars_of, concat_texts, contains_text, decimal_chars, decimal_of, has_infix, keep_nonempty, same_chars,
    same_text, segments, split_chars, string_from_chars, trim, trim_chars,
};

verus! {

/// The colour of a tab group.
#[derive(Debug, Clone, Copy, PartialEq, Eq, Structural)]
pub enum TabGroupColor {
    Blue,
    Red,
    Yellow,
    Green,
    Pink,
    Purple,
    Cyan,
    Orange,
}

impl Default for TabGroupColor {
    fn default() -> (r: Self)
        ensures
            r == TabGroupColor::Blue,
    {
        TabGroupColor::Blue
    }
}

/// The palette in order.
pub open spec fn palette() -> Seq<TabGroupColor> {
    seq![
        TabGroupColor::Blue,
        TabGroupColor::Red,
        TabGroupColor::Yellow,
        TabGroupColor::Green,
        TabGroupColor::Pink,
        TabGroupColor::Purple,
        TabGroupColor::Cyan,
        TabGroupColor::Orange,
    ]
}

impl TabGroupColor {
    /// The colour's name.
    pub open spec fn label_of(self) -> Seq<char> {
        match self {
            TabGroupColor::Blue => "Blue"@,
            TabGroupColor::Red => "Red"@,
            TabGroupColor::Yellow => "Yellow"@,
            TabGroupColor::Green => "Green"@,
            TabGroupColor::Pink => "Pink"@,
            TabGroupColor::Purple => "Purple"@,
            TabGroupColor::Cyan => "Cyan"@,
            TabGroupColor::Orange => "Orange"@,
        }
    }

    /// The colour's name.
    pub fn label(self) -> (r: &'static str)
        ensures
            r@ == self.label_of(),
    {
        match self {
            TabGroupColor::Blue => "Blue",
            TabGroupColor::Red => "Red",
            TabGroupColor::Yellow => "Yellow",
            TabGroupColor::Green => "Green",
            TabGroupColor::Pink => "Pink",
            TabGroupColor::Purple => "Purple",
            TabGroupColor::Cyan => "Cyan",
            TabGroupColor::Orange => "Orange",
        }
    }

    /// The colour's place in the palette.
    pub fn palette_index(self) -> (r: usize)
        ensures
            r < 8,
            palette()[r as int] == self,
    {
        match self {
            TabGroupColor::Blue => 0,
            TabGroupColor::Red => 1,
            TabGroupColor::Yellow => 2,
            TabGroupColor::Green => 3,
            TabGroupColor::Pink => 4,
            TabGroupColor::Purple => 5,
            TabGroupColor::Cyan => 6,
            TabGroupColor::Orange => 7,
        }
    }

    /// The colour at a place of the palette.
    pub fn at_palette_index(index: usize) -> (r: TabGroupColor)
        requires
            index < 8,
        ensures
            r == palette()[index as int],
    {
        if index == 0 {
            TabGroupColor::Blue
        } else if index == 1 {
            TabGroupColor::Red
        } else if index == 2 {
            TabGroupColor::Yellow
        } else if index == 3 {
            TabGroupColor::Green
        } else if index == 4 {
            TabGroupColor::Pink
        } else if index == 5 {
            TabGroupColor::Purple
        } else if index == 6 {
            TabGroupColor::Cyan
        } else {
            TabGroupColor::Orange
        }
    }
}

/// A named, coloured group of tabs that can be collapsed.
#[derive(Debug, Clone)]
pub struct TabGroupState {
    id: u64,
    name: String,
    color: TabGroupColor,
    collapsed: bool,
}

/// The mathematical content of a [`TabGroupState`].
pub struct GroupView {
    pub id: u64,
    pub name: Seq<char>,
    pub color: TabGroupColor,
    pub collapsed: bool,
}

impl View for TabGroupState {
    type V = GroupView;

    closed spec fn view(&self) -> GroupView {
        GroupView { id: self.id, name: self.name@, color: self.color, collapsed: self.collapsed }
    }
}

impl TabGroupState {
    /// A group with the given id, name and colour.
    pub fn new(id: u64, name: String, color: TabGroupColor, collapsed: bool) -> (r: Self)
        ensures
            r@ == (GroupView { id, name: name@, color, collapsed }),
    {
        TabGroupState { id, name, color, collapsed }
    }

    /// The group's id.
    pub fn id(&self) -> (r: u64)
        ensures
            r == self@.id,
    {
        self.id
    }

    /// The group's name.
    pub fn name(&self) -> (r: &str)
        ensures
            r@ == self@.name,
    {
        self.name.as_str()
    }

    /// The group's colour.
    pub fn color(&self) -> (r: TabGroupColor)
        ensures
            r == self@.color,
    {
        self.color
    }

    /// Whether the group is collapsed.
    pub fn collapsed(&self) -> (r: bool)
        ensures
            r == self@.collapsed,
    {
        self.collapsed
    }

    /// Renames the group.
    pub(crate) fn set_name(&mut self, name: String)
        ensures
            final(self)@ == (GroupView { name: name@, ..old(self)@ }),
    {
        self.name = name;
    }

    /// Recolours the group.
    pub(crate) fn set_color(&mut self, color: TabGroupColor)
        ensures
            final(self)@ == (GroupView { color, ..old(self)@ }),
    {
        self.color = color;
    }

    /// Collapses or expands the group.
    pub(crate) fn set_collapsed(&mut self, collapsed: bool)
        ensures
            final(self)@ == (GroupView { collapsed, ..old(self)@ }),
    {
        self.collapsed = collapsed;
    }
}

/// Whether two paths name the same place: they have the same components
/// (`Path`'s `==`).
pub open spec fn same_path(a: Seq<char>, b: Seq<char>) -> bool {
    path_components(a) == path_components(b)
}

/// Decides whether two paths have the same components.
pub fn same_path_exec(a: &str, b: &str) -> (r: bool)
    ensures
        r == same_path(a@, b@),
{
    let ca = components(a);
    let cb = components(b);
    let ghost va = ca@.map_values(|p: Vec<char>| p@);
    let ghost vb = cb@.map_values(|p: Vec<char>| p@);
    assert(va.len() == ca@.len() && vb.len() == cb@.len());
    if ca.len() != cb.len() {
        return false;
    }
    for i in 0..ca.len()
        invariant
            ca@.len() == cb@.len(),
            va == ca@.map_values(|p: Vec<char>| p@),
            vb == cb@.map_values(|p: Vec<char>| p@),
            va == path_components(a@),
            vb == path_components(b@),
            forall|k: int| 0 <= k < i ==> va[k] == vb[k],
    {
        assert(va[i as int] == ca@[i as int]@ && vb[i as int] == cb@[i as int]@);
        if !crate::text::same_chars(ca[i].as_slice(), cb[i].as_slice()) {
            assert(va[i as int] != vb[i as int]);
            return false;
        }
    }
    assert(va =~= vb);
    true
}

/// The texts of a list of paths.
pub open spec fn texts(v: Seq<String>) -> Seq<Seq<char>> {
    v.map_values(|p: String| p@)
}

/// What a tab keeps across sessions.
#[derive(Debug, Clone)]
pub struct SavedTab {
    pub group_id: Option<u64>,
    pub current_dir: String,
    pub show_hidden: bool,
    pub sort_field: SortField,
    pub sort_direction: SortDirection,
    pub back_stack: Vec<String>,
    pub forward_stack: Vec<String>,
}

/// The browsing state of one tab: where it is, what it lists, how it sorts,
/// what is selected or being renamed, and its back and forward history.
#[derive(Debug, Clone)]
pub struct TabState {
    id: u64,
    group_id: Option<u64>,
    scroll_generation: u64,
    pub current_dir: String,
    pub address_input: String,
    pub entries: Vec<FileEntry>,
    pub status: String,
    pub show_hidden: bool,
    pub sort_field: SortField,
    pub sort_direction: SortDirection,
    pub search_input: String,
    pub search_active: bool,
    pub search_field_expanded: bool,
    pub selected_path: Option<String>,
    pub rename_input: Option<String>,
    rename_replace_on_type: bool,
    rename_keyboard_suffix: Option<String>,
    pending_remote_folder: Option<String>,
    pending_remote_delete: Option<String>,
    typeahead_buffer: String,
    last_click: Option<(String, u64)>,
    last_typeahead: Option<u64>,
    back_stack: Vec<String>,
    forward_stack: Vec<String>,
    restore_validation_pending: bool,
    restore_warning: Option<String>,
}

/// Where a tab is and the two stacks of its history.
pub struct History {
    pub current: Seq<char>,
    pub back: Seq<Seq<char>>,
    pub forward: Seq<Seq<char>>,
}

/// The mathematical content of a [`TabState`].
pub struct TabView {
    pub id: u64,
    pub group_id: Option<u64>,
    pub generation: u64,
    pub current: Seq<char>,
    pub address: Seq<char>,
    pub entries: Seq<FileEntry>,
    pub status: Seq<char>,
    pub show_hidden: bool,
    pub sort_field: SortField,
    pub sort_direction: SortDirection,
    pub search_input: Seq<char>,
    pub search_active: bool,
    pub search_field_expanded: bool,
    pub selected: Option<Seq<char>>,
    pub rename_input: Option<Seq<char>>,
    pub rename_replace_on_type: bool,
    pub rename_keyboard_suffix: Option<Seq<char>>,
    pub pending_remote_folder: Option<Seq<char>>,
    pub pending_remote_delete: Option<Seq<char>>,
    pub typeahead: Seq<char>,
    pub last_click: Option<(Seq<char>, u64)>,
    pub last_typeahead: Option<u64>,
    pub back: Seq<Seq<char>>,
    pub forward: Seq<Seq<char>>,
    pub restore_validation_pending: bool,
    pub restore_warning: Option<Seq<char>>,
}

/// The text of an optional string.
pub open spec fn opt_text(o: Option<String>) -> Option<Seq<char>> {
    match o {
        Some(s) => Some(s@),
        None => None,
    }
}

/// The text and time of a remembered click.
pub open spec fn opt_click(o: Option<(String, u64)>) -> Option<(Seq<char>, u64)> {
    match o {
        Some((p, t)) => Some((p@, t)),
        None => None,
    }
}

impl TabView {
    /// Where the tab is and the two stacks of its history.
    pub open spec fn history(self) -> History {
        History { current: self.current, back: self.back, forward: self.forward }
    }

    /// Whether every place in the tab's history can be shown.
    pub open spec fn showable(self) -> bool {
        &&& !taildrive_parse_panics(self.current)
        &&& paths_showable(self.back)
        &&& paths_showable(self.forward)
    }
}

impl View for TabState {
    type V = TabView;

    closed spec fn view(&self) -> TabView {
        TabView {
            id: self.id,
            group_id: self.group_id,
            generation: self.scroll_generation,
            current: self.current_dir@,
            address: self.address_input@,
            entries: self.entries@,
            status: self.status@,
            show_hidden: self.show_hidden,
            sort_field: self.sort_field,
            sort_direction: self.sort_direction,
            search_input: self.search_input@,
            search_active: self.search_active,
            search_field_expanded: self.search_field_expanded,
            selected: opt_text(self.selected_path),
            rename_input: opt_text(self.rename_input),
            rename_replace_on_type: self.rename_replace_on_type,
            rename_keyboard_suffix: opt_text(self.rename_keyboard_suffix),
            pending_remote_folder: opt_text(self.pending_remote_folder),
            pending_remote_delete: opt_text(self.pending_remote_delete),
            typeahead: self.typeahead_buffer@,
            last_click: opt_click(self.last_click),
            last_typeahead: self.last_typeahead,
            back: texts(self.back_stack@),
            forward: texts(self.forward_stack@),
            restore_validation_pending: self.restore_validation_pending,
            restore_warning: opt_text(self.restore_warning),
        }
    }
}

/// The history after opening another folder: the current one goes on the
/// back stack and the forward stack is dropped.
pub open spec fn history_after_open(h: History, path: Seq<char>) -> History {
    History { current: path, back: h.back.push(h.current), forward: Seq::empty() }
}

/// The history after going back: the last place on the back stack becomes
/// current and the current one goes on the forward stack.
pub open spec fn history_after_back(h: History) -> History {
    if h.back.len() == 0 {
        h
    } else {
        History { current: h.back.last(), back: h.back.drop_last(), forward: h.forward.push(h.current) }
    }
}

/// The history after going forward: the mirror image of going back.
pub open spec fn history_after_forward(h: History) -> History {
    if h.forward.len() == 0 {
        h
    } else {
        History { current: h.forward.last(), back: h.back.push(h.current), forward: h.forward.drop_last() }
    }
}

/// Whether every place the tab can reach can be shown without stopping.
pub open spec fn paths_showable(s: Seq<Seq<char>>) -> bool {
    forall|i: int| 0 <= i < s.len() ==> !taildrive_parse_panics(#[trigger] s[i])
}

/// The title of a place: the TailDrive root, profile, device or last
/// folder of a remote path (else its share); the title of an archive
/// location; `Home` for the home folder; `/` for a path without a parent;
/// else its file name, or the whole path shown.
pub open spec fn tab_title_of(dir: Seq<char>, home: Option<Seq<char>>) -> Seq<char> {
    match parse_taildrive_spec(dir) {
        Some(LocationView::Root) => "TailDrive"@,
        Some(LocationView::Profile(p)) => p,
        Some(LocationView::Device(_, d)) => d,
        Some(LocationView::Remote(_, _, share, rp)) => {
            let segs = segments(rp, '/');
            if segs.len() > 0 {
                segs.last()
            } else {
                share
            }
        },
        None => match parse_virtual_spec(dir) {
            Some(l) => archive_title_of(l),
            None => if home matches Some(h) && same_path(h, dir) {
                "Home"@
            } else if path_parent(dir) is None {
                "/"@
            } else {
                match path_file_name(dir) {
                    Some(f) => f,
                    None => display_path_of(dir),
                }
            },
        },
    }
}

/// The name of the first listed entry at a path.
pub open spec fn entry_name_at(entries: Seq<FileEntry>, path: Seq<char>) -> Option<Seq<char>>
    decreases entries.len(),
{
    if entries.len() == 0 {
        None
    } else if same_path(entries[0].path@, path) {
        Some(entries[0].name@)
    } else {
        entry_name_at(entries.skip(1), path)
    }
}

/// The next value of a counter that wraps around.
pub open spec fn next_generation(g: u64) -> u64 {
    if g == u64::MAX {
        0
    } else {
        (g + 1) as u64
    }
}

/// The tab after moving to another folder: what belonged to the old
/// folder is reset, and a TailDrive folder starts with an empty listing.
pub open spec fn moved_to(v: TabView, path: Seq<char>) -> TabView {
    let local = parse_taildrive_spec(path) is None;
    TabView {
        current: path,
        generation: next_generation(v.generation),
        address: display_path_of(path),
        restore_validation_pending: false,
        restore_warning: None,
        search_input: Seq::empty(),
        search_active: false,
        selected: None,
        rename_input: None,
        rename_replace_on_type: false,
        rename_keyboard_suffix: None,
        pending_remote_folder: None,
        pending_remote_delete: None,
        typeahead: Seq::empty(),
        last_click: None,
        last_typeahead: None,
        entries: if local {
            v.entries
        } else {
            Seq::empty()
        },
        status: if local {
            v.status
        } else {
            "Loading TailDrive…"@
        },
        ..v
    }
}

/// The tab after asking to open `path`: a path that is not a folder is
/// refused with a status message, the current folder stays as it is, and
/// any other folder is opened with the current one kept for going back.
pub open spec fn navigated(v: TabView, path: Seq<char>, is_dir: bool) -> TabView {
    if !is_dir {
        TabView {
            status: "Not a directory: "@ + display_path_of(path),
            address: display_path_of(v.current),
            ..v
        }
    } else if same_path(path, v.current) {
        v
    } else {
        moved_to(TabView { back: v.back.push(v.current), forward: Seq::empty(), ..v }, path)
    }
}

/// Whether asking to open `path` leaves a folder whose listing must be read.
pub open spec fn navigation_reloads(v: TabView, path: Seq<char>, is_dir: bool) -> bool {
    is_dir && (same_path(path, v.current) || parse_taildrive_spec(path) is None)
}

/// The tab after selecting the entry at `path`: the status names the
/// listed entry, else the path's file name, else the path shown; choosing
/// another entry drops a pending TailDrive delete.
pub open spec fn selected_at(v: TabView, path: Seq<char>) -> TabView {
    TabView {
        selected: Some(path),
        status: "Selected: "@ + match entry_name_at(v.entries, path) {
            Some(n) => n,
            None => match path_file_name(path) {
                Some(f) => f,
                None => display_path_of(path),
            },
        },
        pending_remote_delete: if v.selected matches Some(p) && same_path(p, path) {
            v.pending_remote_delete
        } else {
            None
        },
        ..v
    }
}

/// The optional text of an optional string slice.
pub open spec fn opt_str(o: Option<&str>) -> Option<Seq<char>> {
    match o {
        Some(s) => Some(s@),
        None => None,
    }
}

/// Where a typed address leads: `~` is the home folder, `~/` (or `~\\`)
/// starts under it, and anything else is taken from the current folder,
/// an absolute path standing for itself. Without a home folder, `~` stays
/// where the tab is and `~/...` is looked up under the current folder.
pub open spec fn address_target_of(current: Seq<char>, value: Seq<char>, home: Option<Seq<char>>) -> Seq<char> {
    let raw = trim(value);
    if raw == seq!['~'] {
        match home {
            Some(h) => h,
            None => current,
        }
    } else if raw.len() >= 2 && raw[0] == '~' && (raw[1] == '/' || raw[1] == '\\') {
        match home {
            Some(h) => joined(h, raw.skip(2)),
            None => joined(current, raw),
        }
    } else {
        joined(current, raw)
    }
}

/// What has to happen after an entry was clicked or opened.
#[derive(Debug, Clone, Copy, PartialEq, Eq, Structural)]
pub enum EntryActivation {
    /// The entry was only selected.
    Selected,
    /// The tab moved, or refused to move, and needs no new listing.
    Stayed,
    /// The tab shows a folder whose listing must be read.
    ReadListing,
    /// The file must be opened with the system's application; the outcome
    /// goes to [`TabState::finish_open`].
    OpenWithSystem,
}

/// Whether a click on `path` at `now` (in milliseconds) follows the last
/// click on the same entry closely enough to open it: within half a
/// second, a clock that went backwards counting as no time at all.
pub open spec fn is_double_click(last: Option<(Seq<char>, u64)>, path: Seq<char>, now: u64) -> bool {
    match last {
        Some((p, t)) => same_path(p, path) && (now < t || now - t <= 500),
        None => false,
    }
}

/// The outcome of opening an entry: a folder is navigated to, a file is
/// selected and handed to the system.
pub open spec fn activation_of(v: TabView, path: Seq<char>, is_dir: bool) -> (TabView, EntryActivation) {
    if is_dir {
        (
            navigated(v, path, true),
            if navigation_reloads(v, path, true) {
                EntryActivation::ReadListing
            } else {
                EntryActivation::Stayed
            },
        )
    } else {
        (selected_at(v, path), EntryActivation::OpenWithSystem)
    }
}

/// The bytes a character takes in UTF-8.
pub open spec fn utf8_width(c: char) -> int {
    if (c as u32) < 0x80 {
        1
    } else if (c as u32) < 0x800 {
        2
    } else if (c as u32) < 0x10000 {
        3
    } else {
        4
    }
}

/// The bytes a text takes in UTF-8 (`str::len`).
pub open spec fn utf8_len(s: Seq<char>) -> int
    decreases s.len(),
{
    if s.len() == 0 {
        0
    } else {
        utf8_width(s[0]) + utf8_len(s.drop_first())
    }
}

/// How many characters the first `b` bytes of a text hold, when `b` falls
/// between two characters.
pub open spec fn char_boundary(s: Seq<char>, b: int) -> Option<int>
    decreases s.len(),
{
    if b == 0 {
        Some(0)
    } else if b < 0 || s.len() == 0 {
        None
    } else {
        match char_boundary(s.drop_first(), b - utf8_width(s[0])) {
            Some(p) => Some(p + 1),
            None => None,
        }
    }
}

/// Where typing goes in a rename that keeps a suffix: before the suffix,
/// counted in bytes from the end of the text (at 0 when the suffix is
/// longer).
pub open spec fn edit_point(input: Seq<char>, suffix: Seq<char>) -> Option<int> {
    let b = utf8_len(input) - utf8_len(suffix);
    char_boundary(input, if b < 0 { 0 } else { b })
}

/// Whether typing into or erasing from the rename text works on
/// characters: with a kept suffix and nothing to replace, the text minus
/// the suffix's bytes must end between two characters.
pub open spec fn rename_editable(v: TabView) -> bool {
    match (v.rename_input, v.rename_keyboard_suffix) {
        (Some(input), Some(suffix)) => v.rename_replace_on_type || suffix.len() == 0 || edit_point(input, suffix) is Some,
        _ => true,
    }
}

/// The listing without the entries at this path.
pub open spec fn without_path(entries: Seq<FileEntry>, path: Seq<char>) -> Seq<FileEntry> {
    entries.filter(|e: FileEntry| !same_path(e.path@, path))
}

/// The first listed entry at a path.
pub open spec fn entry_at(entries: Seq<FileEntry>, path: Seq<char>) -> Option<FileEntry>
    decreases entries.len(),
{
    if entries.len() == 0 {
        None
    } else if same_path(entries[0].path@, path) {
        Some(entries[0])
    } else {
        entry_at(entries.skip(1), path)
    }
}

/// The first listed TailDrive entry at a path.
pub open spec fn remote_entry_at(entries: Seq<FileEntry>, path: Seq<char>) -> Option<FileEntry>
    decreases entries.len(),
{
    if entries.len() == 0 {
        None
    } else if same_path(entries[0].path@, path) && entries[0].remote is Some {
        Some(entries[0])
    } else {
        remote_entry_at(entries.skip(1), path)
    }
}

/// The entry a rename starts from: the selected entry, found as the first
/// listed one at its path (a TailDrive entry first, outside archives).
pub open spec fn rename_source(v: TabView) -> Option<FileEntry> {
    match v.selected {
        None => None,
        Some(path) => if parse_virtual_spec(path) is Some {
            entry_at(v.entries, path)
        } else {
            match remote_entry_at(v.entries, path) {
                Some(e) => Some(e),
                None => entry_at(v.entries, path),
            }
        },
    }
}

/// Whether a rename keeps its suffix at the end of the text (or is still
/// to replace the whole name).
pub open spec fn rename_keeps_suffix(v: TabView) -> bool {
    match (v.rename_input, v.rename_keyboard_suffix) {
        (Some(input), Some(suffix)) => v.rename_replace_on_type || (input.len() >= suffix.len() && input.skip(
            input.len() - suffix.len(),
        ) == suffix),
        _ => true,
    }
}

proof fn lemma_utf8_len_add(a: Seq<char>, b: Seq<char>)
    ensures
        utf8_len(a + b) == utf8_len(a) + utf8_len(b),
    decreases a.len(),
{
    if a.len() > 0 {
        assert((a + b).drop_first() =~= a.drop_first() + b);
        lemma_utf8_len_add(a.drop_first(), b);
    } else {
        assert(a + b =~= b);
    }
}

proof fn lemma_utf8_len_nonneg(a: Seq<char>)
    ensures
        utf8_len(a) >= 0,
    decreases a.len(),
{
    if a.len() > 0 {
        lemma_utf8_len_nonneg(a.drop_first());
    }
}

proof fn lemma_boundary_at_prefix(s: Seq<char>, p: int)
    requires
        0 <= p <= s.len(),
    ensures
        char_boundary(s, utf8_len(s.take(p))) == Some(p),
    decreases s.len(),
{
    if p == 0 {
        assert(s.take(0).len() == 0);
    } else {
        let t = s.drop_first();
        assert(s.take(p).drop_first() =~= t.take(p - 1));
        assert(s.take(p)[0] == s[0]);
        lemma_utf8_len_nonneg(t.take(p - 1));
        lemma_boundary_at_prefix(t, p - 1);
    }
}

/// With the text ending in the suffix, typing goes right before it.
proof fn lemma_edit_point_of_suffix(pre: Seq<char>, suffix: Seq<char>)
    ensures
        edit_point(pre + suffix, suffix) == Some(pre.len() as int),
{
    let input = pre + suffix;
    lemma_utf8_len_add(pre, suffix);
    lemma_utf8_len_nonneg(pre);
    assert(input.take(pre.len() as int) =~= pre);
    lemma_boundary_at_prefix(input, pre.len() as int);
}

/// A rename that keeps its suffix at the end can always be edited.
pub proof fn lemma_suffix_keeps_editable(v: TabView)
    requires
        rename_keeps_suffix(v),
    ensures
        rename_editable(v),
{
    if let (Some(input), Some(suffix)) = (v.rename_input, v.rename_keyboard_suffix) {
        if !v.rename_replace_on_type {
            let pre = input.take(input.len() - suffix.len());
            assert(input =~= pre + suffix);
            lemma_edit_point_of_suffix(pre, suffix);
        }
    }
}

fn char_width(c: char) -> (r: u128)
    ensures
        r == utf8_width(c),
{
    let n = c as u32;
    if n < 0x80 {
        1
    } else if n < 0x800 {
        2
    } else if n < 0x10000 {
        3
    } else {
        4
    }
}

fn utf8_len_exec(s: &[char]) -> (r: u128)
    ensures
        r == utf8_len(s@),
{
    let mut total: u128 = 0;
    for i in 0..s.len()
        invariant
            total == utf8_len(s@.take(i as int)),
            total <= 4 * i,
    {
        proof {
            let one = seq![s@[i as int]];
            assert(one.drop_first() =~= Seq::<char>::empty());
            assert(utf8_len(Seq::<char>::empty()) == 0);
            assert(one[0] == s@[i as int]);
            assert(utf8_len(one) == utf8_width(s@[i as int]));
            assert(s@.take(i + 1) =~= s@.take(i as int) + one);
            lemma_utf8_len_add(s@.take(i as int), one);
        }
        total = total + char_width(s[i]);
    }
    assert(s@.take(s@.len() as int) =~= s@);
    total
}

/// The character index where typing goes before a kept suffix.
fn edit_point_exec(input: &[char], suffix: &[char]) -> (r: usize)
    requires
        edit_point(input@, suffix@) is Some,
    ensures
        r as int == edit_point(input@, suffix@).unwrap(),
        r <= input@.len(),
{
    let li = utf8_len_exec(input);
    let ls = utf8_len_exec(suffix);
    let b: u128 = if li >= ls {
        li - ls
    } else {
        0
    };
    let mut rem = b;
    let mut k: usize = 0;
    assert(input@.skip(0) =~= input@);
    while rem > 0
        invariant
            k <= input@.len(),
            char_boundary(input@.skip(k as int), rem as int) is Some,
            char_boundary(input@, b as int) == Some(k + char_boundary(input@.skip(k as int), rem as int).unwrap()),
        decreases input@.len() - k,
    {
        let ghost t = input@.skip(k as int);
        assert(t.len() > 0);
        assert(t[0] == input@[k as int]);
        let w = char_width(input[k]);
        assert(t.drop_first() =~= input@.skip(k + 1));
        assert(char_boundary(t.drop_first(), rem - w) is Some);
        if rem < w {
            assert(char_boundary(t.drop_first(), rem - w) is None);
        }
        rem = rem - w;
        k = k + 1;
    }
    k
}

proof fn lemma_insert_keeps_suffix(input: Seq<char>, suffix: Seq<char>, text: Seq<char>)
    requires
        input.len() >= suffix.len(),
        input.skip(input.len() - suffix.len()) == suffix,
    ensures
        edit_point(input, suffix) == Some(input.len() - suffix.len()),
        ({
            let p = input.len() - suffix.len();
            let out = input.take(p) + text + input.skip(p);
            out.len() >= suffix.len() && out.skip(out.len() - suffix.len()) == suffix
        }),
{
    let p = input.len() - suffix.len();
    let pre = input.take(p);
    assert(input =~= pre + suffix);
    lemma_edit_point_of_suffix(pre, suffix);
    let out = pre + text + input.skip(p);
    assert(out.skip(out.len() - suffix.len()) =~= suffix);
}

proof fn lemma_erase_keeps_suffix(input: Seq<char>, suffix: Seq<char>)
    requires
        input.len() >= suffix.len(),
        input.skip(input.len() - suffix.len()) == suffix,
    ensures
        edit_point(input, suffix) == Some(input.len() - suffix.len()),
        ({
            let q = input.len() - suffix.len();
            let out = if q > 0 {
                input.take(q - 1) + input.skip(q)
            } else {
                input
            };
            out.len() >= suffix.len() && out.skip(out.len() - suffix.len()) == suffix
        }),
{
    let q = input.len() - suffix.len();
    let pre = input.take(q);
    assert(input =~= pre + suffix);
    lemma_edit_point_of_suffix(pre, suffix);
    if q > 0 {
        let out = input.take(q - 1) + input.skip(q);
        assert(out.skip(out.len() - suffix.len()) =~= suffix);
    }
}

/// The index of the first listed entry at a path.
pub open spec fn index_at(entries: Seq<FileEntry>, path: Seq<char>) -> Option<int>
    decreases entries.len(),
{
    if entries.len() == 0 {
        None
    } else if same_path(entries[0].path@, path) {
        Some(0)
    } else {
        match index_at(entries.skip(1), path) {
            Some(i) => Some(i + 1),
            None => None,
        }
    }
}

/// The index of the selected entry in the listing.
pub open spec fn selected_index(v: TabView) -> Option<int> {
    match v.selected {
        Some(p) => index_at(v.entries, p),
        None => None,
    }
}

/// Whether a character is a control character (`char::is_control`).
pub open spec fn is_control(c: char) -> bool {
    (c as u32) <= 0x1f || (0x7f <= (c as u32) && (c as u32) <= 0x9f)
}

/// The first entry, counting round the listing from `start`, whose
/// lowercased name starts with `prefix`; `offset` entries are already
/// passed over.
pub open spec fn cyclic_match(entries: Seq<FileEntry>, start: int, prefix: Seq<char>, offset: int) -> Option<int>
    decreases entries.len() - offset,
{
    if offset >= entries.len() || offset < 0 {
        None
    } else {
        let i = (start + offset) % (entries.len() as int);
        let name = lowercase(entries[i].name@);
        if name.len() >= prefix.len() && name.take(prefix.len() as int) == prefix {
            Some(i)
        } else {
            cyclic_match(entries, start, prefix, offset + 1)
        }
    }
}

/// Whether keys typed at `now` extend the search text: the last keys
/// came at most a second before (a clock that went back counts as no
/// time).
pub open spec fn typeahead_continues(v: TabView, now: u64) -> bool {
    v.last_typeahead matches Some(last) && (now < last || now - last <= 1000)
}

/// The search text after the keys `incoming` at `now`.
pub open spec fn typeahead_prefix(v: TabView, incoming: Seq<char>, now: u64) -> Seq<char> {
    if typeahead_continues(v, now) {
        v.typeahead + incoming
    } else {
        incoming
    }
}

/// Where a search starts: the selected entry, else the first.
pub open spec fn search_start(v: TabView) -> int {
    match selected_index(v) {
        Some(i) => i,
        None => 0,
    }
}

/// Where a repeated search starts: the entry after the selected one,
/// round to the first, else the first.
pub open spec fn search_restart(v: TabView) -> int {
    match selected_index(v) {
        Some(i) => (i + 1) % (v.entries.len() as int),
        None => 0,
    }
}

/// What type-ahead does with the keys `incoming` (lowercased) at `now`:
/// within a second of the last keys they extend the search text, else
/// they start it again; the first entry from the selected one on whose
/// lowercased name starts with the search text is selected; failing that,
/// a longer search text falls back to the new keys alone, searched from
/// the entry after the selected one.
#[verifier::opaque]
pub open spec fn typeahead_of(v: TabView, incoming: Seq<char>, now: u64) -> (TabView, Option<int>) {
    let prefix = typeahead_prefix(v, incoming, now);
    let typed = TabView { typeahead: prefix, last_typeahead: Some(now), ..v };
    match cyclic_match(v.entries, search_start(v), prefix, 0) {
        Some(i) => (selected_at(typed, v.entries[i].path@), Some(i)),
        None => if prefix.len() > incoming.len() {
            let again = TabView { typeahead: incoming, ..typed };
            match cyclic_match(v.entries, search_restart(v), incoming, 0) {
                Some(i) => (selected_at(again, v.entries[i].path@), Some(i)),
                None => (again, selected_index(v)),
            }
        } else {
            (typed, selected_index(v))
        },
    }
}

proof fn lemma_typeahead_hit(v: TabView, incoming: Seq<char>, now: u64, i: int)
    requires
        cyclic_match(v.entries, search_start(v), typeahead_prefix(v, incoming, now), 0) == Some(i),
    ensures
        typeahead_of(v, incoming, now) == (selected_at(
            TabView { typeahead: typeahead_prefix(v, incoming, now), last_typeahead: Some(now), ..v },
            v.entries[i].path@,
        ), Some(i)),
{
    reveal(typeahead_of);
}

proof fn lemma_typeahead_retry(v: TabView, incoming: Seq<char>, now: u64)
    requires
        cyclic_match(v.entries, search_start(v), typeahead_prefix(v, incoming, now), 0) is None,
    ensures
        ({
            let typed = TabView {
                typeahead: typeahead_prefix(v, incoming, now),
                last_typeahead: Some(now),
                ..v
            };
            let again = TabView { typeahead: incoming, ..typed };
            typeahead_of(v, incoming, now) == if typeahead_prefix(v, incoming, now).len() > incoming.len() {
                match cyclic_match(v.entries, search_restart(v), incoming, 0) {
                    Some(i) => (selected_at(again, v.entries[i].path@), Some(i)),
                    None => (again, selected_index(v)),
                }
            } else {
                (typed, selected_index(v))
            }
        }),
{
    reveal(typeahead_of);
}

/// Whether a failed TailDrive listing means TailDrive is still coming up:
/// the profile is not ready yet (`profile_unready`) or the error says the
/// service is not running, not connected or not currently available.
pub open spec fn taildrive_reconnecting(error: Seq<char>, profile_unready: bool) -> bool {
    profile_unready || has_infix(error, "not running"@) || has_infix(error, "not connected"@) || has_infix(
        error,
        "not currently available"@,
    )
}

/// The status line after a TailDrive listing failed with `error` while
/// `cached` entries from the cache are shown.
pub open spec fn list_failure_status(error: Seq<char>, profile_unready: bool, cached: nat) -> Seq<char> {
    if taildrive_reconnecting(error, profile_unready) {
        if cached == 0 {
            "Connecting to TailDrive…"@
        } else {
            "Reconnecting to TailDrive… Showing "@ + decimal_of(cached) + " cached item(s)."@
        }
    } else if cached == 0 {
        "TailDrive: "@ + error
    } else {
        "TailDrive unavailable: "@ + error + ". Showing "@ + decimal_of(cached) + " cached item(s)."@
    }
}

/// Whether a listed entry is the TailDrive item at `remote_path` of its
/// share.
pub open spec fn at_remote_path(e: FileEntry, remote_path: Seq<char>) -> bool {
    match e.remote {
        Some(l) => match l@ {
            LocationView::Remote(_, _, _, p) => p == remote_path,
            _ => false,
        },
        None => false,
    }
}

/// The listing without the TailDrive items at `remote_path`.
pub open spec fn without_remote_path(entries: Seq<FileEntry>, remote_path: Seq<char>) -> Seq<FileEntry>
    decreases entries.len(),
{
    if entries.len() == 0 {
        Seq::empty()
    } else if at_remote_path(entries.last(), remote_path) {
        without_remote_path(entries.drop_last(), remote_path)
    } else {
        without_remote_path(entries.drop_last(), remote_path).push(entries.last())
    }
}

/// The index of the last `/` of a text.
pub open spec fn last_slash(s: Seq<char>) -> Option<int>
    decreases s.len(),
{
    if s.len() == 0 {
        None
    } else if s.last() == '/' {
        Some(s.len() - 1)
    } else {
        last_slash(s.drop_last())
    }
}

/// The remote path of the item at `remote_path` once renamed to
/// `new_name`: the same parent folder, if it has one, and the new name.
pub open spec fn renamed_remote_path(remote_path: Seq<char>, new_name: Seq<char>) -> Seq<char> {
    match last_slash(remote_path) {
        Some(k) => if k > 0 {
            remote_path.take(k) + "/"@ + new_name
        } else {
            new_name
        },
        None => new_name,
    }
}

/// The index of the first listed TailDrive item at `remote_path`.
pub open spec fn first_at_remote_path(entries: Seq<FileEntry>, remote_path: Seq<char>) -> Option<int>
    decreases entries.len(),
{
    if entries.len() == 0 {
        None
    } else if at_remote_path(entries[0], remote_path) {
        Some(0)
    } else {
        match first_at_remote_path(entries.skip(1), remote_path) {
            Some(i) => Some(i + 1),
            None => None,
        }
    }
}

/// Whether `after` is the TailDrive entry `before` renamed to `new_name`
/// at `new_remote` in the same share.
pub open spec fn renamed_entry(before: FileEntry, after: FileEntry, new_remote: Seq<char>, new_name: Seq<char>) -> bool {
    match before.remote {
        Some(l) => match l@ {
            LocationView::Remote(p, d, s, _) => {
                let loc = LocationView::Remote(p, d, s, new_remote);
                &&& after.remote matches Some(l2) && l2@ == loc
                &&& after.path@ == taildrive_path_of(loc)
                &&& after.name@ == new_name
                &&& after.kind == before.kind
                &&& after.size == before.size
                &&& after.modified_sort_key == before.modified_sort_key
                &&& after.remote_modified == before.remote_modified
            },
            _ => false,
        },
        None => false,
    }
}

/// The tab with no rename going on.
pub open spec fn rename_cleared(v: TabView) -> TabView {
    TabView { rename_input: None, rename_replace_on_type: false, rename_keyboard_suffix: None, ..v }
}

proof fn lemma_first_at_remote_path(es: Seq<FileEntry>, remote_path: Seq<char>)
    ensures
        first_at_remote_path(es, remote_path) matches Some(j) ==> 0 <= j < es.len() && at_remote_path(es[j], remote_path),
    decreases es.len(),
{
    if es.len() > 0 && !at_remote_path(es[0], remote_path) {
        lemma_first_at_remote_path(es.skip(1), remote_path);
    }
}

proof fn lemma_entry_name_found(es: Seq<FileEntry>, j: int, path: Seq<char>)
    requires
        0 <= j < es.len(),
        es[j].path@ == path,
    ensures
        entry_name_at(es, path) is Some,
    decreases j,
{
    if j > 0 && !same_path(es[0].path@, path) {
        lemma_entry_name_found(es.skip(1), j - 1, path);
    }
}

/// The remote path of the item at `remote_path` once renamed to
/// `new_name` (see `renamed_remote_path`).
fn renamed_path_text(remote_path: &str, new_name: &str) -> (r: String)
    ensures
        r@ == renamed_remote_path(remote_path@, new_name@),
{
    let cs = chars_of(remote_path);
    let mut i = cs.len();
    assert(cs@.take(i as int) =~= cs@);
    while i > 0
        invariant
            i <= cs@.len(),
            cs@ == remote_path@,
            last_slash(cs@) == last_slash(cs@.take(i as int)),
        decreases i,
    {
        assert(cs@.take(i as int).drop_last() =~= cs@.take(i - 1));
        if cs[i - 1] == '/' {
            if i - 1 > 0 {
                let parent = string_from_chars(vstd::slice::slice_subrange(cs.as_slice(), 0, i - 1));
                assert(parent@ =~= cs@.take(i - 1));
                let with_slash = concat_texts(parent.as_str(), "/");
                return concat_texts(with_slash.as_str(), new_name);
            }
            return new_name.to_owned();
        }
        i = i - 1;
    }
    new_name.to_owned()
}

/// The internal path of the item at `remote_path` in the share that the
/// folder at `location` lies in, when it lies in one.
pub open spec fn share_item_path(location: Seq<char>, remote_path: Seq<char>) -> Option<Seq<char>> {
    match parse_taildrive_spec(location) {
        Some(LocationView::Remote(p, d, s, _)) => Some(taildrive_path_of(LocationView::Remote(p, d, s, remote_path))),
        _ => None,
    }
}

/// The name shown for an upload to `remote_path`: its last piece, or a
/// stand-in when that is empty.
pub open spec fn uploaded_name(remote_path: Seq<char>) -> Seq<char> {
    let last = match last_slash(remote_path) {
        Some(k) => remote_path.skip(k + 1),
        None => remote_path,
    };
    if last.len() > 0 {
        last
    } else {
        "Uploaded file"@
    }
}

/// The status line after an upload named `name`.
pub open spec fn upload_status(name: Seq<char>, source_was_cut: bool) -> Seq<char> {
    if source_was_cut {
        "Uploaded: "@ + name + ". Local source kept because cross-filesystem Cut is not atomic."@
    } else {
        "Uploaded: "@ + name
    }
}

/// Whether `e` is the entry shown for a fresh upload named `name` to the
/// TailDrive location `loc`, a folder when `is_dir`, of `size` bytes.
pub open spec fn uploaded_entry(e: FileEntry, loc: LocationView, name: Seq<char>, is_dir: bool, size: u64) -> bool {
    &&& e.path@ == taildrive_path_of(loc)
    &&& e.name@ == name
    &&& e.kind == (if is_dir {
        EntryKind::Directory
    } else {
        EntryKind::File
    })
    &&& e.size == size
    &&& e.modified_sort_key == 0
    &&& e.remote matches Some(l) && l@ == loc
    &&& e.remote_modified is None
}

/// The internal path of the item at `remote_path` in the share that the
/// folder at `location` lies in (see `share_item_path`).
fn share_item_path_text(location: &str, remote_path: &str) -> (r: Option<String>)
    requires
        !taildrive_parse_panics(location@),
    ensures
        match share_item_path(location@, remote_path@) {
            Some(p) => r matches Some(q) && q@ == p && !taildrive_parse_panics(p),
            None => r is None,
        },
{
    match parse_taildrive_path(location) {
        Some(TaildriveLocation::Remote { profile_id, device_id, share, .. }) => {
            proof {
                lemma_parsed_ids_nonempty(location@);
                lemma_taildrive_path_round_trip(LocationView::Remote(profile_id@, device_id@, share@, remote_path@));
            }
            let loc = TaildriveLocation::Remote { profile_id, device_id, share, remote_path: remote_path.to_owned() };
            Some(taildrive_path(&loc))
        },
        _ => None,
    }
}

/// The name shown for an upload to `remote_path` (see `uploaded_name`).
fn uploaded_name_text(remote_path: &str) -> (r: String)
    ensures
        r@ == uploaded_name(remote_path@),
{
    let cs = chars_of(remote_path);
    let n = cs.len();
    let mut i = n;
    assert(cs@.take(i as int) =~= cs@);
    while i > 0
        invariant
            i <= n,
            n == cs@.len(),
            cs@ == remote_path@,
            last_slash(cs@) == last_slash(cs@.take(i as int)),
        ensures
            i == 0 || cs@[i - 1] == '/',
            i <= n,
            last_slash(cs@) == last_slash(cs@.take(i as int)),
        decreases i,
    {
        assert(cs@.take(i as int).drop_last() =~= cs@.take(i - 1));
        if cs[i - 1] == '/' {
            break;
        }
        i = i - 1;
    }
    let last = vstd::slice::slice_subrange(cs.as_slice(), i, n);
    proof {
        if i > 0 {
            assert(cs@.take(i as int).last() == '/');
            assert(last_slash(cs@) == Some(i - 1));
        } else {
            assert(last_slash(cs@.take(0)) is None);
        }
        assert(last@ =~= match last_slash(cs@) {
            Some(k) => cs@.skip(k + 1),
            None => cs@,
        });
    }
    if last.len() > 0 {
        string_from_chars(last)
    } else {
        "Uploaded file".to_owned()
    }
}

/// The words a failed local file command is reported with; deleting
/// moves to the trash except on Android.
pub open spec fn local_failure_label(command: LocalFileCommand, on_android: bool) -> Seq<char> {
    match command {
        LocalFileCommand::CreateDir { .. } => "Create folder failed"@,
        LocalFileCommand::CopyMove { .. } => "Paste failed"@,
        LocalFileCommand::Delete { .. } => if on_android {
            "Delete failed"@
        } else {
            "Move to Trash failed"@
        },
        LocalFileCommand::Rename { .. } => "Rename failed"@,
    }
}

/// What a finished local file command does to a tab that shows the folder
/// it was given in, and whether the folder must be read again: a new
/// folder is selected and named at once, a pasted item or a renamed one
/// is selected, a deleted one leaves no selection; a failure is reported.
pub open spec fn after_local_event(v: TabView, command: LocalFileCommand, result: Result<(), String>, on_android: bool) -> (
    TabView,
    bool,
) {
    match result {
        Err(e) => (TabView { status: local_failure_label(command, on_android) + ": "@ + e@, ..v }, false),
        Ok(_) => match command {
            LocalFileCommand::CreateDir { path, .. } => (
                TabView {
                    selected: Some(path@),
                    rename_input: Some(
                        match path_file_name(path@) {
                            Some(n) => n,
                            None => "New folder"@,
                        },
                    ),
                    rename_replace_on_type: true,
                    rename_keyboard_suffix: Some(Seq::empty()),
                    ..v
                },
                true,
            ),
            LocalFileCommand::CopyMove { destination, .. } => (TabView { selected: Some(destination@), ..v }, true),
            LocalFileCommand::Delete { .. } => (TabView { selected: None, ..v }, true),
            LocalFileCommand::Rename { destination, .. } => (
                TabView { selected: Some(destination@), ..rename_cleared(v) },
                true,
            ),
        },
    }
}

/// The tab with id `id` restored from a saved session. A TailDrive folder
/// is trusted as it is; any other folder still has to be checked.
pub open spec fn saved_tab_view(id: u64, saved: SavedTab) -> TabView {
    TabView {
        id,
        group_id: saved.group_id,
        generation: 0,
        current: saved.current_dir@,
        address: display_path_of(saved.current_dir@),
        entries: Seq::empty(),
        status: if parse_virtual_spec(saved.current_dir@) is Some {
            "Loading restored archive…"@
        } else if parse_taildrive_spec(saved.current_dir@) is None {
            "Loading restored folder…"@
        } else {
            "Connecting to TailDrive…"@
        },
        show_hidden: saved.show_hidden,
        sort_field: saved.sort_field,
        sort_direction: saved.sort_direction,
        search_input: Seq::empty(),
        search_active: false,
        search_field_expanded: false,
        selected: None,
        rename_input: None,
        rename_replace_on_type: false,
        rename_keyboard_suffix: None,
        pending_remote_folder: None,
        pending_remote_delete: None,
        typeahead: Seq::empty(),
        last_click: None,
        last_typeahead: None,
        back: texts(saved.back_stack@),
        forward: texts(saved.forward_stack@),
        restore_validation_pending: parse_taildrive_spec(saved.current_dir@) is None,
        restore_warning: None,
    }
}

/// The file clipboard after a local file command: a successful cut-move
/// of the clipboard's file, or a successful delete of it, empties the
/// clipboard; a successful rename of it makes the clipboard follow it;
/// anything else leaves it as it is.
pub open spec fn clipboard_after(clipboard: Option<Seq<char>>, command: LocalFileCommand, ok: bool) -> Option<Seq<char>> {
    match clipboard {
        None => None,
        Some(c) => if !ok {
            Some(c)
        } else {
            match command {
                LocalFileCommand::CopyMove { source, cut, .. } => if cut && same_path(c, source@) {
                    None
                } else {
                    Some(c)
                },
                LocalFileCommand::Delete { path, .. } => if same_path(c, path@) {
                    None
                } else {
                    Some(c)
                },
                LocalFileCommand::Rename { source, destination, .. } => if same_path(c, source@) {
                    Some(destination@)
                } else {
                    Some(c)
                },
                LocalFileCommand::CreateDir { .. } => Some(c),
            }
        },
    }
}

/// Applies `clipboard_after` to the path on the clipboard.
pub fn clipboard_after_local_event(clipboard: Option<String>, command: &LocalFileCommand, result: &Result<(), String>) -> (r: Option<String>)
    ensures
        opt_text(r) == clipboard_after(opt_text(clipboard), *command, result is Ok),
{
    let c = match clipboard {
        None => {
            return None;
        },
        Some(c) => c,
    };
    if result.is_err() {
        return Some(c);
    }
    match command {
        LocalFileCommand::CopyMove { source, cut, .. } => if *cut && same_path_exec(c.as_str(), source.as_str()) {
            None
        } else {
            Some(c)
        },
        LocalFileCommand::Delete { path, .. } => if same_path_exec(c.as_str(), path.as_str()) {
            None
        } else {
            Some(c)
        },
        LocalFileCommand::Rename { source, destination, .. } => if same_path_exec(c.as_str(), source.as_str()) {
            Some(destination.clone())
        } else {
            Some(c)
        },
        LocalFileCommand::CreateDir { .. } => Some(c),
    }
}

fn has_control(s: &[char]) -> (r: bool)
    ensures
        r == exists|k: int| 0 <= k < s@.len() && is_control(#[trigger] s@[k]),
{
    for k in 0..s.len()
        invariant
            forall|j: int| 0 <= j < k ==> !is_control(#[trigger] s@[j]),
    {
        let c = s[k] as u32;
        if c <= 0x1f || (0x7f <= c && c <= 0x9f) {
            assert(is_control(s@[k as int]));
            return true;
        }
    }
    false
}

impl TabState {
    /// A tab opened on a folder, with an empty history.
    pub fn from_path(id: u64, current_dir: String) -> (r: Self)
        requires
            !taildrive_parse_panics(current_dir@),
        ensures
            r@ == (TabView {
                id,
                group_id: None,
                generation: 0,
                current: current_dir@,
                address: display_path_of(current_dir@),
                entries: Seq::empty(),
                status: if parse_taildrive_spec(current_dir@) is None {
                    "Loading folder…"@
                } else {
                    "TailDrive"@
                },
                show_hidden: false,
                sort_field: SortField::Name,
                sort_direction: SortDirection::Ascending,
                search_input: Seq::empty(),
                search_active: false,
                search_field_expanded: false,
                selected: None,
                rename_input: None,
                rename_replace_on_type: false,
                rename_keyboard_suffix: None,
                pending_remote_folder: None,
                pending_remote_delete: None,
                typeahead: Seq::empty(),
                last_click: None,
                last_typeahead: None,
                back: Seq::empty(),
                forward: Seq::empty(),
                restore_validation_pending: false,
                restore_warning: None,
            }),
    {
        let address_input = display_path(current_dir.as_str());
        let status = if parse_taildrive_path(current_dir.as_str()).is_none() {
            "Loading folder…".to_string()
        } else {
            "TailDrive".to_string()
        };
        let r = TabState {
            id,
            group_id: None,
            scroll_generation: 0,
            current_dir,
            address_input,
            entries: Vec::new(),
            status,
            show_hidden: false,
            sort_field: SortField::Name,
            sort_direction: SortDirection::Ascending,
            search_input: String::new(),
            search_active: false,
            search_field_expanded: false,
            selected_path: None,
            rename_input: None,
            rename_replace_on_type: false,
            rename_keyboard_suffix: None,
            pending_remote_folder: None,
            pending_remote_delete: None,
            typeahead_buffer: String::new(),
            last_click: None,
            last_typeahead: None,
            back_stack: Vec::new(),
            forward_stack: Vec::new(),
            restore_validation_pending: false,
            restore_warning: None,
        };
        assert(texts(r.back_stack@) =~= Seq::<Seq<char>>::empty());
        assert(texts(r.forward_stack@) =~= Seq::<Seq<char>>::empty());
        r
    }

    /// The tab's id.
    pub fn id(&self) -> (r: u64)
        ensures
            r == self@.id,
    {
        self.id
    }

    /// The group the tab belongs to, if any.
    pub fn group_id(&self) -> (r: Option<u64>)
        ensures
            r == self@.group_id,
    {
        self.group_id
    }

    /// A key that changes whenever the tab moves to another folder, so that
    /// a scrolled list starts again at the top.
    pub fn scroll_reset_key(&self) -> (r: u64)
        ensures
            r == (((self@.id << 17u64) | (self@.id >> 47u64)) ^ self@.generation),
    {
        ((self.id << 17u64) | (self.id >> 47u64)) ^ self.scroll_generation
    }

    /// Whether there is a place to go back to.
    pub fn can_go_back(&self) -> (r: bool)
        ensures
            r == (self@.back.len() > 0),
    {
        !self.back_stack.is_empty()
    }

    /// Whether there is a place to go forward to.
    pub fn can_go_forward(&self) -> (r: bool)
        ensures
            r == (self@.forward.len() > 0),
    {
        !self.forward_stack.is_empty()
    }

    /// The title of the tab; `home` is the user's home folder, if known.
    pub fn title(&self, home: Option<&str>) -> (r: String)
        requires
            !taildrive_parse_panics(self@.current),
        ensures
            r@ == tab_title_of(
                self@.current,
                match home {
                    Some(h) => Some(h@),
                    None => None,
                },
            ),
    {
        let dir = self.current_dir.as_str();
        if let Some(location) = parse_taildrive_path(dir) {
            return match location {
                TaildriveLocation::Root => "TailDrive".to_string(),
                TaildriveLocation::Profile { profile_id } => profile_id,
                TaildriveLocation::Device { device_id, .. } => device_id,
                TaildriveLocation::Remote { share, remote_path, .. } => {
                    let rc = chars_of(remote_path.as_str());
                    let split = split_chars(rc.as_slice(), '/');
                    let segs = keep_nonempty(&split);
                    let n = segs.len();
                    if n > 0 {
                        assert(segs[n - 1]@ == segs@.map_values(|p: Vec<char>| p@).last());
                        string_from_chars(segs[n - 1].as_slice())
                    } else {
                        share
                    }
                },
            };
        }
        if let Some(location) = parse_virtual_path(dir) {
            return crate::archive::title(&location);
        }
        if let Some(h) = home {
            if same_path_exec(h, dir) {
                return "Home".to_string();
            }
        }
        if parent(dir).is_none() {
            return "/".to_string();
        }
        match file_name(dir) {
            Some(f) => f,
            None => display_path(dir),
        }
    }

    /// Puts the tab into a group, or into none.
    pub(crate) fn set_group_id(&mut self, group_id: Option<u64>)
        ensures
            final(self)@ == (TabView { group_id, ..old(self)@ }),
    {
        self.group_id = group_id;
    }

    /// Moves the tab to another folder and resets what belonged to the old
    /// one. Answers whether the folder's listing must now be read; a
    /// TailDrive folder is listed elsewhere and starts empty.
    pub fn set_current_dir(&mut self, path: String) -> (reload: bool)
        requires
            !taildrive_parse_panics(path@),
        ensures
            reload == (parse_taildrive_spec(path@) is None),
            final(self)@ == moved_to(old(self)@, path@),
    {
        self.address_input = display_path(path.as_str());
        let remote = parse_taildrive_path(path.as_str()).is_some();
        self.current_dir = path;
        self.scroll_generation = self.scroll_generation.wrapping_add(1);
        self.restore_validation_pending = false;
        self.restore_warning = None;
        self.search_input = String::new();
        self.search_active = false;
        self.selected_path = None;
        self.rename_input = None;
        self.rename_replace_on_type = false;
        self.rename_keyboard_suffix = None;
        self.pending_remote_folder = None;
        self.pending_remote_delete = None;
        self.typeahead_buffer = String::new();
        self.last_click = None;
        self.last_typeahead = None;
        if remote {
            self.entries = Vec::new();
            self.status = "Loading TailDrive…".to_string();
        }
        !remote
    }

    /// Puts a freshly read listing in place: sorted as the tab sorts, with
    /// its size in the status line.
    pub fn finish_reload(&mut self, entries: Vec<FileEntry>)
        ensures
            final(self)@ == (TabView {
                entries: sorted_entries(entries@, old(self)@.sort_field, old(self)@.sort_direction),
                status: decimal_of(entries@.len()) + " items"@,
                ..old(self)@
            }),
    {
        let n = entries.len();
        let count = decimal_chars(n as u128);
        let count = string_from_chars(count.as_slice());
        self.status = concat_texts(count.as_str(), " items");
        self.entries = entries;
        sort_entries(&mut self.entries, self.sort_field, self.sort_direction);
    }

    /// Records that the folder could not be read: the listing empties and
    /// the status tells why.
    pub fn fail_reload(&mut self, error: &str)
        ensures
            final(self)@ == (TabView {
                entries: Seq::empty(),
                status: "Cannot read directory: "@ + error@,
                ..old(self)@
            }),
    {
        self.entries = Vec::new();
        self.status = concat_texts("Cannot read directory: ", error);
    }

    /// Sorts the listing by the tab's column and direction.
    pub fn apply_sort(&mut self)
        ensures
            final(self)@ == (TabView {
                entries: sorted_entries(old(self)@.entries, old(self)@.sort_field, old(self)@.sort_direction),
                ..old(self)@
            }),
    {
        sort_entries(&mut self.entries, self.sort_field, self.sort_direction);
    }

    /// Opens a folder from this tab, remembering the current one for going
    /// back. A path that is not a folder (`is_dir` false) is refused with a
    /// status message; the current folder again only asks for a reload.
    /// Answers whether the listing must now be read.
    pub fn navigate_to(&mut self, path: String, is_dir: bool) -> (reload: bool)
        requires
            !taildrive_parse_panics(path@),
            !taildrive_parse_panics(old(self)@.current),
        ensures
            final(self)@ == navigated(old(self)@, path@, is_dir),
            reload == navigation_reloads(old(self)@, path@, is_dir),
    {
        if !is_dir {
            let shown = display_path(path.as_str());
            self.status = concat_texts("Not a directory: ", shown.as_str());
            self.address_input = display_path(self.current_dir.as_str());
            return false;
        }
        if same_path_exec(path.as_str(), self.current_dir.as_str()) {
            return true;
        }
        let here = self.current_dir.clone();
        self.back_stack.push(here);
        self.forward_stack = Vec::new();
        proof {
            assert(texts(self.back_stack@) =~= texts(old(self).back_stack@).push(old(self)@.current));
            assert(texts(self.forward_stack@) =~= Seq::<Seq<char>>::empty());
        }
        self.set_current_dir(path)
    }

    /// Goes back to the previous folder, if any, keeping the current one for
    /// going forward. Answers whether the listing must now be read.
    pub fn go_back(&mut self) -> (reload: bool)
        requires
            old(self)@.showable(),
        ensures
            final(self)@.history() == history_after_back(old(self)@.history()),
            final(self)@.showable(),
            old(self)@.back.len() == 0 ==> final(self)@ == old(self)@ && !reload,
            old(self)@.back.len() > 0 ==> reload == (parse_taildrive_spec(old(self)@.back.last()) is None)
                && final(self)@.address == display_path_of(old(self)@.back.last()),
    {
        match self.back_stack.pop() {
            Some(path) => {
                proof {
                    assert(texts(self.back_stack@) =~= texts(old(self).back_stack@).drop_last());
                    assert(old(self)@.back[old(self)@.back.len() - 1] == path@);
                }
                let here = self.current_dir.clone();
                self.forward_stack.push(here);
                proof {
                    assert(texts(self.forward_stack@) =~= texts(old(self).forward_stack@).push(old(self)@.current));
                }
                self.set_current_dir(path)
            },
            None => false,
        }
    }

    /// Goes forward again, if possible, keeping the current folder for going
    /// back. Answers whether the listing must now be read.
    pub fn go_forward(&mut self) -> (reload: bool)
        requires
            old(self)@.showable(),
        ensures
            final(self)@.history() == history_after_forward(old(self)@.history()),
            final(self)@.showable(),
            old(self)@.forward.len() == 0 ==> final(self)@ == old(self)@ && !reload,
            old(self)@.forward.len() > 0 ==> reload == (parse_taildrive_spec(old(self)@.forward.last()) is None)
                && final(self)@.address == display_path_of(old(self)@.forward.last()),
    {
        match self.forward_stack.pop() {
            Some(path) => {
                proof {
                    assert(texts(self.forward_stack@) =~= texts(old(self).forward_stack@).drop_last());
                    assert(old(self)@.forward[old(self)@.forward.len() - 1] == path@);
                }
                let here = self.current_dir.clone();
                self.back_stack.push(here);
                proof {
                    assert(texts(self.back_stack@) =~= texts(old(self).back_stack@).push(old(self)@.current));
                }
                self.set_current_dir(path)
            },
            None => false,
        }
    }

    /// A tab restored from a saved session. A TailDrive folder is trusted
    /// as it is; any other folder still has to be checked.
    pub fn from_saved(id: u64, saved: SavedTab) -> (r: Self)
        requires
            !taildrive_parse_panics(saved.current_dir@),
        ensures
            r@ == saved_tab_view(id, saved),
    {
        let current_dir = saved.current_dir;
        let address_input = display_path(current_dir.as_str());
        let local = parse_taildrive_path(current_dir.as_str()).is_none();
        let status = if parse_virtual_path(current_dir.as_str()).is_some() {
            "Loading restored archive…".to_string()
        } else if local {
            "Loading restored folder…".to_string()
        } else {
            "Connecting to TailDrive…".to_string()
        };
        TabState {
            id,
            group_id: saved.group_id,
            scroll_generation: 0,
            current_dir,
            address_input,
            entries: Vec::new(),
            status,
            show_hidden: saved.show_hidden,
            sort_field: saved.sort_field,
            sort_direction: saved.sort_direction,
            search_input: String::new(),
            search_active: false,
            search_field_expanded: false,
            selected_path: None,
            rename_input: None,
            rename_replace_on_type: false,
            rename_keyboard_suffix: None,
            pending_remote_folder: None,
            pending_remote_delete: None,
            typeahead_buffer: String::new(),
            last_click: None,
            last_typeahead: None,
            back_stack: saved.back_stack,
            forward_stack: saved.forward_stack,
            restore_validation_pending: local,
            restore_warning: None,
        }
    }

    /// What the tab keeps for the next session.
    pub fn saved(&self) -> (r: SavedTab)
        ensures
            r.group_id == self@.group_id,
            r.current_dir@ == self@.current,
            r.show_hidden == self@.show_hidden,
            r.sort_field == self@.sort_field,
            r.sort_direction == self@.sort_direction,
            texts(r.back_stack@) == self@.back,
            texts(r.forward_stack@) == self@.forward,
    {
        let back_stack = self.back_stack.clone();
        let forward_stack = self.forward_stack.clone();
        proof {
            assert(back_stack@ =~= self.back_stack@);
            assert(forward_stack@ =~= self.forward_stack@);
        }
        SavedTab {
            group_id: self.group_id,
            current_dir: self.current_dir.clone(),
            show_hidden: self.show_hidden,
            sort_field: self.sort_field,
            sort_direction: self.sort_direction,
            back_stack,
            forward_stack,
        }
    }

    /// Replaces the text of the address bar.
    pub fn set_address_input(&mut self, value: String)
        ensures
            final(self)@ == (TabView { address: value@, ..old(self)@ }),
    {
        self.address_input = value;
    }

    /// Replaces the text of the search box.
    pub fn set_search_input(&mut self, value: String)
        ensures
            final(self)@ == (TabView { search_input: value@, ..old(self)@ }),
    {
        self.search_input = value;
    }

    /// Ends a search; the folder's listing must then be read again.
    pub fn clear_search(&mut self) -> (reload: bool)
        ensures
            reload,
            final(self)@ == (TabView { search_input: Seq::empty(), search_active: false, ..old(self)@ }),
    {
        self.search_input = String::new();
        self.search_active = false;
        true
    }

    /// Selects the entry at a path and names it in the status line: the
    /// listed entry's name, else the path's file name, else the path shown.
    /// Choosing another entry drops a pending TailDrive delete.
    pub fn select_entry(&mut self, path: String)
        requires
            !taildrive_parse_panics(path@) || entry_name_at(old(self)@.entries, path@) is Some,
        ensures
            final(self)@ == selected_at(old(self)@, path@),
    {
        let mut found: Option<String> = None;
        let mut i: usize = 0;
        let ghost es = self.entries@;
        assert(es.skip(0) == es);
        while i < self.entries.len()
            invariant_except_break
                found is None,
            invariant
                i <= es.len(),
                es == self.entries@,
                entry_name_at(es, path@) == entry_name_at(es.skip(i as int), path@),
            ensures
                found matches Some(n) ==> entry_name_at(es, path@) == Some(n@),
                found is None ==> entry_name_at(es, path@) is None,
            decreases es.len() - i,
        {
            assert(es.skip(i as int)[0] == es[i as int]);
            assert(es.skip(i as int).skip(1) == es.skip(i + 1));
            if same_path_exec(self.entries[i].path.as_str(), path.as_str()) {
                found = Some(self.entries[i].name.clone());
                break;
            }
            i = i + 1;
        }
        let name = match found {
            Some(n) => n,
            None => match file_name(path.as_str()) {
                Some(f) => f,
                None => display_path(path.as_str()),
            },
        };
        let keep = match &self.selected_path {
            Some(p) => same_path_exec(p.as_str(), path.as_str()),
            None => false,
        };
        if !keep {
            self.pending_remote_delete = None;
        }
        self.status = concat_texts("Selected: ", name.as_str());
        self.selected_path = Some(path);
    }

    /// Where the typed address `value` leads from this tab, given the home
    /// folder if there is one.
    pub fn address_target(&self, value: &str, home: Option<&str>) -> (r: String)
        ensures
            r@ == address_target_of(self@.current, value@, opt_str(home)),
    {
        let cs = chars_of(value);
        let raw = trim_chars(cs.as_slice());
        let n = raw.len();
        if n == 1 && raw[0] == '~' {
            assert(raw@ =~= seq!['~']);
            return match home {
                Some(h) => string_from_chars(chars_of(h).as_slice()),
                None => self.current_dir.clone(),
            };
        }
        assert(raw@ != seq!['~']);
        let raw_text = string_from_chars(raw.as_slice());
        if n >= 2 && raw[0] == '~' && (raw[1] == '/' || raw[1] == '\\') {
            match home {
                Some(h) => {
                    let rest = string_from_chars(vstd::slice::slice_subrange(raw.as_slice(), 2, n));
                    assert(rest@ =~= raw@.skip(2));
                    return join_path(h, rest.as_str());
                },
                None => {
                    return join_path(self.current_dir.as_str(), raw_text.as_str());
                },
            }
        }
        join_path(self.current_dir.as_str(), raw_text.as_str())
    }

    /// Goes to a typed address: the address bar keeps the text as typed and
    /// the tab navigates to where it leads (see [`address_target_of`]);
    /// `is_dir` tells whether that place is a folder. Answers whether the
    /// listing must now be read.
    pub fn submit_address(&mut self, value: String, home: Option<&str>, is_dir: bool) -> (reload: bool)
        requires
            !taildrive_parse_panics(address_target_of(old(self)@.current, value@, opt_str(home))),
            !taildrive_parse_panics(old(self)@.current),
        ensures
            ({
                let typed = TabView { address: value@, ..old(self)@ };
                let target = address_target_of(old(self)@.current, value@, opt_str(home));
                &&& final(self)@ == navigated(typed, target, is_dir)
                &&& reload == navigation_reloads(typed, target, is_dir)
            }),
    {
        let target = self.address_target(value.as_str(), home);
        self.address_input = value;
        self.navigate_to(target, is_dir)
    }

    /// Opens an entry: a folder (`is_dir`) is navigated to, a file is
    /// selected and must then be opened with the system's application.
    pub fn activate_entry(&mut self, path: String, is_dir: bool) -> (r: EntryActivation)
        requires
            !taildrive_parse_panics(path@),
            !taildrive_parse_panics(old(self)@.current),
        ensures
            (final(self)@, r) == activation_of(old(self)@, path@, is_dir),
    {
        if is_dir {
            if self.navigate_to(path, true) {
                EntryActivation::ReadListing
            } else {
                EntryActivation::Stayed
            }
        } else {
            self.select_entry(path);
            EntryActivation::OpenWithSystem
        }
    }

    /// Reports how opening a file with the system's application went.
    pub fn finish_open(&mut self, path: &str, outcome: Result<(), String>)
        requires
            !display_path_panics(path@),
        ensures
            ({
                let name = match path_file_name(path@) {
                    Some(f) => f,
                    None => display_path_of(path@),
                };
                final(self)@ == (TabView {
                    status: match outcome {
                        Ok(()) => "Opened: "@ + name,
                        Err(e) => "Cannot open "@ + name + ": "@ + e@,
                    },
                    ..old(self)@
                })
            }),
    {
        let name = match file_name(path) {
            Some(f) => f,
            None => display_path(path),
        };
        self.status = match outcome {
            Ok(()) => concat_texts("Opened: ", name.as_str()),
            Err(e) => {
                let t = concat_texts("Cannot open ", name.as_str());
                let t = concat_texts(t.as_str(), ": ");
                concat_texts(t.as_str(), e.as_str())
            },
        };
    }

    /// A click on an entry at `now` (milliseconds of a monotonic clock):
    /// the entry is selected, and a second click on it within half a
    /// second opens it as [`TabState::activate_entry`] does.
    pub fn click_entry(&mut self, path: String, now: u64, is_dir: bool) -> (r: EntryActivation)
        requires
            !taildrive_parse_panics(path@),
            !taildrive_parse_panics(old(self)@.current),
        ensures
            ({
                let chosen = selected_at(old(self)@, path@);
                if is_double_click(old(self)@.last_click, path@, now) {
                    (final(self)@, r) == activation_of(TabView { last_click: None, ..chosen }, path@, is_dir)
                } else {
                    r == EntryActivation::Selected
                        && final(self)@ == (TabView { last_click: Some((path@, now)), ..chosen })
                }
            }),
    {
        let double = match &self.last_click {
            Some((p, t)) => same_path_exec(p.as_str(), path.as_str()) && (now < *t || now - *t <= 500),
            None => false,
        };
        self.select_entry(path.clone());
        if double {
            self.last_click = None;
            self.activate_entry(path, is_dir)
        } else {
            self.last_click = Some((path, now));
            EntryActivation::Selected
        }
    }


    /// Starts renaming the selected entry (see `rename_source`), when the
    /// current place may be changed: the text is the entry's name, typing
    /// first replaces it, and the extension stays (see
    /// `rename_suffix_of`).
    pub fn begin_rename(&mut self, can_mutate: bool)
        ensures
            (!can_mutate || rename_source(old(self)@) is None) ==> final(self)@ == old(self)@,
            can_mutate ==> (rename_source(old(self)@) matches Some(e) ==> final(self)@ == (TabView {
                rename_input: Some(e.name@),
                rename_replace_on_type: true,
                rename_keyboard_suffix: Some(rename_suffix_of(e.kind == EntryKind::Directory, e.name@)),
                ..old(self)@
            })),
    {
        if !can_mutate {
            return;
        }
        let path = match &self.selected_path {
            Some(p) => p.clone(),
            None => {
                return;
            },
        };
        let found = if parse_virtual_path(path.as_str()).is_some() {
            self.find_entry(path.as_str(), false)
        } else {
            match self.find_entry(path.as_str(), true) {
                Some(i) => Some(i),
                None => self.find_entry(path.as_str(), false),
            }
        };
        match found {
            Some(i) => {
                let name = self.entries[i].name.clone();
                let suffix = keyboard_rename_suffix_for(self.entries[i].kind, name.as_str());
                self.rename_input = Some(name);
                self.rename_replace_on_type = true;
                self.rename_keyboard_suffix = Some(suffix);
            },
            None => {},
        }
    }

    /// The index of the first entry at a path (a TailDrive one when
    /// `remote`).
    fn find_entry(&self, path: &str, remote: bool) -> (r: Option<usize>)
        ensures
            remote ==> match remote_entry_at(self@.entries, path@) {
                Some(e) => r matches Some(i) && i < self@.entries.len() && self@.entries[i as int] == e,
                None => r is None,
            },
            !remote ==> match entry_at(self@.entries, path@) {
                Some(e) => r matches Some(i) && i < self@.entries.len() && self@.entries[i as int] == e,
                None => r is None,
            },
    {
        let ghost es = self.entries@;
        let mut i: usize = 0;
        assert(es.skip(0) == es);
        while i < self.entries.len()
            invariant
                i <= es.len(),
                es == self.entries@,
                remote ==> remote_entry_at(es, path@) == remote_entry_at(es.skip(i as int), path@),
                !remote ==> entry_at(es, path@) == entry_at(es.skip(i as int), path@),
            decreases es.len() - i,
        {
            assert(es.skip(i as int)[0] == es[i as int]);
            assert(es.skip(i as int).skip(1) == es.skip(i + 1));
            if same_path_exec(self.entries[i].path.as_str(), path) && (!remote || self.entries[i].remote.is_some()) {
                return Some(i);
            }
            i = i + 1;
        }
        None
    }

    /// Replaces the rename text, as one line (see `single_line_of`), when a
    /// rename is going on; the text is then edited as a whole.
    pub fn set_rename_input(&mut self, value: String)
        ensures
            old(self)@.rename_input is None ==> final(self)@ == old(self)@,
            old(self)@.rename_input is Some ==> final(self)@ == (TabView {
                rename_input: Some(single_line_of(value@)),
                rename_replace_on_type: false,
                rename_keyboard_suffix: None,
                ..old(self)@
            }),
    {
        if self.rename_input.is_some() {
            self.rename_input = Some(single_line_input(value));
            self.rename_replace_on_type = false;
            self.rename_keyboard_suffix = None;
        }
    }

    /// Types text into the rename: over the whole name at first (keeping
    /// the suffix), then before the suffix, or at the end when no suffix is
    /// kept.
    pub fn type_rename_text(&mut self, text: String)
        requires
            rename_editable(old(self)@),
        ensures
            rename_keeps_suffix(old(self)@) ==> rename_keeps_suffix(final(self)@),
            match (old(self)@.rename_input, old(self)@.rename_keyboard_suffix) {
                (None, _) => final(self)@ == old(self)@,
                (Some(input), None) => final(self)@ == (TabView { rename_input: Some(input + text@), ..old(self)@ }),
                (Some(input), Some(suffix)) => if old(self)@.rename_replace_on_type {
                    final(self)@ == (TabView {
                        rename_input: Some(text@ + suffix),
                        rename_replace_on_type: false,
                        ..old(self)@
                    })
                } else if suffix.len() == 0 {
                    final(self)@ == (TabView { rename_input: Some(input + text@), ..old(self)@ })
                } else {
                    let p = edit_point(input, suffix).unwrap();
                    final(self)@ == (TabView {
                        rename_input: Some(input.take(p) + text@ + input.skip(p)),
                        ..old(self)@
                    })
                },
            },
    {
        let input = match &self.rename_input {
            Some(i) => i.clone(),
            None => {
                return;
            },
        };
        let suffix = match &self.rename_keyboard_suffix {
            Some(s) => s.clone(),
            None => {
                self.rename_input = Some(concat_texts(input.as_str(), text.as_str()));
                return;
            },
        };
        let sc = chars_of(suffix.as_str());
        if self.rename_replace_on_type {
            self.rename_input = Some(concat_texts(text.as_str(), suffix.as_str()));
            self.rename_replace_on_type = false;
            assert((text@ + suffix@).skip((text@ + suffix@).len() - suffix@.len()) =~= suffix@);
        } else if sc.len() == 0 {
            self.rename_input = Some(concat_texts(input.as_str(), text.as_str()));
            let ghost out = input@ + text@;
            assert(out.skip(out.len() - suffix@.len()) =~= suffix@);
        } else {
            let ic = chars_of(input.as_str());
            let p = edit_point_exec(ic.as_slice(), sc.as_slice());
            let head = string_from_chars(vstd::slice::slice_subrange(ic.as_slice(), 0, p));
            let tail = string_from_chars(vstd::slice::slice_subrange(ic.as_slice(), p, ic.len()));
            assert(head@ == input@.take(p as int));
            assert(tail@ =~= input@.skip(p as int));
            let joined = concat_texts(head.as_str(), text.as_str());
            self.rename_input = Some(concat_texts(joined.as_str(), tail.as_str()));
            assert(self.rename_input.unwrap()@ =~= input@.take(p as int) + text@ + input@.skip(p as int));
            proof {
                if rename_keeps_suffix(old(self)@) {
                    lemma_insert_keeps_suffix(input@, suffix@, text@);
                }
            }
        }
    }

    /// Erases in the rename: the whole name at first (keeping the suffix),
    /// then the character before the suffix, or the last character when no
    /// suffix is kept.
    pub fn backspace_rename(&mut self)
        requires
            rename_editable(old(self)@),
        ensures
            rename_keeps_suffix(old(self)@) ==> rename_keeps_suffix(final(self)@),
            match (old(self)@.rename_input, old(self)@.rename_keyboard_suffix) {
                (None, _) => final(self)@ == old(self)@,
                (Some(input), None) => final(self)@ == (TabView {
                    rename_input: Some(if input.len() > 0 {
                        input.drop_last()
                    } else {
                        input
                    }),
                    ..old(self)@
                }),
                (Some(input), Some(suffix)) => if old(self)@.rename_replace_on_type {
                    final(self)@ == (TabView {
                        rename_input: Some(suffix),
                        rename_replace_on_type: false,
                        ..old(self)@
                    })
                } else if suffix.len() == 0 {
                    final(self)@ == (TabView {
                        rename_input: Some(if input.len() > 0 {
                            input.drop_last()
                        } else {
                            input
                        }),
                        ..old(self)@
                    })
                } else {
                    let q = edit_point(input, suffix).unwrap();
                    final(self)@ == (TabView {
                        rename_input: Some(if q > 0 {
                            input.take(q - 1) + input.skip(q)
                        } else {
                            input
                        }),
                        ..old(self)@
                    })
                },
            },
    {
        let input = match &self.rename_input {
            Some(i) => i.clone(),
            None => {
                return;
            },
        };
        let ic = chars_of(input.as_str());
        let n = ic.len();
        let suffix = match &self.rename_keyboard_suffix {
            Some(s) => s.clone(),
            None => {
                let kept = if n > 0 {
                    vstd::slice::slice_subrange(ic.as_slice(), 0, n - 1)
                } else {
                    ic.as_slice()
                };
                self.rename_input = Some(string_from_chars(kept));
                return;
            },
        };
        let sc = chars_of(suffix.as_str());
        if self.rename_replace_on_type {
            self.rename_input = Some(suffix);
            self.rename_replace_on_type = false;
            assert(suffix@.skip(0) =~= suffix@);
        } else if sc.len() == 0 {
            let kept = if n > 0 {
                vstd::slice::slice_subrange(ic.as_slice(), 0, n - 1)
            } else {
                ic.as_slice()
            };
            self.rename_input = Some(string_from_chars(kept));
            let ghost out = self.rename_input.unwrap()@;
            assert(out.skip(out.len() - suffix@.len()) =~= suffix@);
        } else {
            let q = edit_point_exec(ic.as_slice(), sc.as_slice());
            proof {
                if rename_keeps_suffix(old(self)@) {
                    lemma_erase_keeps_suffix(input@, suffix@);
                }
            }
            if q > 0 {
                let head = string_from_chars(vstd::slice::slice_subrange(ic.as_slice(), 0, q - 1));
                let tail = string_from_chars(vstd::slice::slice_subrange(ic.as_slice(), q, n));
                assert(tail@ =~= input@.skip(q as int));
                self.rename_input = Some(concat_texts(head.as_str(), tail.as_str()));
                assert(self.rename_input.unwrap()@ =~= input@.take(q - 1) + input@.skip(q as int));
                proof {
                    if rename_keeps_suffix(old(self)@) {
                        lemma_erase_keeps_suffix(input@, suffix@);
                    }
                }
            }
        }
    }

    /// Drops the entries at `path` from the listing, and from the
    /// selection.
    fn drop_path(&mut self, path: &str)
        ensures
            final(self)@ == (TabView {
                entries: without_path(old(self)@.entries, path@),
                selected: if old(self)@.selected matches Some(s) && same_path(s, path@) {
                    None
                } else {
                    old(self)@.selected
                },
                ..old(self)@
            }),
    {
        let ghost es = self.entries@;
        let ghost keep = |e: FileEntry| !same_path(e.path@, path@);
        let mut kept: Vec<FileEntry> = Vec::new();
        let mut rest: Vec<FileEntry> = Vec::new();
        std::mem::swap(&mut rest, &mut self.entries);
        let n = rest.len();
        let mut i: usize = 0;
        while rest.len() > 0
            invariant
                i <= n,
                n == es.len(),
                rest@ == es.skip(i as int),
                kept@ == es.take(i as int).filter(keep),
                keep == (|e: FileEntry| !same_path(e.path@, path@)),
            decreases rest.len(),
        {
            assert(es.skip(i as int).len() == n - i);
            let e = rest.remove(0);
            assert(e == es[i as int]);
            assert(rest@ =~= es.skip(i + 1));
            assert(es.take(i + 1).drop_last() =~= es.take(i as int));
            assert(es.take(i + 1).last() == e);
            if !same_path_exec(e.path.as_str(), path) {
                kept.push(e);
                assert(es.take(i + 1).filter(keep) == es.take(i as int).filter(keep).push(es[i as int])) by {
                    reveal(Seq::filter);
                }
            } else {
                assert(es.take(i + 1).filter(keep) == es.take(i as int).filter(keep)) by {
                    reveal(Seq::filter);
                }
            }
            i = i + 1;
        }
        assert(es.take(n as int) =~= es);
        assert(keep =~= (|e: FileEntry| !same_path(e.path@, path@)));
        assert(kept@ == without_path(es, path@));
        self.entries = kept;
        let clear = match &self.selected_path {
            Some(s) => same_path_exec(s.as_str(), path),
            None => false,
        };
        if clear {
            self.selected_path = None;
        }
    }

    /// Ends a rename without applying it; a new TailDrive folder that was
    /// only being named goes away again.
    pub fn cancel_rename(&mut self)
        ensures
            ({
                let v = old(self)@;
                let base = match (v.rename_input, v.pending_remote_folder) {
                    (Some(_), Some(path)) => TabView {
                        entries: without_path(v.entries, path),
                        selected: if v.selected matches Some(s) && same_path(s, path) {
                            None
                        } else {
                            v.selected
                        },
                        pending_remote_folder: None,
                        status: "New folder cancelled"@,
                        ..v
                    },
                    _ => v,
                };
                final(self)@ == (TabView {
                    rename_input: None,
                    rename_replace_on_type: false,
                    rename_keyboard_suffix: None,
                    ..base
                })
            }),
    {
        let pending = if self.rename_input.is_some() {
            match &self.pending_remote_folder {
                Some(p) => Some(p.clone()),
                None => None,
            }
        } else {
            None
        };
        if let Some(path) = pending {
            self.drop_path(path.as_str());
            self.pending_remote_folder = None;
            self.status = "New folder cancelled".to_string();
        }
        self.rename_input = None;
        self.rename_replace_on_type = false;
        self.rename_keyboard_suffix = None;
    }


    /// The index of the selected entry in the listing, if it is listed.
    pub fn selected_entry_index(&self) -> (r: Option<usize>)
        ensures
            match selected_index(self@) {
                Some(i) => r == Some(i as usize) && 0 <= i < self@.entries.len(),
                None => r is None,
            },
    {
        let path = match &self.selected_path {
            Some(p) => p,
            None => {
                return None;
            },
        };
        let ghost es = self.entries@;
        let mut i: usize = 0;
        assert(es.skip(0) == es);
        assert(self@.selected == Some(path@));
        while i < self.entries.len()
            invariant
                i <= es.len(),
                es == self.entries@,
                self@.selected == Some(path@),
                index_at(es, path@) == match index_at(es.skip(i as int), path@) {
                    Some(k) => Some(k + i),
                    None => None::<int>,
                },
            decreases es.len() - i,
        {
            assert(es.skip(i as int)[0] == es[i as int]);
            assert(es.skip(i as int).skip(1) == es.skip(i + 1));
            if same_path_exec(self.entries[i].path.as_str(), path.as_str()) {
                assert(index_at(es.skip(i as int), path@) == Some(0int));
                assert(self@.selected == Some(path@));
                assert(index_at(self@.entries, path@) == Some(i as int));
                return Some(i);
            }
            i = i + 1;
        }
        None
    }

    /// Selects the entry at `index`, if there is one.
    fn select_entry_at(&mut self, index: usize) -> (r: Option<usize>)
        ensures
            index < old(self)@.entries.len() ==> r == Some(index) && final(self)@ == selected_at(
                old(self)@,
                old(self)@.entries[index as int].path@,
            ),
            index >= old(self)@.entries.len() ==> r is None && final(self)@ == old(self)@,
    {
        if index >= self.entries.len() {
            return None;
        }
        let path = self.entries[index].path.clone();
        proof {
            lemma_entry_name_found(self@.entries, index as int, path@);
        }
        self.select_entry(path);
        Some(index)
    }

    /// Moves the selection by `delta` entries, staying within the listing;
    /// without a selection the first entry is selected. Answers the index
    /// selected, none for an empty listing.
    pub fn move_selection(&mut self, delta: isize) -> (r: Option<usize>)
        ensures
            old(self)@.entries.len() == 0 ==> r is None && final(self)@ == old(self)@,
            old(self)@.entries.len() > 0 ==> ({
                let n = old(self)@.entries.len() as int;
                let t = match selected_index(old(self)@) {
                    Some(i) => if i + delta < 0 {
                        0
                    } else if i + delta > n - 1 {
                        n - 1
                    } else {
                        i + delta
                    },
                    None => 0,
                };
                r == Some(t as usize) && final(self)@ == selected_at(old(self)@, old(self)@.entries[t].path@)
            }),
    {
        let n = self.entries.len();
        if n == 0 {
            return None;
        }
        let target: usize = match self.selected_entry_index() {
            Some(i) => {
                let moved = i as i128 + delta as i128;
                if moved < 0 {
                    0
                } else if moved > (n - 1) as i128 {
                    n - 1
                } else {
                    moved as usize
                }
            },
            None => 0,
        };
        self.select_entry_at(target)
    }

    /// Selects the first entry, if any.
    pub fn select_first_entry(&mut self) -> (r: Option<usize>)
        ensures
            old(self)@.entries.len() > 0 ==> r == Some(0usize) && final(self)@ == selected_at(
                old(self)@,
                old(self)@.entries[0].path@,
            ),
            old(self)@.entries.len() == 0 ==> r is None && final(self)@ == old(self)@,
    {
        self.select_entry_at(0)
    }

    /// Selects the last entry, if any.
    pub fn select_last_entry(&mut self) -> (r: Option<usize>)
        ensures
            old(self)@.entries.len() > 0 ==> r == Some((old(self)@.entries.len() - 1) as usize) && final(self)@
                == selected_at(old(self)@, old(self)@.entries.last().path@),
            old(self)@.entries.len() == 0 ==> r is None && final(self)@ == old(self)@,
    {
        let n = self.entries.len();
        if n == 0 {
            return None;
        }
        self.select_entry_at(n - 1)
    }

    fn cyclic_match_exec(&self, start: usize, prefix: &[char]) -> (r: Option<usize>)
        requires
            self@.entries.len() > 0,
            start < self@.entries.len(),
        ensures
            match cyclic_match(self@.entries, start as int, prefix@, 0) {
                Some(i) => r == Some(i as usize) && 0 <= i < self@.entries.len(),
                None => r is None,
            },
    {
        let n = self.entries.len();
        let ghost es = self.entries@;
        let mut offset: usize = 0;
        while offset < n
            invariant
                n == es.len(),
                es == self.entries@,
                start < n,
                offset <= n,
                cyclic_match(es, start as int, prefix@, 0) == cyclic_match(es, start as int, prefix@, offset as int),
            decreases n - offset,
        {
            let i = if start < n - offset {
                start + offset
            } else {
                start - (n - offset)
            };
            assert(i as int == (start + offset) % (n as int)) by (nonlinear_arith)
                requires
                    start < n,
                    offset < n,
                    i == if start < n - offset { start + offset } else { start - (n - offset) },
            {
                if start + offset < n {
                    assert((start + offset) % (n as int) == start + offset) by (nonlinear_arith)
                        requires 0 <= start + offset < n;
                } else {
                    assert((start + offset) % (n as int) == start + offset - n) by (nonlinear_arith)
                        requires n <= start + offset < 2 * n;
                }
            }
            let name = lowercase_chars(self.entries[i].name.as_str());
            let pl = prefix.len();
            if name.len() >= pl && same_chars(vstd::slice::slice_subrange(name.as_slice(), 0, pl), prefix) {
                return Some(i);
            }
            offset = offset + 1;
        }
        None
    }

    /// The type-ahead search text.
    pub fn typeahead_text(&self) -> (r: &str)
        ensures
            r@ == self@.typeahead,
    {
        self.typeahead_buffer.as_str()
    }

    /// Type-ahead: selects the entry whose name starts with the typed keys
    /// (see `typeahead_of`), at `now` milliseconds of a monotonic clock.
    /// While a rename goes on, for empty keys, keys holding a control
    /// character, or an empty listing, nothing changes. Answers the index
    /// selected afterwards.
    pub fn typeahead_select(&mut self, text: String, now: u64, rename_active: bool) -> (r: Option<usize>)
        ensures
            ({
                let incoming = lowercase(text@);
                if rename_active || text@.len() == 0 || old(self)@.entries.len() == 0 || exists|k: int|
                    0 <= k < incoming.len() && is_control(#[trigger] incoming[k]) {
                    final(self)@ == old(self)@ && r == match selected_index(old(self)@) {
                        Some(i) => Some(i as usize),
                        None => None::<usize>,
                    }
                } else {
                    final(self)@ == typeahead_of(old(self)@, incoming, now).0 && r == match typeahead_of(
                        old(self)@,
                        incoming,
                        now,
                    ).1 {
                        Some(k) => Some(k as usize),
                        None => None::<usize>,
                    }
                }
            }),
    {
        let current = self.selected_entry_index();
        if rename_active || chars_of(text.as_str()).len() == 0 || self.entries.len() == 0 {
            return current;
        }
        let incoming = lowercase_chars(text.as_str());
        if has_control(incoming.as_slice()) {
            return current;
        }
        self.typeahead_step(incoming, now, current)
    }

    #[verifier::spinoff_prover]
    #[verifier::rlimit(100)]
    fn typeahead_step(&mut self, incoming: Vec<char>, now: u64, current: Option<usize>) -> (r: Option<usize>)
        requires
            old(self)@.entries.len() > 0,
            match selected_index(old(self)@) {
                Some(i) => current == Some(i as usize) && 0 <= i < old(self)@.entries.len(),
                None => current is None,
            },
        ensures
            final(self)@ == typeahead_of(old(self)@, incoming@, now).0,
            r == match typeahead_of(old(self)@, incoming@, now).1 {
                Some(k) => Some(k as usize),
                None => None::<usize>,
            },
    {
        let ghost v = self@;
        let prefix = self.begin_typeahead(&incoming, now);
        let ghost typed = self@;
        let n = self.entries.len();
        let start = match current {
            Some(i) => i,
            None => 0,
        };
        assert(start as int == search_start(v));
        assert(typed.entries == v.entries);
        if let Some(i) = self.cyclic_match_exec(start, prefix.as_slice()) {
            assert(cyclic_match(v.entries, search_start(v), typeahead_prefix(v, incoming@, now), 0) == Some(
                i as int,
            ));
            proof {
                lemma_typeahead_hit(v, incoming@, now, i as int);
            }
            return self.select_entry_at(i);
        }
        proof {
            lemma_typeahead_retry(v, incoming@, now);
        }
        if prefix.len() > incoming.len() {
            self.set_typeahead_text(&incoming);
            let start2 = match current {
                Some(i) => if i + 1 < n {
                    i + 1
                } else {
                    0
                },
                None => 0,
            };
            proof {
                if let Some(i) = current {
                    assert(((i + 1) as int) % (n as int) == if i + 1 < n {
                        (i + 1) as int
                    } else {
                        0
                    }) by (nonlinear_arith)
                        requires
                            i < n,
                    ;
                }
            }
            assert(start2 as int == search_restart(v));
            let ghost again = self@;
            if let Some(i) = self.cyclic_match_exec(start2, incoming.as_slice()) {
                return self.select_entry_at(i);
            }
            return current;
        }
        current
    }

    /// Records the keys `incoming` at `now` in the search text.
    fn begin_typeahead(&mut self, incoming: &Vec<char>, now: u64) -> (prefix: Vec<char>)
        ensures
            prefix@ == typeahead_prefix(old(self)@, incoming@, now),
            final(self)@ == (TabView {
                typeahead: typeahead_prefix(old(self)@, incoming@, now),
                last_typeahead: Some(now),
                ..old(self)@
            }),
    {
        let prefix = self.typeahead_prefix_exec(incoming, now);
        self.typeahead_buffer = string_from_chars(prefix.as_slice());
        self.last_typeahead = Some(now);
        prefix
    }

    /// Replaces the search text.
    fn set_typeahead_text(&mut self, text: &Vec<char>)
        ensures
            final(self)@ == (TabView { typeahead: text@, ..old(self)@ }),
    {
        self.typeahead_buffer = string_from_chars(text.as_slice());
    }

    /// The search text after the keys `incoming` at `now`.
    fn typeahead_prefix_exec(&self, incoming: &Vec<char>, now: u64) -> (r: Vec<char>)
        ensures
            r@ == typeahead_prefix(self@, incoming@, now),
    {
        let continuation = match self.last_typeahead {
            Some(last) => now < last || now - last <= 1000,
            None => false,
        };
        if continuation {
            let mut p = chars_of(self.typeahead_buffer.as_str());
            let ghost before = p@;
            for j in 0..incoming.len()
                invariant
                    p@ == before + incoming@.take(j as int),
            {
                p.push(incoming[j]);
                assert(incoming@.take(j + 1) == incoming@.take(j as int).push(incoming@[j as int]));
            }
            assert(incoming@.take(incoming@.len() as int) == incoming@);
            p
        } else {
            incoming.clone()
        }
    }

    /// A touch on an entry: a folder opens at once; a file is selected,
    /// and a second touch within half a second opens it (see
    /// `click_entry`).
    pub fn touch_entry(&mut self, path: String, now: u64) -> (r: EntryActivation)
        requires
            !taildrive_parse_panics(path@),
            !taildrive_parse_panics(old(self)@.current),
        ensures
            ({
                let folder = entry_at(old(self)@.entries, path@) matches Some(e) && e.kind == EntryKind::Directory;
                if folder {
                    (final(self)@, r) == activation_of(old(self)@, path@, true)
                } else if is_double_click(old(self)@.last_click, path@, now) {
                    (final(self)@, r) == activation_of(TabView { last_click: None, ..old(self)@ }, path@, false)
                } else {
                    r == EntryActivation::Selected && final(self)@ == (TabView {
                        last_click: Some((path@, now)),
                        ..selected_at(old(self)@, path@)
                    })
                }
            }),
    {
        let folder = match self.find_entry(path.as_str(), false) {
            Some(i) => match self.entries[i].kind {
                EntryKind::Directory => true,
                _ => false,
            },
            None => false,
        };
        if folder {
            return self.activate_entry(path, true);
        }
        let double = match &self.last_click {
            Some((p, t)) => same_path_exec(p.as_str(), path.as_str()) && (now < *t || now - *t <= 500),
            None => false,
        };
        if double {
            self.last_click = None;
            self.activate_entry(path, false)
        } else {
            self.select_entry(path.clone());
            self.last_click = Some((path, now));
            EntryActivation::Selected
        }
    }

    /// Opens the selected entry (see `activate_entry`): a listed folder is
    /// navigated to, anything else is opened with the system's
    /// application. Without a selection nothing happens.
    pub fn activate_selected(&mut self) -> (r: Option<EntryActivation>)
        requires
            old(self)@.selected matches Some(p) ==> !taildrive_parse_panics(p),
            !taildrive_parse_panics(old(self)@.current),
        ensures
            match old(self)@.selected {
                Some(p) => {
                    let folder = entry_at(old(self)@.entries, p) matches Some(e) && e.kind == EntryKind::Directory;
                    r matches Some(a) && (final(self)@, a) == activation_of(old(self)@, p, folder)
                },
                None => r is None && final(self)@ == old(self)@,
            },
    {
        let path = match &self.selected_path {
            Some(p) => p.clone(),
            None => {
                return None;
            },
        };
        let folder = match self.find_entry(path.as_str(), false) {
            Some(i) => match self.entries[i].kind {
                EntryKind::Directory => true,
                _ => false,
            },
            None => false,
        };
        Some(self.activate_entry(path, folder))
    }

    /// Puts a TailDrive folder listing in place: sorted as the tab sorts,
    /// with its size in the status line.
    pub fn finish_taildrive_list(&mut self, entries: Vec<FileEntry>)
        ensures
            final(self)@ == (TabView {
                entries: sorted_entries(entries@, old(self)@.sort_field, old(self)@.sort_direction),
                status: decimal_of(entries@.len()) + " TailDrive item(s)"@,
                ..old(self)@
            }),
    {
        let n = entries.len();
        let count = decimal_chars(n as u128);
        let count = string_from_chars(count.as_slice());
        self.status = concat_texts(count.as_str(), " TailDrive item(s)");
        self.entries = entries;
        sort_entries(&mut self.entries, self.sort_field, self.sort_direction);
    }

    /// Records that a TailDrive listing failed with `error`: the entries
    /// shown stay, and the status line says whether TailDrive is still
    /// coming up (see `taildrive_reconnecting`) and how many cached entries
    /// are shown.
    pub fn fail_taildrive_list(&mut self, error: &str, profile_unready: bool)
        ensures
            final(self)@ == (TabView {
                status: list_failure_status(error@, profile_unready, old(self)@.entries.len()),
                ..old(self)@
            }),
    {
        let cached = self.entries.len();
        let reconnecting = profile_unready || contains_text(error, "not running") || contains_text(error, "not connected")
            || contains_text(error, "not currently available");
        let count = string_from_chars(decimal_chars(cached as u128).as_slice());
        self.status = if reconnecting {
            if cached == 0 {
                "Connecting to TailDrive…".to_owned()
            } else {
                let a = concat_texts("Reconnecting to TailDrive… Showing ", count.as_str());
                concat_texts(a.as_str(), " cached item(s).")
            }
        } else if cached == 0 {
            concat_texts("TailDrive: ", error)
        } else {
            let a = concat_texts("TailDrive unavailable: ", error);
            let b = concat_texts(a.as_str(), ". Showing ");
            let c = concat_texts(b.as_str(), count.as_str());
            concat_texts(c.as_str(), " cached item(s).")
        };
    }

    /// Whether the tab lists the folder at `location`.
    fn lists(&self, location: &str) -> (r: bool)
        ensures
            r == same_path(self@.current, location@),
    {
        same_path_exec(self.current_dir.as_str(), location)
    }

    /// Takes in a finished TailDrive delete of the item at `remote_path`
    /// from the folder `source_location`. Where the tab lists that folder,
    /// the item leaves the listing, nothing stays selected and the status
    /// says so, or the status tells why it failed. Answers whether the
    /// folder must be listed again.
    pub fn finish_remote_delete(&mut self, source_location: &str, remote_path: &str, result: Result<(), String>) -> (refresh: bool)
        ensures
            !same_path(old(self)@.current, source_location@) ==> !refresh && final(self)@ == old(self)@,
            same_path(old(self)@.current, source_location@) ==> match result {
                Ok(_) => refresh && final(self)@ == (TabView {
                    entries: without_remote_path(old(self)@.entries, remote_path@),
                    selected: None,
                    status: "Deleted from TailDrive"@,
                    ..old(self)@
                }),
                Err(e) => !refresh && final(self)@ == (TabView {
                    status: "TailDrive delete failed: "@ + e@,
                    ..old(self)@
                }),
            },
    {
        if !self.lists(source_location) {
            return false;
        }
        match result {
            Ok(()) => {
                self.drop_remote_path(remote_path);
                self.selected_path = None;
                self.status = "Deleted from TailDrive".to_owned();
                true
            },
            Err(e) => {
                self.status = concat_texts("TailDrive delete failed: ", e.as_str());
                false
            },
        }
    }

    /// Whether the entry at `index` is the TailDrive item at `remote_path`.
    fn entry_at_remote_path(&self, index: usize, remote_path: &str) -> (r: bool)
        requires
            index < self@.entries.len(),
        ensures
            r == at_remote_path(self@.entries[index as int], remote_path@),
    {
        match &self.entries[index].remote {
            Some(TaildriveLocation::Remote { remote_path: p, .. }) => same_text(p.as_str(), remote_path),
            _ => false,
        }
    }

    /// Drops the TailDrive items at `remote_path` from the listing.
    fn drop_remote_path(&mut self, remote_path: &str)
        ensures
            final(self)@ == (TabView { entries: without_remote_path(old(self)@.entries, remote_path@), ..old(self)@ }),
    {
        let ghost es = self.entries@;
        let mut all: Vec<FileEntry> = Vec::new();
        std::mem::swap(&mut all, &mut self.entries);
        let mut kept: Vec<FileEntry> = Vec::new();
        let ghost mut i: int = 0;
        assert(es.take(0) =~= Seq::<FileEntry>::empty());
        while all.len() > 0
            invariant
                0 <= i <= es.len(),
                all@ == es.skip(i),
                kept@ == without_remote_path(es.take(i), remote_path@),
            decreases all@.len(),
        {
            let e = all.remove(0);
            proof {
                assert(es.take(i + 1).drop_last() =~= es.take(i));
                assert(es.take(i + 1).last() == e);
                assert(all@ =~= es.skip(i + 1));
            }
            let here = match &e.remote {
                Some(TaildriveLocation::Remote { remote_path: p, .. }) => same_text(p.as_str(), remote_path),
                _ => false,
            };
            if !here {
                kept.push(e);
            }
            proof {
                i = i + 1;
            }
        }
        assert(es.take(i) =~= es);
        self.entries = kept;
    }

    /// Takes in a finished TailDrive rename of the item at `remote_path`
    /// in the folder `source_location` to `new_name`. Where the tab lists
    /// that folder, the first listed item at that path takes the new name
    /// and path and is selected, the rename ends and the status says so,
    /// or the status tells why it failed. Answers whether the folder must
    /// be listed again.
    pub fn finish_remote_rename(
        &mut self,
        source_location: &str,
        remote_path: &str,
        new_name: &str,
        result: Result<(), String>,
    ) -> (refresh: bool)
        ensures
            !same_path(old(self)@.current, source_location@) ==> !refresh && final(self)@ == old(self)@,
            same_path(old(self)@.current, source_location@) ==> match result {
                Err(e) => !refresh && final(self)@ == (TabView {
                    status: "TailDrive rename failed: "@ + e@,
                    ..old(self)@
                }),
                Ok(_) => refresh && final(self)@.entries.len() == old(self)@.entries.len() && match first_at_remote_path(
                    old(self)@.entries,
                    remote_path@,
                ) {
                    None => final(self)@ == (TabView { status: "Renamed: "@ + new_name@, ..rename_cleared(old(self)@) }),
                    Some(j) => {
                        &&& renamed_entry(
                            old(self)@.entries[j],
                            final(self)@.entries[j],
                            renamed_remote_path(remote_path@, new_name@),
                            new_name@,
                        )
                        &&& forall|k: int|
                            0 <= k < old(self)@.entries.len() && k != j ==> #[trigger] final(self)@.entries[k]
                                == old(self)@.entries[k]
                        &&& final(self)@ == (TabView {
                            status: "Renamed: "@ + new_name@,
                            ..selected_at(
                                rename_cleared(TabView { entries: final(self)@.entries, ..old(self)@ }),
                                final(self)@.entries[j].path@,
                            )
                        })
                    },
                },
            },
    {
        if !self.lists(source_location) {
            return false;
        }
        match result {
            Err(e) => {
                self.status = concat_texts("TailDrive rename failed: ", e.as_str());
                false
            },
            Ok(()) => {
                let new_remote = renamed_path_text(remote_path, new_name);
                let found = self.first_remote_index(remote_path);
                proof {
                    lemma_first_at_remote_path(self@.entries, remote_path@);
                }
                self.rename_input = None;
                self.rename_replace_on_type = false;
                self.rename_keyboard_suffix = None;
                if let Some(j) = found {
                    let path = self.rename_remote_entry(j, new_remote, new_name);
                    proof {
                        lemma_entry_name_found(self@.entries, j as int, path@);
                    }
                    self.select_entry(path);
                }
                self.status = concat_texts("Renamed: ", new_name);
                true
            },
        }
    }

    /// The index of the first listed TailDrive item at `remote_path`.
    fn first_remote_index(&self, remote_path: &str) -> (r: Option<usize>)
        ensures
            match r {
                Some(k) => first_at_remote_path(self@.entries, remote_path@) == Some(k as int) && k < self@.entries.len(),
                None => first_at_remote_path(self@.entries, remote_path@) is None,
            },
    {
        let ghost es = self.entries@;
        let mut i: usize = 0;
        assert(es.skip(0) == es);
        while i < self.entries.len()
            invariant
                i <= es.len(),
                es == self.entries@,
                first_at_remote_path(es, remote_path@) == match first_at_remote_path(es.skip(i as int), remote_path@) {
                    Some(k) => Some(k + i),
                    None => None::<int>,
                },
            decreases es.len() - i,
        {
            assert(es.skip(i as int)[0] == es[i as int]);
            assert(es.skip(i as int).skip(1) == es.skip(i + 1));
            if self.entry_at_remote_path(i, remote_path) {
                return Some(i);
            }
            i = i + 1;
        }
        None
    }

    /// Gives the TailDrive entry at `index` the name `new_name` and the
    /// remote path `new_remote` in the same share; answers its new path.
    fn rename_remote_entry(&mut self, index: usize, new_remote: String, new_name: &str) -> (path: String)
        requires
            index < old(self)@.entries.len(),
            old(self)@.entries[index as int].remote matches Some(l) && l@ is Remote,
        ensures
            final(self)@.entries.len() == old(self)@.entries.len(),
            renamed_entry(old(self)@.entries[index as int], final(self)@.entries[index as int], new_remote@, new_name@),
            forall|k: int|
                0 <= k < old(self)@.entries.len() && k != index ==> #[trigger] final(self)@.entries[k]
                    == old(self)@.entries[k],
            path@ == final(self)@.entries[index as int].path@,
            final(self)@ == (TabView { entries: final(self)@.entries, ..old(self)@ }),
    {
        let ghost es = self.entries@;
        let mut e = self.entries.remove(index);
        let loc = match &e.remote {
            Some(TaildriveLocation::Remote { profile_id, device_id, share, .. }) => TaildriveLocation::Remote {
                profile_id: profile_id.clone(),
                device_id: device_id.clone(),
                share: share.clone(),
                remote_path: new_remote,
            },
            _ => {
                proof {
                    assert(false);
                }
                TaildriveLocation::Root
            },
        };
        e.path = taildrive_path(&loc);
        e.name = new_name.to_owned();
        e.remote = Some(loc);
        let path = e.path.clone();
        self.entries.insert(index, e);
        proof {
            assert forall|k: int| 0 <= k < es.len() && k != index implies #[trigger] self@.entries[k] == es[k] by {
                if k < index {
                    assert(self@.entries[k] == es[k]);
                } else {
                    assert(self@.entries[k] == es[k]);
                }
            }
        }
        path
    }

    /// Takes in a finished TailDrive folder creation at `remote_path` in the
    /// folder `source_location`. Where the tab lists that folder, the new
    /// folder is selected and the status says so; on failure its stand-in
    /// entry goes, the naming ends and the status tells why. Answers
    /// whether the folder must be listed again.
    pub fn finish_remote_mkdir(&mut self, source_location: &str, remote_path: &str, result: Result<(), String>) -> (refresh: bool)
        requires
            !taildrive_parse_panics(source_location@),
        ensures
            !same_path(old(self)@.current, source_location@) ==> !refresh && final(self)@ == old(self)@,
            same_path(old(self)@.current, source_location@) ==> match result {
                Ok(_) => refresh && ({
                    let created = TabView {
                        pending_remote_folder: None,
                        status: "TailDrive folder created"@,
                        ..old(self)@
                    };
                    final(self)@ == match share_item_path(source_location@, remote_path@) {
                        Some(path) => selected_at(created, path),
                        None => created,
                    }
                }),
                Err(e) => !refresh && final(self)@ == (TabView {
                    entries: match share_item_path(source_location@, remote_path@) {
                        Some(path) => without_path(old(self)@.entries, path),
                        None => old(self)@.entries,
                    },
                    selected: match share_item_path(source_location@, remote_path@) {
                        Some(path) => if old(self)@.selected matches Some(s) && same_path(s, path) {
                            None
                        } else {
                            old(self)@.selected
                        },
                        None => old(self)@.selected,
                    },
                    pending_remote_folder: None,
                    rename_input: None,
                    rename_replace_on_type: false,
                    rename_keyboard_suffix: None,
                    status: "Cannot create TailDrive folder: "@ + e@,
                    ..old(self)@
                }),
            },
    {
        if !self.lists(source_location) {
            return false;
        }
        let path = share_item_path_text(source_location, remote_path);
        match result {
            Ok(()) => {
                self.pending_remote_folder = None;
                self.status = "TailDrive folder created".to_owned();
                if let Some(p) = path {
                    self.select_entry(p);
                }
                true
            },
            Err(e) => {
                if let Some(p) = path {
                    self.drop_path(p.as_str());
                }
                self.pending_remote_folder = None;
                self.rename_input = None;
                self.rename_replace_on_type = false;
                self.rename_keyboard_suffix = None;
                self.status = concat_texts("Cannot create TailDrive folder: ", e.as_str());
                false
            },
        }
    }

    /// Takes in a finished upload to `remote_path` from the folder
    /// `source_location`, of the kind and size `info` recorded (a file of
    /// no bytes when nothing was). Where the tab lists that TailDrive
    /// folder, the upload joins the listing unless an entry is at its path
    /// already, is selected, and the status says so; a failure shows why.
    /// Answers whether the folder must be listed again.
    pub fn finish_remote_upload(
        &mut self,
        source_location: &str,
        remote_path: &str,
        info: Option<(EntryKind, u64)>,
        source_was_cut: bool,
        result: Result<(), String>,
    ) -> (refresh: bool)
        requires
            !taildrive_parse_panics(source_location@),
        ensures
            !same_path(old(self)@.current, source_location@) ==> !refresh && final(self)@ == old(self)@,
            same_path(old(self)@.current, source_location@) ==> match result {
                Err(e) => !refresh && final(self)@ == (TabView {
                    status: "TailDrive upload failed: "@ + e@,
                    ..old(self)@
                }),
                Ok(_) => match parse_taildrive_spec(source_location@) {
                    Some(LocationView::Remote(p, d, s, _)) => {
                        let loc = LocationView::Remote(p, d, s, remote_path@);
                        let path = taildrive_path_of(loc);
                        let (is_dir, size) = match info {
                            Some((k, n)) => (k == EntryKind::Directory, n),
                            None => (false, 0u64),
                        };
                        &&& refresh
                        &&& entry_at(old(self)@.entries, path) is Some ==> final(self)@.entries == old(self)@.entries
                        &&& entry_at(old(self)@.entries, path) is None ==> final(self)@.entries == old(self)@.entries.push(
                            final(self)@.entries.last(),
                        ) && uploaded_entry(final(self)@.entries.last(), loc, uploaded_name(remote_path@), is_dir, size)
                        &&& final(self)@ == (TabView {
                            status: upload_status(uploaded_name(remote_path@), source_was_cut),
                            ..selected_at(TabView { entries: final(self)@.entries, ..old(self)@ }, path)
                        })
                    },
                    _ => !refresh && final(self)@ == old(self)@,
                },
            },
    {
        if !self.lists(source_location) {
            return false;
        }
        if let Err(e) = result {
            self.status = concat_texts("TailDrive upload failed: ", e.as_str());
            return false;
        }
        let (profile_id, device_id, share) = match parse_taildrive_path(source_location) {
            Some(TaildriveLocation::Remote { profile_id, device_id, share, .. }) => (profile_id, device_id, share),
            _ => {
                return false;
            },
        };
        proof {
            lemma_parsed_ids_nonempty(source_location@);
            lemma_taildrive_path_round_trip(LocationView::Remote(profile_id@, device_id@, share@, remote_path@));
        }
        let (is_dir, size) = match info {
            Some((kind, n)) => (match kind {
                EntryKind::Directory => true,
                _ => false,
            }, n),
            None => (false, 0),
        };
        let remote = TaildriveLocation::Remote { profile_id, device_id, share, remote_path: remote_path.to_owned() };
        let path = taildrive_path(&remote);
        let name = uploaded_name_text(remote_path);
        if self.find_entry(path.as_str(), false).is_none() {
            self.entries.push(FileEntry {
                path: path.clone(),
                name: name.clone(),
                kind: if is_dir {
                    EntryKind::Directory
                } else {
                    EntryKind::File
                },
                size,
                modified_sort_key: 0,
                remote: Some(remote),
                remote_modified: None,
            });
        }
        self.select_entry(path);
        self.status = if source_was_cut {
            let a = concat_texts("Uploaded: ", name.as_str());
            concat_texts(a.as_str(), ". Local source kept because cross-filesystem Cut is not atomic.")
        } else {
            concat_texts("Uploaded: ", name.as_str())
        };
        true
    }

    /// Takes in a finished copy inside TailDrive of `display_name` into the
    /// folder `target_location`. Where the tab lists that folder the status
    /// says how it went. Answers whether the folder must be listed again.
    pub fn finish_remote_copy(
        &mut self,
        target_location: &str,
        display_name: &str,
        source_was_cut: bool,
        result: Result<(), String>,
    ) -> (refresh: bool)
        ensures
            !same_path(old(self)@.current, target_location@) ==> !refresh && final(self)@ == old(self)@,
            same_path(old(self)@.current, target_location@) ==> match result {
                Ok(_) => refresh && final(self)@ == (TabView {
                    status: if source_was_cut {
                        "Copied in TailDrive: "@ + display_name@ + ". Remote source kept for safety."@
                    } else {
                        "Copied in TailDrive: "@ + display_name@
                    },
                    ..old(self)@
                }),
                Err(e) => !refresh && final(self)@ == (TabView {
                    status: "TailDrive copy failed: "@ + e@,
                    ..old(self)@
                }),
            },
    {
        if !self.lists(target_location) {
            return false;
        }
        match result {
            Ok(()) => {
                let a = concat_texts("Copied in TailDrive: ", display_name);
                self.status = if source_was_cut {
                    concat_texts(a.as_str(), ". Remote source kept for safety.")
                } else {
                    a
                };
                true
            },
            Err(e) => {
                self.status = concat_texts("TailDrive copy failed: ", e.as_str());
                false
            },
        }
    }

    /// Starts loading a TailDrive location in this tab: the listing
    /// empties, and the selection, a rename, a pending TailDrive folder or
    /// delete and the search all end.
    pub fn begin_taildrive_load(&mut self)
        ensures
            final(self)@ == (TabView {
                entries: Seq::empty(),
                selected: None,
                rename_input: None,
                pending_remote_folder: None,
                pending_remote_delete: None,
                search_input: Seq::empty(),
                search_active: false,
                ..old(self)@
            }),
    {
        self.selected_path = None;
        self.rename_input = None;
        self.pending_remote_folder = None;
        self.pending_remote_delete = None;
        self.search_input = String::new();
        self.search_active = false;
        self.entries = Vec::new();
    }

    /// Shows a listing of TailDrive folders, sorted as the tab sorts, with
    /// the given status line.
    pub fn show_taildrive_level(&mut self, entries: Vec<FileEntry>, status: String)
        ensures
            final(self)@ == (TabView {
                entries: sorted_entries(entries@, old(self)@.sort_field, old(self)@.sort_direction),
                status: status@,
                ..old(self)@
            }),
    {
        self.entries = entries;
        sort_entries(&mut self.entries, self.sort_field, self.sort_direction);
        self.status = status;
    }

    /// Takes in a finished local file command (see `after_local_event`);
    /// only a tab that shows the folder the command was given in changes.
    /// Answers whether that folder must be read again.
    pub fn apply_local_file_event(&mut self, event: LocalFileEvent, on_android: bool) -> (reload: bool)
        ensures
            same_path(old(self)@.current, event.command.current_spec()) ==> (final(self)@, reload) == after_local_event(
                old(self)@,
                event.command,
                event.result,
                on_android,
            ),
            !same_path(old(self)@.current, event.command.current_spec()) ==> !reload && final(self)@ == old(self)@,
    {
        if !self.lists(event.command.current().as_str()) {
            return false;
        }
        let LocalFileEvent { command, result } = event;
        if let Err(e) = result {
            let label = match &command {
                LocalFileCommand::CreateDir { .. } => "Create folder failed",
                LocalFileCommand::CopyMove { .. } => "Paste failed",
                LocalFileCommand::Delete { .. } => if on_android {
                    "Delete failed"
                } else {
                    "Move to Trash failed"
                },
                LocalFileCommand::Rename { .. } => "Rename failed",
            };
            let a = concat_texts(label, ": ");
            self.status = concat_texts(a.as_str(), e.as_str());
            return false;
        }
        match command {
            LocalFileCommand::CreateDir { path, .. } => {
                let rename = match file_name(path.as_str()) {
                    Some(n) => n,
                    None => "New folder".to_owned(),
                };
                self.selected_path = Some(path);
                self.rename_input = Some(rename);
                self.rename_replace_on_type = true;
                self.rename_keyboard_suffix = Some(String::new());
            },
            LocalFileCommand::CopyMove { destination, .. } => {
                self.selected_path = Some(destination);
            },
            LocalFileCommand::Delete { .. } => {
                self.selected_path = None;
            },
            LocalFileCommand::Rename { destination, .. } => {
                self.rename_input = None;
                self.rename_replace_on_type = false;
                self.rename_keyboard_suffix = None;
                self.selected_path = Some(destination);
            },
        }
        true
    }

    /// Whether a search result still belongs in the tab: it answers the
    /// latest search (`generation` is `current_generation`), of the folder
    /// the tab shows, for the query the tab holds (both trimmed), while the
    /// search is on.
    pub fn accepts_search_result(&self, generation: u64, current_generation: u64, dir: &str, query: &str) -> (r: bool)
        ensures
            r == (generation == current_generation && same_path(self@.current, dir@) && trim(self@.search_input)
                == trim(query@) && self@.search_active),
    {
        if generation != current_generation || !self.search_active || !self.lists(dir) {
            return false;
        }
        let a = trim_chars(chars_of(self.search_input.as_str()).as_slice());
        let b = trim_chars(chars_of(query).as_slice());
        same_chars(a.as_slice(), b.as_slice())
    }

    /// Gives up on a restored folder that is gone: the tab moves to the
    /// fallback folder and keeps a warning that says why.
    pub fn fallback_restored_location(&mut self, original: &str, reason: &str, fallback: String) -> (r: String)
        requires
            !taildrive_parse_panics(original@),
            !taildrive_parse_panics(fallback@),
        ensures
            r@ == fallback@,
            final(self)@ == (TabView {
                current: fallback@,
                address: display_path_of(fallback@),
                entries: Seq::empty(),
                selected: None,
                search_input: Seq::empty(),
                search_active: false,
                rename_input: None,
                restore_validation_pending: false,
                restore_warning: Some(
                    "Restored location is unavailable: "@ + display_path_of(original@) + " ("@ + reason@
                        + ") — opened "@ + display_path_of(fallback@) + " instead"@,
                ),
                ..old(self)@
            }),
    {
        let shown_original = display_path(original);
        let shown_fallback = display_path(fallback.as_str());
        let w = concat_texts("Restored location is unavailable: ", shown_original.as_str());
        let w = concat_texts(w.as_str(), " (");
        let w = concat_texts(w.as_str(), reason);
        let w = concat_texts(w.as_str(), ") — opened ");
        let w = concat_texts(w.as_str(), shown_fallback.as_str());
        let w = concat_texts(w.as_str(), " instead");
        self.address_input = shown_fallback;
        self.current_dir = fallback.clone();
        self.entries = Vec::new();
        self.selected_path = None;
        self.search_input = String::new();
        self.search_active = false;
        self.rename_input = None;
        self.restore_validation_pending = false;
        self.restore_warning = Some(w);
        fallback
    }
}


/// Going back after opening a folder returns to where the tab was, with
/// the opened folder next for going forward; going forward then lands on
/// the opened folder with the same history as right after opening it.
pub proof fn lemma_history_round_trip(h: History, path: Seq<char>)
    ensures
        history_after_back(history_after_open(h, path)) == (History {
            current: h.current,
            back: h.back,
            forward: seq![path],
        }),
        history_after_forward(history_after_back(history_after_open(h, path))) == history_after_open(h, path),
{
    assert(h.back.push(h.current).drop_last() =~= h.back);
    assert(Seq::<Seq<char>>::empty().push(path) =~= seq![path]);
    assert(seq![path].drop_last() =~= Seq::<Seq<char>>::empty());
}

/// Going forward undoes going back, and going back undoes going forward.
pub proof fn lemma_back_forward_inverse(h: History)
    ensures
        h.back.len() > 0 ==> history_after_forward(history_after_back(h)) == h,
        h.forward.len() > 0 ==> history_after_back(history_after_forward(h)) == h,
{
    if h.back.len() > 0 {
        assert(h.back.drop_last().push(h.back.last()) =~= h.back);
        assert(h.forward.push(h.current).drop_last() =~= h.forward);
    }
    if h.forward.len() > 0 {
        assert(h.forward.drop_last().push(h.forward.last()) =~= h.forward);
        assert(h.back.push(h.current).drop_last() =~= h.back);
    }
}


/// The tab once a set of tailnet profiles has been kept and the others
/// removed: places of removed profiles leave its history, its selection
/// is cleared if it was one, and a tab standing in one goes back to the
/// TailDrive root with a status saying so (the flag tells which).
#[verifier::opaque]
pub open spec fn without_removed_profiles(v: TabView, ids: Seq<Seq<char>>) -> (TabView, bool) {
    let kept = TabView {
        back: paths_kept(v.back, ids),
        forward: paths_kept(v.forward, ids),
        selected: match v.selected {
            Some(p) => if of_removed_profile(p, ids) {
                None
            } else {
                Some(p)
            },
            None => None,
        },
        ..v
    };
    if of_removed_profile(v.current, ids) {
        (
            TabView {
                status: "Tailnet removed; opened TD root"@,
                ..moved_to(kept, taildrive_path_of(LocationView::Root))
            },
            true,
        )
    } else {
        (kept, false)
    }
}

/// Forgetting removed profiles keeps a tab's id and group.
pub proof fn lemma_forgetting_keeps_identity(v: TabView, ids: Seq<Seq<char>>)
    ensures
        without_removed_profiles(v, ids).0.id == v.id,
        without_removed_profiles(v, ids).0.group_id == v.group_id,
{
    reveal(without_removed_profiles);
}

impl TabState {
    /// Forgets what the tab held of tailnet profiles that are not among
    /// `profile_ids`; answers whether the tab had to leave its folder.
    pub fn forget_removed_profiles(&mut self, profile_ids: &Vec<String>) -> (reset: bool)
        requires
            !taildrive_parse_panics(old(self)@.current),
            paths_showable(old(self)@.back),
            paths_showable(old(self)@.forward),
            old(self)@.selected matches Some(p) ==> !taildrive_parse_panics(p),
        ensures
            final(self)@ == without_removed_profiles(old(self)@, texts(profile_ids@)).0,
            reset == without_removed_profiles(old(self)@, texts(profile_ids@)).1,
    {
        self.back_stack = keep_paths_of_profiles(&self.back_stack, profile_ids);
        self.forward_stack = keep_paths_of_profiles(&self.forward_stack, profile_ids);
        let clear = match &self.selected_path {
            Some(p) => is_of_removed_profile(p.as_str(), profile_ids),
            None => false,
        };
        if clear {
            self.selected_path = None;
        }
        if is_of_removed_profile(self.current_dir.as_str(), profile_ids) {
            let root = taildrive_path(&TaildriveLocation::Root);
            proof {
                lemma_taildrive_path_round_trip(LocationView::Root);
            }
            self.set_current_dir(root);
            self.status = "Tailnet removed; opened TD root".to_owned();
            proof {
                reveal(without_removed_profiles);
            }
            true
        } else {
            proof {
                reveal(without_removed_profiles);
            }
            false
        }
    }
}

} // verus!
