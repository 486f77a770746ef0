use vstd::prelude::*;
use vstd::arithmetic::power2::{lemma2_to64, lemma2_to64_rest, lemma_pow2_unfold, pow2};
use vstd::utf8::is_ascii_chars;
use crate::archive::{archive_display_of, parse_virtual_path, parse_virtual_spec};
use crate::paths::{extension, file_name, path_extension, path_file_name};
use crate::taildrive::{
    LocationView, TaildriveLocation, parse_taildrive_path, parse_taildrive_spec, taildrive_display_of, taildrive_display_path,
    taildrive_parse_panics,
};
use crate::text::{
    backslash_to_slash, chars_of, lower_chars, lowered, spells, decimal_chars, decimal_digit, decimal_of,
    slashes_for_backslashes, string_from_chars,
};

verus! {

/// The human-readable form of an internal path: an archive location, a
/// TailDrive location, or the path itself with `/` for every `\`.
pub open spec fn display_path_of(path: Seq<char>) -> Seq<char> {
    match parse_virtual_spec(path) {
        Some(l) => archive_display_of(l),
        None => match parse_taildrive_spec(path) {
            Some(loc) => taildrive_display_of(loc),
            None => backslash_to_slash(path),
        },
    }
}

/// Whether showing this path would stop on a TailDrive component that
/// cannot be sliced into byte pairs.
pub open spec fn display_path_panics(path: Seq<char>) -> bool {
    parse_virtual_spec(path) is None && taildrive_parse_panics(path)
}

/// The human-readable form of an internal path.
pub fn display_path(path: &str) -> (out: String)
    requires
        !display_path_panics(path@),
    ensures
        out@ == display_path_of(path@),
{
    if let Some(location) = parse_virtual_path(path) {
        return crate::archive::display_path(&location);
    }
    match parse_taildrive_path(path) {
        Some(location) => taildrive_display_path(&location),
        None => {
            let cs = chars_of(path);
            let v = slashes_for_backslashes(cs.as_slice());
            string_from_chars(v.as_slice())
        },
    }
}

/// What a directory entry is on disk.
#[derive(Debug, Clone, Copy, PartialEq, Eq, Structural)]
pub enum EntryKind {
    Directory,
    File,
    Symlink,
    Other,
}

/// The page the window shows.
#[derive(Debug, Clone, Copy, PartialEq, Eq, Structural)]
pub enum AppPage {
    Files,
    Settings,
}

impl Default for AppPage {
    fn default() -> (r: Self)
        ensures
            r == AppPage::Files,
    {
        AppPage::Files
    }
}

/// Where the settings page was opened from.
#[derive(Debug, Clone, Copy, PartialEq, Eq, Structural)]
pub enum SettingsEntryPoint {
    General,
    ActionGuide,
    DeviceSync,
}

impl Default for SettingsEntryPoint {
    fn default() -> (r: Self)
        ensures
            r == SettingsEntryPoint::General,
    {
        SettingsEntryPoint::General
    }
}

/// The kind of content an entry is shown as.
#[derive(Debug, Clone, Copy, PartialEq, Eq, Structural)]
pub enum FileCategory {
    Folder,
    Text,
    Image,
    Video,
    Audio,
    Archive,
    Code,
    Spreadsheet,
    Presentation,
    Json,
    Network,
    Symlink,
    Generic,
    Other,
}

/// The column a listing is sorted by.
#[derive(Debug, Clone, Copy, PartialEq, Eq, Structural)]
pub enum SortField {
    Name,
    DateModified,
    Type,
    Size,
}

impl Default for SortField {
    fn default() -> (r: Self)
        ensures
            r == SortField::Name,
    {
        SortField::Name
    }
}

/// The order of a sorted listing.
#[derive(Debug, Clone, Copy, PartialEq, Eq, Structural)]
pub enum SortDirection {
    Ascending,
    Descending,
}

impl Default for SortDirection {
    fn default() -> (r: Self)
        ensures
            r == SortDirection::Ascending,
    {
        SortDirection::Ascending
    }
}

impl SortDirection {
    /// The arrow shown beside a sorted column header.
    pub open spec fn symbol_of(self) -> Seq<char> {
        match self {
            SortDirection::Ascending => "↑"@,
            SortDirection::Descending => "↓"@,
        }
    }

    /// The arrow shown beside a sorted column header.
    pub fn symbol(self) -> (r: &'static str)
        ensures
            r@ == self.symbol_of(),
    {
        match self {
            SortDirection::Ascending => "↑",
            SortDirection::Descending => "↓",
        }
    }
}

/// 1024 to the power `k`.
pub open spec fn kib_pow(k: nat) -> nat
    decreases k,
{
    if k == 0 {
        1
    } else {
        1024 * kib_pow((k - 1) as nat)
    }
}

/// The smallest `s >= k` (and at most 64) for which `b / 2^s` fits in the
/// 53 significant bits of a double.
pub open spec fn double_shift(b: nat, k: nat) -> nat
    decreases 64 - k,
{
    if k >= 64 || b / pow2(k) < pow2(53) {
        k
    } else {
        double_shift(b, k + 1)
    }
}

/// `n / d` rounded to the nearest integer, ties to the even one.
pub open spec fn div_round_even(n: nat, d: nat) -> nat {
    let q = n / d;
    let r = n % d;
    if r * 2 > d || (r * 2 == d && q % 2 == 1) {
        q + 1
    } else {
        q
    }
}

/// The value a natural number takes as a double: rounded to 53
/// significant bits, ties to even.
pub open spec fn nearest_double(b: nat) -> nat {
    let p = pow2(double_shift(b, 0));
    div_round_even(b, p) * p
}

/// The unit a size is shown in: the largest power of 1024 at or below it,
/// from `u` up to TB.
pub open spec fn size_unit(v: nat, u: nat) -> nat
    decreases 4 - u,
{
    if u >= 4 || v < kib_pow(u + 1) {
        u
    } else {
        size_unit(v, u + 1)
    }
}

/// The name of a size unit.
pub open spec fn unit_name(u: nat) -> Seq<char> {
    if u == 0 {
        "B"@
    } else if u == 1 {
        "KB"@
    } else if u == 2 {
        "MB"@
    } else if u == 3 {
        "GB"@
    } else {
        "TB"@
    }
}

/// A byte count for people: whole bytes below 1 KB, else the size in the
/// largest fitting unit (up to TB) with one decimal, rounded the way a
/// double prints (`{:.1}`, ties to even).
pub open spec fn size_text(bytes: nat) -> Seq<char> {
    let v = nearest_double(bytes);
    let u = size_unit(v, 0);
    if u == 0 {
        decimal_of(bytes) + " B"@
    } else {
        let tenths = div_round_even(v * 10, kib_pow(u));
        decimal_of(tenths / 10) + seq!['.', decimal_digit((tenths % 10) as int), ' '] + unit_name(u)
    }
}

proof fn lemma_div_halves(b: nat, p: nat)
    requires
        p >= 1,
    ensures
        b / p >= 2 ==> p * 2 <= b,
{
    if b / p >= 2 {
        assert(b / p * p <= b) by (nonlinear_arith)
            requires
                p >= 1,
        ;
        assert(b / p * p >= 2 * p) by (nonlinear_arith)
            requires
                b / p >= 2,
                p >= 1,
        ;
    }
}

/// The power of two that brings a 64-bit count into 53 bits.
fn double_scale(b: u128) -> (p: u128)
    requires
        b < 0x1_0000_0000_0000_0000,
    ensures
        p == pow2(double_shift(b as nat, 0)),
        p >= 1,
        p <= 0x1_0000_0000_0000_0000,
{
    let mut k: u128 = 0;
    let mut p: u128 = 1;
    proof {
        lemma2_to64();
        lemma2_to64_rest();
    }
    while k < 64 && b / p >= 0x20_0000_0000_0000
        invariant
            k <= 64,
            p == pow2(k as nat),
            double_shift(b as nat, 0) == double_shift(b as nat, k as nat),
            1 <= p <= 0x1_0000_0000_0000_0000,
            b < 0x1_0000_0000_0000_0000,
            pow2(53) == 0x20_0000_0000_0000,
            pow2(64) == 0x1_0000_0000_0000_0000,
        decreases 64 - k,
    {
        proof {
            lemma_div_halves(b as nat, p as nat);
        }
        p = p * 2;
        k = k + 1;
        proof {
            lemma_pow2_unfold(k as nat);
        }
    }
    p
}

/// `n / d` rounded to the nearest integer, ties to even.
fn div_round_even_exec(n: u128, d: u128) -> (r: u128)
    requires
        1 <= d <= 0x1_0000_0000_0000_0000_0000,
        n < 0x1_0000_0000_0000_0000_0000_0000_0000,
    ensures
        r == div_round_even(n as nat, d as nat),
{
    let q = n / d;
    let r = n % d;
    if r * 2 > d || (r * 2 == d && q % 2 == 1) {
        q + 1
    } else {
        q
    }
}

/// A byte count for people, such as `512 B` or `1.5 KB`.
pub fn format_size(bytes: u64) -> (out: String)
    ensures
        out@ == size_text(bytes as nat),
{
    let b = bytes as u128;
    let p = double_scale(b);
    let q = div_round_even_exec(b, p);
    assert(q * p <= 0x2_0000_0000_0000_0000) by (nonlinear_arith)
        requires
            q == div_round_even(b as nat, p as nat),
            p >= 1,
            b < 0x1_0000_0000_0000_0000,
            p <= 0x1_0000_0000_0000_0000,
    {
        assert(b / p * p <= b);
    }
    let v = q * p;
    assert(kib_pow(0) == 1);
    assert(kib_pow(1) == 0x400);
    assert(kib_pow(2) == 0x10_0000);
    assert(kib_pow(3) == 0x4000_0000);
    assert(kib_pow(4) == 0x100_0000_0000);
    let (unit, scale): (u128, u128) = if v < 0x400 {
        (0, 1)
    } else if v < 0x10_0000 {
        (1, 0x400)
    } else if v < 0x4000_0000 {
        (2, 0x10_0000)
    } else if v < 0x100_0000_0000 {
        (3, 0x4000_0000)
    } else {
        (4, 0x100_0000_0000)
    };
    assert(size_unit(v as nat, 0) == unit) by {
        reveal_with_fuel(size_unit, 5);
    }
    assert(scale == kib_pow(unit as nat));
    let mut out: Vec<char>;
    if unit == 0 {
        out = decimal_chars(bytes as u128);
        out.push(' ');
        out.push('B');
        proof {
            reveal_strlit(" B");
        }
        assert(out@ =~= decimal_of(bytes as nat) + " B"@);
    } else {
        let tenths = div_round_even_exec(v * 10, scale);
        out = decimal_chars(tenths / 10);
        out.push('.');
        out.push(((48 + tenths % 10) as u8) as char);
        out.push(' ');
        proof {
            reveal_strlit("B");
            reveal_strlit("KB");
            reveal_strlit("MB");
            reveal_strlit("GB");
            reveal_strlit("TB");
        }
        if unit == 1 {
            out.push('K');
        } else if unit == 2 {
            out.push('M');
        } else if unit == 3 {
            out.push('G');
        } else {
            out.push('T');
        }
        out.push('B');
        assert(out@ =~= decimal_of((tenths / 10) as nat) + seq!['.', decimal_digit((tenths % 10) as int), ' '] + unit_name(unit as nat));
    }
    string_from_chars(out.as_slice())
}


/// An entry of a listing: where it is, its name, what it is, its size and
/// modification key, and, for TailDrive entries, the remote location and the
/// remote modification stamp that may authorize a cached copy.
#[derive(Debug, Clone)]
pub struct FileEntry {
    pub path: String,
    pub name: String,
    pub kind: EntryKind,
    pub size: u64,
    pub modified_sort_key: u64,
    pub remote: Option<TaildriveLocation>,
    pub remote_modified: Option<String>,
}

/// The category a lowercase file extension belongs to.
pub open spec fn extension_category(e: Seq<char>) -> FileCategory {
    if e == "txt"@ || e == "md"@ || e == "rtf"@ || e == "log"@ || e == "ini"@ || e == "cfg"@ {
        FileCategory::Text
    } else if e == "png"@ || e == "jpg"@ || e == "jpeg"@ || e == "gif"@ || e == "bmp"@ || e
        == "webp"@ || e == "svg"@ || e == "heic"@ || e == "avif"@ {
        FileCategory::Image
    } else if e == "mp4"@ || e == "mkv"@ || e == "mov"@ || e == "avi"@ || e == "webm"@ || e
        == "m4v"@ {
        FileCategory::Video
    } else if e == "mp3"@ || e == "wav"@ || e == "flac"@ || e == "aac"@ || e == "m4a"@ || e
        == "ogg"@ || e == "opus"@ {
        FileCategory::Audio
    } else if e == "zip"@ || e == "7z"@ || e == "rar"@ || e == "tar"@ || e == "gz"@ || e
        == "bz2"@ || e == "xz"@ || e == "zst"@ {
        FileCategory::Archive
    } else if e == "rs"@ || e == "c"@ || e == "h"@ || e == "cpp"@ || e == "hpp"@ || e == "py"@
        || e == "js"@ || e == "ts"@ || e == "tsx"@ || e == "jsx"@ || e == "java"@ || e == "kt"@
        || e == "go"@ || e == "zig"@ || e == "html"@ || e == "css"@ || e == "sh"@ || e
        == "ps1"@ {
        FileCategory::Code
    } else if e == "xls"@ || e == "xlsx"@ || e == "xlsm"@ || e == "ods"@ || e == "csv"@ {
        FileCategory::Spreadsheet
    } else if e == "ppt"@ || e == "pptx"@ || e == "odp"@ {
        FileCategory::Presentation
    } else if e == "json"@ || e == "jsonc"@ || e == "toml"@ || e == "yaml"@ || e == "yml"@ || e
        == "xml"@ {
        FileCategory::Json
    } else {
        FileCategory::Generic
    }
}

/// The category of an entry: TailDrive profiles and devices are network
/// locations; folders, links and other non-files go by their kind; a file
/// goes by its extension in any ASCII case.
pub open spec fn category_of(name: Seq<char>, kind: EntryKind, remote: Option<LocationView>) -> FileCategory {
    if remote matches Some(LocationView::Profile(_)) || remote matches Some(LocationView::Device(_, _)) {
        FileCategory::Network
    } else {
        match kind {
            EntryKind::Directory => FileCategory::Folder,
            EntryKind::Symlink => FileCategory::Symlink,
            EntryKind::Other => FileCategory::Other,
            EntryKind::File => extension_category(
                lowered(
                    match path_extension(name) {
                        Some(e) => e,
                        None => Seq::empty(),
                    },
                ),
            ),
        }
    }
}

/// The words that describe a category in the type column.
pub open spec fn category_label(c: FileCategory) -> Seq<char> {
    match c {
        FileCategory::Folder => "File folder"@,
        FileCategory::Text => "Text document"@,
        FileCategory::Image => "Image"@,
        FileCategory::Video => "Video"@,
        FileCategory::Audio => "Audio"@,
        FileCategory::Archive => "Archive"@,
        FileCategory::Code => "Source file"@,
        FileCategory::Spreadsheet => "Spreadsheet"@,
        FileCategory::Presentation => "Presentation"@,
        FileCategory::Json => "Structured data"@,
        FileCategory::Network => "Network location"@,
        FileCategory::Symlink => "Symbolic link"@,
        FileCategory::Generic => "File"@,
        FileCategory::Other => "Other"@,
    }
}

fn extension_category_exec(e: &[char]) -> (r: FileCategory)
    ensures
        r == extension_category(e@),
{
    if spells(e, "txt") || spells(e, "md") || spells(e, "rtf") || spells(e, "log") || spells(e, "ini")
        || spells(e, "cfg") {
        FileCategory::Text
    } else if spells(e, "png") || spells(e, "jpg") || spells(e, "jpeg") || spells(e, "gif")
        || spells(e, "bmp") || spells(e, "webp") || spells(e, "svg") || spells(e, "heic")
        || spells(e, "avif") {
        FileCategory::Image
    } else if spells(e, "mp4") || spells(e, "mkv") || spells(e, "mov") || spells(e, "avi")
        || spells(e, "webm") || spells(e, "m4v") {
        FileCategory::Video
    } else if spells(e, "mp3") || spells(e, "wav") || spells(e, "flac") || spells(e, "aac")
        || spells(e, "m4a") || spells(e, "ogg") || spells(e, "opus") {
        FileCategory::Audio
    } else if spells(e, "zip") || spells(e, "7z") || spells(e, "rar") || spells(e, "tar")
        || spells(e, "gz") || spells(e, "bz2") || spells(e, "xz") || spells(e, "zst") {
        FileCategory::Archive
    } else if spells(e, "rs") || spells(e, "c") || spells(e, "h") || spells(e, "cpp")
        || spells(e, "hpp") || spells(e, "py") || spells(e, "js") || spells(e, "ts")
        || spells(e, "tsx") || spells(e, "jsx") || spells(e, "java") || spells(e, "kt")
        || spells(e, "go") || spells(e, "zig") || spells(e, "html") || spells(e, "css")
        || spells(e, "sh") || spells(e, "ps1") {
        FileCategory::Code
    } else if spells(e, "xls") || spells(e, "xlsx") || spells(e, "xlsm") || spells(e, "ods")
        || spells(e, "csv") {
        FileCategory::Spreadsheet
    } else if spells(e, "ppt") || spells(e, "pptx") || spells(e, "odp") {
        FileCategory::Presentation
    } else if spells(e, "json") || spells(e, "jsonc") || spells(e, "toml") || spells(e, "yaml")
        || spells(e, "yml") || spells(e, "xml") {
        FileCategory::Json
    } else {
        FileCategory::Generic
    }
}

/// The words that describe a category in the type column.
pub fn category_label_exec(c: FileCategory) -> (r: &'static str)
    ensures
        r@ == category_label(c),
{
    match c {
        FileCategory::Folder => "File folder",
        FileCategory::Text => "Text document",
        FileCategory::Image => "Image",
        FileCategory::Video => "Video",
        FileCategory::Audio => "Audio",
        FileCategory::Archive => "Archive",
        FileCategory::Code => "Source file",
        FileCategory::Spreadsheet => "Spreadsheet",
        FileCategory::Presentation => "Presentation",
        FileCategory::Json => "Structured data",
        FileCategory::Network => "Network location",
        FileCategory::Symlink => "Symbolic link",
        FileCategory::Generic => "File",
        FileCategory::Other => "Other",
    }
}

impl FileEntry {
    /// The category this entry is shown as.
    pub open spec fn category_spec(&self) -> FileCategory {
        category_of(
            self.name@,
            self.kind,
            match self.remote {
                Some(l) => Some(l@),
                None => None,
            },
        )
    }

    /// The category this entry is shown as.
    pub fn category(&self) -> (r: FileCategory)
        ensures
            r == self.category_spec(),
    {
        let network = match &self.remote {
            Some(TaildriveLocation::Profile { .. }) => true,
            Some(TaildriveLocation::Device { .. }) => true,
            _ => false,
        };
        if network {
            return FileCategory::Network;
        }
        match self.kind {
            EntryKind::Directory => FileCategory::Folder,
            EntryKind::Symlink => FileCategory::Symlink,
            EntryKind::Other => FileCategory::Other,
            EntryKind::File => {
                let e = match extension(self.name.as_str()) {
                    Some(e) => chars_of(e.as_str()),
                    None => Vec::new(),
                };
                let lower = lower_chars(e.as_slice());
                extension_category_exec(lower.as_slice())
            },
        }
    }

    /// The type column's text for this entry.
    pub fn kind_label(&self) -> (r: &'static str)
        ensures
            r@ == category_label(self.category_spec()),
    {
        category_label_exec(self.category())
    }

    /// The size column's text: empty for folders, else the formatted size.
    pub fn size_label(&self) -> (r: String)
        ensures
            r@ == (if self.kind == EntryKind::Directory {
                Seq::empty()
            } else {
                size_text(self.size as nat)
            }),
    {
        if self.kind == EntryKind::Directory {
            return String::new();
        }
        format_size(self.size)
    }
}


/// The lowercase form of a text (`str::to_lowercase`). It follows the
/// Unicode case tables of the standard library, so it is named here and
/// not written out.
pub uninterp spec fn lowercase(s: Seq<char>) -> Seq<char>;

/// Lowercases a text (`str::to_lowercase`); the result is `lowercase` of
/// the argument. On ASCII text it lowercases the ASCII letters and keeps
/// every other character, as `str::to_ascii_lowercase` does (whose
/// documentation points to `to_lowercase` for lowercasing ASCII characters
/// together with non-ASCII ones); on other text only the name is stated.
#[verifier::external_body]
fn to_lowercase(s: &str) -> (r: String)
    ensures
        r@ == lowercase(s@),
        is_ascii_chars(s@) ==> r@ == lowered(s@),
{
    s.to_lowercase()
}

/// Three-way comparison of two texts character by character, a prefix
/// first: the order of `String` (UTF-8 keeps the order of code points).
pub open spec fn text_order(a: Seq<char>, b: Seq<char>) -> int
    decreases a.len(),
{
    if a.len() == 0 {
        if b.len() == 0 {
            0
        } else {
            -1
        }
    } else if b.len() == 0 {
        1
    } else if a[0] < b[0] {
        -1
    } else if a[0] > b[0] {
        1
    } else {
        text_order(a.skip(1), b.skip(1))
    }
}

/// Three-way comparison of two numbers.
pub open spec fn num_order(a: int, b: int) -> int {
    if a < b {
        -1
    } else if a > b {
        1
    } else {
        0
    }
}

/// The order of a listing: folders first; then the chosen column (names
/// and type labels compared lowercased), reversed when descending; then
/// the lowercased name.
pub open spec fn entry_order(a: FileEntry, b: FileEntry, field: SortField, dir: SortDirection) -> int {
    let fa = a.kind == EntryKind::Directory;
    let fb = b.kind == EntryKind::Directory;
    if fa != fb {
        if fa {
            -1
        } else {
            1
        }
    } else {
        let names = text_order(lowercase(a.name@), lowercase(b.name@));
        let primary = match field {
            SortField::Name => names,
            SortField::DateModified => num_order(a.modified_sort_key as int, b.modified_sort_key as int),
            SortField::Type => text_order(
                lowercase(category_label(a.category_spec())),
                lowercase(category_label(b.category_spec())),
            ),
            SortField::Size => num_order(a.size as int, b.size as int),
        };
        let primary = if dir == SortDirection::Descending {
            -primary
        } else {
            primary
        };
        if primary != 0 {
            primary
        } else {
            names
        }
    }
}

/// Where a stable insertion puts `x` into a sorted listing: before the
/// first entry that `x` precedes.
pub open spec fn insertion_point(sorted: Seq<FileEntry>, x: FileEntry, field: SortField, dir: SortDirection) -> int
    decreases sorted.len(),
{
    if sorted.len() == 0 {
        0
    } else if entry_order(sorted[0], x, field, dir) > 0 {
        0
    } else {
        1 + insertion_point(sorted.skip(1), x, field, dir)
    }
}

/// A listing sorted stably by `entry_order`: each entry in turn is placed
/// after every earlier entry that does not follow it.
pub open spec fn sorted_entries(s: Seq<FileEntry>, field: SortField, dir: SortDirection) -> Seq<FileEntry>
    decreases s.len(),
{
    if s.len() == 0 {
        s
    } else {
        let prev = sorted_entries(s.drop_last(), field, dir);
        prev.insert(insertion_point(prev, s.last(), field, dir), s.last())
    }
}

pub(crate) fn compare_texts(a: &[char], b: &[char]) -> (r: i8)
    ensures
        r == text_order(a@, b@),
        -1 <= r <= 1,
{
    let mut i: usize = 0;
    assert(a@.skip(0) == a@);
    assert(b@.skip(0) == b@);
    while i < a.len() && i < b.len()
        invariant
            i <= a@.len(),
            i <= b@.len(),
            text_order(a@, b@) == text_order(a@.skip(i as int), b@.skip(i as int)),
        decreases a.len() - i,
    {
        assert(a@.skip(i as int)[0] == a@[i as int]);
        assert(b@.skip(i as int)[0] == b@[i as int]);
        if a[i] < b[i] {
            return -1;
        }
        if a[i] > b[i] {
            return 1;
        }
        assert(a@.skip(i as int).skip(1) == a@.skip(i + 1));
        assert(b@.skip(i as int).skip(1) == b@.skip(i + 1));
        i = i + 1;
    }
    if i == a.len() {
        if i == b.len() {
            0
        } else {
            -1
        }
    } else {
        1
    }
}

fn compare_numbers(a: u64, b: u64) -> (r: i8)
    ensures
        r == num_order(a as int, b as int),
        -1 <= r <= 1,
{
    if a < b {
        -1
    } else if a > b {
        1
    } else {
        0
    }
}

pub(crate) fn lowercase_chars(s: &str) -> (r: Vec<char>)
    ensures
        r@ == lowercase(s@),
        is_ascii_chars(s@) ==> lowercase(s@) == lowered(s@),
{
    let l = to_lowercase(s);
    chars_of(l.as_str())
}

/// Compares two entries in the order of a listing.
pub fn compare_entries(a: &FileEntry, b: &FileEntry, field: SortField, dir: SortDirection) -> (r: i8)
    ensures
        r == entry_order(*a, *b, field, dir),
{
    let fa = a.kind == EntryKind::Directory;
    let fb = b.kind == EntryKind::Directory;
    if fa != fb {
        return if fa {
            -1
        } else {
            1
        };
    }
    let la = lowercase_chars(a.name.as_str());
    let lb = lowercase_chars(b.name.as_str());
    let names = compare_texts(la.as_slice(), lb.as_slice());
    let primary = match field {
        SortField::Name => names,
        SortField::DateModified => compare_numbers(a.modified_sort_key, b.modified_sort_key),
        SortField::Type => {
            let ta = lowercase_chars(a.kind_label());
            let tb = lowercase_chars(b.kind_label());
            compare_texts(ta.as_slice(), tb.as_slice())
        },
        SortField::Size => compare_numbers(a.size, b.size),
    };
    let primary = if dir == SortDirection::Descending {
        -primary
    } else {
        primary
    };
    if primary != 0 {
        primary
    } else {
        names
    }
}

/// Sorts a listing stably: folders first, then by the chosen column in the
/// chosen direction, then by lowercased name.
pub fn sort_entries(entries: &mut Vec<FileEntry>, field: SortField, dir: SortDirection)
    ensures
        final(entries)@ == sorted_entries(old(entries)@, field, dir),
{
    let ghost orig = entries@;
    let n = entries.len();
    let mut i: usize = 0;
    assert(orig.take(0) == Seq::<FileEntry>::empty());
    assert(orig.skip(0) == orig);
    while i < n
        invariant
            n == orig.len(),
            i <= n,
            entries@.len() == n,
            entries@.take(i as int) == sorted_entries(orig.take(i as int), field, dir),
            entries@.skip(i as int) == orig.skip(i as int),
        decreases n - i,
    {
        let ghost prefix = entries@.take(i as int);
        let ghost rest = entries@.skip(i as int);
        assert(entries@ == prefix + rest);
        let x = entries.remove(i);
        assert(x == orig[i as int]) by {
            assert(rest[0] == orig.skip(i as int)[0]);
        }
        assert(entries@ == prefix + orig.skip(i + 1)) by {
            assert(orig.skip(i as int).skip(1) == orig.skip(i + 1));
        }
        let mut j: usize = 0;
        assert(prefix.skip(0) == prefix);
        while j < i && compare_entries(&entries[j], &x, field, dir) <= 0
            invariant
                j <= i,
                i < n,
                entries@ == prefix + orig.skip(i + 1),
                prefix.len() == i,
                insertion_point(prefix, x, field, dir) == j + insertion_point(prefix.skip(j as int), x, field, dir),
            decreases i - j,
        {
            assert(prefix.skip(j as int)[0] == prefix[j as int]);
            assert(prefix.skip(j as int).skip(1) == prefix.skip(j + 1));
            j = j + 1;
        }
        proof {
            if j < i {
                assert(prefix.skip(j as int)[0] == prefix[j as int]);
            } else {
                assert(prefix.skip(j as int).len() == 0);
            }
            assert(orig.take(i + 1).drop_last() == orig.take(i as int));
            assert(orig.take(i + 1).last() == x);
        }
        entries.insert(j, x);
        proof {
            assert(entries@ == prefix.insert(j as int, x) + orig.skip(i + 1));
            assert(entries@.take(i + 1) == prefix.insert(j as int, x));
            assert(entries@.skip(i + 1) == orig.skip(i + 1));
        }
        i = i + 1;
    }
    assert(orig.take(n as int) == orig);
    assert(entries@.take(n as int) == entries@);
}


proof fn lemma_text_order(a: Seq<char>, b: Seq<char>)
    ensures
        text_order(a, b) == -text_order(b, a),
        (text_order(a, b) == 0) == (a == b),
        -1 <= text_order(a, b) <= 1,
    decreases a.len(),
{
    if a.len() > 0 && b.len() > 0 && a[0] == b[0] {
        lemma_text_order(a.skip(1), b.skip(1));
        if a.skip(1) == b.skip(1) {
            assert(a =~= seq![a[0]] + a.skip(1));
            assert(b =~= seq![b[0]] + b.skip(1));
        }
    }
    if a.len() == 0 && b.len() == 0 {
        assert(a =~= b);
    }
}

/// Texts compare equal exactly when they are the same.
pub proof fn lemma_text_order_zero(a: Seq<char>, b: Seq<char>)
    ensures
        (text_order(a, b) == 0) == (a == b),
{
    lemma_text_order(a, b);
}

proof fn lemma_text_order_trans(a: Seq<char>, b: Seq<char>, c: Seq<char>)
    requires
        text_order(a, b) <= 0,
        text_order(b, c) <= 0,
    ensures
        text_order(a, c) <= 0,
    decreases a.len(),
{
    if a.len() > 0 && b.len() > 0 && c.len() > 0 && a[0] == b[0] && b[0] == c[0] {
        lemma_text_order_trans(a.skip(1), b.skip(1), c.skip(1));
    }
}

proof fn lemma_entry_order(a: FileEntry, b: FileEntry, c: FileEntry, field: SortField, dir: SortDirection)
    ensures
        entry_order(a, b, field, dir) == -entry_order(b, a, field, dir),
        entry_order(a, b, field, dir) <= 0 && entry_order(b, c, field, dir) <= 0 ==> entry_order(
            a,
            c,
            field,
            dir,
        ) <= 0,
{
    let na = lowercase(a.name@);
    let nb = lowercase(b.name@);
    let nc = lowercase(c.name@);
    let ta = lowercase(category_label(a.category_spec()));
    let tb = lowercase(category_label(b.category_spec()));
    let tc = lowercase(category_label(c.category_spec()));
    lemma_text_order(na, nb);
    lemma_text_order(nb, nc);
    lemma_text_order(na, nc);
    lemma_text_order(ta, tb);
    lemma_text_order(tb, tc);
    lemma_text_order(ta, tc);
    if text_order(na, nb) <= 0 && text_order(nb, nc) <= 0 {
        lemma_text_order_trans(na, nb, nc);
    }
    if text_order(nb, na) <= 0 && text_order(nc, nb) <= 0 {
        lemma_text_order_trans(nc, nb, na);
    }
    if text_order(ta, tb) <= 0 && text_order(tb, tc) <= 0 {
        lemma_text_order_trans(ta, tb, tc);
    }
    if text_order(tb, ta) <= 0 && text_order(tc, tb) <= 0 {
        lemma_text_order_trans(tc, tb, ta);
    }
}

/// Whether a listing is in the order of `entry_order`.
pub open spec fn entries_ordered(s: Seq<FileEntry>, field: SortField, dir: SortDirection) -> bool {
    forall|i: int, j: int| 0 <= i < j < s.len() ==> entry_order(#[trigger] s[i], #[trigger] s[j], field, dir) <= 0
}

proof fn lemma_insertion_point(prev: Seq<FileEntry>, x: FileEntry, field: SortField, dir: SortDirection)
    requires
        entries_ordered(prev, field, dir),
    ensures
        0 <= insertion_point(prev, x, field, dir) <= prev.len(),
        forall|k: int| 0 <= k < insertion_point(prev, x, field, dir) ==> entry_order(#[trigger] prev[k], x, field, dir) <= 0,
        forall|k: int| insertion_point(prev, x, field, dir) <= k < prev.len() ==> entry_order(#[trigger] prev[k], x, field, dir) > 0,
    decreases prev.len(),
{
    if prev.len() > 0 {
        if entry_order(prev[0], x, field, dir) > 0 {
            assert forall|k: int| 0 <= k < prev.len() implies entry_order(#[trigger] prev[k], x, field, dir) > 0 by {
                if k > 0 {
                    lemma_entry_order(prev[0], prev[k], x, field, dir);
                }
            }
        } else {
            let rest = prev.skip(1);
            assert forall|i: int, j: int| 0 <= i < j < rest.len() implies entry_order(#[trigger] rest[i], #[trigger] rest[j], field, dir) <= 0 by {
                assert(rest[i] == prev[i + 1]);
                assert(rest[j] == prev[j + 1]);
            }
            lemma_insertion_point(rest, x, field, dir);
            let p = insertion_point(prev, x, field, dir);
            assert forall|k: int| 0 <= k < p implies entry_order(#[trigger] prev[k], x, field, dir) <= 0 by {
                if k > 0 {
                    assert(prev[k] == rest[k - 1]);
                }
            }
            assert forall|k: int| p <= k < prev.len() implies entry_order(#[trigger] prev[k], x, field, dir) > 0 by {
                assert(prev[k] == rest[k - 1]);
            }
        }
    }
}

/// A sorted listing holds the same entries as the listing it came from,
/// and each entry comes no later than every entry after it in the order of
/// the listing: folders first, then the chosen column, then the name.
pub proof fn lemma_sorted_entries_ordered(s: Seq<FileEntry>, field: SortField, dir: SortDirection)
    ensures
        sorted_entries(s, field, dir).to_multiset() == s.to_multiset(),
        sorted_entries(s, field, dir).len() == s.len(),
        entries_ordered(sorted_entries(s, field, dir), field, dir),
    decreases s.len(),
{
    broadcast use vstd::seq_lib::group_to_multiset_ensures;

    if s.len() > 0 {
        let prev = sorted_entries(s.drop_last(), field, dir);
        lemma_sorted_entries_ordered(s.drop_last(), field, dir);
        let x = s.last();
        lemma_insertion_point(prev, x, field, dir);
        let p = insertion_point(prev, x, field, dir);
        let out = prev.insert(p, x);
        assert(s == s.drop_last().push(x));
        assert(s.to_multiset() == s.drop_last().to_multiset().insert(x));
        assert forall|i: int, j: int| 0 <= i < j < out.len() implies entry_order(#[trigger] out[i], #[trigger] out[j], field, dir) <= 0 by {
            if i < p && j < p {
                assert(out[i] == prev[i] && out[j] == prev[j]);
            } else if i < p && j == p {
                assert(out[i] == prev[i]);
            } else if i < p {
                assert(out[i] == prev[i] && out[j] == prev[j - 1]);
            } else if i == p {
                assert(out[j] == prev[j - 1]);
                lemma_entry_order(prev[j - 1], x, x, field, dir);
            } else {
                assert(out[i] == prev[i - 1] && out[j] == prev[j - 1]);
            }
        }
    }
}


/// The modification key of a time: its milliseconds since the Unix epoch,
/// capped at the largest `u64`; 0 for a time before the epoch (`None`).
pub open spec fn time_sort_key_of(millis_since_epoch: Option<u128>) -> u64 {
    match millis_since_epoch {
        Some(m) => if m > u64::MAX {
            u64::MAX
        } else {
            m as u64
        },
        None => 0,
    }
}

/// The modification key of a time, given as milliseconds since the Unix
/// epoch (`None` before it).
pub fn system_time_sort_key(millis_since_epoch: Option<u128>) -> (r: u64)
    ensures
        r == time_sort_key_of(millis_since_epoch),
{
    match millis_since_epoch {
        Some(m) => if m > u64::MAX as u128 {
            u64::MAX
        } else {
            m as u64
        },
        None => 0,
    }
}

/// The seconds after the Unix epoch that an HTTP date names, or `None`
/// where the text is not an HTTP date (`httpdate::parse_http_date`).
pub uninterp spec fn http_date_seconds(text: Seq<char>) -> Option<u64>;

/// Reads an HTTP date (`httpdate::parse_http_date`). The crate gives the
/// Unix epoch plus whole seconds, so the result is those seconds; which
/// texts it accepts (IMF-fixdate, RFC 850, asctime) is not written out.
#[verifier::external_body]
fn parse_http_date_seconds(value: &str) -> (r: Option<u64>)
    ensures
        r == http_date_seconds(value@),
{
    match httpdate::parse_http_date(value) {
        Ok(time) => match time.duration_since(std::time::UNIX_EPOCH) {
            Ok(since) => Some(since.as_secs()),
            Err(_) => None,
        },
        Err(_) => None,
    }
}

/// The modification key of a remote entry: the milliseconds of its HTTP
/// date, or 0 when the text is not a date.
pub open spec fn remote_sort_key_of(seconds: Option<u64>) -> u64 {
    match seconds {
        Some(s) => time_sort_key_of(Some((s * 1000) as u128)),
        None => 0,
    }
}

/// The modification key of a remote entry from the seconds its date names.
pub fn remote_sort_key_from_seconds(seconds: Option<u64>) -> (r: u64)
    ensures
        r == remote_sort_key_of(seconds),
{
    match seconds {
        Some(s) => system_time_sort_key(Some(s as u128 * 1000)),
        None => 0,
    }
}

/// The modification key of a remote entry from its HTTP date text.
pub fn remote_modified_sort_key(value: &str) -> (r: u64)
    ensures
        r == remote_sort_key_of(http_date_seconds(value@)),
{
    let seconds = parse_http_date_seconds(value);
    remote_sort_key_from_seconds(seconds)
}


/// Builds the listing entry for a path on disk from what its metadata says
/// (`kind`, `len`, and the modification time in milliseconds since the
/// Unix epoch); a path without a file name, or a hidden name (starting
/// with `.`) when hidden entries are not shown, gives none.
pub fn file_entry(path: String, show_hidden: bool, kind: EntryKind, len: u64, modified: Option<u128>) -> (r: Option<FileEntry>)
    ensures
        match path_file_name(path@) {
            None => r is None,
            Some(name) => if !show_hidden && name.len() > 0 && name[0] == '.' {
                r is None
            } else {
                r matches Some(e) && e.path@ == path@ && e.name@ == name && e.kind == kind && e.size == (if kind
                    == EntryKind::File {
                    len
                } else {
                    0
                }) && e.modified_sort_key == time_sort_key_of(modified) && e.remote is None && e.remote_modified is None
            },
        },
{
    let name = match file_name(path.as_str()) {
        Some(n) => n,
        None => {
            return None;
        },
    };
    let nc = chars_of(name.as_str());
    if !show_hidden && nc.len() > 0 && nc[0] == '.' {
        return None;
    }
    let size = match kind {
        EntryKind::File => len,
        _ => 0,
    };
    Some(FileEntry {
        path,
        name,
        kind,
        size,
        modified_sort_key: system_time_sort_key(modified),
        remote: None,
        remote_modified: None,
    })
}

proof fn lemma_text_order_props(a: Seq<char>, b: Seq<char>)
    ensures
        text_order(a, b) == -text_order(b, a),
        text_order(a, b) == 0 <==> a == b,
        -1 <= text_order(a, b) <= 1,
    decreases a.len(),
{
    if a.len() > 0 && b.len() > 0 && a[0] == b[0] {
        lemma_text_order_props(a.skip(1), b.skip(1));
        if a.skip(1) == b.skip(1) {
            assert(a =~= seq![a[0]] + a.skip(1));
            assert(b =~= seq![b[0]] + b.skip(1));
        }
    } else if a.len() == 0 && b.len() == 0 {
        assert(a =~= b);
    }
}

/// Whether `x` comes before `y` in dictionary order: at the first place
/// where they differ `x` has the smaller character, or `x` is a proper
/// beginning of `y`.
pub open spec fn lex_before(x: Seq<char>, y: Seq<char>) -> bool {
    ||| exists|k: int| 0 <= k < x.len() && k < y.len() && x.take(k) == y.take(k) && #[trigger] x[k] < y[k]
    ||| x.len() < y.len() && y.take(x.len() as int) == x
}

proof fn lemma_lex_before_order(x: Seq<char>, y: Seq<char>)
    requires
        lex_before(x, y),
    ensures
        text_order(x, y) == -1,
    decreases x.len(),
{
    if x.len() == 0 {
    } else {
        if exists|k: int| 0 <= k < x.len() && k < y.len() && x.take(k) == y.take(k) && #[trigger] x[k] < y[k] {
            let k = choose|k: int| 0 <= k < x.len() && k < y.len() && x.take(k) == y.take(k) && #[trigger] x[k] < y[k];
            if k > 0 {
                assert(x[0] == x.take(k)[0] && y[0] == y.take(k)[0]);
                assert(x.skip(1).take(k - 1) =~= y.skip(1).take(k - 1)) by {
                    assert forall|t: int| 0 <= t < k - 1 implies #[trigger] x.skip(1).take(k - 1)[t] == y.skip(1).take(k - 1)[t] by {
                        assert(x.take(k)[t + 1] == y.take(k)[t + 1]);
                    }
                }
                assert(x.skip(1)[k - 1] < y.skip(1)[k - 1]);
                lemma_lex_before_order(x.skip(1), y.skip(1));
            }
        } else {
            assert(y.len() > 0);
            assert(x[0] == y.take(x.len() as int)[0]);
            assert(y.skip(1).take(x.skip(1).len() as int) =~= x.skip(1)) by {
                assert forall|t: int| 0 <= t < x.len() - 1 implies #[trigger] y.skip(1)[t] == x.skip(1)[t] by {
                    assert(y.take(x.len() as int)[t + 1] == x[t + 1]);
                }
            }
            lemma_lex_before_order(x.skip(1), y.skip(1));
        }
    }
}

/// Whether two entries differ in the chosen column (names and type
/// labels compared lowercased).
pub open spec fn column_differs(a: FileEntry, b: FileEntry, field: SortField) -> bool {
    match field {
        SortField::Name => lowercase(a.name@) != lowercase(b.name@),
        SortField::DateModified => a.modified_sort_key != b.modified_sort_key,
        SortField::Type => lowercase(category_label(a.category_spec())) != lowercase(category_label(b.category_spec())),
        SortField::Size => a.size != b.size,
    }
}

/// How a listing is ordered, whatever the column and direction: folders
/// come before everything else; swapping two entries reverses their
/// order; descending reverses ascending whenever the column tells the two
/// apart (the name column included); entries the column cannot tell apart
/// are ordered by name ascending in both directions; and ascending puts
/// the smaller date or size, and the name or type label that comes first
/// in dictionary order (lowercased), first.
pub proof fn lemma_entry_order_laws(a: FileEntry, b: FileEntry, field: SortField, dir: SortDirection)
    ensures
        a.kind == EntryKind::Directory && b.kind != EntryKind::Directory ==> entry_order(a, b, field, dir) < 0,
        entry_order(a, b, field, dir) == -entry_order(b, a, field, dir),
        (a.kind == EntryKind::Directory) == (b.kind == EntryKind::Directory) && column_differs(a, b, field)
            ==> entry_order(a, b, field, SortDirection::Descending) == -entry_order(a, b, field, SortDirection::Ascending)
            && entry_order(a, b, field, SortDirection::Ascending) != 0,
        (a.kind == EntryKind::Directory) == (b.kind == EntryKind::Directory) && !column_differs(a, b, field)
            ==> entry_order(a, b, field, dir) == entry_order(a, b, SortField::Name, SortDirection::Ascending),
        (a.kind == EntryKind::Directory) == (b.kind == EntryKind::Directory) && field == SortField::Size && a.size
            < b.size ==> entry_order(a, b, field, SortDirection::Ascending) < 0,
        (a.kind == EntryKind::Directory) == (b.kind == EntryKind::Directory) && field == SortField::DateModified
            && a.modified_sort_key < b.modified_sort_key ==> entry_order(a, b, field, SortDirection::Ascending) < 0,
        (a.kind == EntryKind::Directory) == (b.kind == EntryKind::Directory) && lex_before(lowercase(a.name@), lowercase(b.name@))
            ==> entry_order(a, b, SortField::Name, SortDirection::Ascending) < 0,
        (a.kind == EntryKind::Directory) == (b.kind == EntryKind::Directory) && lex_before(
            lowercase(category_label(a.category_spec())),
            lowercase(category_label(b.category_spec())),
        ) ==> entry_order(a, b, SortField::Type, SortDirection::Ascending) < 0,
{
    if lex_before(lowercase(a.name@), lowercase(b.name@)) {
        lemma_lex_before_order(lowercase(a.name@), lowercase(b.name@));
    }
    if lex_before(lowercase(category_label(a.category_spec())), lowercase(category_label(b.category_spec()))) {
        lemma_lex_before_order(lowercase(category_label(a.category_spec())), lowercase(category_label(b.category_spec())));
    }
    lemma_text_order_props(lowercase(a.name@), lowercase(b.name@));
    lemma_text_order_props(lowercase(category_label(a.category_spec())), lowercase(category_label(b.category_spec())));
}

} // verus!
