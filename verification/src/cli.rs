use vstd::prelude::*;
use crate::text::{chars_of, concat_texts, decimal_chars, decimal_of, same_chars, spells, string_from_chars};

verus! {

/// The light/dark mode asked for on the command line.
#[derive(Debug, Clone, Copy, PartialEq, Eq, Structural)]
pub enum AppearanceMode {
    System,
    Light,
    Dark,
}

/// The theme colour asked for on the command line.
#[derive(Debug, Clone, Copy, PartialEq, Eq, Structural)]
pub enum ThemeColor {
    Blue,
    Red,
    Green,
    Purple,
    Orange,
    Teal,
    Pink,
    Neutral,
}

/// The search backend asked for on the command line.
#[derive(Debug, Clone, Copy, PartialEq, Eq, Structural)]
pub enum SearchMode {
    Default,
    Everything,
}

/// Temporary theme settings for this run.
#[derive(Debug, Clone, Copy, PartialEq, Eq, Structural)]
pub struct ThemePatch {
    pub appearance: Option<AppearanceMode>,
    pub color: Option<ThemeColor>,
    pub intensity: Option<u8>,
}

/// What the command line asks for.
#[derive(Debug, Clone)]
pub struct CliOptions {
    pub theme_overrides: ThemePatch,
    pub search_override: Option<SearchMode>,
    pub ipc_socket: Option<String>,
    pub ipc_enabled: bool,
    pub startup_path: Option<String>,
    pub show_help: bool,
}

/// The mathematical content of [`CliOptions`].
pub struct OptionsView {
    pub theme_overrides: ThemePatch,
    pub search_override: Option<SearchMode>,
    pub ipc_socket: Option<Seq<char>>,
    pub ipc_enabled: bool,
    pub startup_path: Option<Seq<char>>,
    pub show_help: bool,
}

impl View for CliOptions {
    type V = OptionsView;

    open spec fn view(&self) -> OptionsView {
        OptionsView {
            theme_overrides: self.theme_overrides,
            search_override: self.search_override,
            ipc_socket: match self.ipc_socket {
                Some(s) => Some(s@),
                None => None,
            },
            ipc_enabled: self.ipc_enabled,
            startup_path: match self.startup_path {
                Some(s) => Some(s@),
                None => None,
            },
            show_help: self.show_help,
        }
    }
}

/// The appearance a value names: `system`, `light` or `dark`.
pub open spec fn appearance_of(v: Seq<char>) -> Option<AppearanceMode> {
    if v == "system"@ {
        Some(AppearanceMode::System)
    } else if v == "light"@ {
        Some(AppearanceMode::Light)
    } else if v == "dark"@ {
        Some(AppearanceMode::Dark)
    } else {
        None
    }
}

/// The theme colour a value names, in lowercase.
pub open spec fn theme_color_of(v: Seq<char>) -> Option<ThemeColor> {
    if v == "blue"@ {
        Some(ThemeColor::Blue)
    } else if v == "red"@ {
        Some(ThemeColor::Red)
    } else if v == "green"@ {
        Some(ThemeColor::Green)
    } else if v == "purple"@ {
        Some(ThemeColor::Purple)
    } else if v == "orange"@ {
        Some(ThemeColor::Orange)
    } else if v == "teal"@ {
        Some(ThemeColor::Teal)
    } else if v == "pink"@ {
        Some(ThemeColor::Pink)
    } else if v == "neutral"@ {
        Some(ThemeColor::Neutral)
    } else {
        None
    }
}

/// The search mode a value names: `default` or `everything`.
pub open spec fn search_mode_of(v: Seq<char>) -> Option<SearchMode> {
    if v == "default"@ {
        Some(SearchMode::Default)
    } else if v == "everything"@ {
        Some(SearchMode::Everything)
    } else {
        None
    }
}

/// The value of decimal digits.
pub open spec fn digits_value(d: Seq<char>) -> nat
    decreases d.len(),
{
    if d.len() == 0 {
        0
    } else {
        digits_value(d.drop_last()) * 10 + (d.last() as nat - 48) as nat
    }
}

/// Whether every character is a decimal digit.
pub open spec fn all_digits(d: Seq<char>) -> bool {
    forall|k: int| 0 <= k < d.len() ==> '0' <= #[trigger] d[k] <= '9'
}

/// The byte a text spells (`u8::from_str`): decimal digits, after an
/// optional `+`, with a value up to 255.
pub open spec fn u8_of(v: Seq<char>) -> Option<u8> {
    let d = if v.len() > 0 && v[0] == '+' {
        v.skip(1)
    } else {
        v
    };
    if d.len() > 0 && all_digits(d) && digits_value(d) <= 255 {
        Some(digits_value(d) as u8)
    } else {
        None
    }
}

/// Whether an option takes a value.
pub open spec fn takes_value(key: Seq<char>) -> bool {
    key == "--appearance"@ || key == "--theme-color"@ || key == "--color"@ || key == "--theme-intensity"@
        || key == "--intensity"@ || key == "--search-mode"@ || key == "--ipc-socket"@
}

/// The part of an argument before its first `=`, and the part after it.
pub open spec fn split_key(arg: Seq<char>) -> (Seq<char>, Option<Seq<char>>) {
    if exists|k: int| 0 <= k < arg.len() && arg[k] == '=' {
        let k = choose|k: int| 0 <= k < arg.len() && arg[k] == '=' && forall|m: int| 0 <= m < k ==> arg[m] != '=';
        (arg.take(k), Some(arg.skip(k + 1)))
    } else {
        (arg, None)
    }
}

/// Sets one option from its value, or says why the value is wrong.
pub open spec fn apply_value(o: OptionsView, key: Seq<char>, value: Seq<char>) -> Result<OptionsView, Seq<char>> {
    if key == "--appearance"@ {
        match appearance_of(value) {
            Some(a) => Ok(OptionsView { theme_overrides: ThemePatch { appearance: Some(a), ..o.theme_overrides }, ..o }),
            None => Err("invalid appearance: "@ + value),
        }
    } else if key == "--theme-color"@ || key == "--color"@ {
        match theme_color_of(value) {
            Some(c) => Ok(OptionsView { theme_overrides: ThemePatch { color: Some(c), ..o.theme_overrides }, ..o }),
            None => Err("invalid theme color: "@ + value),
        }
    } else if key == "--theme-intensity"@ || key == "--intensity"@ {
        match u8_of(value) {
            Some(n) => if n > 100 {
                Err("intensity must be 0..=100, got "@ + decimal_of(n as nat))
            } else {
                Ok(OptionsView { theme_overrides: ThemePatch { intensity: Some(n), ..o.theme_overrides }, ..o })
            },
            None => Err("invalid intensity: "@ + value),
        }
    } else if key == "--search-mode"@ {
        match search_mode_of(value) {
            Some(m) => Ok(OptionsView { search_override: Some(m), ..o }),
            None => Err("invalid search mode: "@ + value),
        }
    } else {
        Ok(OptionsView { ipc_socket: Some(value), ..o })
    }
}

/// Reads the arguments from `index` on into the options read so far:
/// `--help`/`-h` ask for help, `--no-ipc` turns the control socket off, a
/// plain argument is the one startup folder, and the other options take a
/// value after `=` or as the next argument.
pub open spec fn parse_from(args: Seq<Seq<char>>, index: int, o: OptionsView) -> Result<OptionsView, Seq<char>>
    decreases args.len() - index,
{
    if index < 0 || index >= args.len() {
        Ok(o)
    } else {
        let arg = args[index];
        if arg == "--help"@ || arg == "-h"@ {
            parse_from(args, index + 1, OptionsView { show_help: true, ..o })
        } else if arg == "--no-ipc"@ {
            parse_from(args, index + 1, OptionsView { ipc_enabled: false, ..o })
        } else if arg.len() == 0 || arg[0] != '-' {
            if o.startup_path is Some {
                Err("multiple startup paths are not supported: "@ + arg)
            } else {
                parse_from(args, index + 1, OptionsView { startup_path: Some(arg), ..o })
            }
        } else {
            let (key, inline) = split_key(arg);
            if !takes_value(key) {
                Err("unknown argument: "@ + arg)
            } else {
                let (value, next) = match inline {
                    Some(v) => (Some(v), index + 1),
                    None => if index + 1 < args.len() {
                        (Some(args[index + 1]), index + 2)
                    } else {
                        (None, index + 2)
                    },
                };
                match value {
                    None => Err("missing value for "@ + key),
                    Some(v) => match apply_value(o, key, v) {
                        Ok(o2) => parse_from(args, next, o2),
                        Err(e) => Err(e),
                    },
                }
            }
        }
    }
}

/// The options before any argument: control socket on, nothing else set.
pub open spec fn initial_options() -> OptionsView {
    OptionsView {
        theme_overrides: ThemePatch { appearance: None, color: None, intensity: None },
        search_override: None,
        ipc_socket: None,
        ipc_enabled: true,
        startup_path: None,
        show_help: false,
    }
}


fn appearance_exec(v: &str) -> (r: Option<AppearanceMode>)
    ensures
        r == appearance_of(v@),
{
    let c = chars_of(v);
    if spells(c.as_slice(), "system") {
        Some(AppearanceMode::System)
    } else if spells(c.as_slice(), "light") {
        Some(AppearanceMode::Light)
    } else if spells(c.as_slice(), "dark") {
        Some(AppearanceMode::Dark)
    } else {
        None
    }
}

fn theme_color_exec(v: &str) -> (r: Option<ThemeColor>)
    ensures
        r == theme_color_of(v@),
{
    let c = chars_of(v);
    if spells(c.as_slice(), "blue") {
        Some(ThemeColor::Blue)
    } else if spells(c.as_slice(), "red") {
        Some(ThemeColor::Red)
    } else if spells(c.as_slice(), "green") {
        Some(ThemeColor::Green)
    } else if spells(c.as_slice(), "purple") {
        Some(ThemeColor::Purple)
    } else if spells(c.as_slice(), "orange") {
        Some(ThemeColor::Orange)
    } else if spells(c.as_slice(), "teal") {
        Some(ThemeColor::Teal)
    } else if spells(c.as_slice(), "pink") {
        Some(ThemeColor::Pink)
    } else if spells(c.as_slice(), "neutral") {
        Some(ThemeColor::Neutral)
    } else {
        None
    }
}

fn search_mode_exec(v: &str) -> (r: Option<SearchMode>)
    ensures
        r == search_mode_of(v@),
{
    let c = chars_of(v);
    if spells(c.as_slice(), "default") {
        Some(SearchMode::Default)
    } else if spells(c.as_slice(), "everything") {
        Some(SearchMode::Everything)
    } else {
        None
    }
}

proof fn lemma_digits_grow(d: Seq<char>, c: char)
    requires
        all_digits(d.push(c)),
    ensures
        digits_value(d.push(c)) >= digits_value(d) * 10,
        digits_value(d.push(c)) == digits_value(d) * 10 + (c as nat - 48),
{
    assert(d.push(c).drop_last() == d);
    assert(d.push(c)[d.len() as int] == c);
}

/// Reads a byte written in decimal (`u8::from_str`).
fn u8_exec(v: &str) -> (r: Option<u8>)
    ensures
        r == u8_of(v@),
{
    let c = chars_of(v);
    let start: usize = if c.len() > 0 && c[0] == '+' {
        1
    } else {
        0
    };
    let ghost d = if v@.len() > 0 && v@[0] == '+' {
        v@.skip(1)
    } else {
        v@
    };
    assert(d == c@.skip(start as int));
    if start >= c.len() {
        return None;
    }
    let mut val: u64 = 0;
    let mut i = start;
    assert(c@.subrange(start as int, start as int) =~= Seq::<char>::empty());
    while i < c.len()
        invariant
            start <= i <= c@.len(),
            d == c@.skip(start as int),
            c@ == v@,
            d == (if v@.len() > 0 && v@[0] == '+' {
                v@.skip(1)
            } else {
                v@
            }),
            all_digits(c@.subrange(start as int, i as int)),
            val == (if digits_value(c@.subrange(start as int, i as int)) > 255 {
                256
            } else {
                digits_value(c@.subrange(start as int, i as int))
            }),
        decreases c@.len() - i,
    {
        let ch = c[i];
        if ch < '0' || ch > '9' {
            proof {
                assert(d[i - start] == ch);
                assert(!('0' <= d[i - start] <= '9'));
                assert(!all_digits(d));
            }
            return None;
        }
        let ghost p = c@.subrange(start as int, i as int);
        assert(c@.subrange(start as int, i + 1) == p.push(ch));
        proof {
            lemma_digits_grow(p, ch);
        }
        if val > 255 {
            val = 256;
        } else {
            let next = val * 10 + ((ch as u64) - 48);
            val = if next > 255 {
                256
            } else {
                next
            };
        }
        i = i + 1;
    }
    assert(c@.subrange(start as int, c@.len() as int) == d);
    if val > 255 {
        None
    } else {
        Some(val as u8)
    }
}

/// The key and inline value of an option argument.
fn split_key_exec(arg: &str) -> (r: (String, Option<String>))
    ensures
        r.0@ == split_key(arg@).0,
        match r.1 {
            Some(v) => split_key(arg@).1 == Some(v@),
            None => split_key(arg@).1 is None,
        },
{
    let c = chars_of(arg);
    let mut k: usize = 0;
    while k < c.len() && c[k] != '='
        invariant
            k <= c@.len(),
            c@ == arg@,
            forall|m: int| 0 <= m < k ==> c@[m] != '=',
        decreases c@.len() - k,
    {
        k = k + 1;
    }
    if k == c.len() {
        return (arg.to_string(), None);
    }
    proof {
        let q = choose|q: int| 0 <= q < arg@.len() && arg@[q] == '=' && forall|m: int| 0 <= m < q ==> arg@[m] != '=';
        assert(q == k as int);
    }
    let mut key: Vec<char> = Vec::new();
    for i in 0..k
        invariant
            k < c@.len(),
            key@ == c@.take(i as int),
    {
        key.push(c[i]);
        assert(c@.take(i + 1) == c@.take(i as int).push(c@[i as int]));
    }
    let mut value: Vec<char> = Vec::new();
    for i in k + 1..c.len()
        invariant
            k < c@.len(),
            value@ == c@.subrange(k + 1, i as int),
    {
        value.push(c[i]);
        assert(c@.subrange(k + 1, i + 1) == c@.subrange(k + 1, i as int).push(c@[i as int]));
    }
    assert(c@.subrange(k + 1, c@.len() as int) == c@.skip(k + 1));
    (string_from_chars(key.as_slice()), Some(string_from_chars(value.as_slice())))
}

fn takes_value_exec(key: &str) -> (r: bool)
    ensures
        r == takes_value(key@),
{
    let c = chars_of(key);
    spells(c.as_slice(), "--appearance") || spells(c.as_slice(), "--theme-color") || spells(c.as_slice(), "--color")
        || spells(c.as_slice(), "--theme-intensity") || spells(c.as_slice(), "--intensity") || spells(
        c.as_slice(),
        "--search-mode",
    ) || spells(c.as_slice(), "--ipc-socket")
}

fn apply_value_exec(o: CliOptions, key: &str, value: String) -> (r: Result<CliOptions, String>)
    requires
        takes_value(key@),
    ensures
        match r {
            Ok(n) => apply_value(o@, key@, value@) == Ok::<OptionsView, Seq<char>>(n@),
            Err(e) => apply_value(o@, key@, value@) == Err::<OptionsView, Seq<char>>(e@),
        },
{
    let kc = chars_of(key);
    let mut o = o;
    if spells(kc.as_slice(), "--appearance") {
        match appearance_exec(value.as_str()) {
            Some(a) => {
                o.theme_overrides.appearance = Some(a);
                Ok(o)
            },
            None => Err(concat_texts("invalid appearance: ", value.as_str())),
        }
    } else if spells(kc.as_slice(), "--theme-color") || spells(kc.as_slice(), "--color") {
        match theme_color_exec(value.as_str()) {
            Some(c) => {
                o.theme_overrides.color = Some(c);
                Ok(o)
            },
            None => Err(concat_texts("invalid theme color: ", value.as_str())),
        }
    } else if spells(kc.as_slice(), "--theme-intensity") || spells(kc.as_slice(), "--intensity") {
        match u8_exec(value.as_str()) {
            Some(n) => if n > 100 {
                let digits = decimal_chars(n as u128);
                let shown = string_from_chars(digits.as_slice());
                Err(concat_texts("intensity must be 0..=100, got ", shown.as_str()))
            } else {
                o.theme_overrides.intensity = Some(n);
                Ok(o)
            },
            None => Err(concat_texts("invalid intensity: ", value.as_str())),
        }
    } else if spells(kc.as_slice(), "--search-mode") {
        match search_mode_exec(value.as_str()) {
            Some(m) => {
                o.search_override = Some(m);
                Ok(o)
            },
            None => Err(concat_texts("invalid search mode: ", value.as_str())),
        }
    } else {
        o.ipc_socket = Some(value);
        Ok(o)
    }
}

impl CliOptions {
    /// The usage text printed for `--help`.
    pub const HELP: &'static str = "FastExplorer [path]\n  path                                open this folder at startup\n  --appearance <system|light|dark>   temporary appearance override\n  --theme-color <name>               temporary color override\n  --theme-intensity <0..100>         temporary theme intensity override\n  --search-mode <default|everything> temporary search backend override\n  --ipc-socket <path>                override local IPC socket path\n  --no-ipc                            disable local IPC server\n";

    /// Reads the command line's arguments (without the program name); see
    /// `parse_from`.
    pub fn parse_args(args: &Vec<String>) -> (r: Result<CliOptions, String>)
        ensures
            match r {
                Ok(o) => parse_from(args@.map_values(|a: String| a@), 0, initial_options()) == Ok::<OptionsView, Seq<char>>(o@),
                Err(e) => parse_from(args@.map_values(|a: String| a@), 0, initial_options()) == Err::<OptionsView, Seq<char>>(e@),
            },
    {
        let ghost av = args@.map_values(|a: String| a@);
        let mut o = CliOptions {
            theme_overrides: ThemePatch { appearance: None, color: None, intensity: None },
            search_override: None,
            ipc_socket: None,
            ipc_enabled: true,
            startup_path: None,
            show_help: false,
        };
        let mut index: usize = 0;
        let n = args.len();
        while index < n
            invariant
                n == args@.len(),
                av == args@.map_values(|a: String| a@),
                parse_from(av, 0, initial_options()) == parse_from(av, index as int, o@),
            decreases n - index,
        {
            let arg = &args[index];
            assert(av[index as int] == arg@);
            let ac = chars_of(arg.as_str());
            if spells(ac.as_slice(), "--help") || spells(ac.as_slice(), "-h") {
                o.show_help = true;
                index = index + 1;
            } else if spells(ac.as_slice(), "--no-ipc") {
                o.ipc_enabled = false;
                index = index + 1;
            } else if ac.len() == 0 || ac[0] != '-' {
                if o.startup_path.is_some() {
                    return Err(concat_texts("multiple startup paths are not supported: ", arg.as_str()));
                }
                o.startup_path = Some(arg.clone());
                index = index + 1;
            } else {
                let (key, inline) = split_key_exec(arg.as_str());
                if !takes_value_exec(key.as_str()) {
                    return Err(concat_texts("unknown argument: ", arg.as_str()));
                }
                let (value, next): (String, usize) = match inline {
                    Some(v) => (v, index + 1),
                    None => {
                        if index + 1 < n {
                            assert(av[index + 1] == args@[index + 1]@);
                            (args[index + 1].clone(), index + 2)
                        } else {
                            return Err(concat_texts("missing value for ", key.as_str()));
                        }
                    },
                };
                match apply_value_exec(o, key.as_str(), value) {
                    Ok(o2) => {
                        o = o2;
                    },
                    Err(e) => {
                        return Err(e);
                    },
                }
                index = next;
            }
        }
        Ok(o)
    }
}
/// The keyword the help text gives for each appearance.
pub open spec fn appearance_keyword(m: AppearanceMode) -> Seq<char> {
    match m {
        AppearanceMode::System => "system"@,
        AppearanceMode::Light => "light"@,
        AppearanceMode::Dark => "dark"@,
    }
}

/// The keyword that names each theme colour.
pub open spec fn theme_color_keyword(c: ThemeColor) -> Seq<char> {
    match c {
        ThemeColor::Blue => "blue"@,
        ThemeColor::Red => "red"@,
        ThemeColor::Green => "green"@,
        ThemeColor::Purple => "purple"@,
        ThemeColor::Orange => "orange"@,
        ThemeColor::Teal => "teal"@,
        ThemeColor::Pink => "pink"@,
        ThemeColor::Neutral => "neutral"@,
    }
}

/// The keyword the help text gives for each search mode.
pub open spec fn search_mode_keyword(m: SearchMode) -> Seq<char> {
    match m {
        SearchMode::Default => "default"@,
        SearchMode::Everything => "everything"@,
    }
}

/// A value names an appearance exactly when it is that appearance's
/// keyword: each of `system`, `light` and `dark` names its own mode, and
/// no other value names any.
pub proof fn lemma_appearance_keywords(v: Seq<char>, m: AppearanceMode)
    ensures
        appearance_of(v) == Some(m) <==> v == appearance_keyword(m),
{
    reveal_strlit("system");
    reveal_strlit("light");
    reveal_strlit("dark");
    assert("system"@.len() != "light"@.len());
    assert("system"@.len() != "dark"@.len());
    assert("light"@.len() != "dark"@.len());
}

/// A value names a theme colour exactly when it is that colour's keyword.
pub proof fn lemma_theme_color_keywords(v: Seq<char>, c: ThemeColor)
    ensures
        theme_color_of(v) == Some(c) <==> v == theme_color_keyword(c),
{
    reveal_strlit("blue");
    reveal_strlit("red");
    reveal_strlit("green");
    reveal_strlit("purple");
    reveal_strlit("orange");
    reveal_strlit("teal");
    reveal_strlit("pink");
    reveal_strlit("neutral");
    assert("blue"@.len() != "red"@.len());
    assert("blue"@.len() != "green"@.len());
    assert("blue"@.len() != "purple"@.len());
    assert("blue"@.len() != "orange"@.len());
    assert("blue"@[0] != "teal"@[0]);
    assert("blue"@[0] != "pink"@[0]);
    assert("blue"@.len() != "neutral"@.len());
    assert("red"@.len() != "green"@.len());
    assert("red"@.len() != "purple"@.len());
    assert("red"@.len() != "orange"@.len());
    assert("red"@.len() != "teal"@.len());
    assert("red"@.len() != "pink"@.len());
    assert("red"@.len() != "neutral"@.len());
    assert("green"@.len() != "purple"@.len());
    assert("green"@.len() != "orange"@.len());
    assert("green"@.len() != "teal"@.len());
    assert("green"@.len() != "pink"@.len());
    assert("green"@.len() != "neutral"@.len());
    assert("purple"@[0] != "orange"@[0]);
    assert("purple"@.len() != "teal"@.len());
    assert("purple"@.len() != "pink"@.len());
    assert("purple"@.len() != "neutral"@.len());
    assert("orange"@.len() != "teal"@.len());
    assert("orange"@.len() != "pink"@.len());
    assert("orange"@.len() != "neutral"@.len());
    assert("teal"@[0] != "pink"@[0]);
    assert("teal"@.len() != "neutral"@.len());
    assert("pink"@.len() != "neutral"@.len());
}

/// A value names a search mode exactly when it is that mode's keyword.
pub proof fn lemma_search_mode_keywords(v: Seq<char>, m: SearchMode)
    ensures
        search_mode_of(v) == Some(m) <==> v == search_mode_keyword(m),
{
    reveal_strlit("default");
    reveal_strlit("everything");
    assert("default"@.len() != "everything"@.len());
}

} // verus!
