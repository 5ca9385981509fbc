//! The browsers installed on the computer, as the system declares them:
//! never a hard-coded list, so every channel and fork (Firefox Nightly,
//! Chrome Canary, LibreWolf...) shows up by itself. This module holds what
//! is decided from what the system says: engines, executables, profiles.

use vstd::prelude::*;
use crate::text::{
    after_last, ascii_lower, ascii_lower_chars, chars_of, eq_chars, first_index, first_is,
    is_whitespace, is_ws, lemma_chars_deep_view, lemma_first_index, lex_lt, lex_lt_chars, lines,
    lines_of, push_all,
    push_str, slice_chars, split_once, split_once_chars, starts_with, starts_with_chars, to_string,
    trim, trim_chars,
};

verus! {

/// How a browser opens a window.
#[derive(Clone, Copy, Debug, PartialEq, Eq, Structural)]
pub enum Engine {
    Chromium,
    Gecko,
    Webkit,
    Unknown,
}

/// A browser profile: the Kynoko session and the Local Network Access
/// permission belong to a profile, so the profile is part of the choice.
#[derive(Clone, Debug)]
pub struct Profile {
    /// What the browser is launched with: the profile directory (Chromium)
    /// or the profile name (Gecko).
    pub id: String,
    pub name: String,
    /// The one the browser opens by itself.
    pub default: bool,
}

/// A browser the system declares.
#[derive(Clone, Debug)]
pub struct Browser {
    /// Stable id: the system's own key for it (registry key name on Windows).
    pub id: String,
    pub name: String,
    pub exe: String,
    pub engine: Engine,
    /// The browser's profiles.
    pub profiles: Vec<Profile>,
    /// How to start it: the program and its fixed arguments (`flatpak run
    /// org.mozilla.firefox` on Linux), before the launcher's own.
    pub command: Vec<String>,
}

/// What `str::to_lowercase` makes of a string (full Unicode lower case).
pub uninterp spec fn lowercase(s: Seq<char>) -> Seq<char>;

/// `str::to_lowercase`: its result is `lowercase` of its argument.
#[verifier::external_body]
pub(crate) fn to_lowercase(s: &str) -> (r: String)
    ensures
        r@ == lowercase(s@),
{
    s.to_lowercase()
}

/* ------------------------------------------------------------------ engines */

/// A path separator of Windows or Unix.
pub open spec fn is_sep(c: char) -> bool {
    c == '\\' || c == '/'
}

/// The index of the last separator of `s`, if any.
pub open spec fn last_sep(s: Seq<char>) -> Option<int>
    decreases s.len(),
{
    if s.len() == 0 {
        None
    } else if is_sep(s.last()) {
        Some(s.len() - 1)
    } else {
        last_sep(s.drop_last())
    }
}

/// The file name of a Windows or Unix path: what follows its last separator.
pub open spec fn file_part(s: Seq<char>) -> Seq<char> {
    match last_sep(s) {
        Some(i) => s.skip(i + 1),
        None => s,
    }
}

/// `s` without every trailing repetition of `suffix` (`str::trim_end_matches`).
pub open spec fn trim_suffix_all(s: Seq<char>, suffix: Seq<char>) -> Seq<char>
    decreases s.len(),
{
    if suffix.len() > 0 && suffix.len() <= s.len() && s.subrange(s.len() - suffix.len(), s.len() as int)
        == suffix {
        trim_suffix_all(s.subrange(0, s.len() - suffix.len()), suffix)
    } else {
        s
    }
}

/// `s` without one trailing `suffix` (`str::strip_suffix`, else `s`).
pub open spec fn strip_suffix_once(s: Seq<char>, suffix: Seq<char>) -> Seq<char> {
    if suffix.len() <= s.len() && s.subrange(s.len() - suffix.len(), s.len() as int) == suffix {
        s.subrange(0, s.len() - suffix.len())
    } else {
        s
    }
}

/// The program's name without its channel suffix: Linux packages name
/// channels as suffixes (google-chrome-stable, firefox-esr).
pub open spec fn engine_stem(exe: Seq<char>) -> Seq<char> {
    let stem = trim_suffix_all(ascii_lower(file_part(exe)), ".exe"@);
    let s1 = strip_suffix_once(stem, "-stable"@);
    let s2 = strip_suffix_once(s1, "-beta"@);
    let s3 = strip_suffix_once(s2, "-dev"@);
    let s4 = strip_suffix_once(s3, "-unstable"@);
    let s5 = strip_suffix_once(s4, "-nightly"@);
    let s6 = strip_suffix_once(s5, "-esr"@);
    let s7 = strip_suffix_once(s6, "-canary"@);
    strip_suffix_once(s7, "-bin"@)
}

pub open spec fn chromium_stem(s: Seq<char>) -> bool {
    ||| s == "chrome"@
    ||| s == "google-chrome"@
    ||| s == "msedge"@
    ||| s == "microsoft-edge"@
    ||| s == "edge"@
    ||| s == "brave"@
    ||| s == "brave-browser"@
    ||| s == "opera"@
    ||| s == "launcher"@
    ||| s == "vivaldi"@
    ||| s == "chromium"@
    ||| s == "chromium-browser"@
    ||| s == "thorium"@
    ||| s == "yandex"@
    ||| s == "yandex-browser"@
}

pub open spec fn gecko_stem(s: Seq<char>) -> bool {
    ||| s == "firefox"@
    ||| s == "librewolf"@
    ||| s == "waterfox"@
    ||| s == "zen"@
    ||| s == "zen-browser"@
    ||| s == "floorp"@
    ||| s == "mullvadbrowser"@
    ||| s == "icecat"@
}

pub open spec fn webkit_stem(s: Seq<char>) -> bool {
    s == "safari"@ || s == "epiphany"@
}

/// The engine a program name stands for.
pub open spec fn engine_of_stem(s: Seq<char>) -> Engine {
    if chromium_stem(s) {
        Engine::Chromium
    } else if gecko_stem(s) {
        Engine::Gecko
    } else if webkit_stem(s) {
        Engine::Webkit
    } else {
        Engine::Unknown
    }
}

/// The engines of the browsers the launcher knows, by the name of their
/// program (its file name in lower case, without `.exe` and without a
/// channel suffix such as `-stable`): Chrome, Edge, Brave, Opera, Vivaldi,
/// Chromium, Thorium and Yandex run Chromium; Firefox, LibreWolf, Waterfox,
/// Zen, Floorp, Mullvad Browser and IceCat run Gecko; Safari and Epiphany
/// run WebKit; any other program is of an unknown engine.
pub proof fn law_known_engines(exe: Seq<char>)
    ensures
        ({
            let s = engine_stem(exe);
            &&& ({
                ||| "chrome"@ == s
                ||| "google-chrome"@ == s
                ||| "msedge"@ == s
                ||| "microsoft-edge"@ == s
                ||| "edge"@ == s
                ||| "brave"@ == s
                ||| "brave-browser"@ == s
                ||| "opera"@ == s
                ||| "launcher"@ == s
                ||| "vivaldi"@ == s
                ||| "chromium"@ == s
                ||| "chromium-browser"@ == s
                ||| "thorium"@ == s
                ||| "yandex"@ == s
                ||| "yandex-browser"@ == s
            }) ==> engine_of_stem(s) == Engine::Chromium
            &&& ({
                ||| "firefox"@ == s
                ||| "librewolf"@ == s
                ||| "waterfox"@ == s
                ||| "zen"@ == s
                ||| "zen-browser"@ == s
                ||| "floorp"@ == s
                ||| "mullvadbrowser"@ == s
                ||| "icecat"@ == s
            }) ==> engine_of_stem(s) == Engine::Gecko
            &&& ("safari"@ == s || "epiphany"@ == s) ==> engine_of_stem(s) == Engine::Webkit
        }),
{
    reveal_strlit("chrome");
    reveal_strlit("google-chrome");
    reveal_strlit("msedge");
    reveal_strlit("microsoft-edge");
    reveal_strlit("edge");
    reveal_strlit("brave");
    reveal_strlit("brave-browser");
    reveal_strlit("opera");
    reveal_strlit("launcher");
    reveal_strlit("vivaldi");
    reveal_strlit("chromium");
    reveal_strlit("chromium-browser");
    reveal_strlit("thorium");
    reveal_strlit("yandex");
    reveal_strlit("yandex-browser");
    reveal_strlit("firefox");
    reveal_strlit("librewolf");
    reveal_strlit("waterfox");
    reveal_strlit("zen");
    reveal_strlit("zen-browser");
    reveal_strlit("floorp");
    reveal_strlit("mullvadbrowser");
    reveal_strlit("icecat");
    reveal_strlit("safari");
    reveal_strlit("epiphany");
    let s = engine_stem(exe);
    if s == "firefox"@ {
        assert(s.len() == 7 && s[0] == 'f' && s[1] == 'i' && s[2] == 'r' && s[3] == 'e' && s[4] == 'f' && s[5] == 'o' && s[6] == 'x');
    }
    if s == "librewolf"@ {
        assert(s.len() == 9 && s[0] == 'l' && s[1] == 'i' && s[2] == 'b' && s[3] == 'r' && s[4] == 'e' && s[5] == 'w' && s[6] == 'o' && s[7] == 'l' && s[8] == 'f');
    }
    if s == "waterfox"@ {
        assert(s.len() == 8 && s[0] == 'w' && s[1] == 'a' && s[2] == 't' && s[3] == 'e' && s[4] == 'r' && s[5] == 'f' && s[6] == 'o' && s[7] == 'x');
    }
    if s == "zen"@ {
        assert(s.len() == 3 && s[0] == 'z' && s[1] == 'e' && s[2] == 'n');
    }
    if s == "zen-browser"@ {
        assert(s.len() == 11 && s[0] == 'z' && s[1] == 'e' && s[2] == 'n' && s[3] == '-' && s[4] == 'b' && s[5] == 'r' && s[6] == 'o' && s[7] == 'w' && s[8] == 's' && s[9] == 'e' && s[10] == 'r');
    }
    if s == "floorp"@ {
        assert(s.len() == 6 && s[0] == 'f' && s[1] == 'l' && s[2] == 'o' && s[3] == 'o' && s[4] == 'r' && s[5] == 'p');
    }
    if s == "mullvadbrowser"@ {
        assert(s.len() == 14 && s[0] == 'm' && s[1] == 'u' && s[2] == 'l' && s[3] == 'l' && s[4] == 'v' && s[5] == 'a' && s[6] == 'd' && s[7] == 'b' && s[8] == 'r' && s[9] == 'o' && s[10] == 'w' && s[11] == 's' && s[12] == 'e' && s[13] == 'r');
    }
    if s == "icecat"@ {
        assert(s.len() == 6 && s[0] == 'i' && s[1] == 'c' && s[2] == 'e' && s[3] == 'c' && s[4] == 'a' && s[5] == 't');
    }
    if s == "safari"@ {
        assert(s.len() == 6 && s[0] == 's' && s[1] == 'a' && s[2] == 'f' && s[3] == 'a' && s[4] == 'r' && s[5] == 'i');
    }
    if s == "epiphany"@ {
        assert(s.len() == 8 && s[0] == 'e' && s[1] == 'p' && s[2] == 'i' && s[3] == 'p' && s[4] == 'h' && s[5] == 'a' && s[6] == 'n' && s[7] == 'y');
    }
}

proof fn lemma_last_sep_after(dir: Seq<char>, sep: char, f: Seq<char>)
    requires
        is_sep(sep),
        forall|i: int| 0 <= i < f.len() ==> !is_sep(#[trigger] f[i]),
    ensures
        last_sep(dir + seq![sep] + f) == Some(dir.len() as int),
    decreases f.len(),
{
    let p = dir + seq![sep] + f;
    if f.len() == 0 {
        assert(p.last() == sep);
    } else {
        let g = f.drop_last();
        lemma_last_sep_after(dir, sep, g);
        assert(p.drop_last() =~= dir + seq![sep] + g);
        assert(!is_sep(f[f.len() - 1]));
    }
}

/// The folder a program is in does not change its engine: the engine is
/// read from the file name alone, after the last `/` or `\`.
pub proof fn law_engine_ignores_folder(dir: Seq<char>, sep: char, file: Seq<char>)
    requires
        is_sep(sep),
        forall|i: int| 0 <= i < file.len() ==> !is_sep(#[trigger] file[i]),
    ensures
        engine_stem(dir + seq![sep] + file) == engine_stem(file),
{
    lemma_last_sep_after(dir, sep, file);
    assert((dir + seq![sep] + file).skip(dir.len() + 1int) =~= file);
    assert(last_sep(file) is None) by {
        lemma_no_sep(file);
    }
}

proof fn lemma_no_sep(f: Seq<char>)
    requires
        forall|i: int| 0 <= i < f.len() ==> !is_sep(#[trigger] f[i]),
    ensures
        last_sep(f) is None,
    decreases f.len(),
{
    if f.len() > 0 {
        let g = f.drop_last();
        assert(!is_sep(f[f.len() - 1]));
        assert forall|i: int| 0 <= i < g.len() implies !is_sep(#[trigger] g[i]) by {
            assert(g[i] == f[i]);
        }
        lemma_no_sep(g);
    }
}

/// The file name of a Windows or Unix path.
pub fn file_part_chars(s: &[char]) -> (r: Vec<char>)
    ensures
        r@ == file_part(s@),
{
    let mut i: usize = s.len();
    assert(s@.take(i as int) == s@);
    while i > 0 && !(s[i - 1] == '\\' || s[i - 1] == '/')
        invariant
            i <= s@.len(),
            last_sep(s@) == last_sep(s@.take(i as int)),
        decreases i,
    {
        assert(s@.take(i as int).drop_last() == s@.take(i - 1));
        i = i - 1;
    }
    let n = s.len();
    if i == 0 {
        assert(last_sep(s@.take(0)) is None);
        slice_chars(s, 0, n)
    } else {
        assert(s@.take(i as int).last() == s@[i - 1]);
        slice_chars(s, i, n)
    }
}

/// `s` without every trailing repetition of `suffix`.
pub fn trim_suffix_all_chars(s: &[char], suffix: &[char]) -> (r: Vec<char>)
    ensures
        r@ == trim_suffix_all(s@, suffix@),
{
    let mut end: usize = s.len();
    let n = suffix.len();
    assert(s@.subrange(0, end as int) == s@);
    loop
        invariant
            end <= s@.len(),
            n == suffix@.len(),
            trim_suffix_all(s@, suffix@) == trim_suffix_all(s@.subrange(0, end as int), suffix@),
        decreases end,
    {
        let ghost cur = s@.subrange(0, end as int);
        if n == 0 || n > end {
            return slice_chars(s, 0, end);
        }
        let tail = slice_chars(s, end - n, end);
        if !eq_chars(&tail, suffix) {
            assert(cur.subrange(cur.len() - n, cur.len() as int) == tail@);
            return slice_chars(s, 0, end);
        }
        assert(cur.subrange(cur.len() - n, cur.len() as int) == tail@);
        assert(cur.subrange(0, cur.len() - n) == s@.subrange(0, end - n));
        end = end - n;
    }
}

/// `s` without one trailing `suffix`, if it ends with it.
pub fn strip_suffix_once_chars(s: &[char], suffix: &[char]) -> (r: Vec<char>)
    ensures
        r@ == strip_suffix_once(s@, suffix@),
{
    let n = suffix.len();
    let end = s.len();
    if n > end {
        return slice_chars(s, 0, end);
    }
    let tail = slice_chars(s, end - n, end);
    if eq_chars(&tail, suffix) {
        slice_chars(s, 0, end - n)
    } else {
        slice_chars(s, 0, end)
    }
}

fn is_one_of(s: &Vec<char>, names: &[&str]) -> (b: bool)
    ensures
        b == exists|i: int| 0 <= i < names@.len() && s@ == names@[i]@,
{
    let mut i: usize = 0;
    while i < names.len()
        invariant
            i <= names@.len(),
            forall|k: int| 0 <= k < i ==> s@ != names@[k]@,
        decreases names@.len() - i,
    {
        let name = chars_of(names[i]);
        if eq_chars(s, &name) {
            return true;
        }
        i = i + 1;
    }
    false
}

/// The program's name without its channel suffix.
fn engine_stem_chars(exe: &str) -> (r: Vec<char>)
    ensures
        r@ == engine_stem(exe@),
{
    let e = chars_of(exe);
    let file = file_part_chars(&e);
    let lower = ascii_lower_chars(&file);
    let exe_suffix = chars_of(".exe");
    let stem = trim_suffix_all_chars(&lower, &exe_suffix);
    let s1 = strip_suffix_once_chars(&stem, &chars_of("-stable"));
    let s2 = strip_suffix_once_chars(&s1, &chars_of("-beta"));
    let s3 = strip_suffix_once_chars(&s2, &chars_of("-dev"));
    let s4 = strip_suffix_once_chars(&s3, &chars_of("-unstable"));
    let s5 = strip_suffix_once_chars(&s4, &chars_of("-nightly"));
    let s6 = strip_suffix_once_chars(&s5, &chars_of("-esr"));
    let s7 = strip_suffix_once_chars(&s6, &chars_of("-canary"));
    strip_suffix_once_chars(&s7, &chars_of("-bin"))
}

/// The engine, from the executable's name: it decides how a window is opened.
pub fn engine_of(exe: &str) -> (r: Engine)
    ensures
        r == engine_of_stem(engine_stem(exe@)),
{
    let stem = engine_stem_chars(exe);
    let chromium = [
        "chrome",
        "google-chrome",
        "msedge",
        "microsoft-edge",
        "edge",
        "brave",
        "brave-browser",
        "opera",
        "launcher",
        "vivaldi",
        "chromium",
        "chromium-browser",
        "thorium",
        "yandex",
        "yandex-browser",
    ];
    let gecko = ["firefox", "librewolf", "waterfox", "zen", "zen-browser", "floorp", "mullvadbrowser", "icecat"];
    let webkit = ["safari", "epiphany"];
    let is_chromium = is_one_of(&stem, &chromium);
    proof {
        let names = chromium@;
        if is_chromium {
            let i = choose|i: int| 0 <= i < names.len() && stem@ == names[i]@;
            assert(chromium_stem(stem@));
        } else {
            assert(stem@ != names[0]@);
            assert(stem@ != names[1]@);
            assert(stem@ != names[2]@);
            assert(stem@ != names[3]@);
            assert(stem@ != names[4]@);
            assert(stem@ != names[5]@);
            assert(stem@ != names[6]@);
            assert(stem@ != names[7]@);
            assert(stem@ != names[8]@);
            assert(stem@ != names[9]@);
            assert(stem@ != names[10]@);
            assert(stem@ != names[11]@);
            assert(stem@ != names[12]@);
            assert(stem@ != names[13]@);
            assert(stem@ != names[14]@);
            assert(!chromium_stem(stem@));
        }
    }
    if is_chromium {
        return Engine::Chromium;
    }
    let is_gecko = is_one_of(&stem, &gecko);
    proof {
        let names = gecko@;
        if is_gecko {
            let i = choose|i: int| 0 <= i < names.len() && stem@ == names[i]@;
            assert(gecko_stem(stem@));
        } else {
            assert(stem@ != names[0]@);
            assert(stem@ != names[1]@);
            assert(stem@ != names[2]@);
            assert(stem@ != names[3]@);
            assert(stem@ != names[4]@);
            assert(stem@ != names[5]@);
            assert(stem@ != names[6]@);
            assert(stem@ != names[7]@);
            assert(!gecko_stem(stem@));
        }
    }
    if is_gecko {
        return Engine::Gecko;
    }
    let is_webkit = is_one_of(&stem, &webkit);
    proof {
        let names = webkit@;
        if is_webkit {
            let i = choose|i: int| 0 <= i < names.len() && stem@ == names[i]@;
            assert(webkit_stem(stem@));
        } else {
            assert(stem@ != names[0]@);
            assert(stem@ != names[1]@);
        }
    }
    if is_webkit {
        Engine::Webkit
    } else {
        Engine::Unknown
    }
}

/* ------------------------------------------------------------ executables */

/// The index of the first whitespace of `s`, if any.
pub open spec fn first_ws(s: Seq<char>) -> Option<int>
    decreases s.len(),
{
    if s.len() == 0 {
        None
    } else if is_ws(s[0]) {
        Some(0)
    } else {
        match first_ws(s.drop_first()) {
            Some(i) => Some(i + 1),
            None => None,
        }
    }
}

/// The program of a command line: `"C:\Program Files\X\x.exe" --arg` ->
/// `C:\Program Files\X\x.exe`; unquoted, its first word.
pub open spec fn executable_of_command(command: Seq<char>) -> Seq<char> {
    let c = trim(command);
    if first_is(c, '"') {
        let rest = c.drop_first();
        match first_index(rest, '"') {
            Some(i) => rest.take(i),
            None => rest,
        }
    } else {
        match first_ws(c) {
            Some(i) => c.take(i),
            None => c,
        }
    }
}

/// `"C:\Program Files\X\x.exe" --arg` -> `C:\Program Files\X\x.exe`.
pub fn executable_of(command: &str) -> (r: String)
    ensures
        r@ == executable_of_command(command@),
{
    let all = chars_of(command);
    let c = trim_chars(&all);
    let n = c.len();
    if n > 0 && c[0] == '"' {
        let rest = slice_chars(&c, 1, n);
        assert(rest@ == c@.drop_first());
        let mut i: usize = 0;
        while i < rest.len() && rest[i] != '"'
            invariant
                i <= rest@.len(),
                forall|j: int| 0 <= j < i ==> rest@[j] != '"',
            decreases rest@.len() - i,
        {
            i = i + 1;
        }
        proof {
            crate::text::lemma_first_index_is(rest@, '"', i as int);
        }
        if i < rest.len() {
            to_string(&slice_chars(&rest, 0, i))
        } else {
            to_string(&rest)
        }
    } else {
        let mut i: usize = 0;
        assert(c@.skip(0) =~= c@);
        while i < n && !is_whitespace(c[i])
            invariant
                i <= n == c@.len(),
                first_ws(c@) == match first_ws(c@.skip(i as int)) {
                    Some(k) => Some(k + i),
                    None => None::<int>,
                },
            decreases n - i,
        {
            assert(c@.skip(i as int).drop_first() =~= c@.skip(i + 1));
            i = i + 1;
        }
        if i < n {
            assert(c@.skip(i as int)[0] == c@[i as int]);
            to_string(&slice_chars(&c, 0, i))
        } else {
            to_string(&c)
        }
    }
}

/// A name registered as a resource reference (`@path,-123`) read as the
/// file name of its path, without `.exe`; any other name as is.
pub open spec fn resolve_indirect_of(name: Seq<char>) -> Seq<char> {
    if first_is(name, '@') {
        let reference = name.drop_first();
        let file = match first_index(reference, ',') {
            Some(i) => reference.take(i),
            None => reference,
        };
        trim_suffix_all(file_part(file), ".exe"@)
    } else {
        name
    }
}

/// Some browsers register their name as a resource reference (`@path,-123`);
/// shown as is, it would read as garbage. Fall back to the file name.
pub fn resolve_indirect(name: String) -> (r: String)
    ensures
        r@ == resolve_indirect_of(name@),
{
    let c = chars_of(name.as_str());
    let n = c.len();
    if n > 0 && c[0] == '@' {
        let reference = slice_chars(&c, 1, n);
        assert(reference@ == c@.drop_first());
        let f = crate::text::find_char(&reference, ',');
        let file = match f {
            Some(i) => {
                proof {
                    lemma_first_index(reference@, ',');
                }
                slice_chars(&reference, 0, i)
            },
            None => {
                let m = reference.len();
                slice_chars(&reference, 0, m)
            },
        };
        assert(reference@.subrange(0, reference@.len() as int) =~= reference@);
        let part = file_part_chars(&file);
        let stem = trim_suffix_all_chars(&part, &chars_of(".exe"));
        to_string(&stem)
    } else {
        name
    }
}

/// Where each Gecko browser keeps profiles.ini, under the roaming AppData.
pub open spec fn gecko_home_of(exe: Seq<char>) -> Option<Seq<char>> {
    let f = trim_suffix_all(ascii_lower(file_part(exe)), ".exe"@);
    if f == "firefox"@ {
        Some("Mozilla\\Firefox"@)
    } else if f == "librewolf"@ {
        Some("librewolf"@)
    } else if f == "waterfox"@ {
        Some("Waterfox"@)
    } else if f == "floorp"@ {
        Some("Floorp"@)
    } else if f == "zen"@ {
        Some("zen"@)
    } else {
        None
    }
}

/// Where each Gecko browser keeps profiles.ini, under the roaming AppData.
pub fn gecko_home(exe: &str) -> (r: Option<&'static str>)
    ensures
        match r {
            Some(h) => gecko_home_of(exe@) == Some(h@),
            None => gecko_home_of(exe@) is None,
        },
{
    let e = chars_of(exe);
    let file = file_part_chars(&e);
    let lower = ascii_lower_chars(&file);
    let f = trim_suffix_all_chars(&lower, &chars_of(".exe"));
    if eq_chars(&f, &chars_of("firefox")) {
        Some("Mozilla\\Firefox")
    } else if eq_chars(&f, &chars_of("librewolf")) {
        Some("librewolf")
    } else if eq_chars(&f, &chars_of("waterfox")) {
        Some("Waterfox")
    } else if eq_chars(&f, &chars_of("floorp")) {
        Some("Floorp")
    } else if eq_chars(&f, &chars_of("zen")) {
        Some("zen")
    } else {
        None
    }
}

/// The parts of a Windows or Unix path, between its separators.
pub open spec fn path_parts(s: Seq<char>) -> Seq<Seq<char>>
    decreases s.len(),
{
    if s.len() == 0 {
        seq![seq![]]
    } else {
        let parts = path_parts(s.drop_last());
        if is_sep(s.last()) {
            parts.push(seq![])
        } else {
            parts.update(parts.len() - 1, parts.last().push(s.last()))
        }
    }
}

/// `dir` joined with `name` (`Path::join` for a name without separators):
/// a `/` between them unless `dir` is empty or already ends with a separator.
pub open spec fn join_path(dir: Seq<char>, name: Seq<char>) -> Seq<char> {
    if dir.len() == 0 {
        name
    } else if is_sep(dir.last()) {
        dir + name
    } else {
        dir + seq!['/'] + name
    }
}

/// The index of the first part equal to `Application` (ASCII case ignored).
pub open spec fn application_index(parts: Seq<Seq<char>>) -> Option<int>
    decreases parts.len(),
{
    if parts.len() == 0 {
        None
    } else if ascii_lower(parts[0]) == "application"@ {
        Some(0)
    } else {
        match application_index(parts.drop_first()) {
            Some(i) => Some(i + 1),
            None => None,
        }
    }
}

/// Chromium keeps its profiles in `<LocalAppData>/<vendor>/<product>/User Data`,
/// the same vendor and product the program is installed under.
pub open spec fn chromium_user_data_of(exe: Seq<char>, local: Seq<char>) -> Option<Seq<char>> {
    let parts = path_parts(exe);
    match application_index(parts) {
        Some(app) => if app < 2 {
            None
        } else {
            Some(join_path(join_path(join_path(local, parts[app - 2]), parts[app - 1]), "User Data"@))
        },
        None => None,
    }
}

fn path_parts_chars(s: &[char]) -> (r: Vec<Vec<char>>)
    ensures
        r.deep_view() == path_parts(s@),
        r@.len() >= 1,
{
    let mut parts: Vec<Vec<char>> = Vec::new();
    let mut cur: Vec<char> = Vec::new();
    let mut i: usize = 0;
    assert(s@.take(0) =~= Seq::<char>::empty());
    while i < s.len()
        invariant
            i <= s@.len(),
            parts.deep_view().push(cur@) == path_parts(s@.take(i as int)),
        decreases s@.len() - i,
    {
        assert(s@.take(i + 1).drop_last() == s@.take(i as int));
        let ghost pv = parts.deep_view();
        if s[i] == '\\' || s[i] == '/' {
            let piece = cur;
            let ghost l = piece@;
            proof {
                lemma_chars_deep_view(piece);
            }
            parts.push(piece);
            assert(parts.deep_view() =~= pv.push(l));
            cur = Vec::new();
            assert(parts.deep_view().push(cur@) =~= path_parts(s@.take(i + 1)));
        } else {
            cur.push(s[i]);
            assert(parts.deep_view() =~= pv);
            assert(parts.deep_view().push(cur@) =~= path_parts(s@.take(i + 1)));
        }
        i = i + 1;
    }
    assert(s@.take(i as int) == s@);
    let ghost pv = parts.deep_view();
    let ghost l = cur@;
    proof {
        lemma_chars_deep_view(cur);
    }
    parts.push(cur);
    assert(parts.deep_view() =~= pv.push(l));
    parts
}

fn join_path_chars(dir: &mut Vec<char>, name: &[char])
    ensures
        final(dir)@ == join_path(old(dir)@, name@),
{
    let n = dir.len();
    if n > 0 && !(dir[n - 1] == '\\' || dir[n - 1] == '/') {
        dir.push('/');
    }
    push_all(dir, name);
}

/// Chromium keeps its profiles in `<LocalAppData>\<vendor>\<product>\User Data`,
/// the same vendor\product the program is installed under (per machine or per
/// user): `...\Google\Chrome SxS\Application\chrome.exe` -> `Google\Chrome SxS`.
pub fn chromium_user_data(exe: &str, local_app_data: &str) -> (r: Option<String>)
    ensures
        match r {
            Some(p) => chromium_user_data_of(exe@, local_app_data@) == Some(p@),
            None => chromium_user_data_of(exe@, local_app_data@) is None,
        },
{
    let e = chars_of(exe);
    let parts = path_parts_chars(&e);
    let ghost pv = parts.deep_view();
    let application = chars_of("application");
    let mut i: usize = 0;
    let mut found = false;
    assert(pv.skip(0) =~= pv);
    while !found && i < parts.len()
        invariant
            i <= parts@.len(),
            pv == parts.deep_view(),
            application@ == "application"@,
            found ==> i < parts@.len() && ascii_lower(pv[i as int]) == "application"@,
            application_index(pv) == match application_index(pv.skip(i as int)) {
                Some(k) => Some(k + i),
                None => None::<int>,
            },
        decreases parts@.len() - i, (if found { 0int } else { 1int }),
    {
        let ghost rest = pv.skip(i as int);
        assert(rest[0] == parts@[i as int]@);
        assert(rest.drop_first() =~= pv.skip(i + 1));
        let lower = ascii_lower_chars(&parts[i]);
        if eq_chars(&lower, &application) {
            found = true;
        } else {
            i = i + 1;
        }
    }
    if !found {
        assert(pv.skip(i as int).len() == 0);
        return None;
    }
    assert(pv.skip(i as int)[0] == pv[i as int]);
    assert(application_index(pv) == Some(i as int));
    if i < 2 {
        return None;
    }
    let mut out = chars_of(local_app_data);
    assert(pv[i - 2] == parts@[i - 2]@);
    assert(pv[i - 1] == parts@[i - 1]@);
    join_path_chars(&mut out, &parts[i - 2]);
    join_path_chars(&mut out, &parts[i - 1]);
    join_path_chars(&mut out, &chars_of("User Data"));
    Some(to_string(&out))
}

/* ---------------------------------------------------------------- sorting */

/// `s` (sorted by `key`) with `x` after every element whose key is not
/// greater than its own.
pub open spec fn insert_by<T>(s: Seq<T>, x: T, key: spec_fn(T) -> Seq<char>) -> Seq<T>
    decreases s.len(),
{
    if s.len() == 0 {
        seq![x]
    } else if lex_lt(key(x), key(s[0])) {
        seq![x] + s
    } else {
        seq![s[0]] + insert_by(s.drop_first(), x, key)
    }
}

/// `s` sorted by `key`, elements of equal keys kept in their order (the
/// stable sort `sort_by` performs).
pub open spec fn sort_by<T>(s: Seq<T>, key: spec_fn(T) -> Seq<char>) -> Seq<T>
    decreases s.len(),
{
    if s.len() == 0 {
        seq![]
    } else {
        insert_by(sort_by(s.drop_last(), key), s.last(), key)
    }
}

/// What a profile is made of: its id, its name, whether it is the default.
pub type ProfileView = (Seq<char>, Seq<char>, bool);

impl View for Profile {
    type V = ProfileView;

    open spec fn view(&self) -> ProfileView {
        (self.id@, self.name@, self.default)
    }
}

/// The views of `s`.
pub open spec fn profile_views(s: Seq<Profile>) -> Seq<ProfileView> {
    s.map_values(|p: Profile| p@)
}

/// Profiles are listed by their name in lower case.
pub open spec fn profile_key() -> spec_fn(ProfileView) -> Seq<char> {
    |p: ProfileView| lowercase(p.1)
}

/// Browsers are listed by their name in lower case.
pub open spec fn browser_key() -> spec_fn(Browser) -> Seq<char> {
    |b: Browser| lowercase(b.name@)
}

fn insert_profile(out: &mut Vec<Profile>, p: Profile)
    ensures
        profile_views(final(out)@) == insert_by(profile_views(old(out)@), p@, profile_key()),
{
    let ghost ov = profile_views(out@);
    let ghost old_out = out@;
    let key = to_lowercase(p.name.as_str());
    let kc = chars_of(key.as_str());
    let mut i: usize = 0;
    let mut stop = false;
    assert(ov.skip(0) =~= ov);
    while !stop && i < out.len()
        invariant
            i <= out@.len(),
            old_out == out@,
            ov == profile_views(out@),
            kc@ == lowercase(p@.1),
            insert_by(ov, p@, profile_key()) == ov.take(i as int) + insert_by(ov.skip(i as int), p@, profile_key()),
            stop ==> i < out@.len() && lex_lt(lowercase(p@.1), lowercase(ov[i as int].1)),
        decreases out@.len() - i, (if stop { 0int } else { 1int }),
    {
        let other = to_lowercase(out[i].name.as_str());
        let oc = chars_of(other.as_str());
        assert(ov[i as int] == out@[i as int]@);
        if lex_lt_chars(&kc, &oc) {
            stop = true;
        } else {
            let ghost rest = ov.skip(i as int);
            assert(rest[0] == ov[i as int]);
            assert(rest.drop_first() =~= ov.skip(i + 1));
            assert(ov.take(i as int) + insert_by(rest, p@, profile_key()) =~= ov.take(i + 1)
                + insert_by(ov.skip(i + 1), p@, profile_key()));
            i = i + 1;
        }
    }
    let ghost pv = p@;
    if !stop {
        assert(ov.skip(i as int) =~= Seq::<ProfileView>::empty());
        assert(ov.take(i as int) =~= ov);
        out.push(p);
        assert(profile_views(out@) =~= ov.push(pv));
    } else {
        assert(ov.skip(i as int)[0] == ov[i as int]);
        out.insert(i, p);
        assert(profile_views(out@) =~= ov.take(i as int) + seq![pv] + ov.skip(i as int));
    }
}

/// Profiles sorted by lower-case name, equal names in their order.
pub fn sorted_profiles(v: Vec<Profile>) -> (r: Vec<Profile>)
    ensures
        profile_views(r@) == sort_by(profile_views(v@), profile_key()),
{
    let ghost all = profile_views(v@);
    let n = v.len();
    let mut rest = v;
    let mut out: Vec<Profile> = Vec::new();
    let mut i: usize = 0;
    assert(all.take(0) =~= Seq::<ProfileView>::empty());
    assert(profile_views(rest@) =~= all.skip(0));
    while rest.len() > 0
        invariant
            i <= all.len(),
            i + rest@.len() == all.len(),
            all.len() == n,
            profile_views(rest@) == all.skip(i as int),
            profile_views(out@) == sort_by(all.take(i as int), profile_key()),
        decreases rest@.len(),
    {
        let ghost rv = rest@;
        let p = rest.remove(0);
        assert(all.take(i + 1).drop_last() =~= all.take(i as int));
        assert(profile_views(rv)[0] == p@);
        assert(all.take(i + 1).last() == p@);
        insert_profile(&mut out, p);
        assert(profile_views(rest@) =~= profile_views(rv).drop_first());
        assert(all.skip(i as int).drop_first() =~= all.skip(i + 1));
        i = i + 1;
    }
    assert(all.take(i as int) =~= all);
    out
}

fn insert_browser(out: &mut Vec<Browser>, b: Browser)
    ensures
        final(out)@ == insert_by(old(out)@, b, browser_key()),
{
    let ghost ov = out@;
    let key = to_lowercase(b.name.as_str());
    let kc = chars_of(key.as_str());
    let mut i: usize = 0;
    let mut stop = false;
    assert(ov.skip(0) =~= ov);
    while !stop && i < out.len()
        invariant
            i <= out@.len(),
            ov == out@,
            kc@ == lowercase(b.name@),
            insert_by(ov, b, browser_key()) == ov.take(i as int) + insert_by(ov.skip(i as int), b, browser_key()),
            stop ==> i < out@.len() && lex_lt(lowercase(b.name@), lowercase(ov[i as int].name@)),
        decreases out@.len() - i, (if stop { 0int } else { 1int }),
    {
        let other = to_lowercase(out[i].name.as_str());
        let oc = chars_of(other.as_str());
        if lex_lt_chars(&kc, &oc) {
            stop = true;
        } else {
            let ghost rest = ov.skip(i as int);
            assert(rest[0] == ov[i as int]);
            assert(rest.drop_first() =~= ov.skip(i + 1));
            assert(ov.take(i as int) + insert_by(rest, b, browser_key()) =~= ov.take(i + 1)
                + insert_by(ov.skip(i + 1), b, browser_key()));
            i = i + 1;
        }
    }
    if !stop {
        assert(ov.skip(i as int) =~= Seq::<Browser>::empty());
        assert(ov.take(i as int) =~= ov);
        out.push(b);
        assert(out@ =~= ov.push(b));
    } else {
        assert(ov.skip(i as int)[0] == ov[i as int]);
        out.insert(i, b);
        assert(out@ =~= ov.take(i as int) + seq![b] + ov.skip(i as int));
    }
}

/// Browsers sorted by lower-case name, equal names in their order.
pub fn sorted_browsers(v: Vec<Browser>) -> (r: Vec<Browser>)
    ensures
        r@ == sort_by(v@, browser_key()),
{
    let ghost all = v@;
    let n = v.len();
    let mut rest = v;
    let mut out: Vec<Browser> = Vec::new();
    let mut i: usize = 0;
    assert(all.take(0) =~= Seq::<Browser>::empty());
    assert(all.skip(0) =~= all);
    while rest.len() > 0
        invariant
            i <= all.len(),
            i + rest@.len() == all.len(),
            all.len() == n,
            rest@ == all.skip(i as int),
            out@ == sort_by(all.take(i as int), browser_key()),
        decreases rest@.len(),
    {
        let b = rest.remove(0);
        assert(all.take(i + 1).drop_last() =~= all.take(i as int));
        insert_browser(&mut out, b);
        assert(rest@ =~= all.skip(i + 1));
        i = i + 1;
    }
    assert(all.take(i as int) =~= all);
    out
}

/// The first browser of each id, in order (a system declaring one twice:
/// the first declaration wins).
pub open spec fn first_of_ids(s: Seq<Browser>) -> Seq<Browser>
    decreases s.len(),
{
    if s.len() == 0 {
        seq![]
    } else {
        let before = first_of_ids(s.drop_last());
        if exists|j: int| 0 <= j < s.len() - 1 && s[j].id@ == s.last().id@ {
            before
        } else {
            before.push(s.last())
        }
    }
}

/// The browsers the system declares, as `candidates` lists them in the order
/// it declares them: the first of each id, sorted by lower-case name.
pub fn installed(candidates: Vec<Browser>) -> (r: Vec<Browser>)
    ensures
        r@ == sort_by(first_of_ids(candidates@), browser_key()),
{
    let ghost all = candidates@;
    let n = candidates.len();
    let mut rest = candidates;
    let mut ids: Vec<String> = Vec::new();
    let mut kept: Vec<Browser> = Vec::new();
    let mut i: usize = 0;
    assert(all.take(0) =~= Seq::<Browser>::empty());
    assert(all.skip(0) =~= all);
    while rest.len() > 0
        invariant
            i <= all.len() == n,
            i + rest@.len() == n,
            rest@ == all.skip(i as int),
            ids.deep_view() == all.take(i as int).map_values(|b: Browser| b.id@),
            ids@.len() == i,
            kept@ == first_of_ids(all.take(i as int)),
        decreases rest@.len(),
    {
        let b = rest.remove(0);
        assert(all.take(i + 1).drop_last() =~= all.take(i as int));
        assert(all.take(i + 1).last() == b);
        let mut seen = false;
        let mut j: usize = 0;
        while j < ids.len()
            invariant
                j <= ids@.len() == i,
                ids.deep_view() == all.take(i as int).map_values(|b: Browser| b.id@),
                seen == exists|k: int| 0 <= k < j && all[k].id@ == b.id@,
                i < all.len(),
                all[i as int] == b,
            decreases ids@.len() - j,
        {
            assert(ids.deep_view()[j as int] == ids@[j as int]@);
            assert(all.take(i as int)[j as int] == all[j as int]);
            if ids[j] == b.id {
                seen = true;
            }
            j = j + 1;
        }
        assert(seen == exists|k: int| 0 <= k < all.take(i + 1).len() - 1 && #[trigger] all.take(i + 1)[k].id@
            == all.take(i + 1).last().id@) by {
            assert forall|k: int| 0 <= k < i implies all.take(i + 1)[k] == all[k] by {}
        }
        let ghost iv = ids.deep_view();
        let ghost bid = b.id@;
        ids.push(b.id.clone());
        assert(ids.deep_view() =~= iv.push(bid));
        assert(all.take(i + 1).map_values(|b: Browser| b.id@) =~= all.take(i as int).map_values(|b: Browser| b.id@).push(bid));
        if !seen {
            kept.push(b);
        }
        assert(rest@ =~= all.skip(i + 1));
        i = i + 1;
    }
    assert(all.take(i as int) =~= all);
    sorted_browsers(kept)
}

/// The browser a Windows registration declares: its id (the key's name),
/// its name (the capabilities' `ApplicationName`, else the key's default
/// value, else the id; a resource reference read as the file it names),
/// and its program, from the `shell\open\command` line. Its profiles are
/// read afterwards.
pub fn registry_browser(
    id: String,
    application_name: Option<String>,
    default_name: Option<String>,
    command: &str,
) -> (r: Browser)
    ensures
        r.id@ == id@,
        r.name@ == resolve_indirect_of(match application_name {
            Some(n) => n@,
            None => match default_name {
                Some(n) => n@,
                None => id@,
            },
        }),
        r.exe@ == executable_of_command(command@),
        r.engine == engine_of_stem(engine_stem(r.exe@)),
        r.command.deep_view() == seq![r.exe@],
        r.profiles@.len() == 0,
{
    let name = match application_name {
        Some(n) => n,
        None => match default_name {
            Some(n) => n,
            None => id.clone(),
        },
    };
    let exe = executable_of(command);
    let engine = engine_of(exe.as_str());
    let mut cmd: Vec<String> = Vec::new();
    cmd.push(exe.clone());
    assert(cmd.deep_view() =~= seq![exe@]);
    Browser { id, name: resolve_indirect(name), exe, engine, profiles: Vec::new(), command: cmd }
}

/// A browser with the id `id` is among `out` already.
pub fn known(out: &[Browser], id: &str) -> (b: bool)
    ensures
        b == exists|i: int| 0 <= i < out@.len() && out@[i].id@ == id@,
{
    let k = id.to_owned();
    let mut i: usize = 0;
    while i < out.len()
        invariant
            i <= out@.len(),
            k@ == id@,
            forall|j: int| 0 <= j < i ==> out@[j].id@ != id@,
        decreases out@.len() - i,
    {
        if out[i].id == k {
            return true;
        }
        i = i + 1;
    }
    false
}

/* ---------------------------------------------------------------- profiles */

/// What the launcher reads of Chromium's `Local State`: the profile used
/// last (`profile.last_used`) and each profile directory with its display
/// name (`profile.info_cache`), in the order serde_json's object yields them.
pub struct LocalState {
    pub last_used: Option<String>,
    pub info_cache: Option<Vec<(String, Option<String>)>>,
}

/// The profile used last (`Default` when the file records none).
pub open spec fn last_used_of(state: LocalState) -> Seq<char> {
    match state.last_used {
        Some(l) => l@,
        None => "Default"@,
    }
}

/// The profile directories and their names.
pub open spec fn cache_of(state: LocalState) -> Seq<(Seq<char>, Option<Seq<char>>)> {
    match state.info_cache {
        Some(c) => c.deep_view(),
        None => seq![],
    }
}

/// The profile of one `info_cache` entry: the directory, its name (the
/// directory when it has none), the default when it was used last.
pub open spec fn local_profile(entry: (Seq<char>, Option<Seq<char>>), last: Seq<char>) -> ProfileView {
    (entry.0, match entry.1 {
        Some(n) => n,
        None => entry.0,
    }, entry.0 == last)
}

/// A `LocalState` as plain values: the profile used last, and the
/// directories with their names.
pub open spec fn local_state_view(state: LocalState) -> (Option<Seq<char>>, Option<Seq<(Seq<char>, Option<Seq<char>>)>>) {
    (
        match state.last_used {
            Some(l) => Some(l@),
            None => None,
        },
        match state.info_cache {
            Some(c) => Some(c.deep_view()),
            None => None,
        },
    )
}

/// The profiles of a `Local State` given as plain values, sorted by name:
/// one per directory, the default the one used last (`Default` when the
/// file records none).
pub open spec fn profiles_of_state(m: (Option<Seq<char>>, Option<Seq<(Seq<char>, Option<Seq<char>>)>>)) -> Seq<
    ProfileView,
> {
    let last = match m.0 {
        Some(l) => l,
        None => "Default"@,
    };
    let cache = match m.1 {
        Some(c) => c,
        None => seq![],
    };
    sort_by(cache.map_values(|e: (Seq<char>, Option<Seq<char>>)| local_profile(e, last)), profile_key())
}

/// The profiles of a `Local State`, sorted by name.
pub open spec fn local_state_profiles(state: LocalState) -> Seq<ProfileView> {
    profiles_of_state(local_state_view(state))
}

/// What serde_json reads of a `Local State` text: `None` when the text is
/// not JSON; else `profile.last_used` when it is a string, and the
/// `profile.info_cache` object (when it is one) as its keys each with its
/// `name` when that is a string.
pub uninterp spec fn local_state_json(text: Seq<char>) -> Option<
    (Option<Seq<char>>, Option<Seq<(Seq<char>, Option<Seq<char>>)>>),
>;

/// `serde_json::from_str` into a `serde_json::Value`, then the fields the
/// launcher reads of it: what it gives is `local_state_json` of the text.
#[verifier::external_body]
fn local_state_of(text: &str) -> (r: Option<LocalState>)
    ensures
        local_state_json(text@) == match r {
            Some(s) => Some(local_state_view(s)),
            None => None,
        },
{
    let v: serde_json::Value = serde_json::from_str(text).ok()?;
    let p = &v["profile"];
    let info_cache = p["info_cache"].as_object().map(
        |c| c.iter().map(|(d, i)| (d.clone(), i["name"].as_str().map(str::to_string))).collect(),
    );
    Some(LocalState { last_used: p["last_used"].as_str().map(str::to_string), info_cache })
}

/// The profiles that the text of Chromium's `Local State` lists, by name;
/// none when it is not JSON.
pub fn chromium_profiles(text: &str) -> (r: Vec<Profile>)
    ensures
        profile_views(r@) == match local_state_json(text@) {
            Some(m) => profiles_of_state(m),
            None => seq![],
        },
{
    match local_state_of(text) {
        Some(state) => parse_local_state(&state),
        None => {
            let r: Vec<Profile> = Vec::new();
            assert(profile_views(r@) =~= Seq::<ProfileView>::empty());
            r
        },
    }
}

/// The profiles Chromium's `Local State` lists, by name.
pub fn parse_local_state(state: &LocalState) -> (r: Vec<Profile>)
    ensures
        profile_views(r@) == local_state_profiles(*state),
{
    let last = match &state.last_used {
        Some(l) => l.clone(),
        None => "Default".to_owned(),
    };
    let mut out: Vec<Profile> = Vec::new();
    match &state.info_cache {
        Some(cache) => {
            let ghost cv = cache.deep_view();
            let mut i: usize = 0;
            while i < cache.len()
                invariant
                    i <= cache@.len(),
                    cv == cache.deep_view(),
                    last@ == last_used_of(*state),
                    profile_views(out@) == cv.take(i as int).map_values(
                        |e: (Seq<char>, Option<Seq<char>>)| local_profile(e, last_used_of(*state)),
                    ),
                decreases cache@.len() - i,
            {
                let (dir, info) = &cache[i];
                let name = match info {
                    Some(n) => n.clone(),
                    None => dir.clone(),
                };
                let default = *dir == last;
                let ghost ov = profile_views(out@);
                let p = Profile { id: dir.clone(), name, default };
                out.push(p);
                assert(cv[i as int].0 == dir@);
                assert(cv[i as int].1 == match info {
                    Some(n) => Some(n@),
                    None => None::<Seq<char>>,
                });
                assert(profile_views(out@) =~= ov.push(p@));
                assert(cv.take(i + 1).map_values(
                    |e: (Seq<char>, Option<Seq<char>>)| local_profile(e, last_used_of(*state)),
                ) =~= cv.take(i as int).map_values(
                    |e: (Seq<char>, Option<Seq<char>>)| local_profile(e, last_used_of(*state)),
                ).push(local_profile(cv[i as int], last_used_of(*state))));
                i = i + 1;
            }
            assert(cv.take(i as int) =~= cv);
        },
        None => {
            assert(profile_views(out@) =~= Seq::<ProfileView>::empty());
        },
    }
    sorted_profiles(out)
}

/* ------------------------------------------------------------ profiles.ini */

/// A section of an ini file: its name and its `key=value` pairs in order.
pub type Section = (Seq<char>, Seq<(Seq<char>, Seq<char>)>);

/// The name of a section header line (`[name]`), if it is one.
pub open spec fn ini_header(line: Seq<char>) -> Option<Seq<char>> {
    if line.len() >= 2 && line[0] == '[' && line.last() == ']' {
        Some(line.subrange(1, line.len() - 1))
    } else {
        None
    }
}

/// Reading one line of an ini file: a header opens a section, a `k=v` line
/// (untrimmed around `=`) goes to the current section, anything else is
/// ignored.
pub open spec fn ini_step(secs: Seq<Section>, raw: Seq<char>) -> Seq<Section> {
    let line = trim(raw);
    match ini_header(line) {
        Some(n) => secs.push((n, seq![])),
        None => match split_once(line, '=') {
            Some((k, v)) => if secs.len() > 0 {
                secs.update(secs.len() - 1, (secs.last().0, secs.last().1.push((k, v))))
            } else {
                secs
            },
            None => secs,
        },
    }
}

pub open spec fn ini_fold(ls: Seq<Seq<char>>) -> Seq<Section>
    decreases ls.len(),
{
    if ls.len() == 0 {
        seq![]
    } else {
        ini_step(ini_fold(ls.drop_last()), ls.last())
    }
}

/// The sections of an ini file.
pub open spec fn ini_sections(text: Seq<char>) -> Seq<Section> {
    ini_fold(lines(text))
}

/// The value of `k` in a section: the last one given (a map's `insert`).
pub open spec fn kv_get(kvs: Seq<(Seq<char>, Seq<char>)>, k: Seq<char>) -> Option<Seq<char>>
    decreases kvs.len(),
{
    if kvs.len() == 0 {
        None
    } else if kvs.last().0 == k {
        Some(kvs.last().1)
    } else {
        kv_get(kvs.drop_last(), k)
    }
}

/// The `Default` of the first section named `hash` (ASCII case ignored).
pub open spec fn install_default(secs: Seq<Section>, hash: Seq<char>) -> Option<Seq<char>>
    decreases secs.len(),
{
    if secs.len() == 0 {
        None
    } else if ascii_lower(secs[0].0) == ascii_lower(hash) {
        kv_get(secs[0].1, "Default"@)
    } else {
        install_default(secs.drop_first(), hash)
    }
}

/// The profile a `[Profile...]` section with a `Name` describes: the
/// default is the one installs.ini gives this install, else the one marked
/// `Default=1`.
pub open spec fn ini_profile(sec: Section, inst: Option<Seq<char>>) -> Option<ProfileView> {
    if starts_with(sec.0, "Profile"@) && kv_get(sec.1, "Name"@) is Some {
        let name = kv_get(sec.1, "Name"@).unwrap();
        let path = match kv_get(sec.1, "Path"@) {
            Some(p) => p,
            None => seq![],
        };
        let default = match inst {
            Some(d) => d == path,
            None => kv_get(sec.1, "Default"@) == Some("1"@),
        };
        Some((name, name, default))
    } else {
        None
    }
}

/// The profiles of the sections, in order.
pub open spec fn ini_profiles(secs: Seq<Section>, inst: Option<Seq<char>>) -> Seq<ProfileView>
    decreases secs.len(),
{
    if secs.len() == 0 {
        seq![]
    } else {
        match ini_profile(secs.last(), inst) {
            Some(p) => ini_profiles(secs.drop_last(), inst).push(p),
            None => ini_profiles(secs.drop_last(), inst),
        }
    }
}

/// The profiles of profiles.ini, by name, the default being the one
/// installs.ini gives the install whose hash ends the browser's id.
pub open spec fn profiles_ini_of(profiles: Seq<char>, installs: Seq<char>, browser_id: Seq<char>) -> Seq<
    ProfileView,
> {
    let inst = install_default(ini_sections(installs), after_last(browser_id, '-'));
    sort_by(ini_profiles(ini_sections(profiles), inst), profile_key())
}

type ExecSection = (Vec<char>, Vec<(Vec<char>, Vec<char>)>);

fn ini_sections_exec(text: &str) -> (r: Vec<ExecSection>)
    ensures
        r.deep_view() == ini_sections(text@),
{
    let c = chars_of(text);
    let ls = lines_of(&c);
    let ghost lv = ls.deep_view();
    let mut secs: Vec<ExecSection> = Vec::new();
    let mut i: usize = 0;
    assert(lv.take(0) =~= Seq::<Seq<char>>::empty());
    while i < ls.len()
        invariant
            i <= ls@.len(),
            lv == ls.deep_view(),
            secs.deep_view() == ini_fold(lv.take(i as int)),
        decreases ls@.len() - i,
    {
        assert(lv.take(i + 1).drop_last() =~= lv.take(i as int));
        assert(lv.take(i + 1).last() == ls@[i as int]@);
        let line = trim_chars(&ls[i]);
        let n = line.len();
        let ghost sv = secs.deep_view();
        if n >= 2 && line[0] == '[' && line[n - 1] == ']' {
            let name = slice_chars(&line, 1, n - 1);
            let ghost nv = name@;
            proof {
                lemma_chars_deep_view(name);
            }
            let empty: Vec<(Vec<char>, Vec<char>)> = Vec::new();
            assert(empty.deep_view() =~= Seq::<(Seq<char>, Seq<char>)>::empty());
            secs.push((name, empty));
            assert(secs.deep_view() =~= sv.push((nv, seq![])));
        } else {
            match split_once_chars(&line, '=') {
                Some((k, v)) => {
                    if secs.len() > 0 {
                        let m = secs.len();
                        assert(sv.last() == secs@[m - 1].deep_view());
                        let (sname, mut kvs) = secs.pop().unwrap();
                        let ghost kv0 = kvs.deep_view();
                        let ghost kk = k@;
                        let ghost vv = v@;
                        proof {
                            lemma_chars_deep_view(k);
                            lemma_chars_deep_view(v);
                        }
                        kvs.push((k, v));
                        assert(kvs.deep_view() =~= kv0.push((kk, vv)));
                        let ghost snv = sname.deep_view();
                        secs.push((sname, kvs));
                        assert(secs.deep_view() =~= sv.update(sv.len() - 1, (sv.last().0, sv.last().1.push((kk, vv)))));
                    }
                },
                None => {},
            }
        }
        i = i + 1;
    }
    assert(lv.take(i as int) =~= lv);
    secs
}

fn kv_get_exec(kvs: &Vec<(Vec<char>, Vec<char>)>, k: &Vec<char>) -> (r: Option<Vec<char>>)
    ensures
        match r {
            Some(v) => kv_get(kvs.deep_view(), k@) == Some(v@),
            None => kv_get(kvs.deep_view(), k@) is None,
        },
{
    let ghost kv = kvs.deep_view();
    let mut i: usize = kvs.len();
    assert(kv.take(i as int) =~= kv);
    while i > 0
        invariant
            i <= kvs@.len(),
            kv == kvs.deep_view(),
            kv_get(kv, k@) == kv_get(kv.take(i as int), k@),
        decreases i,
    {
        assert(kv.take(i as int).drop_last() =~= kv.take(i - 1));
        assert(kv.take(i as int).last() == kv[i - 1]);
        assert(kv[i - 1] == (kvs@[i - 1].0@, kvs@[i - 1].1@));
        if eq_chars(&kvs[i - 1].0, k) {
            return Some(kvs[i - 1].1.clone());
        }
        i = i - 1;
    }
    None
}

/// Profiles from profiles.ini; the default is the one installs.ini gives THIS
/// install (Firefox and Firefox Nightly share the file, not the default). The
/// install hash is the tail of the registry id (`Firefox-308046B0AF4A39CB`).
pub fn parse_profiles_ini(profiles: &str, installs: &str, browser_id: &str) -> (r: Vec<Profile>)
    ensures
        profile_views(r@) == profiles_ini_of(profiles@, installs@, browser_id@),
{
    let idc = chars_of(browser_id);
    let hash = crate::text::after_last_chars(&idc, '-');
    let hash_lower = ascii_lower_chars(&hash);
    let default_key = chars_of("Default");
    let name_key = chars_of("Name");
    let path_key = chars_of("Path");
    let one = chars_of("1");
    let profile_prefix = chars_of("Profile");
    let inst_secs = ini_sections_exec(installs);
    let ghost iv = inst_secs.deep_view();
    let mut inst: Option<Vec<char>> = None;
    let mut i: usize = 0;
    let mut found = false;
    assert(iv.skip(0) =~= iv);
    while !found && i < inst_secs.len()
        invariant
            i <= inst_secs@.len(),
            iv == inst_secs.deep_view(),
            hash_lower@ == ascii_lower(after_last(browser_id@, '-')),
            default_key@ == "Default"@,
            !found ==> inst is None,
            !found ==> install_default(iv, after_last(browser_id@, '-')) == install_default(iv.skip(i as int), after_last(browser_id@, '-')),
            found ==> install_default(iv, after_last(browser_id@, '-')) == match inst {
                Some(v) => Some(v@),
                None => None::<Seq<char>>,
            },
        decreases inst_secs@.len() - i, (if found { 0int } else { 1int }),
    {
        let ghost rest = iv.skip(i as int);
        assert(rest[0] == iv[i as int]);
        assert(iv[i as int] == inst_secs@[i as int].deep_view());
        assert(rest.drop_first() =~= iv.skip(i + 1));
        proof {
            lemma_chars_deep_view(inst_secs@[i as int].0);
        }
        let sl = ascii_lower_chars(&inst_secs[i].0);
        if eq_chars(&sl, &hash_lower) {
            inst = kv_get_exec(&inst_secs[i].1, &default_key);
            found = true;
        } else {
            i = i + 1;
        }
    }
    let ghost instv = install_default(iv, after_last(browser_id@, '-'));
    assert(instv == match inst {
        Some(v) => Some(v@),
        None => None::<Seq<char>>,
    });
    let secs = ini_sections_exec(profiles);
    let ghost sv = secs.deep_view();
    let mut out: Vec<Profile> = Vec::new();
    let mut j: usize = 0;
    assert(sv.take(0) =~= Seq::<Section>::empty());
    while j < secs.len()
        invariant
            j <= secs@.len(),
            sv == secs.deep_view(),
            instv == match inst {
                Some(v) => Some(v@),
                None => None::<Seq<char>>,
            },
            default_key@ == "Default"@,
            name_key@ == "Name"@,
            path_key@ == "Path"@,
            one@ == "1"@,
            profile_prefix@ == "Profile"@,
            profile_views(out@) == ini_profiles(sv.take(j as int), instv),
        decreases secs@.len() - j,
    {
        assert(sv.take(j + 1).drop_last() =~= sv.take(j as int));
        assert(sv.take(j + 1).last() == sv[j as int]);
        assert(sv[j as int] == secs@[j as int].deep_view());
        let ghost ov = profile_views(out@);
        proof {
            lemma_chars_deep_view(secs@[j as int].0);
        }
        if starts_with_chars(&secs[j].0, &profile_prefix) {
            match kv_get_exec(&secs[j].1, &name_key) {
                Some(name) => {
                    let path = match kv_get_exec(&secs[j].1, &path_key) {
                        Some(p) => p,
                        None => Vec::new(),
                    };
                    let default = match &inst {
                        Some(d) => eq_chars(d, &path),
                        None => match kv_get_exec(&secs[j].1, &default_key) {
                            Some(v) => eq_chars(&v, &one),
                            None => false,
                        },
                    };
                    let p = Profile { id: to_string(&name), name: to_string(&name), default };
                    out.push(p);
                    assert(profile_views(out@) =~= ov.push(p@));
                },
                None => {
                    assert(profile_views(out@) =~= ov);
                },
            }
        } else {
            assert(profile_views(out@) =~= ov);
        }
        j = j + 1;
    }
    assert(sv.take(j as int) =~= sv);
    sorted_profiles(out)
}

/* --------------------------------------------------------------- ordering */

proof fn lemma_lex_asym(a: Seq<char>, b: Seq<char>)
    ensures
        lex_lt(a, b) ==> !lex_lt(b, a),
    decreases a.len(),
{
    if a.len() > 0 && b.len() > 0 && a[0] == b[0] {
        lemma_lex_asym(a.drop_first(), b.drop_first());
    }
}

proof fn lemma_lex_trans(a: Seq<char>, b: Seq<char>, c: Seq<char>)
    ensures
        lex_lt(a, b) && lex_lt(b, c) ==> lex_lt(a, c),
    decreases a.len(),
{
    if a.len() > 0 && b.len() > 0 && c.len() > 0 && a[0] == b[0] && b[0] == c[0] {
        lemma_lex_trans(a.drop_first(), b.drop_first(), c.drop_first());
    }
}

/// Where `insert_by` puts `x`: after every element whose key it does not
/// sort before, before the first whose key it does.
proof fn lemma_insert_by_pos<T>(s: Seq<T>, x: T, key: spec_fn(T) -> Seq<char>) -> (k: int)
    ensures
        0 <= k <= s.len(),
        insert_by(s, x, key) == s.insert(k, x),
        forall|i: int| 0 <= i < k ==> !lex_lt(key(x), key(#[trigger] s[i])),
        k < s.len() ==> lex_lt(key(x), key(s[k])),
    decreases s.len(),
{
    if s.len() == 0 {
        assert(s.insert(0, x) =~= seq![x]);
        0
    } else if lex_lt(key(x), key(s[0])) {
        assert(s.insert(0, x) =~= seq![x] + s);
        0
    } else {
        let rest = s.drop_first();
        let k = lemma_insert_by_pos(rest, x, key);
        assert(seq![s[0]] + rest.insert(k, x) =~= s.insert(k + 1, x));
        assert forall|i: int| 0 <= i < k + 1 implies !lex_lt(key(x), key(#[trigger] s[i])) by {
            if i > 0 {
                assert(s[i] == rest[i - 1]);
            }
        }
        if k < rest.len() {
            assert(s[k + 1] == rest[k]);
        }
        k + 1
    }
}

/// No element's key sorts before an earlier one's.
pub open spec fn sorted_by<T>(s: Seq<T>, key: spec_fn(T) -> Seq<char>) -> bool {
    forall|i: int, j: int| 0 <= i < j < s.len() ==> !lex_lt(key(#[trigger] s[j]), key(#[trigger] s[i]))
}

/// Sorting by a key keeps every element, once each, and orders them: no
/// element's key sorts before an earlier one's.
pub proof fn law_sort_by<T>(s: Seq<T>, key: spec_fn(T) -> Seq<char>)
    ensures
        sort_by(s, key).to_multiset() == s.to_multiset(),
        sorted_by(sort_by(s, key), key),
        forall|e: T| sort_by(s, key).contains(e) <==> s.contains(e),
    decreases s.len(),
{
    broadcast use vstd::seq_lib::group_to_multiset_ensures;

    if s.len() == 0 {
        assert(sort_by(s, key) =~= Seq::<T>::empty());
    } else {
        let d = s.drop_last();
        let x = s.last();
        law_sort_by(d, key);
        let r = sort_by(d, key);
        let k = lemma_insert_by_pos(r, x, key);
        let out = r.insert(k, x);
        assert(sort_by(s, key) == out);
        assert(d.push(x) =~= s);
        assert(out.to_multiset() == r.to_multiset().insert(x));
        assert forall|i: int, j: int| 0 <= i < j < out.len() implies !lex_lt(key(#[trigger] out[j]), key(#[trigger] out[i])) by {
            if j < k {
                assert(out[i] == r[i] && out[j] == r[j]);
            } else if j == k {
                assert(out[i] == r[i] && out[j] == x);
            } else if i < k {
                assert(out[i] == r[i] && out[j] == r[j - 1]);
            } else if i == k {
                assert(out[i] == x && out[j] == r[j - 1]);
                lemma_lex_asym(key(x), key(r[k]));
                lemma_lex_trans(key(r[j - 1]), key(x), key(r[k]));
            } else {
                assert(out[i] == r[i - 1] && out[j] == r[j - 1]);
            }
        }
        assert forall|e: T| out.contains(e) <==> s.contains(e) by {
            if out.contains(e) {
                let i = choose|i: int| 0 <= i < out.len() && out[i] == e;
                if i == k {
                    assert(s[s.len() - 1] == e);
                } else {
                    if i < k {
                        assert(r[i] == e);
                    } else {
                        assert(r[i - 1] == e);
                    }
                    assert(r.contains(e));
                    assert(d.contains(e));
                    let m = choose|m: int| 0 <= m < d.len() && d[m] == e;
                    assert(s[m] == e);
                }
                assert(s.contains(e));
            }
            if s.contains(e) {
                let i = choose|i: int| 0 <= i < s.len() && s[i] == e;
                if i < d.len() {
                    assert(d[i] == e);
                    assert(d.contains(e));
                    let m = choose|m: int| 0 <= m < r.len() && r[m] == e;
                    if m < k {
                        assert(out[m] == e);
                    } else {
                        assert(out[m + 1] == e);
                    }
                } else {
                    assert(out[k] == e);
                }
            }
        }
    }
}

/// No two browsers of `s` have the same id.
pub open spec fn unique_ids(s: Seq<Browser>) -> bool {
    forall|i: int, j: int| 0 <= i < j < s.len() ==> (#[trigger] s[i]).id@ != (#[trigger] s[j]).id@
}

proof fn lemma_first_of_ids(s: Seq<Browser>)
    ensures
        unique_ids(first_of_ids(s)),
        forall|b: Browser| first_of_ids(s).contains(b) ==> s.contains(b),
        forall|i: int|
            0 <= i < s.len() ==> exists|j: int| 0 <= j < first_of_ids(s).len() && (#[trigger] first_of_ids(s)[j]).id@ == (
            #[trigger] s[i]).id@,
    decreases s.len(),
{
    if s.len() > 0 {
        let d = s.drop_last();
        let x = s.last();
        lemma_first_of_ids(d);
        let before = first_of_ids(d);
        assert forall|b: Browser| before.contains(b) implies s.contains(b) by {
            assert(d.contains(b));
            let m = choose|m: int| 0 <= m < d.len() && d[m] == b;
            assert(s[m] == b);
        }
        if exists|j: int| 0 <= j < s.len() - 1 && s[j].id@ == x.id@ {
            let w = choose|j: int| 0 <= j < s.len() - 1 && s[j].id@ == x.id@;
            assert forall|i: int| 0 <= i < s.len() implies exists|j: int|
                0 <= j < first_of_ids(s).len() && (#[trigger] first_of_ids(s)[j]).id@ == (#[trigger] s[i]).id@ by {
                if i < d.len() {
                    assert(s[i] == d[i]);
                } else {
                    assert(d[w] == s[w]);
                    let j = choose|j: int| 0 <= j < before.len() && (#[trigger] before[j]).id@ == (#[trigger] d[w]).id@;
                    assert(first_of_ids(s)[j].id@ == s[i].id@);
                }
            }
        } else {
            let f = before.push(x);
            assert(first_of_ids(s) == f);
            assert forall|i: int, j: int| 0 <= i < j < f.len() implies (#[trigger] f[i]).id@ != (#[trigger] f[j]).id@ by {
                if j == before.len() {
                    assert(f[i] == before[i]);
                    assert(before.contains(before[i]));
                    assert(d.contains(before[i]));
                    let m = choose|m: int| 0 <= m < d.len() && d[m] == before[i];
                    assert(s[m] == d[m]);
                } else {
                    assert(f[i] == before[i] && f[j] == before[j]);
                }
            }
            assert forall|b: Browser| f.contains(b) implies s.contains(b) by {
                let m = choose|m: int| 0 <= m < f.len() && f[m] == b;
                if m < before.len() {
                    assert(before[m] == b);
                    assert(before.contains(b));
                } else {
                    assert(s[s.len() - 1] == b);
                }
            }
            assert forall|i: int| 0 <= i < s.len() implies exists|j: int|
                0 <= j < f.len() && (#[trigger] f[j]).id@ == (#[trigger] s[i]).id@ by {
                if i < d.len() {
                    assert(s[i] == d[i]);
                    let j = choose|j: int| 0 <= j < before.len() && (#[trigger] before[j]).id@ == (#[trigger] d[i]).id@;
                    assert(f[j] == before[j]);
                } else {
                    assert(f[before.len() as int] == x);
                }
            }
        }
    }
}

proof fn lemma_sort_unique(s: Seq<Browser>, key: spec_fn(Browser) -> Seq<char>)
    requires
        unique_ids(s),
    ensures
        unique_ids(sort_by(s, key)),
    decreases s.len(),
{
    if s.len() > 0 {
        let d = s.drop_last();
        let x = s.last();
        assert forall|i: int, j: int| 0 <= i < j < d.len() implies (#[trigger] d[i]).id@ != (#[trigger] d[j]).id@ by {
            assert(d[i] == s[i] && d[j] == s[j]);
        }
        lemma_sort_unique(d, key);
        law_sort_by(d, key);
        let r = sort_by(d, key);
        let k = lemma_insert_by_pos(r, x, key);
        let out = r.insert(k, x);
        assert(sort_by(s, key) == out);
        assert forall|m: int| 0 <= m < r.len() implies (#[trigger] r[m]).id@ != x.id@ by {
            assert(r.contains(r[m]));
            assert(d.contains(r[m]));
            let n = choose|n: int| 0 <= n < d.len() && d[n] == r[m];
            assert(s[n] == d[n]);
            assert(s[s.len() - 1] == x);
        }
        assert forall|i: int, j: int| 0 <= i < j < out.len() implies (#[trigger] out[i]).id@ != (#[trigger] out[j]).id@ by {
            if j < k {
                assert(out[i] == r[i] && out[j] == r[j]);
            } else if j == k {
                assert(out[i] == r[i] && out[j] == x);
            } else if i < k {
                assert(out[i] == r[i] && out[j] == r[j - 1]);
            } else if i == k {
                assert(out[i] == x && out[j] == r[j - 1]);
            } else {
                assert(out[i] == r[i - 1] && out[j] == r[j - 1]);
            }
        }
    }
}

/// What `installed` lists: every browser the system declares (each id by
/// its first declaration), each id once, ordered by lower-case name.
pub proof fn law_installed(candidates: Seq<Browser>)
    ensures
        unique_ids(sort_by(first_of_ids(candidates), browser_key())),
        sorted_by(sort_by(first_of_ids(candidates), browser_key()), browser_key()),
        forall|b: Browser| sort_by(first_of_ids(candidates), browser_key()).contains(b) ==> candidates.contains(b),
        forall|i: int|
            0 <= i < candidates.len() ==> exists|j: int|
                0 <= j < sort_by(first_of_ids(candidates), browser_key()).len() && (#[trigger] sort_by(
                    first_of_ids(candidates),
                    browser_key(),
                )[j]).id@ == (#[trigger] candidates[i]).id@,
{
    let f = first_of_ids(candidates);
    lemma_first_of_ids(candidates);
    law_sort_by(f, browser_key());
    lemma_sort_unique(f, browser_key());
    let r = sort_by(f, browser_key());
    assert forall|i: int| 0 <= i < candidates.len() implies exists|j: int|
        0 <= j < r.len() && (#[trigger] r[j]).id@ == (#[trigger] candidates[i]).id@ by {
        let j = choose|j: int| 0 <= j < f.len() && (#[trigger] f[j]).id@ == (#[trigger] candidates[i]).id@;
        assert(f.contains(f[j]));
        assert(r.contains(f[j]));
        let m = choose|m: int| 0 <= m < r.len() && r[m] == f[j];
    }
}


proof fn lemma_sort_by_contains<T>(s: Seq<T>, key: spec_fn(T) -> Seq<char>, y: T)
    ensures
        sort_by(s, key).contains(y) <==> s.contains(y),
    decreases s.len(),
{
    if s.len() > 0 {
        let d = s.drop_last();
        lemma_sort_by_contains(d, key, y);
        let sd = sort_by(d, key);
        let k = lemma_insert_by_pos(sd, s.last(), key);
        let ins = sd.insert(k, s.last());
        if ins.contains(y) {
            let i = choose|i: int| 0 <= i < ins.len() && ins[i] == y;
            if i < k {
                assert(sd[i] == y);
            } else if i > k {
                assert(sd[i - 1] == y);
            }
            if y != s.last() {
                let j = choose|j: int| 0 <= j < d.len() && d[j] == y;
                assert(s[j] == y);
            }
        }
        if s.contains(y) {
            let i = choose|i: int| 0 <= i < s.len() && s[i] == y;
            if i == s.len() - 1 {
                assert(ins[k] == y);
            } else {
                assert(d[i] == y);
                assert(sd.contains(y));
                let j = choose|j: int| 0 <= j < sd.len() && sd[j] == y;
                if j < k {
                    assert(ins[j] == y);
                } else {
                    assert(ins[j + 1] == y);
                }
            }
        }
    }
}

proof fn lemma_ini_profiles_contains(secs: Seq<Section>, inst: Option<Seq<char>>, p: ProfileView)
    ensures
        ini_profiles(secs, inst).contains(p) <==> exists|i: int|
            0 <= i < secs.len() && ini_profile(#[trigger] secs[i], inst) == Some(p),
    decreases secs.len(),
{
    if secs.len() > 0 {
        let d = secs.drop_last();
        lemma_ini_profiles_contains(d, inst, p);
        let before = ini_profiles(d, inst);
        if ini_profiles(secs, inst).contains(p) {
            let k = choose|k: int| 0 <= k < ini_profiles(secs, inst).len() && ini_profiles(secs, inst)[k] == p;
            if k < before.len() {
                assert(before[k] == p);
                let i = choose|i: int| 0 <= i < d.len() && ini_profile(#[trigger] d[i], inst) == Some(p);
                assert(secs[i] == d[i]);
            } else {
                assert(ini_profile(secs[secs.len() - 1], inst) == Some(p));
            }
        }
        if exists|i: int| 0 <= i < secs.len() && ini_profile(#[trigger] secs[i], inst) == Some(p) {
            let i = choose|i: int| 0 <= i < secs.len() && ini_profile(#[trigger] secs[i], inst) == Some(p);
            if i < d.len() {
                assert(d[i] == secs[i]);
                let k = choose|k: int| 0 <= k < before.len() && before[k] == p;
                if ini_profile(secs.last(), inst) is Some {
                    assert(ini_profiles(secs, inst)[k] == p);
                }
            } else {
                assert(ini_profiles(secs, inst).last() == p);
            }
        }
    }
}

/// Without a default that installs.ini gives the install (as when it is
/// not read), the default profile is the one marked so in profiles.ini:
/// every `[Profile...]` section with a name gives a profile of that name,
/// marked default exactly when the section says `Default=1`, and every
/// profile listed comes from such a section.
pub proof fn law_ini_default_marked(profiles: Seq<char>, installs: Seq<char>, browser_id: Seq<char>)
    requires
        install_default(ini_sections(installs), after_last(browser_id, '-')) is None,
    ensures
        ({
            let secs = ini_sections(profiles);
            let r = profiles_ini_of(profiles, installs, browser_id);
            &&& forall|i: int|
                0 <= i < secs.len() && starts_with((#[trigger] secs[i]).0, "Profile"@) && kv_get(secs[i].1, "Name"@)
                    is Some ==> r.contains(
                    (
                        kv_get(secs[i].1, "Name"@).unwrap(),
                        kv_get(secs[i].1, "Name"@).unwrap(),
                        kv_get(secs[i].1, "Default"@) == Some("1"@),
                    ),
                )
            &&& forall|p: ProfileView|
                #[trigger] r.contains(p) ==> exists|i: int|
                    0 <= i < secs.len() && starts_with((#[trigger] secs[i]).0, "Profile"@) && kv_get(secs[i].1, "Name"@)
                        == Some(p.0) && p.1 == p.0 && p.2 == (kv_get(secs[i].1, "Default"@) == Some("1"@))
        }),
{
    let secs = ini_sections(profiles);
    let inst = install_default(ini_sections(installs), after_last(browser_id, '-'));
    let list = ini_profiles(secs, inst);
    assert forall|i: int|
        0 <= i < secs.len() && starts_with((#[trigger] secs[i]).0, "Profile"@) && kv_get(secs[i].1, "Name"@)
            is Some implies profiles_ini_of(profiles, installs, browser_id).contains(
        (
            kv_get(secs[i].1, "Name"@).unwrap(),
            kv_get(secs[i].1, "Name"@).unwrap(),
            kv_get(secs[i].1, "Default"@) == Some("1"@),
        ),
    ) by {
        let p = (
            kv_get(secs[i].1, "Name"@).unwrap(),
            kv_get(secs[i].1, "Name"@).unwrap(),
            kv_get(secs[i].1, "Default"@) == Some("1"@),
        );
        assert(ini_profile(secs[i], inst) == Some(p));
        lemma_ini_profiles_contains(secs, inst, p);
        lemma_sort_by_contains(list, profile_key(), p);
    }
    assert forall|p: ProfileView| #[trigger] profiles_ini_of(profiles, installs, browser_id).contains(p) implies exists|i: int|
        0 <= i < secs.len() && starts_with((#[trigger] secs[i]).0, "Profile"@) && kv_get(secs[i].1, "Name"@) == Some(p.0)
            && p.1 == p.0 && p.2 == (kv_get(secs[i].1, "Default"@) == Some("1"@)) by {
        lemma_sort_by_contains(list, profile_key(), p);
        lemma_ini_profiles_contains(secs, inst, p);
        let i = choose|i: int| 0 <= i < secs.len() && ini_profile(#[trigger] secs[i], inst) == Some(p);
        assert(starts_with(secs[i].0, "Profile"@));
    }
}

/// Without installs.ini, no install has a default of its own.
pub proof fn law_no_installs(browser_id: Seq<char>)
    ensures
        install_default(ini_sections(Seq::<char>::empty()), after_last(browser_id, '-')) is None,
{
    assert(crate::text::line_state(Seq::<char>::empty()) == (Seq::<Seq<char>>::empty(), Seq::<char>::empty()));
    assert(lines(Seq::<char>::empty()) =~= Seq::<Seq<char>>::empty());
    assert(ini_sections(Seq::<char>::empty()) =~= Seq::<Section>::empty());
}

} // verus!
