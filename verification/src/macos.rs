//! The macOS side: engines from bundle identifiers, default handlers set and
//! put back through LaunchServices (each previous handler recorded first),
//! and shortcuts as tiny application bundles in ~/Applications/Kynoko/<App>/,
//! each running the launcher.

use vstd::prelude::*;
use crate::text::{dashed, dashed_chars, ascii_lower, ascii_lower_chars, chars_of, to_string, push_all, push_str, starts_with,
    starts_with_chars, slice_chars, after_last, after_last_chars, last_index};
use crate::launcher::{find_seq, lemma_find_seq_bounds, trim_slashes, trim_slashes_chars};
use crate::browsers::{Engine, Browser, engine_of, engine_of_stem, engine_stem, join_path, lowercase,
    to_lowercase};
use crate::catalogue::{App, AppModel, FacadeModel, localized, localized_name};
use crate::settings::{opt_view, app_url, recorded, select, grown_by, lemma_recorded_grows, lemma_select_grown, Settings,
    Artefact, ArtefactModel, Inventory};
use crate::shortcuts::{file_name, file_name_of, slug_of};

verus! {

/// The launcher's bundle identifier.
pub const BUNDLE_ID: &'static str = "com.kynoko.launcher";

/* ---------------------------------------------------------------- engines */

/// `p` occurs in `s`.
pub open spec fn contains_seq(s: Seq<char>, p: Seq<char>) -> bool {
    find_seq(s, p) is Some
}

/// `p` occurs in `s`.
fn contains_chars(s: &Vec<char>, p: &Vec<char>) -> (r: bool)
    ensures
        r == contains_seq(s@, p@),
{
    let n = s.len();
    let mut i: usize = 0;
    assert(s@.skip(0) =~= s@);
    while i < n
        invariant
            i <= n == s@.len(),
            (find_seq(s@, p@) is Some) == (find_seq(s@.skip(i as int), p@) is Some),
        decreases n - i,
    {
        let rest = slice_chars(s, i, n);
        assert(rest@ == s@.skip(i as int));
        if starts_with_chars(&rest, p) {
            return true;
        }
        assert(s@.skip(i as int).drop_first() =~= s@.skip(i + 1));
        i = i + 1;
    }
    let rest = slice_chars(s, n, n);
    assert(rest@ == s@.skip(n as int));
    starts_with_chars(&rest, p)
}

/// A Gecko browser's identifier (lower case).
pub open spec fn gecko_bundle(id: Seq<char>) -> bool {
    ||| starts_with(id, "org.mozilla."@)
    ||| contains_seq(id, "librewolf"@)
    ||| contains_seq(id, "waterfox"@)
    ||| contains_seq(id, "zen"@)
    ||| contains_seq(id, "floorp"@)
}

/// A Chromium browser's identifier (lower case).
pub open spec fn chromium_bundle(id: Seq<char>) -> bool {
    ||| starts_with(id, "com.google.chrome"@)
    ||| starts_with(id, "com.microsoft.edgemac"@)
    ||| starts_with(id, "com.brave.browser"@)
    ||| starts_with(id, "org.chromium.chromium"@)
    ||| starts_with(id, "com.operasoftware."@)
    ||| starts_with(id, "com.vivaldi."@)
    ||| starts_with(id, "company.thebrowser."@)
}

/// The engine a bundle identifier stands for (ASCII case ignored): Safari's,
/// the known Gecko and Chromium vendors', else what the name says.
pub open spec fn engine_of_bundle_of(id: Seq<char>) -> Engine {
    let id = ascii_lower(id);
    if starts_with(id, "com.apple.safari"@) {
        Engine::Webkit
    } else if gecko_bundle(id) {
        Engine::Gecko
    } else if chromium_bundle(id) {
        Engine::Chromium
    } else {
        engine_of_stem(engine_stem(id))
    }
}

fn has_prefix(s: &Vec<char>, p: &str) -> (r: bool)
    ensures
        r == starts_with(s@, p@),
{
    starts_with_chars(s, &chars_of(p))
}

fn has_part(s: &Vec<char>, p: &str) -> (r: bool)
    ensures
        r == contains_seq(s@, p@),
{
    contains_chars(s, &chars_of(p))
}

/// The engine, from the bundle identifier (a Mac executable name says little).
pub fn engine_of_bundle(id: &str) -> (r: Engine)
    ensures
        r == engine_of_bundle_of(id@),
{
    let l = ascii_lower_chars(&chars_of(id));
    if has_prefix(&l, "com.apple.safari") {
        Engine::Webkit
    } else if has_prefix(&l, "org.mozilla.") || has_part(&l, "librewolf") || has_part(&l, "waterfox") || has_part(
        &l,
        "zen",
    ) || has_part(&l, "floorp") {
        Engine::Gecko
    } else if has_prefix(&l, "com.google.chrome") || has_prefix(&l, "com.microsoft.edgemac") || has_prefix(
        &l,
        "com.brave.browser",
    ) || has_prefix(&l, "org.chromium.chromium") || has_prefix(&l, "com.operasoftware.") || has_prefix(
        &l,
        "com.vivaldi.",
    ) || has_prefix(&l, "company.thebrowser.") {
        Engine::Chromium
    } else {
        engine_of(to_string(&l).as_str())
    }
}

/* ---------------------------------------------------------- default handlers */

/// Which app a recorded default belongs to (`com.kynoko.launcher|Office`).
pub open spec fn owner_of(code: Seq<char>) -> Seq<char> {
    "com.kynoko.launcher"@ + "|"@ + code
}

/// Marks which app a recorded default belongs to.
pub fn owner(app: &App) -> (r: String)
    ensures
        r@ == owner_of(app@.code),
{
    let mut v = chars_of(BUNDLE_ID);
    push_str(&mut v, "|");
    push_all(&mut v, &chars_of(app.code.as_str()));
    to_string(&v)
}

/// The record of a default handler the launcher takes over for `app`.
pub open spec fn default_record(code: Seq<char>, uti: Seq<char>, previous: Option<Seq<char>>) -> ArtefactModel {
    ArtefactModel::MimeDefault { mime: uti, desktop: owner_of(code), previous }
}

/// Before the launcher becomes the default handler of `uti` for `app`, the
/// handler it replaces (`previous`, as LaunchServices gives it) is recorded,
/// unless the launcher is that handler already.
pub fn register(app: &App, uti: &str, previous: Option<String>, inventory: &mut Inventory)
    ensures
        final(inventory)@ == if opt_view(previous) == Some("com.kynoko.launcher"@) {
            old(inventory)@
        } else {
            recorded(old(inventory)@, default_record(app@.code, uti@, opt_view(previous)))
        },
{
    let ours = match &previous {
        Some(p) => crate::text::eq_chars(&chars_of(p.as_str()), &chars_of(BUNDLE_ID)),
        None => false,
    };
    if !ours {
        let a = Artefact::MimeDefault { mime: uti.to_owned(), desktop: owner(app), previous };
        inventory.record(a);
    }
}

/// What to put back as the default handler: the previous one, unless the
/// user changed it since (the current handler is no longer the launcher).
pub fn restore_default(current: Option<&str>, previous: Option<&str>) -> (r: Option<String>)
    ensures
        opt_view(r) == match current {
            Some(c) => if c@ == "com.kynoko.launcher"@ {
                match previous {
                    Some(p) => Some(p@),
                    None => None,
                }
            } else {
                None
            },
            None => None,
        },
{
    match current {
        Some(c) => if crate::text::eq_chars(&chars_of(c), &chars_of(BUNDLE_ID)) {
            match previous {
                Some(p) => Some(p.to_owned()),
                None => None,
            }
        } else {
            None
        },
        None => None,
    }
}

/// A default handler recorded for the app `owner` marks.
pub open spec fn owned_default(a: ArtefactModel, owner: Seq<char>) -> bool {
    match a {
        ArtefactModel::MimeDefault { desktop, .. } => desktop == owner,
        _ => false,
    }
}

/// The defaults to put back, in the order they were recorded: each type
/// with the handler it had before.
pub open spec fn restores_of(s: Seq<ArtefactModel>, owner: Seq<char>) -> Seq<(Seq<char>, Option<Seq<char>>)>
    decreases s.len(),
{
    if s.len() == 0 {
        seq![]
    } else {
        let before = restores_of(s.drop_last(), owner);
        match s.last() {
            ArtefactModel::MimeDefault { mime, desktop, previous } => if desktop == owner {
                before.push((mime, previous))
            } else {
                before
            },
            _ => before,
        }
    }
}

/// The defaults `app` took over, taken out of the inventory: each type with
/// the handler to put back, in the order they were recorded.
pub fn unregister(app: &App, inventory: &mut Inventory) -> (r: Vec<(String, Option<String>)>)
    ensures
        r@.map_values(|p: (String, Option<String>)| (p.0@, opt_view(p.1))) == restores_of(
            old(inventory)@,
            owner_of(app@.code),
        ),
        final(inventory)@ == select(old(inventory)@, |a: ArtefactModel| !owned_default(a, owner_of(app@.code))),
{
    let mine = owner(app);
    let ghost o = mine@;
    let ghost all = inventory@;
    let ghost keep = |a: ArtefactModel| !owned_default(a, o);
    let mut rest: Vec<Artefact> = Vec::new();
    std::mem::swap(&mut rest, &mut inventory.artefacts);
    let mut out: Vec<(String, Option<String>)> = Vec::new();
    let mut kept: Vec<Artefact> = Vec::new();
    let n = rest.len();
    let mut i: usize = 0;
    assert(all.take(0) =~= Seq::<ArtefactModel>::empty());
    assert(rest@.map_values(|a: Artefact| a@) =~= all);
    while rest.len() > 0
        invariant
            i <= n == all.len(),
            i + rest@.len() == n,
            rest@.map_values(|a: Artefact| a@) == all.skip(i as int),
            o == mine@,
            keep == (|a: ArtefactModel| !owned_default(a, o)),
            out@.map_values(|p: (String, Option<String>)| (p.0@, opt_view(p.1))) == restores_of(
                all.take(i as int),
                o,
            ),
            kept@.map_values(|a: Artefact| a@) == select(all.take(i as int), keep),
        decreases rest@.len(),
    {
        let ghost rv = rest@;
        let a = rest.remove(0);
        assert(rv.map_values(|a: Artefact| a@)[0] == a@);
        assert(all.take(i + 1).drop_last() =~= all.take(i as int));
        assert(all.take(i + 1).last() == a@);
        let ghost av = a@;
        let ghost o0 = out@.map_values(|p: (String, Option<String>)| (p.0@, opt_view(p.1)));
        let ghost k0 = kept@.map_values(|a: Artefact| a@);
        match a {
            Artefact::MimeDefault { mime, desktop, previous } => {
                if desktop == mine {
                    let ghost pv = (mime@, opt_view(previous));
                    out.push((mime, previous));
                    assert(out@.map_values(|p: (String, Option<String>)| (p.0@, opt_view(p.1))) =~= o0.push(pv));
                } else {
                    kept.push(Artefact::MimeDefault { mime, desktop, previous });
                    assert(kept@.map_values(|a: Artefact| a@) =~= k0.push(av));
                }
            },
            other => {
                kept.push(other);
                assert(kept@.map_values(|a: Artefact| a@) =~= k0.push(av));
            },
        }
        assert(rest@ =~= rv.drop_first());
        assert(all.skip(i + 1) =~= all.skip(i as int).drop_first());
        assert(rest@.map_values(|a: Artefact| a@) =~= rv.map_values(|a: Artefact| a@).drop_first());
        i = i + 1;
    }
    assert(all.take(i as int) =~= all);
    inventory.artefacts = kept;
    out
}

/// The inventory once `register` ran for each type of `types` in turn
/// (each type with the handler LaunchServices gave for it).
pub open spec fn defaults_registered(
    inv: Seq<ArtefactModel>,
    code: Seq<char>,
    types: Seq<(Seq<char>, Option<Seq<char>>)>,
) -> Seq<ArtefactModel>
    decreases types.len(),
{
    if types.len() == 0 {
        inv
    } else {
        let before = defaults_registered(inv, code, types.drop_last());
        let (uti, previous) = types.last();
        if previous == Some("com.kynoko.launcher"@) {
            before
        } else {
            recorded(before, default_record(code, uti, previous))
        }
    }
}

proof fn lemma_defaults_grow(
    inv: Seq<ArtefactModel>,
    code: Seq<char>,
    types: Seq<(Seq<char>, Option<Seq<char>>)>,
    keep: spec_fn(ArtefactModel) -> bool,
)
    requires
        grown_by(inv, inv, keep),
        keep == (|a: ArtefactModel| !owned_default(a, owner_of(code))),
    ensures
        grown_by(defaults_registered(inv, code, types), inv, keep),
    decreases types.len(),
{
    if types.len() > 0 {
        lemma_defaults_grow(inv, code, types.drop_last(), keep);
        let before = defaults_registered(inv, code, types.drop_last());
        let (uti, previous) = types.last();
        if previous != Some("com.kynoko.launcher"@) {
            assert(!keep(default_record(code, uti, previous)));
            lemma_recorded_grows(before, inv, keep, default_record(code, uti, previous));
        }
    }
}

/// Making the launcher the default handler of an app's types and then
/// taking the app's defaults away leaves the inventory as it was:
/// `unregister` forgets exactly what `register` recorded (for an inventory
/// that holds no default of the app yet).
pub proof fn law_register_then_unregister(
    inv: Seq<ArtefactModel>,
    code: Seq<char>,
    types: Seq<(Seq<char>, Option<Seq<char>>)>,
)
    requires
        forall|i: int| 0 <= i < inv.len() ==> !owned_default(#[trigger] inv[i], owner_of(code)),
    ensures
        select(defaults_registered(inv, code, types), |a: ArtefactModel| !owned_default(a, owner_of(code))) == inv,
{
    let keep = |a: ArtefactModel| !owned_default(a, owner_of(code));
    assert(inv.subrange(0, inv.len() as int) =~= inv);
    lemma_defaults_grow(inv, code, types, keep);
    lemma_select_grown(defaults_registered(inv, code, types), inv, keep);
}

/* ---------------------------------------------------------------- browsers */

/// What a bundle's Info.plist says, as far as browsers go.
#[derive(Debug)]
pub struct BundleInfo {
    /// Where the bundle is (`.../<Name>.app`).
    pub path: String,
    /// `CFBundleIdentifier`.
    pub id: Option<String>,
    /// `CFBundleDisplayName`, else `CFBundleName`.
    pub label: Option<String>,
    /// The string schemes its `CFBundleURLTypes` declare, in order.
    pub url_schemes: Vec<String>,
}

/// One of the schemes is `https`.
pub open spec fn declares_https(schemes: Seq<Seq<char>>) -> bool {
    exists|i: int| 0 <= i < schemes.len() && schemes[i] == "https"@
}

fn has_https(schemes: &Vec<String>) -> (r: bool)
    ensures
        r == declares_https(schemes.deep_view()),
{
    let ghost sv = schemes.deep_view();
    let https = chars_of("https");
    let mut i: usize = 0;
    while i < schemes.len()
        invariant
            i <= schemes@.len(),
            sv == schemes.deep_view(),
            https@ == "https"@,
            forall|j: int| 0 <= j < i ==> sv[j] != "https"@,
        decreases schemes@.len() - i,
    {
        assert(sv[i as int] == schemes@[i as int]@);
        if crate::text::eq_chars(&chars_of(schemes[i].as_str()), &https) {
            return true;
        }
        i = i + 1;
    }
    false
}

/// The name of a bundle from its path: its file name without the extension.
pub open spec fn bundle_stem(path: Seq<char>) -> Seq<char> {
    let n = after_last(path, '/');
    match last_index(n, '.') {
        Some(i) => if i == 0 {
            n
        } else {
            n.take(i)
        },
        None => n,
    }
}

/// How a browser is started: `open -na <app> --args` (a new instance that
/// takes arguments), a WebKit one being only handed the address.
pub open spec fn mac_command(engine: Engine, app: Seq<char>) -> Seq<Seq<char>> {
    if engine == Engine::Webkit {
        seq!["open"@, "-a"@, app]
    } else {
        seq!["open"@, "-na"@, app, "--args"@]
    }
}

/// The bundle is a browser the launcher offers: it declares `https`, has an
/// identifier, is not the launcher, and its identifier was not seen yet.
pub open spec fn offered(info_id: Option<Seq<char>>, https: bool, seen: Seq<Browser>) -> bool {
    let id = match info_id {
        Some(i) => i,
        None => seq![],
    };
    &&& https
    &&& id.len() > 0
    &&& id != "com.kynoko.launcher"@
    &&& !(exists|j: int| 0 <= j < seen.len() && seen[j].id@ == id)
}

fn bundle_stem_exec(path: &str) -> (r: String)
    ensures
        r@ == bundle_stem(path@),
{
    let n = after_last_chars(&chars_of(path), '/');
    let mut i: usize = n.len();
    assert(n@.take(i as int) =~= n@);
    while i > 0 && n[i - 1] != '.'
        invariant
            i <= n@.len(),
            last_index(n@, '.') == last_index(n@.take(i as int), '.'),
        decreases i,
    {
        assert(n@.take(i as int).drop_last() =~= n@.take(i - 1));
        i = i - 1;
    }
    if i == 0 {
        assert(last_index(n@.take(0), '.') is None);
        to_string(&n)
    } else {
        assert(n@.take(i as int).last() == n@[i - 1]);
        if i == 1 {
            to_string(&n)
        } else {
            to_string(&slice_chars(&n, 0, i - 1))
        }
    }
}

/// The browser a bundle is, if the launcher offers it (see `offered`): its
/// identifier, its label (else the bundle's name), its engine, and how it is
/// started. Its profiles are read afterwards.
pub fn bundle_browser(info: &BundleInfo, seen: &[Browser]) -> (r: Option<Browser>)
    ensures
        match r {
            Some(b) => {
                &&& offered(opt_view(info.id), declares_https(info.url_schemes.deep_view()), seen@)
                &&& info.id is Some
                &&& b.id@ == info.id.unwrap()@
                &&& b.name@ == match info.label {
                    Some(l) => l@,
                    None => bundle_stem(info.path@),
                }
                &&& b.exe@ == info.path@
                &&& b.engine == engine_of_bundle_of(b.id@)
                &&& b.command.deep_view() == mac_command(b.engine, info.path@)
                &&& b.profiles@.len() == 0
            },
            None => !offered(opt_view(info.id), declares_https(info.url_schemes.deep_view()), seen@),
        },
{
    let id = match &info.id {
        Some(i) => i.clone(),
        None => String::new(),
    };
    assert(id@ == match opt_view(info.id) {
        Some(i) => i,
        None => Seq::<char>::empty(),
    });
    let idc = chars_of(id.as_str());
    if !has_https(&info.url_schemes) || idc.len() == 0 || crate::text::eq_chars(&idc, &chars_of(BUNDLE_ID))
        || crate::browsers::known(seen, id.as_str()) {
        return None;
    }
    let name = match &info.label {
        Some(l) => l.clone(),
        None => bundle_stem_exec(info.path.as_str()),
    };
    let engine = engine_of_bundle(id.as_str());
    let mut command: Vec<String> = Vec::new();
    command.push("open".to_owned());
    if engine == Engine::Webkit {
        command.push("-a".to_owned());
        command.push(info.path.clone());
    } else {
        command.push("-na".to_owned());
        command.push(info.path.clone());
        command.push("--args".to_owned());
    }
    assert(command.deep_view() =~= mac_command(engine, info.path@));
    Some(Browser { id, name, exe: info.path.clone(), engine, profiles: Vec::new(), command })
}

/// Where, under `~/Library/Application Support`, a browser keeps what lists
/// its profiles: Chromium's `Local State` (by vendor), Firefox's
/// `profiles.ini`; none for the others.
pub open spec fn profiles_file_of(engine: Engine, id: Seq<char>) -> Option<Seq<char>> {
    let id = ascii_lower(id);
    if engine == Engine::Chromium {
        if starts_with(id, "com.google.chrome.canary"@) {
            Some("Google/Chrome Canary/Local State"@)
        } else if starts_with(id, "com.google.chrome.beta"@) {
            Some("Google/Chrome Beta/Local State"@)
        } else if starts_with(id, "com.google.chrome"@) {
            Some("Google/Chrome/Local State"@)
        } else if starts_with(id, "com.microsoft.edgemac"@) {
            Some("Microsoft Edge/Local State"@)
        } else if starts_with(id, "com.brave.browser"@) {
            Some("BraveSoftware/Brave-Browser/Local State"@)
        } else if starts_with(id, "org.chromium.chromium"@) {
            Some("Chromium/Local State"@)
        } else if starts_with(id, "com.vivaldi."@) {
            Some("Vivaldi/Local State"@)
        } else {
            None
        }
    } else if engine == Engine::Gecko && starts_with(id, "org.mozilla."@) {
        Some("Firefox/profiles.ini"@)
    } else {
        None
    }
}

/// Where a browser lists its profiles, under `~/Library/Application Support`.
pub fn profiles_file(engine: Engine, id: &str) -> (r: Option<String>)
    ensures
        opt_view(r) == profiles_file_of(engine, id@),
{
    let l = ascii_lower_chars(&chars_of(id));
    if engine == Engine::Chromium {
        if has_prefix(&l, "com.google.chrome.canary") {
            Some("Google/Chrome Canary/Local State".to_owned())
        } else if has_prefix(&l, "com.google.chrome.beta") {
            Some("Google/Chrome Beta/Local State".to_owned())
        } else if has_prefix(&l, "com.google.chrome") {
            Some("Google/Chrome/Local State".to_owned())
        } else if has_prefix(&l, "com.microsoft.edgemac") {
            Some("Microsoft Edge/Local State".to_owned())
        } else if has_prefix(&l, "com.brave.browser") {
            Some("BraveSoftware/Brave-Browser/Local State".to_owned())
        } else if has_prefix(&l, "org.chromium.chromium") {
            Some("Chromium/Local State".to_owned())
        } else if has_prefix(&l, "com.vivaldi.") {
            Some("Vivaldi/Local State".to_owned())
        } else {
            None
        }
    } else if engine == Engine::Gecko && has_prefix(&l, "org.mozilla.") {
        Some("Firefox/profiles.ini".to_owned())
    } else {
        None
    }
}

/* --------------------------------------------------------------- shortcuts */

/// The folder of an app's shortcuts: `~/Applications/Kynoko/<App name>`.
pub open spec fn shortcut_folder_of(home: Seq<char>, app: AppModel, lang: Seq<char>) -> Seq<char> {
    join_path(join_path(home, "Applications/Kynoko"@), file_name_of(localized(app.names, lang, app.code)))
}

fn join(dir: &Vec<char>, name: &Vec<char>) -> (r: Vec<char>)
    ensures
        r@ == join_path(dir@, name@),
{
    let mut d = dir.clone();
    let n = d.len();
    if n > 0 && !(d[n - 1] == '\\' || d[n - 1] == '/') {
        d.push('/');
    }
    push_all(&mut d, name);
    d
}

/// The folder of an app's shortcuts, under the home directory `home`.
pub fn shortcut_folder(app: &App, lang: &str, home: &str) -> (r: String)
    ensures
        r@ == shortcut_folder_of(home@, app@, lang@),
{
    let root = join(&chars_of(home), &chars_of("Applications/Kynoko"));
    let name = file_name(app.name(lang).as_str());
    to_string(&join(&root, &chars_of(name.as_str())))
}

/// The width `image` reads in the PNG `png`, if it decodes.
pub uninterp spec fn decoded_width(png: Seq<u8>) -> Option<u32>;

/// `image::load_from_memory_with_format(png, Png)` and the decoded image's
/// `width()`. Claimed: the width is `decoded_width(png)`, a function of the
/// bytes, and `None` when they do not decode.
#[verifier::external_body]
fn png_width(png: &[u8]) -> (r: Option<u32>)
    ensures
        r == decoded_width(png@),
{
    image::load_from_memory_with_format(png, image::ImageFormat::Png).map(|i| i.width()).ok()
}

/// `n` as four big-endian bytes.
pub open spec fn be32(n: nat) -> Seq<u8> {
    seq![((n / 16777216) % 256) as u8, ((n / 65536) % 256) as u8, ((n / 256) % 256) as u8, (n % 256) as u8]
}

/// The icns element type for a PNG of that width: `ic10` from 1024 pixels,
/// `ic09` from 512, `ic08` from 256, else `ic07`.
pub open spec fn icns_kind(width: u32) -> Seq<u8> {
    if width >= 1024 {
        seq![105u8, 99u8, 49u8, 48u8]
    } else if width >= 512 {
        seq![105u8, 99u8, 48u8, 57u8]
    } else if width >= 256 {
        seq![105u8, 99u8, 48u8, 56u8]
    } else {
        seq![105u8, 99u8, 48u8, 55u8]
    }
}

/// An .icns holding `png` as its one frame (macOS reads PNG inside icns
/// since 10.7), typed by the PNG's width (512 when it does not decode).
pub open spec fn icns_of(png: Seq<u8>) -> Seq<u8> {
    let width = match decoded_width(png) {
        Some(w) => w,
        None => 512,
    };
    seq![105u8, 99u8, 110u8, 115u8] + be32(16 + png.len()) + icns_kind(width) + be32(8 + png.len()) + png
}

/// The number four big-endian bytes stand for.
pub open spec fn be32_value(b: Seq<u8>) -> nat {
    (b[0] as nat) * 16777216 + (b[1] as nat) * 65536 + (b[2] as nat) * 256 + (b[3] as nat)
}

proof fn lemma_be32(n: u32)
    ensures
        be32(n as nat).len() == 4,
        be32_value(be32(n as nat)) == n,
{
    assert(((n / 16777216) % 256) * 16777216 + ((n / 65536) % 256) * 65536 + ((n / 256) % 256) * 256 + n % 256
        == n) by (bit_vector);
}

/// An .icns reads back whole: it starts with `icns`, its length field is
/// its length, its one element's length field covers the PNG, which follows
/// as it was.
pub proof fn law_icns(png: Seq<u8>)
    requires
        png.len() + 16 <= u32::MAX,
    ensures
        icns_of(png).subrange(0, 4) == seq![105u8, 99u8, 110u8, 115u8],
        be32_value(icns_of(png).subrange(4, 8)) == icns_of(png).len(),
        be32_value(icns_of(png).subrange(12, 16)) == 8 + png.len(),
        icns_of(png).subrange(16, icns_of(png).len() as int) == png,
{
    let t = (16 + png.len()) as u32;
    let e = (8 + png.len()) as u32;
    lemma_be32(t);
    lemma_be32(e);
    let width = match decoded_width(png) {
        Some(w) => w,
        None => 512,
    };
    let i = icns_of(png);
    assert(icns_kind(width).len() == 4);
    assert(i.len() == 16 + png.len());
    assert(i.subrange(0, 4) =~= seq![105u8, 99u8, 110u8, 115u8]);
    assert(i.subrange(4, 8) =~= be32(t as nat));
    assert(i.subrange(12, 16) =~= be32(e as nat));
    assert(i.subrange(16, i.len() as int) =~= png);
}

fn push_be32(out: &mut Vec<u8>, n: u32)
    ensures
        final(out)@ == old(out)@ + be32(n as nat),
{
    out.push(((n / 16777216) % 256) as u8);
    out.push(((n / 65536) % 256) as u8);
    out.push(((n / 256) % 256) as u8);
    out.push((n % 256) as u8);
    assert(final(out)@ =~= old(out)@ + be32(n as nat));
}

/// An .icns holding one PNG frame.
pub fn png_to_icns(png: &[u8]) -> (r: Vec<u8>)
    requires
        png@.len() + 16 <= u32::MAX,
    ensures
        r@ == icns_of(png@),
{
    let width = match png_width(png) {
        Some(w) => w,
        None => 512,
    };
    let kind: [u8; 4] = if width >= 1024 {
        [105u8, 99u8, 49u8, 48u8]
    } else if width >= 512 {
        [105u8, 99u8, 48u8, 57u8]
    } else if width >= 256 {
        [105u8, 99u8, 48u8, 56u8]
    } else {
        [105u8, 99u8, 48u8, 55u8]
    };
    assert(kind@ =~= icns_kind(width));
    let entry_len = 8 + png.len() as u32;
    let mut out: Vec<u8> = Vec::new();
    out.push(105u8);
    out.push(99u8);
    out.push(110u8);
    out.push(115u8);
    push_be32(&mut out, 8 + entry_len);
    out.push(kind[0]);
    out.push(kind[1]);
    out.push(kind[2]);
    out.push(kind[3]);
    push_be32(&mut out, entry_len);
    let ghost head = out@;
    assert(head =~= seq![105u8, 99u8, 110u8, 115u8] + be32(16 + png@.len()) + icns_kind(width) + be32(
        8 + png@.len(),
    ));
    let mut i: usize = 0;
    while i < png.len()
        invariant
            i <= png@.len(),
            out@ == head + png@.take(i as int),
        decreases png@.len() - i,
    {
        out.push(png[i]);
        assert(png@.take(i + 1) =~= png@.take(i as int).push(png@[i as int]));
        assert(out@ =~= head + png@.take(i + 1));
        i = i + 1;
    }
    assert(png@.take(i as int) =~= png@);
    out
}

/// `s` quoted for `sh` inside single quotes: each `'` becomes `'\''`.
pub open spec fn sh_quoted(s: Seq<char>) -> Seq<char>
    decreases s.len(),
{
    if s.len() == 0 {
        seq![]
    } else if s.last() == '\'' {
        sh_quoted(s.drop_last()) + seq!['\'', '\\', '\'', '\'']
    } else {
        sh_quoted(s.drop_last()).push(s.last())
    }
}

/// The script a shortcut bundle runs: the launcher, with `launch <target>`.
pub open spec fn launch_script_of(exe: Seq<char>, target: Seq<char>) -> Seq<char> {
    "#!/bin/sh\nexec '"@ + sh_quoted(exe) + "' launch '"@ + sh_quoted(target) + "'\n"@
}

fn push_quoted(out: &mut Vec<char>, s: &str)
    ensures
        final(out)@ == old(out)@ + sh_quoted(s@),
{
    let c = chars_of(s);
    let mut i: usize = 0;
    assert(c@.take(0) =~= Seq::<char>::empty());
    while i < c.len()
        invariant
            i <= c@.len(),
            c@ == s@,
            out@ == old(out)@ + sh_quoted(c@.take(i as int)),
        decreases c@.len() - i,
    {
        assert(c@.take(i + 1).drop_last() =~= c@.take(i as int));
        assert(c@.take(i + 1).last() == c@[i as int]);
        if c[i] == '\'' {
            out.push('\'');
            out.push('\\');
            out.push('\'');
            out.push('\'');
        } else {
            out.push(c[i]);
        }
        assert(out@ =~= old(out)@ + sh_quoted(c@.take(i + 1)));
        i = i + 1;
    }
    assert(c@.take(i as int) =~= c@);
}

/// The script a shortcut bundle runs: `exec '<exe>' launch '<target>'`.
pub fn launch_script(exe: &str, target: &str) -> (r: String)
    ensures
        r@ == launch_script_of(exe@, target@),
{
    let mut out = chars_of("#!/bin/sh\nexec '");
    push_quoted(&mut out, exe);
    push_str(&mut out, "' launch '");
    push_quoted(&mut out, target);
    push_str(&mut out, "'\n");
    to_string(&out)
}

/// A shortcut bundle: where it goes, its name, what it runs the launcher
/// with (`launch <target>`), its bundle identifier, and the web manifest
/// its icon comes from.
#[derive(Debug)]
pub struct ShortcutBundle {
    pub path: String,
    pub name: String,
    pub target: String,
    pub id: String,
    pub manifest: String,
}

/// A shortcut bundle, as a value.
pub struct ShortcutBundleModel {
    pub path: Seq<char>,
    pub name: Seq<char>,
    pub target: Seq<char>,
    pub id: Seq<char>,
    pub manifest: Seq<char>,
}

impl View for ShortcutBundle {
    type V = ShortcutBundleModel;

    open spec fn view(&self) -> ShortcutBundleModel {
        ShortcutBundleModel {
            path: self.path@,
            name: self.name@,
            target: self.target@,
            id: self.id@,
            manifest: self.manifest@,
        }
    }
}

/// The app's own shortcut bundle.
pub open spec fn app_bundle(app: AppModel, base: Seq<char>, folder: Seq<char>, lang: Seq<char>) -> ShortcutBundleModel {
    let name = localized(app.names, lang, app.code);
    ShortcutBundleModel {
        path: join_path(folder, file_name_of(name) + ".app"@),
        name,
        target: app.code,
        id: "com.kynoko.launcher"@ + ".shortcut."@ + lowercase(app.code),
        manifest: base + "/manifest.webmanifest"@,
    }
}

/// A facade's shortcut bundle: named in `lang` (else English, else its path).
pub open spec fn facade_bundle(
    app: AppModel,
    f: FacadeModel,
    base: Seq<char>,
    folder: Seq<char>,
    lang: Seq<char>,
) -> ShortcutBundleModel {
    let name = localized(f.names, lang, f.path);
    let slug = slug_of(f.path);
    ShortcutBundleModel {
        path: join_path(folder, file_name_of(name) + ".app"@),
        name,
        target: app.code + "/"@ + f.path,
        id: "com.kynoko.launcher"@ + ".shortcut."@ + lowercase(app.code) + "."@ + dashed(slug),
        manifest: base + "/assets/manifests/"@ + slug + ".webmanifest"@,
    }
}

/// The bundles of the listed facades among `fs`, in order.
pub open spec fn facade_bundles(
    app: AppModel,
    fs: Seq<FacadeModel>,
    base: Seq<char>,
    folder: Seq<char>,
    lang: Seq<char>,
) -> Seq<ShortcutBundleModel>
    decreases fs.len(),
{
    if fs.len() == 0 {
        seq![]
    } else {
        let before = facade_bundles(app, fs.drop_last(), base, folder, lang);
        if fs.last().listed {
            before.push(facade_bundle(app, fs.last(), base, folder, lang))
        } else {
            before
        }
    }
}

/// All of an app's shortcut bundles: the app first, then its listed facades.
pub open spec fn bundles_of(app: AppModel, base: Seq<char>, folder: Seq<char>, lang: Seq<char>) -> Seq<
    ShortcutBundleModel,
> {
    seq![app_bundle(app, base, folder, lang)] + facade_bundles(app, app.facades, base, folder, lang)
}

/// An app's shortcut bundles in `~/Applications/Kynoko/<App name>/`
/// (`home` is the home directory): the app, then each listed facade.
pub fn create_shortcuts(app: &App, settings: &Settings, lang: &str, home: &str) -> (r: (String, Vec<ShortcutBundle>))
    ensures
        r.0@ == shortcut_folder_of(home@, app@, lang@),
        r.1@.map_values(|b: ShortcutBundle| b@) == bundles_of(
            app@,
            trim_slashes(app_url(settings.app_urls@, app@)),
            shortcut_folder_of(home@, app@, lang@),
            lang@,
        ),
{
    let url = settings.url_of(app);
    let base = trim_slashes_chars(&chars_of(url.as_str()));
    let ghost b = base@;
    let folder = shortcut_folder(app, lang, home);
    let fc = chars_of(folder.as_str());
    let ghost fd = folder@;
    let name = app.name(lang);
    let mut file = chars_of(file_name(name.as_str()).as_str());
    push_str(&mut file, ".app");
    let mut manifest = base.clone();
    push_str(&mut manifest, "/manifest.webmanifest");
    let code_lower = chars_of(to_lowercase(app.code.as_str()).as_str());
    let mut prefix = chars_of(BUNDLE_ID);
    push_str(&mut prefix, ".shortcut.");
    push_all(&mut prefix, &code_lower);
    let mut out: Vec<ShortcutBundle> = Vec::new();
    out.push(
        ShortcutBundle {
            path: to_string(&join(&fc, &file)),
            name,
            target: app.code.clone(),
            id: to_string(&prefix),
            manifest: to_string(&manifest),
        },
    );
    let ghost fs = app@.facades;
    let mut i: usize = 0;
    assert(fs.take(0) =~= Seq::<FacadeModel>::empty());
    assert(out@.map_values(|x: ShortcutBundle| x@) =~= seq![app_bundle(app@, b, fd, lang@)]);
    proof {
        reveal_strlit("/");
        reveal_strlit(".");
    }
    while i < app.facades.len()
        invariant
            i <= app.facades@.len(),
            fs == app@.facades,
            b == trim_slashes(app_url(settings.app_urls@, app@)),
            base@ == b,
            fc@ == fd,
            fd == shortcut_folder_of(home@, app@, lang@),
            prefix@ == "com.kynoko.launcher"@ + ".shortcut."@ + lowercase(app@.code),
            "/"@ == seq!['/'],
            "."@ == seq!['.'],
            out@.map_values(|x: ShortcutBundle| x@) == seq![app_bundle(app@, b, fd, lang@)] + facade_bundles(
                app@,
                fs.take(i as int),
                b,
                fd,
                lang@,
            ),
        decreases app.facades@.len() - i,
    {
        assert(fs.take(i + 1).drop_last() =~= fs.take(i as int));
        let f = &app.facades[i];
        assert(fs.take(i + 1).last() == f@);
        let ghost before = out@.map_values(|x: ShortcutBundle| x@);
        if f.listed {
            let fname = localized_name(&f.names, lang, &f.path);
            let mut ffile = chars_of(file_name(fname.as_str()).as_str());
            push_str(&mut ffile, ".app");
            let p = chars_of(f.path.as_str());
            let slug = after_last_chars(&p, '/');
            let mut target = chars_of(app.code.as_str());
            target.push('/');
            push_all(&mut target, &p);
            let mut id = prefix.clone();
            id.push('.');
            push_all(&mut id, &dashed_chars(&slug));
            let mut fmanifest = base.clone();
            push_str(&mut fmanifest, "/assets/manifests/");
            push_all(&mut fmanifest, &slug);
            push_str(&mut fmanifest, ".webmanifest");
            let x = ShortcutBundle {
                path: to_string(&join(&fc, &ffile)),
                name: fname,
                target: to_string(&target),
                id: to_string(&id),
                manifest: to_string(&fmanifest),
            };
            assert(x.path@ == facade_bundle(app@, f@, b, fd, lang@).path);
            assert(x.target@ == facade_bundle(app@, f@, b, fd, lang@).target);
            assert(x.id@ == facade_bundle(app@, f@, b, fd, lang@).id);
            assert(x.manifest@ == facade_bundle(app@, f@, b, fd, lang@).manifest);
            assert(x@ == facade_bundle(app@, f@, b, fd, lang@));
            out.push(x);
            assert(out@.map_values(|x: ShortcutBundle| x@) =~= before.push(facade_bundle(app@, f@, b, fd, lang@)));
        }
        i = i + 1;
    }
    assert(fs.take(i as int) =~= fs);
    (folder, out)
}

/// A value of a shortcut bundle's Info.plist.
#[derive(Debug)]
pub enum PlistValue {
    Text(String),
    Flag(bool),
}

/// A plist value, as a value.
pub enum PlistValueModel {
    Text(Seq<char>),
    Flag(bool),
}

impl View for PlistValue {
    type V = PlistValueModel;

    open spec fn view(&self) -> PlistValueModel {
        match self {
            PlistValue::Text(t) => PlistValueModel::Text(t@),
            PlistValue::Flag(b) => PlistValueModel::Flag(*b),
        }
    }
}

/// The Info.plist of a shortcut bundle, in order: its name, the script it
/// runs (`launch`), its identifier, an application kept out of the Dock,
/// and its icon when it has one.
pub open spec fn info_plist_of(b: ShortcutBundleModel, with_icon: bool) -> Seq<(Seq<char>, PlistValueModel)> {
    let entries = seq![
        ("CFBundleName"@, PlistValueModel::Text(b.name)),
        ("CFBundleDisplayName"@, PlistValueModel::Text(b.name)),
        ("CFBundleExecutable"@, PlistValueModel::Text("launch"@)),
        ("CFBundleIdentifier"@, PlistValueModel::Text(b.id)),
        ("CFBundlePackageType"@, PlistValueModel::Text("APPL"@)),
        ("LSUIElement"@, PlistValueModel::Flag(true)),
    ];
    if with_icon {
        entries.push(("CFBundleIconFile"@, PlistValueModel::Text("icon"@)))
    } else {
        entries
    }
}

/// The Info.plist of a shortcut bundle (`with_icon`: an icon.icns goes
/// in its resources).
pub fn info_plist(b: &ShortcutBundle, with_icon: bool) -> (r: Vec<(String, PlistValue)>)
    ensures
        r@.map_values(|e: (String, PlistValue)| (e.0@, e.1@)) == info_plist_of(b@, with_icon),
{
    let mut out: Vec<(String, PlistValue)> = Vec::new();
    out.push(("CFBundleName".to_owned(), PlistValue::Text(b.name.clone())));
    out.push(("CFBundleDisplayName".to_owned(), PlistValue::Text(b.name.clone())));
    out.push(("CFBundleExecutable".to_owned(), PlistValue::Text("launch".to_owned())));
    out.push(("CFBundleIdentifier".to_owned(), PlistValue::Text(b.id.clone())));
    out.push(("CFBundlePackageType".to_owned(), PlistValue::Text("APPL".to_owned())));
    out.push(("LSUIElement".to_owned(), PlistValue::Flag(true)));
    if with_icon {
        out.push(("CFBundleIconFile".to_owned(), PlistValue::Text("icon".to_owned())));
    }
    assert(out@.map_values(|e: (String, PlistValue)| (e.0@, e.1@)) =~= info_plist_of(b@, with_icon));
    out
}

} // verus!
