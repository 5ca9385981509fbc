//! The Linux side: browsers from their desktop entries; associations through
//! a desktop entry per app, a shared-mime-info package and `mimeapps.list`;
//! shortcuts as desktop entries whose actions are the app's facades.
//! Everything is user-level and recorded in the inventory before it is
//! written; these functions decide what is written, the caller writes it.

use vstd::prelude::*;
use crate::text::{has_char, dashed, dashed_chars, after_last, chars_of, to_string, push_all, push_str, starts_with, starts_with_chars, join_with, join_chars,
    lemma_chars_deep_view, eq_chars, split, split_chars, slice_chars};
use crate::catalogue::{App, AppModel, FacadeModel, TileFileModel, localized, localized_name};
use crate::settings::{opt_view, recorded, select, grown_by, lemma_recorded_grows, lemma_select_grown, Settings, Artefact, ArtefactModel, Inventory};
use crate::xdg::{exec_quote, exec_quote_of, render_entry, render_entry_of, mime_package, mime_package_of,
    mimeapps_get, mimeapps_get_of, mimeapps_set, mimeapps_set_of, mimeapps_added, mimeapps_added_of,
    defaults_group, defaults_header, desktop_entry, desktop_entry_of, entry_get, lookup, exec_argv, exec_argv_of,
    program_of, program_of_argv, flatpak_app, flatpak_app_exec, plain_mime, plain_item, lemma_headers_plain,
    lemma_added_keeps_default, law_added_keeps_others, law_set_keeps_others, added_header, lemma_get_plain, lemma_first_item_of_plain, law_set_then_get, law_unset_then_get};
use crate::browsers::{Engine, Browser, engine_of, engine_of_stem, engine_stem, join_path, trim_suffix_all,
    trim_suffix_all_chars};

verus! {

/// The desktop entry of the launcher's own address.
pub const URL_ENTRY: &'static str = "kynoko-launcher-url.desktop";

/* ------------------------------------------------------------ associations */

/// The desktop entry that opens an app's files.
pub open spec fn open_entry_of(code: Seq<char>) -> Seq<char> {
    "kynoko-launcher-open-"@ + code + ".desktop"@
}

/// The desktop entry that opens an app's files.
pub fn open_entry(app: &App) -> (r: String)
    ensures
        r@ == open_entry_of(app@.code),
{
    let mut v = chars_of("kynoko-launcher-open-");
    push_all(&mut v, &chars_of(app.code.as_str()));
    push_str(&mut v, ".desktop");
    to_string(&v)
}

/// The MIME type of a file type: its own, else one of the launcher's
/// (`application/x-kynoko-<ext>`).
pub open spec fn mime_of(f: TileFileModel) -> Seq<char> {
    match f.mime {
        Some(m) => m,
        None => "application/x-kynoko-"@ + f.ext,
    }
}

/// `out` with the file types of `files` added, an extension already there
/// keeping its first type.
pub open spec fn add_types(out: Seq<(Seq<char>, Seq<char>)>, files: Seq<TileFileModel>) -> Seq<(Seq<char>, Seq<char>)>
    decreases files.len(),
{
    if files.len() == 0 {
        out
    } else {
        let before = add_types(out, files.drop_last());
        let f = files.last();
        if exists|j: int| 0 <= j < before.len() && before[j].1 == f.ext {
            before
        } else {
            before.push((mime_of(f), f.ext))
        }
    }
}

/// `(mime, ext)` for every file type of the facades, each extension once,
/// in declaration order.
pub open spec fn types_of(facades: Seq<FacadeModel>) -> Seq<(Seq<char>, Seq<char>)>
    decreases facades.len(),
{
    if facades.len() == 0 {
        seq![]
    } else {
        add_types(types_of(facades.drop_last()), facades.last().files)
    }
}

fn has_ext(out: &Vec<(String, String)>, ext: &String) -> (r: bool)
    ensures
        r == exists|j: int| 0 <= j < out@.len() && out.deep_view()[j].1 == ext@,
{
    let mut i: usize = 0;
    while i < out.len()
        invariant
            i <= out@.len(),
            forall|j: int| 0 <= j < i ==> out.deep_view()[j].1 != ext@,
        decreases out@.len() - i,
    {
        assert(out.deep_view()[i as int].1 == out@[i as int].1@);
        if out[i].1 == *ext {
            return true;
        }
        i = i + 1;
    }
    false
}

/// `(mime, ext)` for every file type of `app`; a type without a MIME name
/// gets one of the launcher's (`application/x-kynoko-<ext>`).
pub fn types(app: &App) -> (r: Vec<(String, String)>)
    ensures
        r.deep_view() == types_of(app@.facades),
{
    let ghost fs = app@.facades;
    let mut out: Vec<(String, String)> = Vec::new();
    let mut i: usize = 0;
    assert(fs.take(0) =~= Seq::<FacadeModel>::empty());
    while i < app.facades.len()
        invariant
            i <= app.facades@.len(),
            fs == app@.facades,
            out.deep_view() == types_of(fs.take(i as int)),
        decreases app.facades@.len() - i,
    {
        assert(fs.take(i + 1).drop_last() =~= fs.take(i as int));
        let f = &app.facades[i];
        assert(fs.take(i + 1).last() == f@);
        let ghost files = f@.files;
        let ghost start = out.deep_view();
        let mut j: usize = 0;
        assert(files.take(0) =~= Seq::<TileFileModel>::empty());
        while j < f.files.len()
            invariant
                j <= f.files@.len(),
                files == f@.files,
                out.deep_view() == add_types(start, files.take(j as int)),
            decreases f.files@.len() - j,
        {
            assert(files.take(j + 1).drop_last() =~= files.take(j as int));
            let t = &f.files[j];
            assert(files.take(j + 1).last() == t@);
            let ghost ov = out.deep_view();
            if !has_ext(&out, &t.ext) {
                let mime = match &t.mime {
                    Some(m) => m.clone(),
                    None => {
                        let mut v = chars_of("application/x-kynoko-");
                        push_all(&mut v, &chars_of(t.ext.as_str()));
                        to_string(&v)
                    },
                };
                assert(mime@ == mime_of(t@));
                out.push((mime, t.ext.clone()));
                assert(out.deep_view() =~= ov.push((mime_of(t@), t@.ext)));
            }
            j = j + 1;
        }
        assert(files.take(j as int) =~= files);
        i = i + 1;
    }
    assert(fs.take(i as int) =~= fs);
    out
}

/// The MIME types of `(mime, ext)` pairs, in order.
pub open spec fn mimes_of(pairs: Seq<(Seq<char>, Seq<char>)>) -> Seq<Seq<char>> {
    pairs.map_values(|p: (Seq<char>, Seq<char>)| p.0)
}

/// The fields of the desktop entry that opens an app's files.
pub open spec fn open_entry_fields(name: Seq<char>, exe: Seq<char>, mimes: Seq<Seq<char>>) -> Seq<
    (Seq<char>, Seq<char>),
> {
    seq![
        ("Type"@, "Application"@),
        ("Name"@, name + " (Kynoko Launcher)"@),
        ("Exec"@, exec_quote_of(exe) + " open %F"@),
        ("MimeType"@, join_with(mimes, ';') + ";"@),
        ("NoDisplay"@, "true"@),
    ]
}

/// One type made the launcher's: the handler it had is recorded (unless it
/// is the launcher's entry already), the entry becomes its default and is
/// added to its "Open with" list.
pub open spec fn assoc_step(st: (Seq<char>, Seq<ArtefactModel>), mime: Seq<char>, entry: Seq<char>) -> (
    Seq<char>,
    Seq<ArtefactModel>,
) {
    let (list, inv) = st;
    let previous = mimeapps_get_of(list, defaults_header(), mime);
    let inv2 = if previous == Some(entry) {
        inv
    } else {
        recorded(inv, ArtefactModel::MimeDefault { mime, desktop: entry, previous })
    };
    (mimeapps_added_of(mimeapps_set_of(list, defaults_header(), mime, Some(entry)), mime, entry, true), inv2)
}

/// Every type of `mimes` made the launcher's, in order.
pub open spec fn assoc_fold(st: (Seq<char>, Seq<ArtefactModel>), mimes: Seq<Seq<char>>, entry: Seq<char>) -> (
    Seq<char>,
    Seq<ArtefactModel>,
)
    decreases mimes.len(),
{
    if mimes.len() == 0 {
        st
    } else {
        assoc_step(assoc_fold(st, mimes.drop_last(), entry), mimes.last(), entry)
    }
}

/// What registering an app writes: its shared-mime-info package, its
/// desktop entry, and the new `mimeapps.list`.
#[derive(Debug)]
pub struct Registration {
    pub package: String,
    pub entry: String,
    pub list: String,
}

/// The language an app's entry is named in: the window's, else English.
pub open spec fn ui_lang_of(settings_lang: Option<Seq<char>>) -> Seq<char> {
    match settings_lang {
        Some(l) => l,
        None => "en"@,
    }
}

/// Registers the launcher for every file type of `app`: the package
/// (recorded at `package_path`) declares them, the desktop entry (recorded at
/// `entry_path`) opens them with `exe`, and the launcher becomes their
/// default in `list` (the current `mimeapps.list`), each replaced default
/// recorded first.
pub fn register(
    app: &App,
    settings: &Settings,
    exe: &str,
    list: &str,
    package_path: &str,
    entry_path: &str,
    inventory: &mut Inventory,
) -> (r: Registration)
    ensures
        r.package@ == mime_package_of(types_of(app@.facades)),
        r.entry@ == render_entry_of(
            open_entry_fields(
                localized(app@.names, ui_lang_of(opt_view(settings.ui_lang)), app@.code),
                exe@,
                mimes_of(types_of(app@.facades)),
            ),
            seq![],
        ),
        (r.list@, final(inventory)@) == assoc_fold(
            (
                list@,
                recorded(
                    recorded(old(inventory)@, ArtefactModel::File { path: package_path@ }),
                    ArtefactModel::File { path: entry_path@ },
                ),
            ),
            mimes_of(types_of(app@.facades)),
            open_entry_of(app@.code),
        ),
{
    let pairs = types(app);
    let ghost pv = pairs.deep_view();
    inventory.record(Artefact::File { path: package_path.to_owned() });
    let package = mime_package(&pairs);
    let mut mimes: Vec<Vec<char>> = Vec::new();
    let mut i: usize = 0;
    while i < pairs.len()
        invariant
            i <= pairs@.len(),
            pv == pairs.deep_view(),
            mimes.deep_view() == mimes_of(pv.take(i as int)),
        decreases pairs@.len() - i,
    {
        let ghost mv = mimes.deep_view();
        let m = chars_of(pairs[i].0.as_str());
        let ghost l = m@;
        proof {
            lemma_chars_deep_view(m);
        }
        mimes.push(m);
        assert(mimes.deep_view() =~= mv.push(l));
        assert(mimes_of(pv.take(i + 1)) =~= mimes_of(pv.take(i as int)).push(pv[i as int].0));
        i = i + 1;
    }
    assert(pv.take(i as int) =~= pv);
    let entry = open_entry(app);
    let lang = match &settings.ui_lang {
        Some(l) => l.clone(),
        None => "en".to_owned(),
    };
    let mut name = chars_of(app.name(lang.as_str()).as_str());
    push_str(&mut name, " (Kynoko Launcher)");
    let mut exec = chars_of(exec_quote(exe).as_str());
    push_str(&mut exec, " open %F");
    let mut types_line = join_chars(&mimes, ';');
    push_str(&mut types_line, ";");
    let mut fields: Vec<(&str, String)> = Vec::new();
    fields.push(("Type", "Application".to_owned()));
    fields.push(("Name", to_string(&name)));
    fields.push(("Exec", to_string(&exec)));
    fields.push(("MimeType", to_string(&types_line)));
    fields.push(("NoDisplay", "true".to_owned()));
    assert(fields.deep_view() =~= open_entry_fields(
        localized(app@.names, ui_lang_of(opt_view(settings.ui_lang)), app@.code),
        exe@,
        mimes_of(pv),
    ));
    let actions: Vec<(String, String, String)> = Vec::new();
    let text = render_entry(fields.as_slice(), actions.as_slice());
    assert(actions.deep_view() =~= Seq::<(Seq<char>, Seq<char>, Seq<char>)>::empty());
    inventory.record(Artefact::File { path: entry_path.to_owned() });
    let mut current = list.to_owned();
    let ghost mimes_all = mimes_of(pv);
    let mut k: usize = 0;
    let ghost start = (list@, inventory@);
    assert(mimes_all.take(0) =~= Seq::<Seq<char>>::empty());
    while k < pairs.len()
        invariant
            k <= pairs@.len(),
            pv == pairs.deep_view(),
            mimes_all == mimes_of(pv),
            entry@ == open_entry_of(app@.code),
            (current@, inventory@) == assoc_fold(start, mimes_all.take(k as int), entry@),
        decreases pairs@.len() - k,
    {
        assert(mimes_all.take(k + 1).drop_last() =~= mimes_all.take(k as int));
        assert(mimes_all.take(k + 1).last() == pv[k as int].0);
        let mime = pairs[k].0.as_str();
        assert(mime@ == pv[k as int].0);
        let previous = mimeapps_get(current.as_str(), defaults_group(), mime);
        let same = match &previous {
            Some(p) => *p == entry,
            None => false,
        };
        if !same {
            inventory.record(Artefact::MimeDefault { mime: mime.to_owned(), desktop: entry.clone(), previous });
        }
        let set = mimeapps_set(current.as_str(), defaults_group(), mime, Some(entry.as_str()));
        current = mimeapps_added(set.as_str(), mime, entry.as_str(), true);
        k = k + 1;
    }
    assert(mimes_all.take(k as int) =~= mimes_all);
    Registration { package, entry: text, list: current }
}

/// `p` ends `s`.
pub open spec fn ends_with(s: Seq<char>, p: Seq<char>) -> bool {
    p.len() <= s.len() && s.skip(s.len() - p.len()) == p
}

pub fn ends_with_chars(s: &Vec<char>, p: &Vec<char>) -> (r: bool)
    ensures
        r == ends_with(s@, p@),
{
    if p.len() > s.len() {
        return false;
    }
    let n = s.len();
    let tail = slice_chars(s, n - p.len(), n);
    assert(tail@ == s@.skip(n - p@.len()));
    eq_chars(&tail, p)
}

/// What `list` becomes when the launcher's `desktop` gives `mime` back: it
/// leaves the type's "Open with" list, and, if it is still the default (the
/// user did not change it since), the previous default is put back.
pub open spec fn restored_list(list: Seq<char>, mime: Seq<char>, desktop: Seq<char>, previous: Option<Seq<char>>) -> Seq<
    char,
> {
    let next = mimeapps_added_of(list, mime, desktop, false);
    if mimeapps_get_of(next, defaults_header(), mime) == Some(desktop) {
        mimeapps_set_of(next, defaults_header(), mime, previous)
    } else {
        next
    }
}

/// Puts back what was the default before the launcher, unless the user
/// changed it since: the new `mimeapps.list`, or None when nothing changes.
pub fn restore_default(list: &str, mime: &str, desktop: &str, previous: Option<&str>) -> (r: Option<String>)
    ensures
        opt_view(r) == if restored_list(list@, mime@, desktop@, match previous {
            Some(p) => Some(p@),
            None => None,
        }) == list@ {
            None
        } else {
            Some(restored_list(list@, mime@, desktop@, match previous {
                Some(p) => Some(p@),
                None => None,
            }))
        },
{
    let mut next = mimeapps_added(list, mime, desktop, false);
    let current = mimeapps_get(next.as_str(), defaults_group(), mime);
    let still = match &current {
        Some(c) => eq_chars(&chars_of(c.as_str()), &chars_of(desktop)),
        None => false,
    };
    if still {
        next = mimeapps_set(next.as_str(), defaults_group(), mime, previous);
    }
    if eq_chars(&chars_of(next.as_str()), &chars_of(list)) {
        None
    } else {
        Some(next)
    }
}

/// Putting a default back: once the launcher's entry `desktop` is made the
/// default of `mime` in `list` and added to its "Open with" list (as
/// `register` does), giving the type back with the default it had before
/// (as `unregister` and the cleanup do) leaves `mime` with that default
/// again, or with none if it had none (for a MIME type whose line reads back
/// as its own, and an entry name that is one plain item of a list).
pub proof fn law_register_then_restore(list: Seq<char>, mime: Seq<char>, desktop: Seq<char>)
    requires
        plain_mime(mime),
        plain_item(desktop),
    ensures
        ({
            let previous = mimeapps_get_of(list, defaults_header(), mime);
            let after = mimeapps_added_of(
                mimeapps_set_of(list, defaults_header(), mime, Some(desktop)),
                mime,
                desktop,
                true,
            );
            mimeapps_get_of(restored_list(after, mime, desktop, previous), defaults_header(), mime) == previous
        }),
{
    lemma_headers_plain();
    let previous = mimeapps_get_of(list, defaults_header(), mime);
    let set1 = mimeapps_set_of(list, defaults_header(), mime, Some(desktop));
    law_set_then_get(list, defaults_header(), mime, desktop);
    lemma_first_item_of_plain(desktop);
    let after = mimeapps_added_of(set1, mime, desktop, true);
    lemma_added_keeps_default(set1, mime, desktop, true);
    let next = mimeapps_added_of(after, mime, desktop, false);
    lemma_added_keeps_default(after, mime, desktop, false);
    assert(mimeapps_get_of(next, defaults_header(), mime) == Some(desktop));
    lemma_get_plain(list, defaults_header(), mime);
    match previous {
        Some(p) => {
            law_set_then_get(next, defaults_header(), mime, p);
        },
        None => {
            law_unset_then_get(next, defaults_header(), mime);
        },
    }
}

/// Putting a default back changes nothing else: every (group, MIME type)
/// pair but the type's own default and "Open with" list reads as before
/// (for MIME types without `=`, as MIME types are, and names on one line).
pub proof fn law_restore_keeps_others(
    list: Seq<char>,
    mime: Seq<char>,
    desktop: Seq<char>,
    previous: Option<Seq<char>>,
    other: Seq<char>,
    om: Seq<char>,
)
    requires
        plain_mime(mime),
        !has_char(mime, '='),
        !has_char(om, '='),
        !has_char(desktop, '\n'),
        previous matches Some(p) ==> !has_char(p, '\n'),
        om != mime || (other != defaults_header() && other != added_header()),
    ensures
        mimeapps_get_of(restored_list(list, mime, desktop, previous), other, om) == mimeapps_get_of(list, other, om),
{
    lemma_headers_plain();
    law_added_keeps_others(list, mime, desktop, false, other, om);
    let next = mimeapps_added_of(list, mime, desktop, false);
    if mimeapps_get_of(next, defaults_header(), mime) == Some(desktop) {
        law_set_keeps_others(next, defaults_header(), mime, previous, other, om);
    }
}

/// A default the user chose since is kept: when the type's default is no
/// longer the launcher's `desktop`, putting the default back only takes
/// `desktop` out of the type's "Open with" list, and the default reads as
/// before.
pub proof fn law_restore_keeps_users_choice(
    list: Seq<char>,
    mime: Seq<char>,
    desktop: Seq<char>,
    previous: Option<Seq<char>>,
)
    requires
        plain_mime(mime),
        !has_char(desktop, '\n'),
        mimeapps_get_of(list, defaults_header(), mime) != Some(desktop),
    ensures
        restored_list(list, mime, desktop, previous) == mimeapps_added_of(list, mime, desktop, false),
        mimeapps_get_of(restored_list(list, mime, desktop, previous), defaults_header(), mime) == mimeapps_get_of(
            list,
            defaults_header(),
            mime,
        ),
{
    lemma_headers_plain();
    law_added_keeps_others(list, mime, desktop, false, defaults_header(), mime);
}

/// The package of an app's types.
pub open spec fn package_of(code: Seq<char>) -> Seq<char> {
    "kynoko-launcher-"@ + code + ".xml"@
}

/// The file name of an app's shared-mime-info package.
pub fn package_name(app: &App) -> (r: String)
    ensures
        r@ == package_of(app@.code),
{
    let mut package = chars_of("kynoko-launcher-");
    push_all(&mut package, &chars_of(app.code.as_str()));
    push_str(&mut package, ".xml");
    to_string(&package)
}

/// What `register` wrote for an app: its defaults (by its entry) and its
/// entry's and package's files.
pub open spec fn registered(a: ArtefactModel, entry: Seq<char>, package: Seq<char>) -> bool {
    match a {
        ArtefactModel::MimeDefault { desktop, .. } => desktop == entry,
        ArtefactModel::File { path } => ends_with(path, entry) || ends_with(path, package),
        _ => false,
    }
}

/// Takes out of the inventory what `register` wrote for `app`: its defaults
/// (each to be restored) and its files (each to be deleted), returned in the
/// order they were recorded; the inventory keeps the rest.
pub fn unregister(app: &App, inventory: &mut Inventory) -> (r: Vec<Artefact>)
    ensures
        r@.map_values(|a: Artefact| a@) == select(
            old(inventory)@,
            |a: ArtefactModel| registered(a, open_entry_of(app@.code), package_of(app@.code)),
        ),
        final(inventory)@ == select(
            old(inventory)@,
            |a: ArtefactModel| !registered(a, open_entry_of(app@.code), package_of(app@.code)),
        ),
{
    let entry = chars_of(open_entry(app).as_str());
    let package = chars_of(package_name(app).as_str());
    let ghost e = entry@;
    let ghost pk = package@;
    let ghost all = inventory@;
    let ghost mine = |a: ArtefactModel| registered(a, e, pk);
    let ghost other = |a: ArtefactModel| !registered(a, e, pk);
    let mut rest: Vec<Artefact> = Vec::new();
    std::mem::swap(&mut rest, &mut inventory.artefacts);
    let mut out: Vec<Artefact> = Vec::new();
    let mut kept: Vec<Artefact> = Vec::new();
    let n = rest.len();
    let mut i: usize = 0;
    assert(all.take(0) =~= Seq::<ArtefactModel>::empty());
    assert(rest@.map_values(|a: Artefact| a@) =~= all);
    while rest.len() > 0
        invariant
            i <= n == all.len(),
            i + rest@.len() == n,
            rest@.map_values(|a: Artefact| a@) == all.skip(i as int),
            e == entry@,
            pk == package@,
            mine == (|a: ArtefactModel| registered(a, e, pk)),
            other == (|a: ArtefactModel| !registered(a, e, pk)),
            out@.map_values(|a: Artefact| a@) == select(all.take(i as int), mine),
            kept@.map_values(|a: Artefact| a@) == select(all.take(i as int), other),
        decreases rest@.len(),
    {
        let ghost rv = rest@;
        let a = rest.remove(0);
        assert(rv.map_values(|a: Artefact| a@)[0] == a@);
        assert(all.take(i + 1).drop_last() =~= all.take(i as int));
        assert(all.take(i + 1).last() == a@);
        let ghost av = a@;
        let ghost o0 = out@.map_values(|a: Artefact| a@);
        let ghost k0 = kept@.map_values(|a: Artefact| a@);
        let is_mine = match &a {
            Artefact::MimeDefault { desktop, .. } => eq_chars(&chars_of(desktop.as_str()), &entry),
            Artefact::File { path } => {
                let p = chars_of(path.as_str());
                ends_with_chars(&p, &entry) || ends_with_chars(&p, &package)
            },
            _ => false,
        };
        assert(is_mine == mine(av));
        if is_mine {
            out.push(a);
            assert(out@.map_values(|a: Artefact| a@) =~= o0.push(av));
        } else {
            kept.push(a);
            assert(kept@.map_values(|a: Artefact| a@) =~= k0.push(av));
        }
        assert(rest@ =~= rv.drop_first());
        assert(all.skip(i + 1) =~= all.skip(i as int).drop_first());
        assert(rest@.map_values(|a: Artefact| a@) =~= rv.map_values(|a: Artefact| a@).drop_first());
        i = i + 1;
    }
    assert(all.take(i as int) =~= all);
    inventory.artefacts = kept;
    out
}

/// Every type of `mimes` made the launcher's grows the inventory only by
/// defaults recorded for the launcher's entry.
proof fn lemma_fold_grows(
    st: (Seq<char>, Seq<ArtefactModel>),
    mimes: Seq<Seq<char>>,
    entry: Seq<char>,
    package: Seq<char>,
    s: Seq<ArtefactModel>,
    keep: spec_fn(ArtefactModel) -> bool,
)
    requires
        grown_by(st.1, s, keep),
        keep == (|a: ArtefactModel| !registered(a, entry, package)),
    ensures
        grown_by(assoc_fold(st, mimes, entry).1, s, keep),
    decreases mimes.len(),
{
    if mimes.len() > 0 {
        lemma_fold_grows(st, mimes.drop_last(), entry, package, s, keep);
        let (list, inv) = assoc_fold(st, mimes.drop_last(), entry);
        let mime = mimes.last();
        let previous = mimeapps_get_of(list, defaults_header(), mime);
        if previous != Some(entry) {
            let a = ArtefactModel::MimeDefault { mime, desktop: entry, previous };
            assert(!keep(a));
            lemma_recorded_grows(inv, s, keep, a);
        }
    }
}

/// Associating an app and then taking its associations away leaves the
/// inventory as it was: `unregister` forgets exactly what `register`
/// recorded (for an inventory that holds nothing of the app's associations
/// yet, and the app's package and desktop entry recorded at paths that end
/// with their names).
pub proof fn law_register_then_unregister(
    inv: Seq<ArtefactModel>,
    list: Seq<char>,
    code: Seq<char>,
    mimes: Seq<Seq<char>>,
    package_path: Seq<char>,
    entry_path: Seq<char>,
)
    requires
        forall|i: int| 0 <= i < inv.len() ==> !registered(#[trigger] inv[i], open_entry_of(code), package_of(code)),
        ends_with(package_path, package_of(code)),
        ends_with(entry_path, open_entry_of(code)),
    ensures
        select(
            assoc_fold(
                (
                    list,
                    recorded(
                        recorded(inv, ArtefactModel::File { path: package_path }),
                        ArtefactModel::File { path: entry_path },
                    ),
                ),
                mimes,
                open_entry_of(code),
            ).1,
            |a: ArtefactModel| !registered(a, open_entry_of(code), package_of(code)),
        ) == inv,
{
    let e = open_entry_of(code);
    let p = package_of(code);
    let keep = |a: ArtefactModel| !registered(a, e, p);
    assert(inv.subrange(0, inv.len() as int) =~= inv);
    assert(grown_by(inv, inv, keep));
    lemma_recorded_grows(inv, inv, keep, ArtefactModel::File { path: package_path });
    let one = recorded(inv, ArtefactModel::File { path: package_path });
    lemma_recorded_grows(one, inv, keep, ArtefactModel::File { path: entry_path });
    let two = recorded(one, ArtefactModel::File { path: entry_path });
    lemma_fold_grows((list, two), mimes, e, p, inv, keep);
    lemma_select_grown(assoc_fold((list, two), mimes, e).1, inv, keep);
}

/// The MIME type of the launcher's own address.
pub open spec fn scheme_type() -> Seq<char> {
    "x-scheme-handler/kynoko-launcher"@
}

/// The fields of the desktop entry of the launcher's own address.
pub open spec fn url_entry_fields(exe: Seq<char>) -> Seq<(Seq<char>, Seq<char>)> {
    seq![
        ("Type"@, "Application"@),
        ("Name"@, "Kynoko Launcher"@),
        ("Exec"@, exec_quote_of(exe) + " %u"@),
        ("MimeType"@, scheme_type() + ";"@),
        ("NoDisplay"@, "true"@),
    ]
}

/// Registers the launcher's own address: its desktop entry's text (the file
/// at `entry_path` recorded first) and, unless it is the default handler
/// already, the new `mimeapps.list`, the handler it replaces recorded.
pub fn register_scheme(exe: &str, list: &str, entry_path: &str, inventory: &mut Inventory) -> (r: (
    String,
    Option<String>,
))
    ensures
        r.0@ == render_entry_of(url_entry_fields(exe@), seq![]),
        ({
            let after_file = recorded(old(inventory)@, ArtefactModel::File { path: entry_path@ });
            let previous = mimeapps_get_of(list@, defaults_header(), scheme_type());
            if previous == Some("kynoko-launcher-url.desktop"@) {
                &&& r.1 is None
                &&& final(inventory)@ == after_file
            } else {
                &&& opt_view(r.1) == Some(
                    mimeapps_set_of(list@, defaults_header(), scheme_type(), Some("kynoko-launcher-url.desktop"@)),
                )
                &&& final(inventory)@ == recorded(
                    after_file,
                    ArtefactModel::MimeDefault {
                        mime: scheme_type(),
                        desktop: "kynoko-launcher-url.desktop"@,
                        previous,
                    },
                )
            }
        }),
{
    let mut exec = chars_of(exec_quote(exe).as_str());
    push_str(&mut exec, " %u");
    let mut types_line = chars_of("x-scheme-handler/kynoko-launcher");
    push_str(&mut types_line, ";");
    let mut fields: Vec<(&str, String)> = Vec::new();
    fields.push(("Type", "Application".to_owned()));
    fields.push(("Name", "Kynoko Launcher".to_owned()));
    fields.push(("Exec", to_string(&exec)));
    fields.push(("MimeType", to_string(&types_line)));
    fields.push(("NoDisplay", "true".to_owned()));
    assert(fields.deep_view() =~= url_entry_fields(exe@));
    let actions: Vec<(String, String, String)> = Vec::new();
    let text = render_entry(fields.as_slice(), actions.as_slice());
    assert(actions.deep_view() =~= Seq::<(Seq<char>, Seq<char>, Seq<char>)>::empty());
    inventory.record(Artefact::File { path: entry_path.to_owned() });
    let scheme = "x-scheme-handler/kynoko-launcher";
    let previous = mimeapps_get(list, defaults_group(), scheme);
    let ours = match &previous {
        Some(p) => eq_chars(&chars_of(p.as_str()), &chars_of(URL_ENTRY)),
        None => false,
    };
    if ours {
        (text, None)
    } else {
        inventory.record(
            Artefact::MimeDefault { mime: scheme.to_owned(), desktop: URL_ENTRY.to_owned(), previous },
        );
        (text, Some(mimeapps_set(list, defaults_group(), scheme, Some(URL_ENTRY))))
    }
}

/* --------------------------------------------------------------- shortcuts */

/// The desktop entry of an app's shortcut.
pub open spec fn shortcut_entry_of(code: Seq<char>) -> Seq<char> {
    "kynoko-"@ + code + ".desktop"@
}

/// The actions of the listed facades among `fs`: an id made of the path
/// (other characters than ASCII letters and digits as `-`), the name in
/// `lang`, and the command launching the facade.
pub open spec fn facade_actions(code: Seq<char>, fs: Seq<FacadeModel>, exe: Seq<char>, lang: Seq<char>) -> Seq<
    (Seq<char>, Seq<char>, Seq<char>),
>
    decreases fs.len(),
{
    if fs.len() == 0 {
        seq![]
    } else {
        let before = facade_actions(code, fs.drop_last(), exe, lang);
        let f = fs.last();
        if f.listed {
            before.push(
                (dashed(f.path), localized(f.names, lang, f.path), exe + " launch "@ + code + "/"@ + f.path),
            )
        } else {
            before
        }
    }
}

/// The fields of an app's shortcut entry, the icon last when there is one.
pub open spec fn shortcut_fields(app: AppModel, exe: Seq<char>, lang: Seq<char>, icon: Option<Seq<char>>) -> Seq<
    (Seq<char>, Seq<char>),
> {
    let fields = seq![
        ("Type"@, "Application"@),
        ("Name"@, localized(app.names, lang, app.code)),
        ("Exec"@, exe + " launch "@ + app.code),
        ("Categories"@, "Office;"@),
    ];
    match icon {
        Some(i) => fields.push(("Icon"@, i)),
        None => fields,
    }
}

/// An app's shortcut: one desktop entry (recorded at `entry_path` first)
/// whose actions are its listed facades (the right-click submenu of GNOME
/// and KDE), running `exe`; `icon` is the PNG it wears, if one was had.
pub fn create_shortcut(
    app: &App,
    lang: &str,
    exe: &str,
    icon: Option<&str>,
    entry_path: &str,
    inventory: &mut Inventory,
) -> (r: String)
    ensures
        r@ == render_entry_of(
            shortcut_fields(app@, exec_quote_of(exe@), lang@, match icon {
                Some(i) => Some(i@),
                None => None,
            }),
            facade_actions(app@.code, app@.facades, exec_quote_of(exe@), lang@),
        ),
        final(inventory)@ == recorded(old(inventory)@, ArtefactModel::File { path: entry_path@ }),
{
    let q = chars_of(exec_quote(exe).as_str());
    let ghost qv = q@;
    let code = chars_of(app.code.as_str());
    let ghost fs = app@.facades;
    let mut actions: Vec<(String, String, String)> = Vec::new();
    let mut i: usize = 0;
    assert(fs.take(0) =~= Seq::<FacadeModel>::empty());
    proof {
        reveal_strlit("/");
    }
    while i < app.facades.len()
        invariant
            i <= app.facades@.len(),
            fs == app@.facades,
            q@ == qv,
            qv == exec_quote_of(exe@),
            code@ == app@.code,
            "/"@ == seq!['/'],
            actions.deep_view() == facade_actions(app@.code, fs.take(i as int), qv, lang@),
        decreases app.facades@.len() - i,
    {
        assert(fs.take(i + 1).drop_last() =~= fs.take(i as int));
        let f = &app.facades[i];
        assert(fs.take(i + 1).last() == f@);
        if f.listed {
            let p = chars_of(f.path.as_str());
            let id = to_string(&dashed_chars(&p));
            let name = localized_name(&f.names, lang, &f.path);
            let mut cmd = q.clone();
            push_str(&mut cmd, " launch ");
            push_all(&mut cmd, &code);
            cmd.push('/');
            push_all(&mut cmd, &p);
            let ghost av = actions.deep_view();
            let ghost item = (id@, name@, cmd@);
            assert(cmd@ =~= qv + " launch "@ + app@.code + "/"@ + f@.path);
            assert(item == (dashed(f@.path), localized(f@.names, lang@, f@.path), qv + " launch "@ + app@.code + "/"@
                + f@.path));
            actions.push((id, name, to_string(&cmd)));
            assert(actions.deep_view() =~= av.push(item));
        }
        i = i + 1;
    }
    assert(fs.take(i as int) =~= fs);
    let mut exec = q.clone();
    push_str(&mut exec, " launch ");
    push_all(&mut exec, &code);
    let mut fields: Vec<(&str, String)> = Vec::new();
    fields.push(("Type", "Application".to_owned()));
    fields.push(("Name", app.name(lang)));
    fields.push(("Exec", to_string(&exec)));
    fields.push(("Categories", "Office;".to_owned()));
    match icon {
        Some(path) => fields.push(("Icon", path.to_owned())),
        None => {},
    }
    assert(fields.deep_view() =~= shortcut_fields(app@, qv, lang@, match icon {
        Some(i) => Some(i@),
        None => None,
    }));
    inventory.record(Artefact::File { path: entry_path.to_owned() });
    render_entry(fields.as_slice(), actions.as_slice())
}

/// Where an app's shortcut is, under the applications directory `applications`.
pub fn shortcut_paths(app: &App, applications: &str) -> (r: Vec<String>)
    ensures
        r.deep_view() == seq![join_path(applications@, shortcut_entry_of(app@.code))],
{
    let mut name = chars_of("kynoko-");
    push_all(&mut name, &chars_of(app.code.as_str()));
    push_str(&mut name, ".desktop");
    assert(name@ =~= shortcut_entry_of(app@.code));
    let mut d = chars_of(applications);
    let n = d.len();
    if n > 0 && !(d[n - 1] == '\\' || d[n - 1] == '/') {
        d.push('/');
    }
    push_all(&mut d, &name);
    assert(d@ =~= join_path(applications@, shortcut_entry_of(app@.code)));
    let mut out: Vec<String> = Vec::new();
    out.push(to_string(&d));
    assert(out.deep_view() =~= seq![join_path(applications@, shortcut_entry_of(app@.code))]);
    out
}

/* ---------------------------------------------------------------- browsers */

/// A desktop file the launcher looks at: a `.desktop` that is not its own.
pub open spec fn candidate_id(id: Seq<char>) -> bool {
    ends_with(id, ".desktop"@) && !starts_with(id, "kynoko-"@)
}

/// The entry declares itself a handler of `https` addresses.
pub open spec fn https_handler(e: Seq<(Seq<char>, Seq<char>)>) -> bool {
    match lookup(e, "MimeType"@) {
        Some(m) => split(m, ';').contains("x-scheme-handler/https"@),
        None => false,
    }
}

/// The entry is hidden (`NoDisplay` or `Hidden` is `true`).
pub open spec fn hidden_entry(e: Seq<(Seq<char>, Seq<char>)>) -> bool {
    lookup(e, "NoDisplay"@) == Some("true"@) || lookup(e, "Hidden"@) == Some("true"@)
}

/// The entry has a `Type` other than `Application`.
pub open spec fn not_application(e: Seq<(Seq<char>, Seq<char>)>) -> bool {
    match lookup(e, "Type"@) {
        Some(t) => t != "Application"@,
        None => false,
    }
}

/// The command a browser's desktop file starts it with, if the file is one
/// of a browser the launcher offers: a candidate, a visible application
/// handling `https`, with a non-empty `Exec`.
pub open spec fn browser_command_of(id: Seq<char>, text: Seq<char>) -> Option<Seq<Seq<char>>> {
    let e = desktop_entry_of(text);
    if !candidate_id(id) || !https_handler(e) || hidden_entry(e) || not_application(e) {
        None
    } else {
        match lookup(e, "Exec"@) {
            Some(exec) => if exec_argv_of(exec).len() == 0 {
                None
            } else {
                Some(exec_argv_of(exec))
            },
            None => None,
        }
    }
}

fn is_true(e: &Vec<(String, String)>, key: &str) -> (r: bool)
    ensures
        r == (lookup(e.deep_view(), key@) == Some("true"@)),
{
    match entry_get(e.as_slice(), key) {
        Some(v) => eq_chars(&chars_of(v.as_str()), &chars_of("true")),
        None => false,
    }
}

fn handles_https(e: &Vec<(String, String)>) -> (r: bool)
    ensures
        r == https_handler(e.deep_view()),
{
    match entry_get(e.as_slice(), "MimeType") {
        Some(m) => {
            let pieces = split_chars(&chars_of(m.as_str()), ';');
            let target = chars_of("x-scheme-handler/https");
            let ghost pv = pieces.deep_view();
            let mut i: usize = 0;
            while i < pieces.len()
                invariant
                    i <= pieces@.len(),
                    pv == pieces.deep_view(),
                    pv == split(m@, ';'),
                    lookup(e.deep_view(), "MimeType"@) == Some(m@),
                    target@ == "x-scheme-handler/https"@,
                    forall|j: int| 0 <= j < i ==> pv[j] != target@,
                decreases pieces@.len() - i,
            {
                assert(pv[i as int] == pieces@[i as int]@);
                if eq_chars(&pieces[i], &target) {
                    assert(pv.contains(target@));
                    return true;
                }
                i = i + 1;
            }
            assert(!pv.contains(target@));
            false
        },
        None => false,
    }
}

/// The desktop files found, in the order the directories are searched:
/// the first file of each id, every later one of that id hidden by it
/// (whether or not the first declares a browser).
pub open spec fn first_of_names(s: Seq<(Seq<char>, Seq<char>)>) -> Seq<(Seq<char>, Seq<char>)>
    decreases s.len(),
{
    if s.len() == 0 {
        seq![]
    } else {
        let before = first_of_names(s.drop_last());
        if exists|j: int| 0 <= j < s.len() - 1 && s[j].0 == s.last().0 {
            before
        } else {
            before.push(s.last())
        }
    }
}

/// The desktop files that count (`found` as `(id, text)` in search order):
/// the first of each id; a later file of an id already seen is hidden.
pub fn first_entries(found: Vec<(String, String)>) -> (r: Vec<(String, String)>)
    ensures
        r.deep_view() == first_of_names(found.deep_view()),
{
    let ghost all = found.deep_view();
    let n = found.len();
    let mut rest = found;
    let mut seen: Vec<String> = Vec::new();
    let mut out: Vec<(String, String)> = Vec::new();
    let mut i: usize = 0;
    assert(all.take(0) =~= Seq::<(Seq<char>, Seq<char>)>::empty());
    assert(all.skip(0) =~= all);
    while rest.len() > 0
        invariant
            i <= n == all.len(),
            i + rest@.len() == n,
            rest.deep_view() == all.skip(i as int),
            out.deep_view() == first_of_names(all.take(i as int)),
            seen@.len() == i,
            forall|j: int| 0 <= j < i ==> (#[trigger] seen@[j])@ == all[j].0,
        decreases rest@.len(),
    {
        let ghost rv = rest.deep_view();
        let e = rest.remove(0);
        assert(rv[0] == (e.0@, e.1@));
        assert(all.take(i + 1).drop_last() =~= all.take(i as int));
        assert(all.take(i + 1).last() == all[i as int]);
        assert(all.skip(i as int)[0] == all[i as int]);
        let ghost sub = all.take(i + 1);
        let known = crate::settings::has_code(&seen, &e.0);
        assert(known == (exists|j: int| 0 <= j < sub.len() - 1 && sub[j].0 == sub.last().0)) by {
            if known {
                let k = choose|k: int| 0 <= k < seen.deep_view().len() && seen.deep_view()[k] == e.0@;
                assert(seen.deep_view()[k] == seen@[k]@);
                assert(sub[k].0 == sub.last().0);
            } else {
                assert forall|j: int| 0 <= j < sub.len() - 1 implies sub[j].0 != sub.last().0 by {
                    assert(seen.deep_view()[j] == seen@[j]@);
                    if sub[j].0 == sub.last().0 {
                        assert(seen.deep_view().contains(e.0@));
                    }
                }
            }
        }
        let ghost ov = out.deep_view();
        let id = e.0.clone();
        if !known {
            out.push(e);
            assert(out.deep_view() =~= ov.push(all[i as int]));
        }
        seen.push(id);
        assert(rest.deep_view() =~= rv.drop_first());
        assert(all.skip(i + 1) =~= all.skip(i as int).drop_first());
        i = i + 1;
    }
    assert(all.take(i as int) =~= all);
    out
}

/// The browser a desktop file (named `id`, holding `text`) declares, if the
/// launcher offers it: its name (else its program's), the program's engine,
/// and its command. Its profiles are read afterwards.
pub fn desktop_browser(id: &str, text: &str) -> (r: Option<Browser>)
    ensures
        match r {
            Some(b) => {
                &&& browser_command_of(id@, text@) == Some(b.command.deep_view())
                &&& b.id@ == id@
                &&& b.name@ == match lookup(desktop_entry_of(text@), "Name"@) {
                    Some(n) => n,
                    None => program_of_argv(b.command.deep_view()),
                }
                &&& b.exe@ == b.command.deep_view()[0]
                &&& b.engine == engine_of_stem(engine_stem(program_of_argv(b.command.deep_view())))
                &&& b.profiles@.len() == 0
            },
            None => browser_command_of(id@, text@) is None,
        },
{
    let idc = chars_of(id);
    if !ends_with_chars(&idc, &chars_of(".desktop")) || starts_with_chars(&idc, &chars_of("kynoko-")) {
        return None;
    }
    let e = desktop_entry(text);
    if !handles_https(&e) || is_true(&e, "NoDisplay") || is_true(&e, "Hidden") {
        return None;
    }
    match entry_get(e.as_slice(), "Type") {
        Some(t) => {
            if !eq_chars(&chars_of(t.as_str()), &chars_of("Application")) {
                return None;
            }
        },
        None => {},
    }
    let exec = match entry_get(e.as_slice(), "Exec") {
        Some(x) => x,
        None => {
            return None;
        },
    };
    let command = exec_argv(exec.as_str());
    if command.len() == 0 {
        return None;
    }
    let program = program_of(command.as_slice());
    let engine = engine_of(program.as_str());
    let name = match entry_get(e.as_slice(), "Name") {
        Some(n) => n,
        None => program,
    };
    let exe = command[0].clone();
    Some(Browser { id: id.to_owned(), name, exe, engine, profiles: Vec::new(), command })
}

/// The Flatpak application a command runs (`flatpak run [options] <id>`),
/// when its program is Flatpak's.
pub open spec fn flatpak_id_of(command: Seq<Seq<char>>) -> Option<Seq<char>> {
    if command.len() > 0 && ends_with(command[0], "flatpak"@) {
        flatpak_app(command)
    } else {
        None
    }
}

/// The Flatpak application a browser's command runs, if it is one.
pub fn flatpak_id(command: &[String]) -> (r: Option<String>)
    ensures
        opt_view(r) == flatpak_id_of(command.deep_view()),
{
    if command.len() > 0 && ends_with_chars(&chars_of(command[0].as_str()), &chars_of("flatpak")) {
        flatpak_app_exec(command)
    } else {
        None
    }
}

/// A program's name without its channel suffix (`-stable`, `-beta`,
/// `-unstable`, each as often as it ends the name).
pub open spec fn channel_stem(program: Seq<char>) -> Seq<char> {
    trim_suffix_all(trim_suffix_all(trim_suffix_all(program, "-stable"@), "-beta"@), "-unstable"@)
}

/// Where a Chromium browser keeps its data, under the user's configuration.
pub open spec fn chromium_config_dir(stem: Seq<char>) -> Option<Seq<char>> {
    if stem == "google-chrome"@ || stem == "chrome"@ {
        Some("google-chrome"@)
    } else if stem == "chromium"@ || stem == "chromium-browser"@ {
        Some("chromium"@)
    } else if stem == "microsoft-edge"@ || stem == "edge"@ {
        Some("microsoft-edge"@)
    } else if stem == "brave-browser"@ || stem == "brave"@ {
        Some("BraveSoftware/Brave-Browser"@)
    } else if stem == "vivaldi"@ {
        Some("vivaldi"@)
    } else {
        None
    }
}

/// Where a Gecko browser keeps its profiles, under the home directory.
pub open spec fn gecko_dir(stem: Seq<char>) -> Option<Seq<char>> {
    if stem == "firefox"@ || stem == "firefox-esr"@ {
        Some(".mozilla/firefox"@)
    } else if stem == "librewolf"@ {
        Some(".librewolf"@)
    } else if stem == "waterfox"@ {
        Some(".waterfox"@)
    } else {
        None
    }
}

/// The file that lists a browser's profiles: Chromium's `Local State`,
/// Gecko's `profiles.ini`; under `home`, or inside the Flatpak sandbox
/// (`~/.var/app/<id>`) of a Flatpak browser.
pub open spec fn profiles_file_of(engine: Engine, program: Seq<char>, flatpak: Option<Seq<char>>, home: Seq<char>) -> Option<
    Seq<char>,
> {
    let base = match flatpak {
        Some(id) => join_path(join_path(home, ".var/app"@), id),
        None => home,
    };
    let config = match flatpak {
        Some(_) => join_path(base, "config"@),
        None => join_path(base, ".config"@),
    };
    let stem = channel_stem(program);
    if engine == Engine::Chromium {
        match chromium_config_dir(stem) {
            Some(d) => Some(join_path(join_path(config, d), "Local State"@)),
            None => None,
        }
    } else if engine == Engine::Gecko {
        match gecko_dir(stem) {
            Some(d) => Some(join_path(join_path(base, d), "profiles.ini"@)),
            None => None,
        }
    } else {
        None
    }
}

fn join(dir: &Vec<char>, name: &str) -> (r: Vec<char>)
    ensures
        r@ == join_path(dir@, name@),
{
    let mut d = dir.clone();
    let n = d.len();
    if n > 0 && !(d[n - 1] == '\\' || d[n - 1] == '/') {
        d.push('/');
    }
    push_str(&mut d, name);
    d
}

fn is_one_of(s: &Vec<char>, a: &str, b: &str) -> (r: bool)
    ensures
        r == (s@ == a@ || s@ == b@),
{
    eq_chars(s, &chars_of(a)) || eq_chars(s, &chars_of(b))
}

/// The file that lists a browser's profiles, if the launcher knows where it is.
pub fn profiles_file(engine: Engine, program: &str, flatpak: Option<&str>, home: &str) -> (r: Option<String>)
    ensures
        opt_view(r) == profiles_file_of(engine, program@, match flatpak {
            Some(f) => Some(f@),
            None => None,
        }, home@),
{
    let h = chars_of(home);
    let base = match flatpak {
        Some(id) => join(&join(&h, ".var/app"), id),
        None => h,
    };
    let config = match flatpak {
        Some(_) => join(&base, "config"),
        None => join(&base, ".config"),
    };
    let p = chars_of(program);
    let s1 = trim_suffix_all_chars(&p, &chars_of("-stable"));
    let s2 = trim_suffix_all_chars(&s1, &chars_of("-beta"));
    let stem = trim_suffix_all_chars(&s2, &chars_of("-unstable"));
    if engine == Engine::Chromium {
        let dir = if is_one_of(&stem, "google-chrome", "chrome") {
            "google-chrome"
        } else if is_one_of(&stem, "chromium", "chromium-browser") {
            "chromium"
        } else if is_one_of(&stem, "microsoft-edge", "edge") {
            "microsoft-edge"
        } else if is_one_of(&stem, "brave-browser", "brave") {
            "BraveSoftware/Brave-Browser"
        } else if eq_chars(&stem, &chars_of("vivaldi")) {
            "vivaldi"
        } else {
            return None;
        };
        Some(to_string(&join(&join(&config, dir), "Local State")))
    } else if engine == Engine::Gecko {
        let dir = if is_one_of(&stem, "firefox", "firefox-esr") {
            ".mozilla/firefox"
        } else if eq_chars(&stem, &chars_of("librewolf")) {
            ".librewolf"
        } else if eq_chars(&stem, &chars_of("waterfox")) {
            ".waterfox"
        } else {
            return None;
        };
        Some(to_string(&join(&join(&base, dir), "profiles.ini")))
    } else {
        None
    }
}

/// The system's data directories: `XDG_DATA_DIRS` when set and not empty,
/// else `/usr/local/share:/usr/share`.
pub open spec fn data_dirs_of(xdg_data_dirs: Option<Seq<char>>) -> Seq<Seq<char>> {
    match xdg_data_dirs {
        Some(d) => if d.len() > 0 {
            split(d, ':')
        } else {
            split("/usr/local/share:/usr/share"@, ':')
        },
        None => split("/usr/local/share:/usr/share"@, ':'),
    }
}

/// Where desktop files are looked for, in order (a desktop id found first
/// hides the same id later): the user's, each system data directory's,
/// then Flatpak's (user and system) and Snap's.
pub open spec fn app_dirs_of(applications: Seq<char>, xdg_data_dirs: Option<Seq<char>>, home: Seq<char>) -> Seq<
    Seq<char>,
> {
    seq![applications] + data_dirs_of(xdg_data_dirs).map_values(|d: Seq<char>| join_path(d, "applications"@)) + seq![
        join_path(home, ".local/share/flatpak/exports/share/applications"@),
        "/var/lib/flatpak/exports/share/applications"@,
        "/var/lib/snapd/desktop/applications"@,
    ]
}

/// Where desktop files are looked for, in order.
pub fn app_dirs(applications: &str, xdg_data_dirs: Option<&str>, home: &str) -> (r: Vec<String>)
    ensures
        r.deep_view() == app_dirs_of(applications@, match xdg_data_dirs {
            Some(d) => Some(d@),
            None => None,
        }, home@),
{
    let dirs = match xdg_data_dirs {
        Some(d) => {
            let c = chars_of(d);
            if c.len() > 0 {
                c
            } else {
                chars_of("/usr/local/share:/usr/share")
            }
        },
        None => chars_of("/usr/local/share:/usr/share"),
    };
    let pieces = split_chars(&dirs, ':');
    let ghost pv = pieces.deep_view();
    let mut out: Vec<String> = Vec::new();
    out.push(applications.to_owned());
    let mut i: usize = 0;
    assert(out.deep_view() =~= seq![applications@] + pv.take(0).map_values(|d: Seq<char>| join_path(d, "applications"@)));
    while i < pieces.len()
        invariant
            i <= pieces@.len(),
            pv == pieces.deep_view(),
            out.deep_view() == seq![applications@] + pv.take(i as int).map_values(|d: Seq<char>| join_path(d, "applications"@)),
        decreases pieces@.len() - i,
    {
        let ghost ov = out.deep_view();
        assert(pv[i as int] == pieces@[i as int]@);
        let joined = to_string(&join(&pieces[i], "applications"));
        out.push(joined);
        assert(out.deep_view() =~= ov.push(join_path(pv[i as int], "applications"@)));
        assert(pv.take(i + 1).map_values(|d: Seq<char>| join_path(d, "applications"@)) =~= pv.take(i as int).map_values(
            |d: Seq<char>| join_path(d, "applications"@),
        ).push(join_path(pv[i as int], "applications"@)));
        i = i + 1;
    }
    assert(pv.take(i as int) =~= pv);
    let ghost mid = out.deep_view();
    out.push(to_string(&join(&chars_of(home), ".local/share/flatpak/exports/share/applications")));
    out.push("/var/lib/flatpak/exports/share/applications".to_owned());
    out.push("/var/lib/snapd/desktop/applications".to_owned());
    assert(out.deep_view() =~= app_dirs_of(applications@, match xdg_data_dirs {
        Some(d) => Some(d@),
        None => None,
    }, home@));
    out
}

} // verus!
