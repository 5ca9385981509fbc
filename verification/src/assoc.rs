//! File associations on Windows: everything under HKEY_CURRENT_USER (no
//! admin rights), each key and value recorded in the inventory BEFORE it is
//! written, so that the cleanup takes away exactly what was added. A
//! program cannot set the default handler of an extension on Windows; the
//! launcher registers itself so that it appears in "Open with" and in
//! Settings > Default apps, where the user picks it. These functions decide
//! what is written and removed; the caller talks to the registry.

use vstd::prelude::*;
use crate::text::{chars_of, to_string, push_all, push_str, last_index};
use crate::catalogue::{App, AppModel, facade_exts, localized};
use crate::settings::{recorded, without_artefact, select, grown_by, lemma_recorded_grows, lemma_select_grown,
    lemma_select_all, Artefact, ArtefactModel, Inventory};
use crate::linux::ends_with;
use crate::launcher::SCHEME;

verus! {

/// Where file classes live.
pub const CLASSES: &'static str = "Software\\Classes";

/// The launcher's capabilities, as Default apps reads them.
pub const CAPABILITIES: &'static str = "Software\\Kynoko\\Launcher\\Capabilities";

/// Where applications with capabilities are listed.
pub const REGISTERED_APPS: &'static str = "Software\\RegisteredApplications";

/// The launcher's name in Default apps.
pub const APPLICATION_NAME: &'static str = "Kynoko Launcher";

/// What `str::to_uppercase` makes of a string (full Unicode upper case).
pub uninterp spec fn uppercase(s: Seq<char>) -> Seq<char>;

/// `str::to_uppercase`: its result is `uppercase` of its argument.
#[verifier::external_body]
fn to_uppercase(s: &str) -> (r: String)
    ensures
        r@ == uppercase(s@),
{
    s.to_uppercase()
}

/// The class of one of an app's file types.
pub open spec fn prog_id_of(code: Seq<char>, ext: Seq<char>) -> Seq<char> {
    "Kynoko."@ + code + "."@ + ext
}

/// The class of one of an app's file types (`Kynoko.<App>.<ext>`).
pub fn prog_id(app: &App, ext: &str) -> (r: String)
    ensures
        r@ == prog_id_of(app@.code, ext@),
{
    let mut v = chars_of("Kynoko.");
    push_all(&mut v, &chars_of(app.code.as_str()));
    push_str(&mut v, ".");
    push_str(&mut v, ext);
    to_string(&v)
}

/// One thing written to the registry.
#[derive(Debug)]
pub enum RegEntry {
    /// A key, created if missing.
    Key { path: String },
    /// A string value (`name` empty: the key's default value), its key
    /// created if missing.
    Text { path: String, name: String, value: String },
    /// An empty value of no type (REG_NONE), its key created if missing.
    Marker { path: String, name: String },
}

/// A registry write, as a value.
pub enum RegEntryModel {
    Key { path: Seq<char> },
    Text { path: Seq<char>, name: Seq<char>, value: Seq<char> },
    Marker { path: Seq<char>, name: Seq<char> },
}

impl View for RegEntry {
    type V = RegEntryModel;

    open spec fn view(&self) -> RegEntryModel {
        match self {
            RegEntry::Key { path } => RegEntryModel::Key { path: path@ },
            RegEntry::Text { path, name, value } => RegEntryModel::Text { path: path@, name: name@, value: value@ },
            RegEntry::Marker { path, name } => RegEntryModel::Marker { path: path@, name: name@ },
        }
    }
}

/// `a\b`.
pub open spec fn reg_path(a: Seq<char>, b: Seq<char>) -> Seq<char> {
    a + seq!['\\'] + b
}

/// The key of one of an app's classes.
pub open spec fn class_key(code: Seq<char>, ext: Seq<char>) -> Seq<char> {
    reg_path("Software\\Classes"@, prog_id_of(code, ext))
}

/// The "Open with" list of an extension.
pub open spec fn open_with_key(ext: Seq<char>) -> Seq<char> {
    reg_path("Software\\Classes"@, seq!['.'] + ext + "\\OpenWithProgids"@)
}

/// The launcher's own file associations, as Default apps reads them.
pub open spec fn file_assoc_key() -> Seq<char> {
    reg_path("Software\\Kynoko\\Launcher\\Capabilities"@, "FileAssociations"@)
}

/// The icon value of the launcher: its program, first icon.
pub open spec fn icon_value(exe: Seq<char>) -> Seq<char> {
    seq!['"'] + exe + "\",0"@
}

/// What registering one extension writes: its class (named after the app
/// in English and the extension in upper case, with the launcher's icon and
/// `open` verb), the class in the extension's "Open with" list, and the
/// extension among the launcher's file associations.
pub open spec fn ext_entries(code: Seq<char>, name: Seq<char>, exe: Seq<char>, ext: Seq<char>) -> Seq<RegEntryModel> {
    let id = prog_id_of(code, ext);
    let class = class_key(code, ext);
    seq![
        RegEntryModel::Text { path: class, name: seq![], value: name + " ("@ + uppercase(ext) + seq![')'] },
        RegEntryModel::Text { path: reg_path(class, "DefaultIcon"@), name: seq![], value: icon_value(exe) },
        RegEntryModel::Text {
            path: reg_path(class, "shell\\open\\command"@),
            name: seq![],
            value: seq!['"'] + exe + "\" open \"%1\""@,
        },
        RegEntryModel::Marker { path: open_with_key(ext), name: id },
        RegEntryModel::Text { path: file_assoc_key(), name: seq!['.'] + ext, value: id },
    ]
}

/// What registering the extensions `exts` writes, in order.
pub open spec fn exts_entries(code: Seq<char>, name: Seq<char>, exe: Seq<char>, exts: Seq<Seq<char>>) -> Seq<RegEntryModel>
    decreases exts.len(),
{
    if exts.len() == 0 {
        seq![]
    } else {
        exts_entries(code, name, exe, exts.drop_last()) + ext_entries(code, name, exe, exts.last())
    }
}

/// The launcher as an application Windows lists under Default apps.
pub open spec fn capability_entries() -> Seq<RegEntryModel> {
    seq![
        RegEntryModel::Text {
            path: "Software\\Kynoko\\Launcher\\Capabilities"@,
            name: "ApplicationName"@,
            value: "Kynoko Launcher"@,
        },
        RegEntryModel::Text {
            path: "Software\\Kynoko\\Launcher\\Capabilities"@,
            name: "ApplicationDescription"@,
            value: "Opens your files in the Kynoko apps"@,
        },
        RegEntryModel::Text {
            path: "Software\\RegisteredApplications"@,
            name: "Kynoko Launcher"@,
            value: "Software\\Kynoko\\Launcher\\Capabilities"@,
        },
        RegEntryModel::Key { path: file_assoc_key() },
    ]
}

/// Everything registering an app writes, in order.
pub open spec fn register_entries(app: AppModel, exe: Seq<char>) -> Seq<RegEntryModel> {
    capability_entries() + exts_entries(app.code, localized(app.names, "en"@, app.code), exe, facade_exts(app.facades))
}

/// The records of the extensions `exts`: each class key, and each class in
/// its extension's "Open with" list.
pub open spec fn exts_records(inv: Seq<ArtefactModel>, code: Seq<char>, exts: Seq<Seq<char>>) -> Seq<ArtefactModel>
    decreases exts.len(),
{
    if exts.len() == 0 {
        inv
    } else {
        let ext = exts.last();
        recorded(
            recorded(exts_records(inv, code, exts.drop_last()), ArtefactModel::RegistryKey { path: class_key(code, ext) }),
            ArtefactModel::RegistryValue { path: open_with_key(ext), name: prog_id_of(code, ext) },
        )
    }
}

/// What the inventory holds once an app is registered.
pub open spec fn register_records(inv: Seq<ArtefactModel>, app: AppModel) -> Seq<ArtefactModel> {
    exts_records(
        recorded(
            recorded(inv, ArtefactModel::RegistryKey { path: "Software\\Kynoko\\Launcher\\Capabilities"@ }),
            ArtefactModel::RegistryValue { path: "Software\\RegisteredApplications"@, name: "Kynoko Launcher"@ },
        ),
        app.code,
        facade_exts(app.facades),
    )
}

fn join2(a: &str, b: &Vec<char>) -> (r: String)
    ensures
        r@ == reg_path(a@, b@),
{
    let mut v = chars_of(a);
    v.push('\\');
    push_all(&mut v, b);
    to_string(&v)
}

fn text(path: String, name: &str, value: String) -> (r: RegEntry)
    ensures
        r@ == (RegEntryModel::Text { path: path@, name: name@, value: value@ }),
{
    RegEntry::Text { path, name: name.to_owned(), value }
}

/// Registers the launcher (the program `exe`) for every file type `app`
/// opens: what to write, in order, each key and value recorded first.
pub fn register(app: &App, exe: &str, inventory: &mut Inventory) -> (r: Vec<RegEntry>)
    ensures
        r@.map_values(|e: RegEntry| e@) == register_entries(app@, exe@),
        final(inventory)@ == register_records(old(inventory)@, app@),
{
    proof {
        reveal_strlit("");
    }
    let mut out: Vec<RegEntry> = Vec::new();
    inventory.record(Artefact::RegistryKey { path: CAPABILITIES.to_owned() });
    out.push(text(CAPABILITIES.to_owned(), "ApplicationName", APPLICATION_NAME.to_owned()));
    out.push(text(CAPABILITIES.to_owned(), "ApplicationDescription", "Opens your files in the Kynoko apps".to_owned()));
    inventory.record(Artefact::RegistryValue { path: REGISTERED_APPS.to_owned(), name: APPLICATION_NAME.to_owned() });
    out.push(text(REGISTERED_APPS.to_owned(), APPLICATION_NAME, CAPABILITIES.to_owned()));
    let assoc = join2(CAPABILITIES, &chars_of("FileAssociations"));
    out.push(RegEntry::Key { path: assoc.clone() });
    assert(out@.map_values(|e: RegEntry| e@) =~= capability_entries());
    let exts = app.extensions();
    let ghost xs = exts.deep_view();
    let name = app.name("en");
    let ghost start = inventory@;
    let mut i: usize = 0;
    assert(xs.take(0) =~= Seq::<Seq<char>>::empty());
    while i < exts.len()
        invariant
            i <= exts@.len(),
            xs == exts.deep_view(),
            xs == facade_exts(app@.facades),
            name@ == localized(app@.names, "en"@, app@.code),
            assoc@ == file_assoc_key(),
            ""@ == Seq::<char>::empty(),
            out@.map_values(|e: RegEntry| e@) == capability_entries() + exts_entries(app@.code, name@, exe@, xs.take(
                i as int,
            )),
            inventory@ == exts_records(start, app@.code, xs.take(i as int)),
        decreases exts@.len() - i,
    {
        assert(xs.take(i + 1).drop_last() =~= xs.take(i as int));
        assert(xs.take(i + 1).last() == xs[i as int]);
        let ext = exts[i].as_str();
        assert(ext@ == xs[i as int]);
        let id = prog_id(app, ext);
        let idc = chars_of(id.as_str());
        let class = join2(CLASSES, &idc);
        let cc = chars_of(class.as_str());
        assert(class@ =~= class_key(app@.code, xs[i as int]));
        inventory.record(Artefact::RegistryKey { path: class.clone() });
        let ghost before = out@.map_values(|e: RegEntry| e@);
        let mut label = chars_of(name.as_str());
        push_str(&mut label, " (");
        push_all(&mut label, &chars_of(to_uppercase(ext).as_str()));
        label.push(')');
        out.push(text(class.clone(), "", to_string(&label)));
        let mut icon = chars_of("\"");
        push_str(&mut icon, exe);
        push_str(&mut icon, "\",0");
        proof {
            reveal_strlit("\"");
        }
        let icon_key = {
            let mut k = cc.clone();
            k.push('\\');
            push_str(&mut k, "DefaultIcon");
            to_string(&k)
        };
        out.push(text(icon_key, "", to_string(&icon)));
        let command_key = {
            let mut k = cc.clone();
            k.push('\\');
            push_str(&mut k, "shell\\open\\command");
            to_string(&k)
        };
        let mut command = chars_of("\"");
        push_str(&mut command, exe);
        push_str(&mut command, "\" open \"%1\"");
        out.push(text(command_key, "", to_string(&command)));
        let mut dotted = chars_of(".");
        push_str(&mut dotted, ext);
        proof {
            reveal_strlit(".");
        }
        let mut with_tail = dotted.clone();
        push_str(&mut with_tail, "\\OpenWithProgids");
        let with = join2(CLASSES, &with_tail);
        assert(with@ =~= open_with_key(xs[i as int]));
        assert(label@ =~= name@ + " ("@ + uppercase(xs[i as int]) + seq![')']);
        assert(icon@ =~= icon_value(exe@));
        assert(icon_key@ =~= reg_path(class_key(app@.code, xs[i as int]), "DefaultIcon"@));
        assert(command_key@ =~= reg_path(class_key(app@.code, xs[i as int]), "shell\\open\\command"@));
        assert(command@ =~= seq!['"'] + exe@ + "\" open \"%1\""@);
        assert(dotted@ =~= seq!['.'] + xs[i as int]);
        inventory.record(Artefact::RegistryValue { path: with.clone(), name: id.clone() });
        out.push(RegEntry::Marker { path: with, name: id.clone() });
        out.push(RegEntry::Text { path: assoc.clone(), name: to_string(&dotted), value: id });
        assert(out@.map_values(|e: RegEntry| e@) =~= before + ext_entries(app@.code, name@, exe@, xs[i as int]));
        i = i + 1;
    }
    assert(xs.take(i as int) =~= xs);
    out
}

/// The key of the launcher's own address.
pub open spec fn scheme_key() -> Seq<char> {
    reg_path("Software\\Classes"@, "kynoko-launcher"@)
}

/// What registering the launcher's address writes: a URL protocol with the
/// launcher's icon, opened by the launcher with the address.
pub open spec fn scheme_entries(exe: Seq<char>) -> Seq<RegEntryModel> {
    seq![
        RegEntryModel::Text { path: scheme_key(), name: seq![], value: "URL:Kynoko Launcher"@ },
        RegEntryModel::Text { path: scheme_key(), name: "URL Protocol"@, value: seq![] },
        RegEntryModel::Text { path: reg_path(scheme_key(), "DefaultIcon"@), name: seq![], value: icon_value(exe) },
        RegEntryModel::Text {
            path: reg_path(scheme_key(), "shell\\open\\command"@),
            name: seq![],
            value: seq!['"'] + exe + "\" \"%1\""@,
        },
    ]
}

/// Registers `kynoko-launcher://` (at every start: it is idempotent), its
/// key recorded first so the cleanup takes it away with the rest.
pub fn register_scheme(exe: &str, inventory: &mut Inventory) -> (r: Vec<RegEntry>)
    ensures
        r@.map_values(|e: RegEntry| e@) == scheme_entries(exe@),
        final(inventory)@ == recorded(old(inventory)@, ArtefactModel::RegistryKey { path: scheme_key() }),
{
    proof {
        reveal_strlit("");
        reveal_strlit("\"");
    }
    let key = join2(CLASSES, &chars_of(SCHEME));
    let kc = chars_of(key.as_str());
    inventory.record(Artefact::RegistryKey { path: key.clone() });
    let mut out: Vec<RegEntry> = Vec::new();
    let first = text(key.clone(), "", "URL:Kynoko Launcher".to_owned());
    assert(""@ == Seq::<char>::empty());
    assert(first@->Text_path == key@);
    assert(first@->Text_name == Seq::<char>::empty());
    assert(first@->Text_value == "URL:Kynoko Launcher"@);
    out.push(first);
    out.push(text(key.clone(), "URL Protocol", "".to_owned()));
    let mut icon = chars_of("\"");
    push_str(&mut icon, exe);
    push_str(&mut icon, "\",0");
    let mut k1 = kc.clone();
    k1.push('\\');
    push_str(&mut k1, "DefaultIcon");
    out.push(text(to_string(&k1), "", to_string(&icon)));
    let mut k2 = kc.clone();
    k2.push('\\');
    push_str(&mut k2, "shell\\open\\command");
    let mut command = chars_of("\"");
    push_str(&mut command, exe);
    push_str(&mut command, "\" \"%1\"");
    out.push(text(to_string(&k2), "", to_string(&command)));
    assert(key@ =~= scheme_key());
    assert(icon@ =~= icon_value(exe@));
    assert(k1@ =~= reg_path(scheme_key(), "DefaultIcon"@));
    assert(k2@ =~= reg_path(scheme_key(), "shell\\open\\command"@));
    assert(command@ =~= seq!['"'] + exe@ + "\" \"%1\""@);
    assert(out@.map_values(|e: RegEntry| e@)[0] == scheme_entries(exe@)[0]);
    assert(out@.map_values(|e: RegEntry| e@)[1] == scheme_entries(exe@)[1]);
    assert(out@.map_values(|e: RegEntry| e@)[2] == scheme_entries(exe@)[2]);
    assert(out@.map_values(|e: RegEntry| e@)[3] == scheme_entries(exe@)[3]);
    assert(out@.map_values(|e: RegEntry| e@) =~= scheme_entries(exe@));
    out
}

/* ----------------------------------------------------------------- removal */

/// One thing to take away.
#[derive(Debug)]
pub enum Removal {
    /// A registry key with everything under it.
    KeyTree { path: String },
    /// One value of a registry key.
    Value { path: String, name: String },
    /// A registry key, only if it holds no value (default included) and no subkey.
    KeyIfEmpty { path: String },
    /// A file.
    File { path: String },
    /// A directory, only if empty.
    DirIfEmpty { path: String },
    /// A directory with everything in it.
    Tree { path: String },
}

/// A removal, as a value.
pub enum RemovalModel {
    KeyTree { path: Seq<char> },
    Value { path: Seq<char>, name: Seq<char> },
    KeyIfEmpty { path: Seq<char> },
    File { path: Seq<char> },
    DirIfEmpty { path: Seq<char> },
    Tree { path: Seq<char> },
}

impl View for Removal {
    type V = RemovalModel;

    open spec fn view(&self) -> RemovalModel {
        match self {
            Removal::KeyTree { path } => RemovalModel::KeyTree { path: path@ },
            Removal::Value { path, name } => RemovalModel::Value { path: path@, name: name@ },
            Removal::KeyIfEmpty { path } => RemovalModel::KeyIfEmpty { path: path@ },
            Removal::File { path } => RemovalModel::File { path: path@ },
            Removal::DirIfEmpty { path } => RemovalModel::DirIfEmpty { path: path@ },
            Removal::Tree { path } => RemovalModel::Tree { path: path@ },
        }
    }
}

/// How an artefact is taken away. A value added to an extension's "Open
/// with" list goes, then that list and the extension's key too if they are
/// left empty (creating the list created the extension's key when the user
/// had none; a key holding anything else belongs to someone and stays). A
/// default handler is given back by the system's own means, not here.
pub open spec fn removal_of(a: ArtefactModel) -> Seq<RemovalModel> {
    match a {
        ArtefactModel::RegistryKey { path } => seq![RemovalModel::KeyTree { path }],
        ArtefactModel::RegistryValue { path, name } => {
            let value = seq![RemovalModel::Value { path, name }];
            if ends_with(path, "\\OpenWithProgids"@) {
                match last_index(path, '\\') {
                    Some(i) => value + seq![
                        RemovalModel::KeyIfEmpty { path },
                        RemovalModel::KeyIfEmpty { path: path.take(i) },
                    ],
                    None => value + seq![RemovalModel::KeyIfEmpty { path }],
                }
            } else {
                value
            }
        },
        ArtefactModel::File { path } => seq![RemovalModel::File { path }],
        ArtefactModel::Dir { path } => seq![RemovalModel::DirIfEmpty { path }],
        ArtefactModel::Tree { path } => seq![RemovalModel::Tree { path }],
        ArtefactModel::MimeDefault { .. } => seq![],
    }
}

/// How an artefact is taken away.
pub fn removal(a: &Artefact) -> (r: Vec<Removal>)
    ensures
        r@.map_values(|x: Removal| x@) == removal_of(a@),
{
    let mut out: Vec<Removal> = Vec::new();
    match a {
        Artefact::RegistryKey { path } => {
            out.push(Removal::KeyTree { path: path.clone() });
        },
        Artefact::RegistryValue { path, name } => {
            out.push(Removal::Value { path: path.clone(), name: name.clone() });
            let p = chars_of(path.as_str());
            if crate::linux::ends_with_chars(&p, &chars_of("\\OpenWithProgids")) {
                out.push(Removal::KeyIfEmpty { path: path.clone() });
                let mut i: usize = p.len();
                assert(p@.take(i as int) =~= p@);
                while i > 0 && p[i - 1] != '\\'
                    invariant
                        i <= p@.len(),
                        last_index(p@, '\\') == last_index(p@.take(i as int), '\\'),
                    decreases i,
                {
                    assert(p@.take(i as int).drop_last() =~= p@.take(i - 1));
                    i = i - 1;
                }
                if i > 0 {
                    assert(p@.take(i as int).last() == p@[i - 1]);
                    let parent = crate::text::slice_chars(&p, 0, i - 1);
                    out.push(Removal::KeyIfEmpty { path: to_string(&parent) });
                } else {
                    assert(last_index(p@.take(0), '\\') is None);
                }
            }
        },
        Artefact::File { path } => {
            out.push(Removal::File { path: path.clone() });
        },
        Artefact::Dir { path } => {
            out.push(Removal::DirIfEmpty { path: path.clone() });
        },
        Artefact::Tree { path } => {
            out.push(Removal::Tree { path: path.clone() });
        },
        Artefact::MimeDefault { .. } => {},
    }
    assert(out@.map_values(|x: Removal| x@) =~= removal_of(a@));
    out
}

/// Another app still has a class in the "Open with" list of `ext`: the
/// inventory `inv` records a value there.
pub open spec fn claimed(inv: Seq<ArtefactModel>, ext: Seq<char>) -> bool {
    exists|i: int|
        0 <= i < inv.len() && (#[trigger] inv[i] matches ArtefactModel::RegistryValue { path, .. } && path
            == open_with_key(ext))
}

/// What unregistering one extension takes away (`rest` is the inventory
/// once its records are forgotten): its class in the "Open with" list, its
/// class, and, unless another app still registers the extension, its line
/// among the launcher's associations.
pub open spec fn ext_removals(code: Seq<char>, ext: Seq<char>, rest: Seq<ArtefactModel>) -> Seq<RemovalModel> {
    removal_of(ArtefactModel::RegistryValue { path: open_with_key(ext), name: prog_id_of(code, ext) }) + removal_of(
        ArtefactModel::RegistryKey { path: class_key(code, ext) },
    ) + if claimed(rest, ext) {
        seq![]
    } else {
        seq![RemovalModel::Value { path: file_assoc_key(), name: seq!['.'] + ext }]
    }
}

/// What unregistering the extensions `exts` takes away, in order, from the
/// inventory `inv`.
pub open spec fn exts_removals(inv: Seq<ArtefactModel>, code: Seq<char>, exts: Seq<Seq<char>>) -> Seq<RemovalModel>
    decreases exts.len(),
{
    if exts.len() == 0 {
        seq![]
    } else {
        exts_removals(inv, code, exts.drop_last()) + ext_removals(code, exts.last(), exts_forgotten(inv, code, exts))
    }
}

/// Whether the inventory records a value in the "Open with" list `key` of `ext`.
fn claims(inventory: &Inventory, ext: &str, key: &String) -> (r: bool)
    requires
        key@ == open_with_key(ext@),
    ensures
        r == claimed(inventory@, ext@),
{
    let k = chars_of(key.as_str());
    let mut i: usize = 0;
    while i < inventory.artefacts.len()
        invariant
            i <= inventory@.len(),
            k@ == open_with_key(ext@),
            forall|j: int|
                0 <= j < i ==> !(#[trigger] inventory@[j] matches ArtefactModel::RegistryValue { path, .. } && path
                    == open_with_key(ext@)),
        decreases inventory@.len() - i,
    {
        assert(inventory@[i as int] == inventory.artefacts@[i as int]@);
        match &inventory.artefacts[i] {
            Artefact::RegistryValue { path, .. } => {
                if crate::text::eq_chars(&chars_of(path.as_str()), &k) {
                    return true;
                }
            },
            _ => {},
        }
        i = i + 1;
    }
    false
}

/// The inventory once the records of the extensions `exts` are forgotten.
pub open spec fn exts_forgotten(inv: Seq<ArtefactModel>, code: Seq<char>, exts: Seq<Seq<char>>) -> Seq<ArtefactModel>
    decreases exts.len(),
{
    if exts.len() == 0 {
        inv
    } else {
        let ext = exts.last();
        without_artefact(
            without_artefact(
                exts_forgotten(inv, code, exts.drop_last()),
                ArtefactModel::RegistryValue { path: open_with_key(ext), name: prog_id_of(code, ext) },
            ),
            ArtefactModel::RegistryKey { path: class_key(code, ext) },
        )
    }
}

fn push_all_removals(out: &mut Vec<Removal>, more: Vec<Removal>)
    ensures
        final(out)@.map_values(|x: Removal| x@) == old(out)@.map_values(|x: Removal| x@) + more@.map_values(
            |x: Removal| x@,
        ),
{
    let mut m = more;
    let ghost ov = out@.map_values(|x: Removal| x@);
    let ghost mv = m@.map_values(|x: Removal| x@);
    out.append(&mut m);
    assert(out@.map_values(|x: Removal| x@) =~= ov + mv);
}

/// Removes what `register` wrote for `app` (other apps keep theirs): what
/// to take away, in order, the records forgotten.
pub fn unregister(app: &App, inventory: &mut Inventory) -> (r: Vec<Removal>)
    ensures
        r@.map_values(|x: Removal| x@) == exts_removals(old(inventory)@, app@.code, facade_exts(app@.facades)),
        final(inventory)@ == exts_forgotten(old(inventory)@, app@.code, facade_exts(app@.facades)),
{
    let exts = app.extensions();
    let ghost xs = exts.deep_view();
    let ghost start = inventory@;
    let assoc = join2(CAPABILITIES, &chars_of("FileAssociations"));
    let mut out: Vec<Removal> = Vec::new();
    let mut i: usize = 0;
    assert(xs.take(0) =~= Seq::<Seq<char>>::empty());
    assert(out@.map_values(|x: Removal| x@) =~= Seq::<RemovalModel>::empty());
    while i < exts.len()
        invariant
            i <= exts@.len(),
            xs == exts.deep_view(),
            assoc@ == file_assoc_key(),
            out@.map_values(|x: Removal| x@) == exts_removals(start, app@.code, xs.take(i as int)),
            inventory@ == exts_forgotten(start, app@.code, xs.take(i as int)),
        decreases exts@.len() - i,
    {
        assert(xs.take(i + 1).drop_last() =~= xs.take(i as int));
        assert(xs.take(i + 1).last() == xs[i as int]);
        let ext = exts[i].as_str();
        assert(ext@ == xs[i as int]);
        let id = prog_id(app, ext);
        let class = Artefact::RegistryKey { path: join2(CLASSES, &chars_of(id.as_str())) };
        assert(class@ == (ArtefactModel::RegistryKey { path: class_key(app@.code, ext@) }));
        let mut with_tail = chars_of(".");
        push_str(&mut with_tail, ext);
        push_str(&mut with_tail, "\\OpenWithProgids");
        proof {
            reveal_strlit(".");
        }
        let with_path = join2(CLASSES, &with_tail);
        assert(with_path@ =~= open_with_key(ext@));
        let key = with_path.clone();
        let with = Artefact::RegistryValue { path: with_path, name: id };
        assert(with@ == (ArtefactModel::RegistryValue { path: open_with_key(ext@), name: prog_id_of(app@.code, ext@) }));
        let ghost before = out@.map_values(|x: Removal| x@);
        push_all_removals(&mut out, removal(&with));
        inventory.forget(&with);
        push_all_removals(&mut out, removal(&class));
        inventory.forget(&class);
        assert(inventory@ == exts_forgotten(start, app@.code, xs.take(i + 1)));
        let mut dotted = chars_of(".");
        push_str(&mut dotted, ext);
        assert(dotted@ =~= seq!['.'] + ext@);
        let ghost mid = out@.map_values(|x: Removal| x@);
        if !claims(inventory, ext, &key) {
            out.push(Removal::Value { path: assoc.clone(), name: to_string(&dotted) });
            assert(out@.map_values(|x: Removal| x@) =~= mid.push(
                RemovalModel::Value { path: file_assoc_key(), name: seq!['.'] + ext@ },
            ));
        }
        assert(out@.map_values(|x: Removal| x@) =~= before + ext_removals(app@.code, ext@, inventory@));
        i = i + 1;
    }
    assert(xs.take(i as int) =~= xs);
    out
}

/// Takes EVERYTHING out of the inventory (uninstall, "Remove everything"):
/// the artefacts to take away, newest first.
pub fn remove_all(inventory: &mut Inventory) -> (r: Vec<Artefact>)
    ensures
        r@.map_values(|a: Artefact| a@) == old(inventory)@.reverse(),
        final(inventory)@.len() == 0,
{
    let mut rest: Vec<Artefact> = Vec::new();
    std::mem::swap(&mut rest, &mut inventory.artefacts);
    let ghost all = rest@.map_values(|a: Artefact| a@);
    let mut out: Vec<Artefact> = Vec::new();
    while rest.len() > 0
        invariant
            rest@.len() <= all.len(),
            rest@.map_values(|a: Artefact| a@) == all.take(rest@.len() as int),
            out@.map_values(|a: Artefact| a@) == all.skip(rest@.len() as int).reverse(),
        decreases rest@.len(),
    {
        let ghost n = rest@.len();
        let ghost ov = out@.map_values(|a: Artefact| a@);
        let a = rest.pop().unwrap();
        assert(all.take(n as int).last() == a@);
        out.push(a);
        assert(all.skip(n - 1) =~= seq![all[n - 1]] + all.skip(n as int));
        assert(all.skip(n - 1).reverse() =~= all.skip(n as int).reverse().push(all[n - 1]));
        assert(out@.map_values(|a: Artefact| a@) =~= ov.push(all[n - 1]));
        assert(rest@.map_values(|a: Artefact| a@) =~= all.take(n - 1));
    }
    assert(all.skip(0) =~= all);
    out
}

/* ------------------------------------------------------------ reversibility */

/// One of the records `register` makes for the types `exts` of the app
/// `code`: a type's class key, or its class in the type's "Open with" list.
pub open spec fn type_record(a: ArtefactModel, code: Seq<char>, exts: Seq<Seq<char>>) -> bool {
    exists|j: int|
        0 <= j < exts.len() && (a == ArtefactModel::RegistryKey { path: class_key(code, #[trigger] exts[j]) } || a
            == ArtefactModel::RegistryValue { path: open_with_key(exts[j]), name: prog_id_of(code, exts[j]) })
}

/// Forgetting one artefact of what `k` keeps keeps what `k2` keeps, when
/// `k2` is `k` without that artefact.
proof fn lemma_without_select(
    t: Seq<ArtefactModel>,
    k: spec_fn(ArtefactModel) -> bool,
    x: ArtefactModel,
    k2: spec_fn(ArtefactModel) -> bool,
)
    requires
        forall|a: ArtefactModel| #[trigger] k2(a) == (k(a) && a != x),
    ensures
        without_artefact(select(t, k), x) == select(t, k2),
    decreases t.len(),
{
    if t.len() > 0 {
        lemma_without_select(t.drop_last(), k, x, k2);
        let last = t.last();
        assert(k2(last) == (k(last) && last != x));
        if k(last) {
            let p = select(t.drop_last(), k);
            assert(p.push(last).drop_last() =~= p);
            assert(p.push(last).last() == last);
        }
    }
}

/// Forgetting the records of types `exts` keeps every other artefact, in order.
proof fn lemma_forgotten_select(t: Seq<ArtefactModel>, code: Seq<char>, exts: Seq<Seq<char>>, k: spec_fn(ArtefactModel) -> bool)
    requires
        forall|a: ArtefactModel| #[trigger] k(a) == !type_record(a, code, exts),
    ensures
        exts_forgotten(t, code, exts) == select(t, k),
    decreases exts.len(),
{
    if exts.len() == 0 {
        assert forall|i: int| 0 <= i < t.len() implies k(#[trigger] t[i]) by {
            assert(!type_record(t[i], code, exts));
        }
        lemma_select_all(t, k);
    } else {
        let d = exts.drop_last();
        let ext = exts.last();
        let ov = ArtefactModel::RegistryValue { path: open_with_key(ext), name: prog_id_of(code, ext) };
        let ck = ArtefactModel::RegistryKey { path: class_key(code, ext) };
        let k0 = |a: ArtefactModel| !type_record(a, code, d);
        let k1 = |a: ArtefactModel| k0(a) && a != ov;
        let k2 = |a: ArtefactModel| k1(a) && a != ck;
        lemma_forgotten_select(t, code, d, k0);
        lemma_without_select(t, k0, ov, k1);
        lemma_without_select(t, k1, ck, k2);
        assert forall|a: ArtefactModel| #[trigger] k2(a) == k(a) by {
            if type_record(a, code, exts) {
                let j = choose|j: int|
                    0 <= j < exts.len() && (a == ArtefactModel::RegistryKey { path: class_key(code, #[trigger] exts[j]) } || a
                        == ArtefactModel::RegistryValue { path: open_with_key(exts[j]), name: prog_id_of(code, exts[j]) });
                if j < d.len() {
                    assert(d[j] == exts[j]);
                    assert(type_record(a, code, d));
                }
            }
            if type_record(a, code, d) {
                let j = choose|j: int|
                    0 <= j < d.len() && (a == ArtefactModel::RegistryKey { path: class_key(code, #[trigger] d[j]) } || a
                        == ArtefactModel::RegistryValue { path: open_with_key(d[j]), name: prog_id_of(code, d[j]) });
                assert(exts[j] == d[j]);
            }
            if a == ov || a == ck {
                assert(exts[exts.len() - 1] == ext);
            }
        }
        assert(k2 =~= k);
    }
}

/// Registering the types `full.take(n)` grows the inventory only by their records.
proof fn lemma_records_grow(
    base: Seq<ArtefactModel>,
    code: Seq<char>,
    full: Seq<Seq<char>>,
    n: int,
    k: spec_fn(ArtefactModel) -> bool,
)
    requires
        0 <= n <= full.len(),
        grown_by(base, base, k),
        forall|a: ArtefactModel| #[trigger] k(a) == !type_record(a, code, full),
    ensures
        grown_by(exts_records(base, code, full.take(n)), base, k),
    decreases n,
{
    if n > 0 {
        let e = full.take(n);
        assert(e.drop_last() =~= full.take(n - 1));
        lemma_records_grow(base, code, full, n - 1, k);
        let ext = full[n - 1];
        assert(e.last() == ext);
        let ck = ArtefactModel::RegistryKey { path: class_key(code, ext) };
        let ov = ArtefactModel::RegistryValue { path: open_with_key(ext), name: prog_id_of(code, ext) };
        assert(type_record(ck, code, full));
        assert(type_record(ov, code, full));
        let before = exts_records(base, code, full.take(n - 1));
        lemma_recorded_grows(before, base, k, ck);
        lemma_recorded_grows(recorded(before, ck), base, k, ov);
    }
}

/// Associating an app and then taking its associations away leaves the
/// inventory as it was, but for the launcher's own registration as an
/// application (shared by every app, taken away by the cleanup): `unregister`
/// forgets exactly the records `register` made for the app's types (for an
/// inventory that holds none of them yet).
pub proof fn law_register_then_unregister(inv: Seq<ArtefactModel>, app: AppModel)
    requires
        forall|i: int| 0 <= i < inv.len() ==> !type_record(#[trigger] inv[i], app.code, facade_exts(app.facades)),
    ensures
        exts_forgotten(register_records(inv, app), app.code, facade_exts(app.facades)) == recorded(
            recorded(inv, ArtefactModel::RegistryKey { path: "Software\\Kynoko\\Launcher\\Capabilities"@ }),
            ArtefactModel::RegistryValue { path: "Software\\RegisteredApplications"@, name: "Kynoko Launcher"@ },
        ),
{
    let code = app.code;
    let full = facade_exts(app.facades);
    let cap = ArtefactModel::RegistryKey { path: "Software\\Kynoko\\Launcher\\Capabilities"@ };
    let reg = ArtefactModel::RegistryValue { path: "Software\\RegisteredApplications"@, name: "Kynoko Launcher"@ };
    let base = recorded(recorded(inv, cap), reg);
    let k = |a: ArtefactModel| !type_record(a, code, full);
    reveal_strlit("Software\\Kynoko\\Launcher\\Capabilities");
    reveal_strlit("Software\\RegisteredApplications");
    reveal_strlit("Software\\Classes");
    assert(!type_record(cap, code, full)) by {
        if type_record(cap, code, full) {
            let j = choose|j: int|
                0 <= j < full.len() && (cap == ArtefactModel::RegistryKey { path: class_key(code, #[trigger] full[j]) } || cap
                    == ArtefactModel::RegistryValue { path: open_with_key(full[j]), name: prog_id_of(code, full[j]) });
            assert(class_key(code, full[j])[9] == 'C');
        }
    }
    assert(!type_record(reg, code, full)) by {
        if type_record(reg, code, full) {
            let j = choose|j: int|
                0 <= j < full.len() && (reg == ArtefactModel::RegistryKey { path: class_key(code, #[trigger] full[j]) } || reg
                    == ArtefactModel::RegistryValue { path: open_with_key(full[j]), name: prog_id_of(code, full[j]) });
            assert(open_with_key(full[j])[9] == 'C');
        }
    }
    assert forall|i: int| 0 <= i < base.len() implies k(#[trigger] base[i]) by {
        if !inv.contains(cap) {
            assert(recorded(inv, cap) == inv.push(cap));
        }
        let one = recorded(inv, cap);
        assert forall|m: int| 0 <= m < one.len() implies k(#[trigger] one[m]) by {
            if m < inv.len() {
                assert(one[m] == inv[m]);
            }
        }
        if !one.contains(reg) {
            assert(base == one.push(reg));
            if i < one.len() {
                assert(base[i] == one[i]);
            }
        }
    }
    assert(base.subrange(0, base.len() as int) =~= base);
    lemma_records_grow(base, code, full, full.len() as int, k);
    assert(full.take(full.len() as int) =~= full);
    let t = register_records(inv, app);
    lemma_forgotten_select(t, code, full, k);
    lemma_select_grown(t, base, k);
}


proof fn lemma_without_artefact_keeps(s: Seq<ArtefactModel>, x: ArtefactModel, a: ArtefactModel)
    requires
        s.contains(a),
        a != x,
    ensures
        without_artefact(s, x).contains(a),
    decreases s.len(),
{
    let d = s.drop_last();
    if s.last() == a {
        assert(without_artefact(s, x) == without_artefact(d, x).push(a));
        assert(without_artefact(s, x).last() == a);
    } else {
        let i = choose|i: int| 0 <= i < s.len() && s[i] == a;
        assert(d[i] == a);
        lemma_without_artefact_keeps(d, x, a);
        let w = without_artefact(d, x);
        let j = choose|j: int| 0 <= j < w.len() && w[j] == a;
        if s.last() != x {
            assert(w.push(s.last())[j] == a);
        }
    }
}

proof fn lemma_concat_contains<T>(a: Seq<T>, b: Seq<T>, y: T)
    requires
        !a.contains(y),
        !b.contains(y),
    ensures
        !(a + b).contains(y),
{
    if (a + b).contains(y) {
        let i = choose|i: int| 0 <= i < (a + b).len() && (a + b)[i] == y;
        if i < a.len() {
            assert(a[i] == y);
        } else {
            assert(b[i - a.len()] == y);
        }
    }
}

/// What unregistering one extension `x` takes away never names `.e` among
/// the launcher's associations while the rest still claims `e`.
proof fn lemma_ext_removals_spare(code: Seq<char>, x: Seq<char>, rest: Seq<ArtefactModel>, e: Seq<char>, v: ArtefactModel)
    requires
        rest.contains(v),
        v matches ArtefactModel::RegistryValue { path, .. } && path == open_with_key(e),
    ensures
        !ext_removals(code, x, rest).contains(RemovalModel::Value { path: file_assoc_key(), name: seq!['.'] + e }),
{
    let target = RemovalModel::Value { path: file_assoc_key(), name: seq!['.'] + e };
    let val = ArtefactModel::RegistryValue { path: open_with_key(x), name: prog_id_of(code, x) };
    let key = ArtefactModel::RegistryKey { path: class_key(code, x) };
    reveal_strlit("Kynoko.");
    let rv = removal_of(val);
    assert(!rv.contains(target)) by {
        if rv.contains(target) {
            let i = choose|i: int| 0 <= i < rv.len() && rv[i] == target;
            assert(prog_id_of(code, x)[0] == 'K');
            assert((seq!['.'] + e)[0] == '.');
        }
    }
    let rk = removal_of(key);
    assert(!rk.contains(target)) by {
        assert(rk == seq![RemovalModel::KeyTree { path: class_key(code, x) }]);
        if rk.contains(target) {
            let i = choose|i: int| 0 <= i < rk.len() && rk[i] == target;
        }
    }
    let tail = if claimed(rest, x) {
        Seq::<RemovalModel>::empty()
    } else {
        seq![RemovalModel::Value { path: file_assoc_key(), name: seq!['.'] + x }]
    };
    assert(!tail.contains(target)) by {
        if tail.contains(target) {
            let i = choose|i: int| 0 <= i < tail.len() && tail[i] == target;
            assert(seq!['.'] + x == seq!['.'] + e);
            assert(x =~= (seq!['.'] + x).skip(1));
            assert(e =~= (seq!['.'] + e).skip(1));
            let k = choose|k: int| 0 <= k < rest.len() && rest[k] == v;
            assert(claimed(rest, x));
        }
    }
    assert(ext_removals(code, x, rest) == rv + rk + tail);
    lemma_concat_contains(rv, rk, target);
    lemma_concat_contains(rv + rk, tail, target);
}

proof fn lemma_type_record_prefix(v: ArtefactModel, code: Seq<char>, exts: Seq<Seq<char>>)
    requires
        exts.len() > 0,
        !type_record(v, code, exts),
    ensures
        !type_record(v, code, exts.drop_last()),
{
    let d = exts.drop_last();
    if type_record(v, code, d) {
        let j = choose|j: int|
            0 <= j < d.len() && (v == ArtefactModel::RegistryKey { path: class_key(code, #[trigger] d[j]) } || v
                == ArtefactModel::RegistryValue { path: open_with_key(d[j]), name: prog_id_of(code, d[j]) });
        assert(d[j] == exts[j]);
    }
}

/// Another app's claim keeps an extension's association: when the
/// inventory records a value in the "Open with" list of `e` that is not one
/// of the app's own type records (another app's class there), unregistering
/// the app keeps that record, and takes `.e` out of the launcher's file
/// associations at no step.
pub proof fn law_claimed_extension_kept(
    inv: Seq<ArtefactModel>,
    code: Seq<char>,
    exts: Seq<Seq<char>>,
    v: ArtefactModel,
    e: Seq<char>,
)
    requires
        inv.contains(v),
        v matches ArtefactModel::RegistryValue { path, .. } && path == open_with_key(e),
        !type_record(v, code, exts),
    ensures
        exts_forgotten(inv, code, exts).contains(v),
        !exts_removals(inv, code, exts).contains(RemovalModel::Value { path: file_assoc_key(), name: seq!['.'] + e }),
    decreases exts.len(),
{
    let target = RemovalModel::Value { path: file_assoc_key(), name: seq!['.'] + e };
    if exts.len() == 0 {
        assert(!Seq::<RemovalModel>::empty().contains(target));
    } else {
        let d = exts.drop_last();
        let x = exts.last();
        lemma_type_record_prefix(v, code, exts);
        law_claimed_extension_kept(inv, code, d, v, e);
        let val = ArtefactModel::RegistryValue { path: open_with_key(x), name: prog_id_of(code, x) };
        let key = ArtefactModel::RegistryKey { path: class_key(code, x) };
        assert(exts[exts.len() - 1] == x);
        assert(v != val && v != key);
        let fd = exts_forgotten(inv, code, d);
        lemma_without_artefact_keeps(fd, val, v);
        lemma_without_artefact_keeps(without_artefact(fd, val), key, v);
        let rest = exts_forgotten(inv, code, exts);
        assert(rest == without_artefact(without_artefact(fd, val), key));
        lemma_ext_removals_spare(code, x, rest, e, v);
        assert(exts_removals(inv, code, exts) == exts_removals(inv, code, d) + ext_removals(code, x, rest));
        lemma_concat_contains(exts_removals(inv, code, d), ext_removals(code, x, rest), target);
    }
}

} // verus!
