//! The catalogue: which Kynoko apps exist, where they live, and which files
//! each of their facades opens.
//!
//! The snapshot bundled with the build is the floor; the platform's public
//! catalogue replaces it when online (at most every 12 hours, conditional
//! requests), and the last good copy is kept with the time of each check.

use vstd::prelude::*;
use vstd::arithmetic::power::{pow, lemma_pow_increases, lemma_pow_positive};
use crate::text::{ascii_lower, ascii_lower_chars, chars_of, eq_chars, lemma_chars_deep_view};

verus! {

/// A file type a facade opens.
#[derive(Debug)]
pub struct TileFile {
    pub ext: String,
    pub mime: Option<String>,
    pub primary: bool,
}

/// A tool inside an app, reached at a path of the app.
#[derive(Debug)]
pub struct Facade {
    pub path: String,
    /// Its name in each language (a map: each language once).
    pub names: Vec<(String, String)>,
    pub files: Vec<TileFile>,
    /// Published by the platform: only a listed facade gets a shortcut (a
    /// draft keeps its file types, which the app's /open route serves).
    pub listed: bool,
}

/// A Kynoko app.
#[derive(Debug)]
pub struct App {
    pub code: String,
    pub url: String,
    /// Its name in each language (a map: each language once).
    pub names: Vec<(String, String)>,
    pub status: String,
    pub facades: Vec<Facade>,
}

/// The list of apps the launcher follows.
#[derive(Debug)]
pub struct Catalogue {
    pub v: u32,
    pub generated_at: String,
    pub apps: Vec<App>,
}

/// A file type, as a value.
pub struct TileFileModel {
    pub ext: Seq<char>,
    pub mime: Option<Seq<char>>,
    pub primary: bool,
}

/// A facade, as a value.
pub struct FacadeModel {
    pub path: Seq<char>,
    pub names: Seq<(Seq<char>, Seq<char>)>,
    pub files: Seq<TileFileModel>,
    pub listed: bool,
}

/// An app, as a value.
pub struct AppModel {
    pub code: Seq<char>,
    pub url: Seq<char>,
    pub names: Seq<(Seq<char>, Seq<char>)>,
    pub status: Seq<char>,
    pub facades: Seq<FacadeModel>,
}

/// A catalogue, as a value.
pub struct CatalogueModel {
    pub v: u32,
    pub generated_at: Seq<char>,
    pub apps: Seq<AppModel>,
}

impl View for TileFile {
    type V = TileFileModel;

    open spec fn view(&self) -> TileFileModel {
        TileFileModel {
            ext: self.ext@,
            mime: match self.mime {
                Some(m) => Some(m@),
                None => None,
            },
            primary: self.primary,
        }
    }
}

impl View for Facade {
    type V = FacadeModel;

    open spec fn view(&self) -> FacadeModel {
        FacadeModel {
            path: self.path@,
            names: self.names.deep_view(),
            files: self.files@.map_values(|t: TileFile| t@),
            listed: self.listed,
        }
    }
}

impl View for App {
    type V = AppModel;

    open spec fn view(&self) -> AppModel {
        AppModel {
            code: self.code@,
            url: self.url@,
            names: self.names.deep_view(),
            status: self.status@,
            facades: self.facades@.map_values(|f: Facade| f@),
        }
    }
}

impl View for Catalogue {
    type V = CatalogueModel;

    open spec fn view(&self) -> CatalogueModel {
        CatalogueModel {
            v: self.v,
            generated_at: self.generated_at@,
            apps: self.apps@.map_values(|a: App| a@),
        }
    }
}

/* ----------------------------------------------------------------- lookups */

/// The index of the first app of code `code`.
pub open spec fn app_index(apps: Seq<AppModel>, code: Seq<char>) -> Option<int>
    decreases apps.len(),
{
    if apps.len() == 0 {
        None
    } else if apps[0].code == code {
        Some(0)
    } else {
        match app_index(apps.drop_first(), code) {
            Some(i) => Some(i + 1),
            None => None,
        }
    }
}

/// A facade of `app` opens `ext`.
pub open spec fn opens(app: AppModel, ext: Seq<char>) -> bool {
    exists|i: int, j: int|
        0 <= i < app.facades.len() && 0 <= j < app.facades[i].files.len() && #[trigger] app.facades[i].files[j].ext
            == ext
}

/// A facade of `app` marks `ext` primary.
pub open spec fn marks_primary(app: AppModel, ext: Seq<char>) -> bool {
    exists|i: int, j: int|
        0 <= i < app.facades.len() && 0 <= j < app.facades[i].files.len() && #[trigger] app.facades[i].files[j].ext
            == ext && app.facades[i].files[j].primary
}

/// An app that may open `ext` for the user: live, among the candidates, and
/// with a facade that opens it.
pub open spec fn eligible(app: AppModel, ext: Seq<char>, candidates: Seq<Seq<char>>) -> bool {
    &&& app.status == "live"@
    &&& candidates.contains(app.code)
    &&& opens(app, ext)
}

/// The first index of `apps` at or after `from` meeting `p`.
pub open spec fn first_from(apps: Seq<AppModel>, from: int, p: spec_fn(AppModel) -> bool) -> Option<int>
    decreases apps.len() - from,
{
    if from >= apps.len() || from < 0 {
        None
    } else if p(apps[from]) {
        Some(from)
    } else {
        first_from(apps, from + 1, p)
    }
}

/// The app that opens `ext` among the candidates: the first eligible one
/// whose facade marks the extension primary, else the first eligible one.
pub open spec fn app_for_ext_index(apps: Seq<AppModel>, ext: Seq<char>, candidates: Seq<Seq<char>>) -> Option<int> {
    let e = ascii_lower(ext);
    match first_from(apps, 0, |a: AppModel| eligible(a, e, candidates) && marks_primary(a, e)) {
        Some(i) => Some(i),
        None => first_from(apps, 0, |a: AppModel| eligible(a, e, candidates)),
    }
}

/// Whether `app` opens `ext`, and whether one of its facades marks it primary.
fn opens_exec(app: &App, ext: &Vec<char>) -> (r: (bool, bool))
    ensures
        r.0 == opens(app@, ext@),
        r.1 == marks_primary(app@, ext@),
{
    let ghost m = app@;
    let mut any = false;
    let mut primary = false;
    let mut i: usize = 0;
    while i < app.facades.len()
        invariant
            i <= app.facades@.len(),
            m == app@,
            any == exists|a: int, b: int|
                0 <= a < i && 0 <= b < m.facades[a].files.len() && #[trigger] m.facades[a].files[b].ext == ext@,
            primary == exists|a: int, b: int|
                0 <= a < i && 0 <= b < m.facades[a].files.len() && #[trigger] m.facades[a].files[b].ext == ext@
                    && m.facades[a].files[b].primary,
        decreases app.facades@.len() - i,
    {
        let f = &app.facades[i];
        assert(m.facades[i as int] == f@);
        let mut j: usize = 0;
        let ghost any0 = any;
        let ghost primary0 = primary;
        while j < f.files.len()
            invariant
                j <= f.files@.len(),
                i < app.facades@.len(),
                m == app@,
                m.facades[i as int] == f@,
                any == (any0 || exists|b: int| 0 <= b < j && #[trigger] m.facades[i as int].files[b].ext == ext@),
                primary == (primary0 || exists|b: int|
                    0 <= b < j && #[trigger] m.facades[i as int].files[b].ext == ext@ && m.facades[i as int].files[b].primary),
            decreases f.files@.len() - j,
        {
            let t = &f.files[j];
            assert(m.facades[i as int].files[j as int] == t@);
            let e = chars_of(t.ext.as_str());
            if eq_chars(&e, ext) {
                assert(m.facades[i as int].files[j as int].ext == ext@);
                any = true;
                if t.primary {
                    primary = true;
                }
            } else {
                assert(m.facades[i as int].files[j as int].ext != ext@);
            }
            proof {
                assert forall|b: int| 0 <= b < j + 1 && #[trigger] m.facades[i as int].files[b].ext == ext@
                    implies (b < j || m.facades[i as int].files[j as int].ext == ext@) by {}
            }
            j = j + 1;
        }
        proof {
            if any {
                if !any0 {
                    let b = choose|b: int| 0 <= b < j && #[trigger] m.facades[i as int].files[b].ext == ext@;
                    assert(m.facades[i as int].files[b].ext == ext@);
                }
            }
            if primary {
                if !primary0 {
                    let b = choose|b: int|
                        0 <= b < j && #[trigger] m.facades[i as int].files[b].ext == ext@ && m.facades[i as int].files[b].primary;
                    assert(m.facades[i as int].files[b].ext == ext@);
                }
            }
            if !any {
                assert forall|a: int, b: int|
                    0 <= a < i + 1 && 0 <= b < m.facades[a].files.len() implies #[trigger] m.facades[a].files[b].ext != ext@ by {
                    if a == i {
                        assert(!(0 <= b < j && m.facades[i as int].files[b].ext == ext@));
                    }
                }
            }
            if !primary {
                assert forall|a: int, b: int|
                    0 <= a < i + 1 && 0 <= b < m.facades[a].files.len() && #[trigger] m.facades[a].files[b].ext == ext@
                    implies !m.facades[a].files[b].primary by {
                    if a == i {
                        assert(!(0 <= b < j && m.facades[i as int].files[b].ext == ext@ && m.facades[i as int].files[b].primary));
                    }
                }
            }
        }
        i = i + 1;
    }
    (any, primary)
}

fn contains_string(v: &[String], s: &String) -> (b: bool)
    ensures
        b == v.deep_view().contains(s@),
{
    let mut i: usize = 0;
    while i < v.len()
        invariant
            i <= v@.len(),
            forall|j: int| 0 <= j < i ==> v.deep_view()[j] != s@,
        decreases v@.len() - i,
    {
        assert(v.deep_view()[i as int] == v@[i as int]@);
        if v[i] == *s {
            return true;
        }
        i = i + 1;
    }
    proof {
        if v.deep_view().contains(s@) {
            let k = choose|k: int| 0 <= k < v.deep_view().len() && v.deep_view()[k] == s@;
            assert(v.deep_view()[k] != s@);
        }
    }
    false
}

impl Catalogue {
    /// The app of code `code`, if the catalogue has it.
    pub fn app(&self, code: &str) -> (r: Option<&App>)
        ensures
            match r {
                Some(a) => exists|i: int|
                    app_index(self@.apps, code@) == Some(i) && 0 <= i < self.apps@.len() && *a == self.apps@[i],
                None => app_index(self@.apps, code@) is None,
            },
    {
        let ghost apps = self@.apps;
        let k = code.to_owned();
        let mut i: usize = 0;
        assert(apps.skip(0) =~= apps);
        while i < self.apps.len()
            invariant
                i <= self.apps@.len(),
                apps == self@.apps,
                k@ == code@,
                app_index(apps, code@) == match app_index(apps.skip(i as int), code@) {
                    Some(j) => Some(j + i),
                    None => None::<int>,
                },
            decreases self.apps@.len() - i,
        {
            let ghost rest = apps.skip(i as int);
            assert(rest[0] == self.apps@[i as int]@);
            assert(rest.drop_first() =~= apps.skip(i + 1));
            if self.apps[i].code == k {
                return Some(&self.apps[i]);
            }
            i = i + 1;
        }
        None
    }

    /// The app that opens `ext` among `candidates` (the apps the user
    /// associated): the one whose facade marks it primary, else the first.
    pub fn app_for_ext<'a>(&'a self, ext: &str, candidates: &[String]) -> (r: Option<&'a App>)
        ensures
            match r {
                Some(a) => exists|i: int|
                    app_for_ext_index(self@.apps, ext@, candidates.deep_view()) == Some(i) && 0 <= i
                        < self.apps@.len() && *a == self.apps@[i],
                None => app_for_ext_index(self@.apps, ext@, candidates.deep_view()) is None,
            },
    {
        let ghost apps = self@.apps;
        let ghost cands = candidates.deep_view();
        let e = ascii_lower_chars(&chars_of(ext));
        let live = "live".to_owned();
        let ghost pp = |a: AppModel| eligible(a, e@, cands) && marks_primary(a, e@);
        let ghost pe = |a: AppModel| eligible(a, e@, cands);
        let mut first: Option<usize> = None;
        let mut i: usize = 0;
        while i < self.apps.len()
            invariant
                i <= self.apps@.len(),
                apps == self@.apps,
                cands == candidates.deep_view(),
                e@ == ascii_lower(ext@),
                live@ == "live"@,
                pp == (|a: AppModel| eligible(a, e@, cands) && marks_primary(a, e@)),
                pe == (|a: AppModel| eligible(a, e@, cands)),
                first_from(apps, 0, pp) == first_from(apps, i as int, pp),
                match first {
                    Some(f) => f < i && first_from(apps, 0, pe) == Some(f as int),
                    None => first_from(apps, 0, pe) == first_from(apps, i as int, pe),
                },
            decreases self.apps@.len() - i,
        {
            let a = &self.apps[i];
            assert(apps[i as int] == a@);
            let ok = a.status == live && contains_string(candidates, &a.code);
            let (any, primary) = opens_exec(a, &e);
            assert(pe(apps[i as int]) == (ok && any));
            assert(pp(apps[i as int]) == (ok && any && primary));
            if ok && any && primary {
                return Some(a);
            }
            if ok && any && first.is_none() {
                first = Some(i);
            }
            i = i + 1;
        }
        match first {
            Some(f) => Some(&self.apps[f]),
            None => None,
        }
    }
}

/* ------------------------------------------------------------- an app's data */

/// Every extension the facades open, once, in declaration order: the
/// extensions of `files`, after those already in `seen`.
pub open spec fn add_exts(seen: Seq<Seq<char>>, files: Seq<TileFileModel>) -> Seq<Seq<char>>
    decreases files.len(),
{
    if files.len() == 0 {
        seen
    } else {
        let before = add_exts(seen, files.drop_last());
        if before.contains(files.last().ext) {
            before
        } else {
            before.push(files.last().ext)
        }
    }
}

/// The extensions of the facades, each once, in declaration order.
pub open spec fn facade_exts(facades: Seq<FacadeModel>) -> Seq<Seq<char>>
    decreases facades.len(),
{
    if facades.len() == 0 {
        seq![]
    } else {
        add_exts(facade_exts(facades.drop_last()), facades.last().files)
    }
}

/// An extension among `files`.
pub open spec fn in_files(files: Seq<TileFileModel>, e: Seq<char>) -> bool {
    exists|j: int| 0 <= j < files.len() && (#[trigger] files[j]).ext == e
}

/// An extension some facade of `facades` opens.
pub open spec fn in_facades(facades: Seq<FacadeModel>, e: Seq<char>) -> bool {
    exists|i: int| 0 <= i < facades.len() && in_files(#[trigger] facades[i].files, e)
}

/// No extension twice.
pub open spec fn distinct(s: Seq<Seq<char>>) -> bool {
    forall|i: int, j: int| 0 <= i < j < s.len() ==> #[trigger] s[i] != #[trigger] s[j]
}

proof fn lemma_add_exts(seen: Seq<Seq<char>>, files: Seq<TileFileModel>)
    requires
        distinct(seen),
    ensures
        distinct(add_exts(seen, files)),
        forall|e: Seq<char>| #[trigger] add_exts(seen, files).contains(e) <==> (seen.contains(e) || in_files(files, e)),
        add_exts(seen, files).take(seen.len() as int) == seen,
        seen.len() <= add_exts(seen, files).len(),
    decreases files.len(),
{
    if files.len() > 0 {
        let d = files.drop_last();
        lemma_add_exts(seen, d);
        let before = add_exts(seen, d);
        let x = files.last().ext;
        assert forall|e: Seq<char>| in_files(d, e) implies in_files(files, e) by {
            let j = choose|j: int| 0 <= j < d.len() && (#[trigger] d[j]).ext == e;
            assert(files[j] == d[j]);
        }
        assert(files[files.len() - 1].ext == x);
        assert forall|e: Seq<char>| in_files(files, e) implies (in_files(d, e) || e == x) by {
            let j = choose|j: int| 0 <= j < files.len() && (#[trigger] files[j]).ext == e;
            if j < d.len() {
                assert(d[j] == files[j]);
            }
        }
        if !before.contains(x) {
            let after = before.push(x);
            assert forall|i: int, j: int| 0 <= i < j < after.len() implies #[trigger] after[i] != #[trigger] after[j] by {
                if j == before.len() {
                    assert(after[i] == before[i]);
                    assert(before.contains(before[i]));
                } else {
                    assert(after[i] == before[i] && after[j] == before[j]);
                }
            }
            assert forall|e: Seq<char>| #[trigger] after.contains(e) <==> (seen.contains(e) || in_files(files, e)) by {
                if after.contains(e) {
                    let k = choose|k: int| 0 <= k < after.len() && after[k] == e;
                    if k < before.len() {
                        assert(before[k] == e);
                        assert(before.contains(e));
                    }
                }
                if before.contains(e) {
                    let k = choose|k: int| 0 <= k < before.len() && before[k] == e;
                    assert(after[k] == e);
                }
                if e == x {
                    assert(after[before.len() as int] == e);
                }
            }
            assert(after.take(seen.len() as int) =~= before.take(seen.len() as int));
        }
    }
}

/// The extensions an app opens (`App::extensions`): each once, and every
/// extension one of its facades opens, and no other; each comes where a
/// facade declares it first.
pub proof fn law_extensions(facades: Seq<FacadeModel>)
    ensures
        distinct(facade_exts(facades)),
        forall|e: Seq<char>| #[trigger] facade_exts(facades).contains(e) <==> in_facades(facades, e),
        forall|k: int|
            0 <= k <= facades.len() ==> facade_exts(facades.take(k)).len() <= facade_exts(facades).len()
                && facade_exts(facades.take(k)) == facade_exts(facades).take(
                facade_exts(facades.take(k)).len() as int,
            ),
    decreases facades.len(),
{
    if facades.len() == 0 {
        assert forall|e: Seq<char>| !in_facades(facades, e) by {}
        assert(facades.take(0) =~= facades);
    } else {
        let d = facades.drop_last();
        law_extensions(d);
        let before = facade_exts(d);
        let last = facades.last();
        lemma_add_exts(before, last.files);
        let all = facade_exts(facades);
        assert forall|e: Seq<char>| #[trigger] all.contains(e) <==> in_facades(facades, e) by {
            if in_facades(d, e) {
                let i = choose|i: int| 0 <= i < d.len() && in_files(#[trigger] d[i].files, e);
                assert(facades[i] == d[i]);
            }
            if in_files(last.files, e) {
                assert(facades[facades.len() - 1] == last);
            }
            if in_facades(facades, e) {
                let i = choose|i: int| 0 <= i < facades.len() && in_files(#[trigger] facades[i].files, e);
                if i < d.len() {
                    assert(d[i] == facades[i]);
                    assert(in_facades(d, e));
                }
            }
        }
        assert forall|k: int| 0 <= k <= facades.len() implies facade_exts(facades.take(k)).len() <= all.len()
            && facade_exts(facades.take(k)) == all.take(facade_exts(facades.take(k)).len() as int) by {
            if k == facades.len() {
                assert(facades.take(k) =~= facades);
                assert(all.take(all.len() as int) =~= all);
            } else {
                assert(facades.take(k) =~= d.take(k));
                let fk = facade_exts(d.take(k));
                assert(fk == before.take(fk.len() as int));
                assert(before == all.take(before.len() as int));
                assert(fk.len() <= before.len());
                assert(all.take(before.len() as int).take(fk.len() as int) =~= all.take(fk.len() as int));
            }
        }
    }
}

/// What `first_from` finds: the first index from `from` meeting `p`.
proof fn lemma_first_from(apps: Seq<AppModel>, from: int, p: spec_fn(AppModel) -> bool)
    requires
        0 <= from,
    ensures
        match first_from(apps, from, p) {
            Some(i) => from <= i < apps.len() && p(apps[i]) && forall|j: int| from <= j < i ==> !p(#[trigger] apps[j]),
            None => forall|j: int| from <= j < apps.len() ==> !p(#[trigger] apps[j]),
        },
    decreases apps.len() - from,
{
    if from < apps.len() && !p(apps[from]) {
        lemma_first_from(apps, from + 1, p);
    }
}

/// The app a file goes to is one that may open it: live, among the
/// candidates, with a facade opening its extension (compared in lower
/// case); there is one exactly when some app may; and it is one that marks
/// the extension primary whenever such an app exists.
pub proof fn law_app_for_ext(apps: Seq<AppModel>, ext: Seq<char>, candidates: Seq<Seq<char>>)
    ensures
        ({
            let e = ascii_lower(ext);
            &&& app_for_ext_index(apps, ext, candidates) matches Some(i) ==> 0 <= i < apps.len() && eligible(
                apps[i],
                e,
                candidates,
            )
            &&& app_for_ext_index(apps, ext, candidates) is None <==> forall|j: int|
                0 <= j < apps.len() ==> !eligible(#[trigger] apps[j], e, candidates)
            &&& (exists|j: int| 0 <= j < apps.len() && eligible(apps[j], e, candidates) && marks_primary(apps[j], e))
                ==> (app_for_ext_index(apps, ext, candidates) matches Some(i) && marks_primary(apps[i], e))
        }),
{
    let e = ascii_lower(ext);
    let pp = |a: AppModel| eligible(a, e, candidates) && marks_primary(a, e);
    let pe = |a: AppModel| eligible(a, e, candidates);
    lemma_first_from(apps, 0, pp);
    lemma_first_from(apps, 0, pe);
    if exists|j: int| 0 <= j < apps.len() && eligible(apps[j], e, candidates) && marks_primary(apps[j], e) {
        let j = choose|j: int| 0 <= j < apps.len() && eligible(apps[j], e, candidates) && marks_primary(apps[j], e);
        assert(pp(apps[j]));
    }
    if first_from(apps, 0, pp) is None && first_from(apps, 0, pe) is Some {
        let i = first_from(apps, 0, pe).unwrap();
        assert(pe(apps[i]));
    }
    if exists|j: int| 0 <= j < apps.len() && eligible(apps[j], e, candidates) {
        let j = choose|j: int| 0 <= j < apps.len() && eligible(apps[j], e, candidates);
        assert(pe(apps[j]));
    }
}

/// The name `names` gives a language, if any (the first pair for it).
pub open spec fn name_in(names: Seq<(Seq<char>, Seq<char>)>, lang: Seq<char>) -> Option<Seq<char>>
    decreases names.len(),
{
    if names.len() == 0 {
        None
    } else if names[0].0 == lang {
        Some(names[0].1)
    } else {
        name_in(names.drop_first(), lang)
    }
}

/// A name in `lang`, else in English, else `fallback`.
pub open spec fn localized(names: Seq<(Seq<char>, Seq<char>)>, lang: Seq<char>, fallback: Seq<char>) -> Seq<char> {
    match name_in(names, lang) {
        Some(n) => n,
        None => match name_in(names, "en"@) {
            Some(n) => n,
            None => fallback,
        },
    }
}

/// The name `names` gives `lang`, if any.
pub fn name_of(names: &Vec<(String, String)>, lang: &str) -> (r: Option<String>)
    ensures
        match r {
            Some(n) => name_in(names.deep_view(), lang@) == Some(n@),
            None => name_in(names.deep_view(), lang@) is None,
        },
{
    let ghost nv = names.deep_view();
    let k = lang.to_owned();
    let mut i: usize = 0;
    assert(nv.skip(0) =~= nv);
    while i < names.len()
        invariant
            i <= names@.len(),
            nv == names.deep_view(),
            k@ == lang@,
            name_in(nv, lang@) == name_in(nv.skip(i as int), lang@),
        decreases names@.len() - i,
    {
        let ghost rest = nv.skip(i as int);
        assert(rest[0] == (names@[i as int].0@, names@[i as int].1@));
        assert(rest.drop_first() =~= nv.skip(i + 1));
        if names[i].0 == k {
            return Some(names[i].1.clone());
        }
        i = i + 1;
    }
    None
}

/// A name in `lang`, else in English, else `fallback`.
pub fn localized_name(names: &Vec<(String, String)>, lang: &str, fallback: &String) -> (r: String)
    ensures
        r@ == localized(names.deep_view(), lang@, fallback@),
{
    match name_of(names, lang) {
        Some(n) => n,
        None => match name_of(names, "en") {
            Some(n) => n,
            None => fallback.clone(),
        },
    }
}

impl App {
    /// Every extension the app's facades open, once, in declaration order.
    pub fn extensions(&self) -> (r: Vec<String>)
        ensures
            r.deep_view() == facade_exts(self@.facades),
    {
        let ghost fs = self@.facades;
        let mut out: Vec<String> = Vec::new();
        let mut i: usize = 0;
        assert(fs.take(0) =~= Seq::<FacadeModel>::empty());
        while i < self.facades.len()
            invariant
                i <= self.facades@.len(),
                fs == self@.facades,
                out.deep_view() == facade_exts(fs.take(i as int)),
            decreases self.facades@.len() - i,
        {
            assert(fs.take(i + 1).drop_last() =~= fs.take(i as int));
            let f = &self.facades[i];
            assert(fs.take(i + 1).last() == f@);
            let ghost files = f@.files;
            let ghost start = out.deep_view();
            let mut j: usize = 0;
            assert(files.take(0) =~= Seq::<TileFileModel>::empty());
            while j < f.files.len()
                invariant
                    j <= f.files@.len(),
                    files == f@.files,
                    out.deep_view() == add_exts(start, files.take(j as int)),
                decreases f.files@.len() - j,
            {
                assert(files.take(j + 1).drop_last() =~= files.take(j as int));
                let t = &f.files[j];
                assert(files.take(j + 1).last() == t@);
                let ghost ov = out.deep_view();
                if !contains_string(&out, &t.ext) {
                    out.push(t.ext.clone());
                    assert(out.deep_view() =~= ov.push(t.ext@));
                }
                j = j + 1;
            }
            assert(files.take(j as int) =~= files);
            i = i + 1;
        }
        assert(fs.take(i as int) =~= fs);
        out
    }

    /// The app's name in `lang`, else in English, else its code.
    pub fn name(&self, lang: &str) -> (r: String)
        ensures
            r@ == localized(self@.names, lang@, self@.code),
    {
        localized_name(&self.names, lang, &self.code)
    }
}

/* ------------------------------------------------------------------ copies */

fn copy_opt_string(o: &Option<String>) -> (r: Option<String>)
    ensures
        r == *o,
{
    match o {
        Some(s) => Some(s.clone()),
        None => None,
    }
}

fn copy_pairs(v: &Vec<(String, String)>) -> (r: Vec<(String, String)>)
    ensures
        r.deep_view() == v.deep_view(),
{
    let mut out: Vec<(String, String)> = Vec::new();
    let mut i: usize = 0;
    while i < v.len()
        invariant
            i <= v@.len(),
            out.deep_view() == v.deep_view().take(i as int),
        decreases v@.len() - i,
    {
        let ghost ov = out.deep_view();
        out.push((v[i].0.clone(), v[i].1.clone()));
        assert(out.deep_view() =~= ov.push(v.deep_view()[i as int]));
        assert(v.deep_view().take(i + 1) =~= v.deep_view().take(i as int).push(v.deep_view()[i as int]));
        i = i + 1;
    }
    assert(v.deep_view().take(i as int) =~= v.deep_view());
    out
}

impl Clone for TileFile {
    fn clone(&self) -> (r: Self)
        ensures
            r@ == self@,
    {
        TileFile { ext: self.ext.clone(), mime: copy_opt_string(&self.mime), primary: self.primary }
    }
}

impl Clone for Facade {
    fn clone(&self) -> (r: Self)
        ensures
            r@ == self@,
    {
        let mut files: Vec<TileFile> = Vec::new();
        let mut i: usize = 0;
        while i < self.files.len()
            invariant
                i <= self.files@.len(),
                files@.map_values(|t: TileFile| t@) == self.files@.map_values(|t: TileFile| t@).take(i as int),
            decreases self.files@.len() - i,
        {
            let ghost fv = files@.map_values(|t: TileFile| t@);
            let t = self.files[i].clone();
            files.push(t);
            assert(files@.map_values(|t: TileFile| t@) =~= fv.push(self.files@[i as int]@));
            assert(self.files@.map_values(|t: TileFile| t@).take(i + 1) =~= self.files@.map_values(
                |t: TileFile| t@,
            ).take(i as int).push(self.files@[i as int]@));
            i = i + 1;
        }
        assert(self.files@.map_values(|t: TileFile| t@).take(i as int) =~= self.files@.map_values(
            |t: TileFile| t@,
        ));
        Facade {
            path: self.path.clone(),
            names: copy_pairs(&self.names),
            files,
            listed: self.listed,
        }
    }
}

impl Clone for App {
    fn clone(&self) -> (r: Self)
        ensures
            r@ == self@,
    {
        let mut facades: Vec<Facade> = Vec::new();
        let mut i: usize = 0;
        while i < self.facades.len()
            invariant
                i <= self.facades@.len(),
                facades@.map_values(|f: Facade| f@) == self.facades@.map_values(|f: Facade| f@).take(i as int),
            decreases self.facades@.len() - i,
        {
            let ghost fv = facades@.map_values(|f: Facade| f@);
            let f = self.facades[i].clone();
            facades.push(f);
            assert(facades@.map_values(|f: Facade| f@) =~= fv.push(self.facades@[i as int]@));
            assert(self.facades@.map_values(|f: Facade| f@).take(i + 1) =~= self.facades@.map_values(
                |f: Facade| f@,
            ).take(i as int).push(self.facades@[i as int]@));
            i = i + 1;
        }
        assert(self.facades@.map_values(|f: Facade| f@).take(i as int) =~= self.facades@.map_values(
            |f: Facade| f@,
        ));
        App {
            code: self.code.clone(),
            url: self.url.clone(),
            names: copy_pairs(&self.names),
            status: self.status.clone(),
            facades,
        }
    }
}

impl Clone for Catalogue {
    fn clone(&self) -> (r: Self)
        ensures
            r@ == self@,
    {
        let mut apps: Vec<App> = Vec::new();
        let mut i: usize = 0;
        while i < self.apps.len()
            invariant
                i <= self.apps@.len(),
                apps@.map_values(|a: App| a@) == self.apps@.map_values(|a: App| a@).take(i as int),
            decreases self.apps@.len() - i,
        {
            let ghost av = apps@.map_values(|a: App| a@);
            let a = self.apps[i].clone();
            apps.push(a);
            assert(apps@.map_values(|a: App| a@) =~= av.push(self.apps@[i as int]@));
            assert(self.apps@.map_values(|a: App| a@).take(i + 1) =~= self.apps@.map_values(|a: App| a@).take(
                i as int,
            ).push(self.apps@[i as int]@));
            i = i + 1;
        }
        assert(self.apps@.map_values(|a: App| a@).take(i as int) =~= self.apps@.map_values(|a: App| a@));
        Catalogue { v: self.v, generated_at: self.generated_at.clone(), apps }
    }
}

/* ------------------------------------------------------------ same content */

/// Two name maps hold the same pairs.
pub open spec fn same_names(a: Seq<(Seq<char>, Seq<char>)>, b: Seq<(Seq<char>, Seq<char>)>) -> bool {
    &&& a.len() == b.len()
    &&& forall|i: int| 0 <= i < a.len() ==> b.contains(#[trigger] a[i])
    &&& forall|i: int| 0 <= i < b.len() ==> a.contains(#[trigger] b[i])
}

/// Two facades alike in every field (names compared as maps).
pub open spec fn same_facade(a: FacadeModel, b: FacadeModel) -> bool {
    &&& a.path == b.path
    &&& same_names(a.names, b.names)
    &&& a.files == b.files
    &&& a.listed == b.listed
}

/// Two apps alike in every field (names compared as maps).
pub open spec fn same_app(a: AppModel, b: AppModel) -> bool {
    &&& a.code == b.code
    &&& a.url == b.url
    &&& same_names(a.names, b.names)
    &&& a.status == b.status
    &&& a.facades.len() == b.facades.len()
    &&& forall|i: int| 0 <= i < a.facades.len() ==> same_facade(#[trigger] a.facades[i], b.facades[i])
}

/// Two catalogues with the same content: the generation date alone is not a change.
pub open spec fn same_content(a: CatalogueModel, b: CatalogueModel) -> bool {
    &&& a.v == b.v
    &&& a.apps.len() == b.apps.len()
    &&& forall|i: int| 0 <= i < a.apps.len() ==> same_app(#[trigger] a.apps[i], b.apps[i])
}

/// Only the order of names is no change: two catalogues of the same content
/// have the same version and, app by app, the same code, address and
/// status, the same facades (path, files, listing) and the same names, each
/// name of one being a name of the other. So a catalogue that moves an app
/// to another address is new content.
pub proof fn law_same_content_fields(a: CatalogueModel, b: CatalogueModel)
    requires
        same_content(a, b),
    ensures
        a.v == b.v,
        a.apps.len() == b.apps.len(),
        forall|i: int|
            0 <= i < a.apps.len() ==> {
                let x = #[trigger] a.apps[i];
                let y = b.apps[i];
                &&& x.code == y.code
                &&& x.url == y.url
                &&& x.status == y.status
                &&& x.names.len() == y.names.len()
                &&& (forall|k: int| 0 <= k < x.names.len() ==> y.names.contains(#[trigger] x.names[k]))
                &&& (forall|k: int| 0 <= k < y.names.len() ==> x.names.contains(#[trigger] y.names[k]))
                &&& x.facades.len() == y.facades.len()
                &&& forall|j: int|
                    0 <= j < x.facades.len() ==> (#[trigger] x.facades[j]).path == y.facades[j].path
                        && x.facades[j].files == y.facades[j].files && x.facades[j].listed == y.facades[j].listed
            },
{
    assert forall|i: int| 0 <= i < a.apps.len() implies same_app(#[trigger] a.apps[i], b.apps[i]) by {}
    assert forall|i: int, j: int| 0 <= i < a.apps.len() && 0 <= j < a.apps[i].facades.len() implies same_facade(
        #[trigger] a.apps[i].facades[j],
        b.apps[i].facades[j],
    ) by {
        assert(same_app(a.apps[i], b.apps[i]));
    }
}

/// The generation date alone is not a change: two catalogues of the same
/// version and apps have the same content, whatever their dates.
pub proof fn law_date_is_no_change(a: CatalogueModel, b: CatalogueModel)
    requires
        a.v == b.v,
        a.apps == b.apps,
    ensures
        same_content(a, b),
{
    assert forall|i: int| 0 <= i < a.apps.len() implies same_app(#[trigger] a.apps[i], b.apps[i]) by {
        let x = a.apps[i];
        assert forall|k: int| 0 <= k < x.names.len() implies x.names.contains(#[trigger] x.names[k]) by {}
        assert forall|j: int| 0 <= j < x.facades.len() implies same_facade(#[trigger] x.facades[j], x.facades[j]) by {
            let f = x.facades[j];
            assert forall|k: int| 0 <= k < f.names.len() implies f.names.contains(#[trigger] f.names[k]) by {}
        }
    }
}

fn pair_in(p: &(String, String), v: &Vec<(String, String)>) -> (b: bool)
    ensures
        b == v.deep_view().contains((p.0@, p.1@)),
{
    let mut i: usize = 0;
    while i < v.len()
        invariant
            i <= v@.len(),
            forall|j: int| 0 <= j < i ==> v.deep_view()[j] != (p.0@, p.1@),
        decreases v@.len() - i,
    {
        assert(v.deep_view()[i as int] == (v@[i as int].0@, v@[i as int].1@));
        if v[i].0 == p.0 && v[i].1 == p.1 {
            return true;
        }
        i = i + 1;
    }
    proof {
        if v.deep_view().contains((p.0@, p.1@)) {
            let k = choose|k: int| 0 <= k < v.deep_view().len() && v.deep_view()[k] == (p.0@, p.1@);
            assert(v.deep_view()[k] != (p.0@, p.1@));
        }
    }
    false
}

fn all_in(a: &Vec<(String, String)>, b: &Vec<(String, String)>) -> (r: bool)
    ensures
        r == forall|i: int| 0 <= i < a.deep_view().len() ==> b.deep_view().contains(#[trigger] a.deep_view()[i]),
{
    let mut i: usize = 0;
    while i < a.len()
        invariant
            i <= a@.len(),
            forall|j: int| 0 <= j < i ==> b.deep_view().contains(#[trigger] a.deep_view()[j]),
        decreases a@.len() - i,
    {
        assert(a.deep_view()[i as int] == (a@[i as int].0@, a@[i as int].1@));
        if !pair_in(&a[i], b) {
            return false;
        }
        i = i + 1;
    }
    true
}

fn same_names_exec(a: &Vec<(String, String)>, b: &Vec<(String, String)>) -> (r: bool)
    ensures
        r == same_names(a.deep_view(), b.deep_view()),
{
    a.len() == b.len() && all_in(a, b) && all_in(b, a)
}

fn same_opt_string(a: &Option<String>, b: &Option<String>) -> (r: bool)
    ensures
        r == ((match a {
            Some(s) => Some(s@),
            None => None::<Seq<char>>,
        }) == (match b {
            Some(s) => Some(s@),
            None => None::<Seq<char>>,
        })),
{
    match (a, b) {
        (Some(x), Some(y)) => *x == *y,
        (None, None) => true,
        _ => false,
    }
}

fn same_files(a: &Vec<TileFile>, b: &Vec<TileFile>) -> (r: bool)
    ensures
        r == (a@.map_values(|t: TileFile| t@) == b@.map_values(|t: TileFile| t@)),
{
    let ghost av = a@.map_values(|t: TileFile| t@);
    let ghost bv = b@.map_values(|t: TileFile| t@);
    if a.len() != b.len() {
        assert(av.len() != bv.len());
        return false;
    }
    let mut i: usize = 0;
    while i < a.len()
        invariant
            i <= a@.len() == b@.len(),
            av == a@.map_values(|t: TileFile| t@),
            bv == b@.map_values(|t: TileFile| t@),
            forall|j: int| 0 <= j < i ==> av[j] == bv[j],
        decreases a@.len() - i,
    {
        let x = &a[i];
        let y = &b[i];
        if !(x.ext == y.ext && same_opt_string(&x.mime, &y.mime) && x.primary == y.primary) {
            assert(av[i as int] != bv[i as int]);
            return false;
        }
        assert(av[i as int] == bv[i as int]);
        i = i + 1;
    }
    assert(av =~= bv);
    true
}

impl Facade {
    /// Alike in every field, names compared as maps.
    pub fn same(&self, other: &Facade) -> (r: bool)
        ensures
            r == same_facade(self@, other@),
    {
        self.path == other.path && same_names_exec(&self.names, &other.names) && same_files(&self.files, &other.files)
            && self.listed == other.listed
    }
}

impl App {
    /// Alike in every field, names compared as maps (`==` on apps).
    pub fn same(&self, other: &App) -> (r: bool)
        ensures
            r == same_app(self@, other@),
    {
        if !(self.code == other.code && self.url == other.url && same_names_exec(&self.names, &other.names)
            && self.status == other.status && self.facades.len() == other.facades.len()) {
            return false;
        }
        let ghost a = self@;
        let ghost b = other@;
        let mut i: usize = 0;
        while i < self.facades.len()
            invariant
                i <= self.facades@.len() == other.facades@.len(),
                a == self@,
                b == other@,
                forall|j: int| 0 <= j < i ==> same_facade(#[trigger] a.facades[j], b.facades[j]),
            decreases self.facades@.len() - i,
        {
            assert(a.facades[i as int] == self.facades@[i as int]@);
            assert(b.facades[i as int] == other.facades@[i as int]@);
            if !self.facades[i].same(&other.facades[i]) {
                return false;
            }
            i = i + 1;
        }
        true
    }
}

impl Catalogue {
    /// Same content: the generation date alone is not a change (`==` on catalogues).
    pub fn same(&self, other: &Catalogue) -> (r: bool)
        ensures
            r == same_content(self@, other@),
    {
        if !(self.v == other.v && self.apps.len() == other.apps.len()) {
            return false;
        }
        let ghost a = self@;
        let ghost b = other@;
        let mut i: usize = 0;
        while i < self.apps.len()
            invariant
                i <= self.apps@.len() == other.apps@.len(),
                a == self@,
                b == other@,
                forall|j: int| 0 <= j < i ==> same_app(#[trigger] a.apps[j], b.apps[j]),
            decreases self.apps@.len() - i,
        {
            assert(a.apps[i as int] == self.apps@[i as int]@);
            assert(b.apps[i as int] == other.apps@[i as int]@);
            if !self.apps[i].same(&other.apps[i]) {
                return false;
            }
            i = i + 1;
        }
        true
    }
}

/* ------------------------------------------------------------- online copy */

/// The platform's public catalogue (overridable in the settings, `catalogueUrl`).
pub const DEFAULT_URL: &'static str = "https://api.kynoko.com/api/public/launcher-catalogue/";

/// A successful check holds for this long (seconds).
pub const PERIOD_SECS: u64 = 43200;

/// After a failure: 5 min, 15 min, 45 min... capped by the period.
pub const RETRY_SECS: u64 = 300;

/// What is kept between runs: the last good catalogue, its ETag, and when
/// it was checked.
#[derive(Debug)]
pub struct Cache {
    pub etag: Option<String>,
    /// Last attempt (success or not), Unix seconds.
    pub checked_at: u64,
    /// Last success (200 or 304), Unix seconds.
    pub success_at: Option<u64>,
    /// Failures in a row since the last success.
    pub failures: u32,
    pub last_error: Option<String>,
    pub catalogue: Option<Catalogue>,
}

impl Default for Cache {
    fn default() -> (r: Cache)
        ensures
            r.etag is None,
            r.checked_at == 0,
            r.success_at is None,
            r.failures == 0,
            r.last_error is None,
            r.catalogue is None,
    {
        Cache { etag: None, checked_at: 0, success_at: None, failures: 0, last_error: None, catalogue: None }
    }
}

/// The outcome of one conditional request for the catalogue.
pub enum Outcome {
    /// `304 Not Modified`.
    NotModified,
    /// A catalogue read from the answer, with the answer's ETag.
    Fetched(Catalogue, Option<String>),
    /// The request failed, or its answer could not be read.
    Failed(String),
}

/// What a check changed.
pub enum Refresh {
    Updated(Catalogue),
    Unchanged,
    Failed(String),
}

/// How long to wait after `failures` failures in a row (none: the period):
/// 5 minutes, tripled at each failure, capped by the period.
pub open spec fn wait_after(failures: nat) -> int {
    if failures == 0 {
        PERIOD_SECS as int
    } else {
        let w = RETRY_SECS * pow(3, (failures - 1) as nat);
        if w < PERIOD_SECS {
            w
        } else {
            PERIOD_SECS as int
        }
    }
}

/// The schedule of checks: 12 hours after a success; after failures, 5
/// minutes, then three times longer after each new failure, never more
/// than 12 hours.
pub proof fn law_schedule(failures: nat)
    ensures
        wait_after(0) == PERIOD_SECS,
        failures >= 1 ==> RETRY_SECS <= wait_after(failures) <= wait_after(failures + 1) <= PERIOD_SECS,
        wait_after(1) == RETRY_SECS,
{
    vstd::arithmetic::power::lemma_pow0(3);
    if failures >= 1 {
        let k = (failures - 1) as nat;
        lemma_pow_positive(3, k);
        lemma_pow_increases(3, k, k + 1);
        assert(pow(3, k) >= 1);
        assert(RETRY_SECS * pow(3, k) >= RETRY_SECS) by (nonlinear_arith)
            requires
                pow(3, k) >= 1,
        ;
        assert(RETRY_SECS * pow(3, k + 1) >= RETRY_SECS * pow(3, k)) by (nonlinear_arith)
            requires
                pow(3, k + 1) >= pow(3, k),
        ;
        assert((failures + 1 - 1) as nat == k + 1);
    }
}

/// The message of a catalogue of a version this launcher does not read.
pub open spec fn unknown_version_message() -> Seq<char> {
    "unknown catalogue version"@
}

impl Cache {
    /// When the next check is due (Unix seconds).
    pub fn due_at(&self) -> (r: u64)
        requires
            self.checked_at + PERIOD_SECS <= u64::MAX,
        ensures
            r == self.checked_at + wait_after(self.failures as nat),
    {
        let wait = if self.failures == 0 {
            PERIOD_SECS
        } else {
            let mut w: u64 = RETRY_SECS;
            let mut k: u32 = 1;
            proof {
                vstd::arithmetic::power::lemma_pow0(3);
            }
            while k < self.failures && w < PERIOD_SECS
                invariant
                    1 <= k <= self.failures,
                    w == (if RETRY_SECS * pow(3, (k - 1) as nat) < PERIOD_SECS {
                        RETRY_SECS * pow(3, (k - 1) as nat)
                    } else {
                        PERIOD_SECS as int
                    }),
                decreases self.failures - k,
            {
                proof {
                    reveal(pow);
                    let p0 = pow(3, (k - 1) as nat);
                    let p1 = pow(3, k as nat);
                    assert(p1 == 3 * p0);
                    lemma_pow_positive(3, (k - 1) as nat);
                    assert(RETRY_SECS * p1 == 3 * (RETRY_SECS * p0)) by (nonlinear_arith)
                        requires
                            p1 == 3 * p0,
                    ;
                }
                w = if w * 3 < PERIOD_SECS {
                    w * 3
                } else {
                    PERIOD_SECS
                };
                k = k + 1;
            }
            proof {
                if k < self.failures {
                    lemma_pow_increases(3, (k - 1) as nat, (self.failures - 1) as nat);
                }
            }
            w
        };
        self.checked_at + wait
    }

    /// The catalogue to use: the last good online copy (of a version this
    /// launcher reads), else the bundled one.
    pub fn catalogue<'a>(&'a self, bundled: &'a Catalogue) -> (r: &'a Catalogue)
        ensures
            *r == match self.catalogue {
                Some(c) => if c.v == 1 {
                    c
                } else {
                    *bundled
                },
                None => *bundled,
            },
    {
        match &self.catalogue {
            Some(c) => if c.v == 1 {
                c
            } else {
                bundled
            },
            None => bundled,
        }
    }

    /// The ETag to send as `If-None-Match`: only when a catalogue is kept,
    /// which a `304` would stand for.
    pub fn conditional_etag(&self) -> (r: Option<String>)
        ensures
            r == match (self.etag, self.catalogue) {
                (Some(e), Some(_)) => Some(e),
                _ => None::<String>,
            },
    {
        match (&self.etag, &self.catalogue) {
            (Some(e), Some(_)) => Some(e.clone()),
            _ => None,
        }
    }

    fn failed(&mut self, message: String) -> (r: Refresh)
        ensures
            final(self).failures == if old(self).failures == u32::MAX {
                u32::MAX
            } else {
                (old(self).failures + 1) as u32
            },
            final(self).last_error == Some(message),
            final(self).etag == old(self).etag,
            final(self).checked_at == old(self).checked_at,
            final(self).success_at == old(self).success_at,
            final(self).catalogue == old(self).catalogue,
            r == Refresh::Failed(message),
    {
        self.failures = if self.failures == u32::MAX {
            u32::MAX
        } else {
            self.failures + 1
        };
        self.last_error = Some(message.clone());
        Refresh::Failed(message)
    }

    /// Records the outcome of the check made at `now`, and says what it
    /// changed: a success (a `304`, or a catalogue of version 1) clears the
    /// failures and keeps the ETag and, when its content is new, the
    /// catalogue; a failure (or a catalogue of another version) counts one
    /// more failure and keeps its message.
    pub fn record(&mut self, now: u64, outcome: Outcome) -> (r: Refresh)
        ensures
            final(self).checked_at == now,
            match outcome {
                Outcome::NotModified => {
                    &&& r is Unchanged
                    &&& final(self).failures == 0
                    &&& final(self).last_error is None
                    &&& final(self).success_at == Some(now)
                    &&& final(self).etag == old(self).etag
                    &&& final(self).catalogue == old(self).catalogue
                },
                Outcome::Fetched(c, etag) => if c.v != 1 {
                    &&& r matches Refresh::Failed(m) && m@ == unknown_version_message()
                    &&& final(self).last_error == Some(r->Failed_0)
                    &&& final(self).failures == if old(self).failures == u32::MAX {
                        u32::MAX
                    } else {
                        (old(self).failures + 1) as u32
                    }
                    &&& final(self).success_at == old(self).success_at
                    &&& final(self).etag == old(self).etag
                    &&& final(self).catalogue == old(self).catalogue
                } else {
                    let changed = match old(self).catalogue {
                        Some(k) => !same_content(c@, k@),
                        None => true,
                    };
                    &&& final(self).failures == 0
                    &&& final(self).last_error is None
                    &&& final(self).success_at == Some(now)
                    &&& final(self).etag == etag
                    &&& if changed {
                        &&& r matches Refresh::Updated(u) && u@ == c@
                        &&& final(self).catalogue == Some(c)
                    } else {
                        &&& r is Unchanged
                        &&& final(self).catalogue == old(self).catalogue
                    }
                },
                Outcome::Failed(e) => {
                    &&& r == Refresh::Failed(e)
                    &&& final(self).last_error == Some(e)
                    &&& final(self).failures == if old(self).failures == u32::MAX {
                        u32::MAX
                    } else {
                        (old(self).failures + 1) as u32
                    }
                    &&& final(self).success_at == old(self).success_at
                    &&& final(self).etag == old(self).etag
                    &&& final(self).catalogue == old(self).catalogue
                },
            },
    {
        self.checked_at = now;
        match outcome {
            Outcome::NotModified => {
                self.failures = 0;
                self.last_error = None;
                self.success_at = Some(now);
                Refresh::Unchanged
            },
            Outcome::Fetched(c, etag) => {
                if c.v != 1 {
                    return self.failed("unknown catalogue version".to_owned());
                }
                self.failures = 0;
                self.last_error = None;
                self.success_at = Some(now);
                let changed = match &self.catalogue {
                    Some(k) => !c.same(k),
                    None => true,
                };
                self.etag = etag;
                if changed {
                    let copy = c.clone();
                    self.catalogue = Some(c);
                    Refresh::Updated(copy)
                } else {
                    Refresh::Unchanged
                }
            },
            Outcome::Failed(e) => self.failed(e),
        }
    }
}

} // verus!
