//! The user's choices and the INVENTORY of everything written to the system.
//!
//! The inventory is updated BEFORE each change to the system, so cleanup
//! removes exactly what was created, and nothing else.

use vstd::prelude::*;
use crate::catalogue::{App, AppModel};

verus! {

/// A map from strings to strings, as pairs: `get` reads the first pair of a
/// key, `insert` replaces it (or adds one at the end), `remove` takes every
/// pair of the key away.
#[derive(Debug)]
pub struct StrMap {
    pub entries: Vec<(String, String)>,
}

/// `pairs` has a pair of key `k`.
pub open spec fn has_key(pairs: Seq<(Seq<char>, Seq<char>)>, k: Seq<char>) -> bool {
    exists|i: int| 0 <= i < pairs.len() && pairs[i].0 == k
}

/// The value of the first pair of key `k`.
pub open spec fn first_value(pairs: Seq<(Seq<char>, Seq<char>)>, k: Seq<char>) -> Option<Seq<char>>
    decreases pairs.len(),
{
    if pairs.len() == 0 {
        None
    } else if pairs[0].0 == k {
        Some(pairs[0].1)
    } else {
        first_value(pairs.drop_first(), k)
    }
}

/// The map the pairs stand for.
pub open spec fn pairs_map(pairs: Seq<(Seq<char>, Seq<char>)>) -> Map<Seq<char>, Seq<char>> {
    Map::new(|k: Seq<char>| first_value(pairs, k) is Some, |k: Seq<char>| first_value(pairs, k).unwrap())
}

impl View for StrMap {
    type V = Map<Seq<char>, Seq<char>>;

    open spec fn view(&self) -> Map<Seq<char>, Seq<char>> {
        pairs_map(self.entries.deep_view())
    }
}

/// `first_value` of pairs where the first pair of `k` has its value replaced.
proof fn lemma_first_value_update(
    pairs: Seq<(Seq<char>, Seq<char>)>,
    i: int,
    k: Seq<char>,
    v: Seq<char>,
    q: Seq<char>,
)
    requires
        0 <= i < pairs.len(),
        pairs[i].0 == k,
        forall|j: int| 0 <= j < i ==> pairs[j].0 != k,
    ensures
        first_value(pairs.update(i, (k, v)), q) == if q == k {
            Some(v)
        } else {
            first_value(pairs, q)
        },
    decreases pairs.len(),
{
    let up = pairs.update(i, (k, v));
    if i == 0 {
        if q != k {
            assert(up.drop_first() =~= pairs.drop_first());
        }
    } else {
        assert(up.drop_first() =~= pairs.drop_first().update(i - 1, (k, v)));
        lemma_first_value_update(pairs.drop_first(), i - 1, k, v, q);
    }
}

/// `first_value` of pairs with one more pair at the end.
proof fn lemma_first_value_push(pairs: Seq<(Seq<char>, Seq<char>)>, k: Seq<char>, v: Seq<char>, q: Seq<char>)
    ensures
        first_value(pairs.push((k, v)), q) == match first_value(pairs, q) {
            Some(x) => Some(x),
            None => if q == k {
                Some(v)
            } else {
                None
            },
        },
    decreases pairs.len(),
{
    if pairs.len() > 0 {
        assert(pairs.push((k, v))[0] == pairs[0]);
        assert(pairs.push((k, v)).drop_first() =~= pairs.drop_first().push((k, v)));
        lemma_first_value_push(pairs.drop_first(), k, v, q);
    } else {
        let s1 = pairs.push((k, v));
        assert(s1[0] == (k, v));
        assert(s1.drop_first() =~= Seq::<(Seq<char>, Seq<char>)>::empty());
        assert(first_value(s1.drop_first(), q) is None);
    }
}

/// The pairs of key other than `k`.
pub open spec fn without_key(pairs: Seq<(Seq<char>, Seq<char>)>, k: Seq<char>) -> Seq<(Seq<char>, Seq<char>)>
    decreases pairs.len(),
{
    if pairs.len() == 0 {
        seq![]
    } else if pairs.last().0 == k {
        without_key(pairs.drop_last(), k)
    } else {
        without_key(pairs.drop_last(), k).push(pairs.last())
    }
}

proof fn lemma_first_value_without(pairs: Seq<(Seq<char>, Seq<char>)>, k: Seq<char>, q: Seq<char>)
    ensures
        first_value(without_key(pairs, k), q) == if q == k {
            None
        } else {
            first_value(pairs, q)
        },
    decreases pairs.len(),
{
    if pairs.len() > 0 {
        let init = pairs.drop_last();
        lemma_first_value_without(init, k, q);
        lemma_first_value_push(without_key(init, k), pairs.last().0, pairs.last().1, q);
        lemma_first_value_push(init, pairs.last().0, pairs.last().1, q);
        assert(init.push(pairs.last()) =~= pairs);
    }
}

proof fn lemma_first_value_none(pairs: Seq<(Seq<char>, Seq<char>)>, k: Seq<char>)
    requires
        forall|j: int| 0 <= j < pairs.len() ==> pairs[j].0 != k,
    ensures
        first_value(pairs, k) is None,
    decreases pairs.len(),
{
    if pairs.len() > 0 {
        lemma_first_value_none(pairs.drop_first(), k);
    }
}

impl StrMap {
    /// An empty map.
    pub fn new() -> (r: StrMap)
        ensures
            r@ == Map::<Seq<char>, Seq<char>>::empty(),
    {
        let r = StrMap { entries: Vec::new() };
        assert(r@ =~= Map::<Seq<char>, Seq<char>>::empty());
        r
    }

    /// The index of the first pair of key `k`.
    fn position(&self, k: &str) -> (r: Option<usize>)
        ensures
            match r {
                Some(i) => i < self.entries@.len() && self.entries.deep_view()[i as int].0 == k@ && forall|j: int|
                    0 <= j < i ==> self.entries.deep_view()[j].0 != k@,
                None => forall|j: int| 0 <= j < self.entries@.len() ==> self.entries.deep_view()[j].0 != k@,
            },
    {
        let key = k.to_owned();
        let mut i: usize = 0;
        while i < self.entries.len()
            invariant
                i <= self.entries@.len(),
                key@ == k@,
                forall|j: int| 0 <= j < i ==> self.entries.deep_view()[j].0 != k@,
            decreases self.entries@.len() - i,
        {
            assert(self.entries.deep_view()[i as int].0 == self.entries@[i as int].0@);
            if self.entries[i].0 == key {
                return Some(i);
            }
            i = i + 1;
        }
        None
    }

    /// The value of `k`, if any.
    pub fn get(&self, k: &str) -> (r: Option<String>)
        ensures
            match r {
                Some(v) => self@.contains_key(k@) && self@[k@] == v@,
                None => !self@.contains_key(k@),
            },
    {
        proof {
            self.lemma_first_value_position(k@);
        }
        match self.position(k) {
            Some(i) => {
                assert(self.entries.deep_view()[i as int].1 == self.entries@[i as int].1@);
                Some(self.entries[i].1.clone())
            },
            None => None,
        }
    }

    proof fn lemma_first_value_position(&self, k: Seq<char>)
        ensures
            forall|i: int|
                0 <= i < self.entries@.len() && self.entries.deep_view()[i].0 == k && (forall|j: int|
                    0 <= j < i ==> self.entries.deep_view()[j].0 != k) ==> first_value(self.entries.deep_view(), k)
                    == Some(self.entries.deep_view()[i].1),
            (forall|j: int| 0 <= j < self.entries@.len() ==> self.entries.deep_view()[j].0 != k) ==> first_value(
                self.entries.deep_view(),
                k,
            ) is None,
    {
        let pv = self.entries.deep_view();
        assert forall|i: int|
            0 <= i < self.entries@.len() && pv[i].0 == k && (forall|j: int| 0 <= j < i ==> pv[j].0 != k) implies first_value(
            pv,
            k,
        ) == Some(pv[i].1) by {
            lemma_first_value_at(pv, k, i);
        }
        if forall|j: int| 0 <= j < self.entries@.len() ==> pv[j].0 != k {
            lemma_first_value_none(pv, k);
        }
    }

    /// `k` has a value.
    pub fn contains_key(&self, k: &str) -> (r: bool)
        ensures
            r == self@.contains_key(k@),
    {
        proof {
            self.lemma_first_value_position(k@);
        }
        self.position(k).is_some()
    }

    /// Gives `k` the value `v`.
    pub fn insert(&mut self, k: String, v: String)
        ensures
            final(self)@ == old(self)@.insert(k@, v@),
    {
        let ghost old_pairs = self.entries.deep_view();
        proof {
            self.lemma_first_value_position(k@);
        }
        match self.position(k.as_str()) {
            Some(i) => {
                let ghost kv = k@;
                let ghost vv = v@;
                self.entries.set(i, (k, v));
                assert(self.entries.deep_view() =~= old_pairs.update(i as int, (kv, vv)));
                proof {
                    assert forall|q: Seq<char>| #[trigger] first_value(self.entries.deep_view(), q) == if q == kv {
                        Some(vv)
                    } else {
                        first_value(old_pairs, q)
                    } by {
                        lemma_first_value_update(old_pairs, i as int, kv, vv, q);
                    }
                }
                assert(self@ =~= old(self)@.insert(kv, vv));
            },
            None => {
                let ghost kv = k@;
                let ghost vv = v@;
                self.entries.push((k, v));
                assert(self.entries.deep_view() =~= old_pairs.push((kv, vv)));
                proof {
                    assert forall|q: Seq<char>| #[trigger] first_value(self.entries.deep_view(), q) == if q == kv {
                        Some(vv)
                    } else {
                        first_value(old_pairs, q)
                    } by {
                        lemma_first_value_push(old_pairs, kv, vv, q);
                    }
                }
                assert(self@ =~= old(self)@.insert(kv, vv));
            },
        }
    }

    /// Takes `k` and its value away.
    pub fn remove(&mut self, k: &str)
        ensures
            final(self)@ == old(self)@.remove(k@),
    {
        let ghost old_pairs = self.entries.deep_view();
        let key = k.to_owned();
        let mut kept: Vec<(String, String)> = Vec::new();
        let ghost all = self.entries.deep_view();
        assert(all == old_pairs);
        let mut i: usize = 0;
        let n = self.entries.len();
        assert(all.take(0) =~= Seq::<(Seq<char>, Seq<char>)>::empty());
        while i < n
            invariant
                i <= n == all.len(),
                key@ == k@,
                self.entries.deep_view() == all,
                kept.deep_view() == without_key(all.take(i as int), k@),
            decreases n - i,
        {
            assert(all.take(i + 1).drop_last() =~= all.take(i as int));
            assert(all[i as int] == (self.entries@[i as int].0@, self.entries@[i as int].1@));
            if self.entries[i].0 != key {
                let ghost kv = kept.deep_view();
                kept.push((self.entries[i].0.clone(), self.entries[i].1.clone()));
                assert(kept.deep_view() =~= kv.push(all[i as int]));
            }
            i = i + 1;
        }
        assert(all.take(i as int) =~= all);
        self.entries = kept;
        proof {
            assert forall|q: Seq<char>| #[trigger] first_value(self.entries.deep_view(), q) == if q == k@ {
                None
            } else {
                first_value(old_pairs, q)
            } by {
                lemma_first_value_without(old_pairs, k@, q);
            }
        }
        assert(self@ =~= old(self)@.remove(k@));
    }
}

proof fn lemma_first_value_at(pairs: Seq<(Seq<char>, Seq<char>)>, k: Seq<char>, i: int)
    requires
        0 <= i < pairs.len(),
        pairs[i].0 == k,
        forall|j: int| 0 <= j < i ==> pairs[j].0 != k,
    ensures
        first_value(pairs, k) == Some(pairs[i].1),
    decreases i,
{
    if i > 0 {
        lemma_first_value_at(pairs.drop_first(), k, i - 1);
    }
}

/* ---------------------------------------------------------------- settings */

/// The user's choices.
#[derive(Debug)]
pub struct Settings {
    /// Browser id every app follows; None = the system's default.
    pub default_browser: Option<String>,
    /// Per-app override of the browser.
    pub app_browsers: StrMap,
    /// Profile of the default browser (None = the browser's own default).
    pub default_profile: Option<String>,
    /// Profile of an app's own browser.
    pub app_profiles: StrMap,
    /// Apps whose file types are associated with Kynoko Launcher.
    pub associated_apps: Vec<String>,
    /// Apps that have shortcuts (a folder with their facades).
    pub shortcut_apps: Vec<String>,
    /// The online catalogue's address, when not the platform's.
    pub catalogue_url: Option<String>,
    /// The window's last language: shortcuts are named in it.
    pub ui_lang: Option<String>,
    /// Where each app is opened, when not at its catalogue address. Never
    /// written by the launcher itself.
    pub app_urls: StrMap,
}

/// An optional string as an optional value.
pub open spec fn opt_view(o: Option<String>) -> Option<Seq<char>> {
    match o {
        Some(s) => Some(s@),
        None => None,
    }
}

/// The value of `k` in `m`, if any.
pub open spec fn map_get(m: Map<Seq<char>, Seq<char>>, k: Seq<char>) -> Option<Seq<char>> {
    if m.contains_key(k) {
        Some(m[k])
    } else {
        None
    }
}

/// The address an app is opened at: the one `urls` gives its code, else its own.
pub open spec fn app_url(urls: Map<Seq<char>, Seq<char>>, app: AppModel) -> Seq<char> {
    match map_get(urls, app.code) {
        Some(u) => u,
        None => app.url,
    }
}

/// The browser an app is opened in: its own, else the default (None: the
/// system's default).
pub open spec fn browser_of(s: Settings, app: Seq<char>) -> Option<Seq<char>> {
    match map_get(s.app_browsers@, app) {
        Some(b) => Some(b),
        None => opt_view(s.default_browser),
    }
}

/// The profile an app is opened with: its own when it has its own browser,
/// else the default browser's.
pub open spec fn profile_of(s: Settings, app: Seq<char>) -> Option<Seq<char>> {
    if s.app_browsers@.contains_key(app) {
        map_get(s.app_profiles@, app)
    } else {
        opt_view(s.default_profile)
    }
}

/// `list` without `code`.
pub open spec fn without_code(list: Seq<Seq<char>>, code: Seq<char>) -> Seq<Seq<char>>
    decreases list.len(),
{
    if list.len() == 0 {
        seq![]
    } else if list.last() == code {
        without_code(list.drop_last(), code)
    } else {
        without_code(list.drop_last(), code).push(list.last())
    }
}

impl Default for Settings {
    fn default() -> (r: Settings)
        ensures
            r.default_browser is None,
            r.app_browsers@ == Map::<Seq<char>, Seq<char>>::empty(),
            r.default_profile is None,
            r.app_profiles@ == Map::<Seq<char>, Seq<char>>::empty(),
            r.associated_apps@.len() == 0,
            r.shortcut_apps@.len() == 0,
            r.catalogue_url is None,
            r.ui_lang is None,
            r.app_urls@ == Map::<Seq<char>, Seq<char>>::empty(),
    {
        Settings {
            default_browser: None,
            app_browsers: StrMap::new(),
            default_profile: None,
            app_profiles: StrMap::new(),
            associated_apps: Vec::new(),
            shortcut_apps: Vec::new(),
            catalogue_url: None,
            ui_lang: None,
            app_urls: StrMap::new(),
        }
    }
}

fn remove_code(list: &mut Vec<String>, code: &String)
    ensures
        final(list).deep_view() == without_code(old(list).deep_view(), code@),
{
    let ghost all = list.deep_view();
    let mut kept: Vec<String> = Vec::new();
    let mut i: usize = 0;
    assert(all.take(0) =~= Seq::<Seq<char>>::empty());
    while i < list.len()
        invariant
            i <= list@.len(),
            list.deep_view() == all,
            kept.deep_view() == without_code(all.take(i as int), code@),
        decreases list@.len() - i,
    {
        assert(all.take(i + 1).drop_last() =~= all.take(i as int));
        assert(all[i as int] == list@[i as int]@);
        let ghost kv = kept.deep_view();
        if list[i] != *code {
            kept.push(list[i].clone());
            assert(kept.deep_view() =~= kv.push(all[i as int]));
        }
        i = i + 1;
    }
    assert(all.take(i as int) =~= all);
    *list = kept;
}

pub fn has_code(list: &Vec<String>, code: &String) -> (r: bool)
    ensures
        r == list.deep_view().contains(code@),
{
    let mut i: usize = 0;
    while i < list.len()
        invariant
            i <= list@.len(),
            forall|j: int| 0 <= j < i ==> list.deep_view()[j] != code@,
        decreases list@.len() - i,
    {
        assert(list.deep_view()[i as int] == list@[i as int]@);
        if list[i] == *code {
            return true;
        }
        i = i + 1;
    }
    false
}

impl Settings {
    /// The address `app` is opened at: its own, or the one settings point it to.
    pub fn url_of(&self, app: &App) -> (r: String)
        ensures
            r@ == app_url(self.app_urls@, app@),
    {
        match self.app_urls.get(app.code.as_str()) {
            Some(u) => u,
            None => app.url.clone(),
        }
    }

    /// The browser for `app`: its own, else the default (None = system default).
    pub fn browser_for(&self, app: &str) -> (r: Option<String>)
        ensures
            opt_view(r) == browser_of(*self, app@),
    {
        match self.app_browsers.get(app) {
            Some(b) => Some(b),
            None => match &self.default_browser {
                Some(b) => Some(b.clone()),
                None => None,
            },
        }
    }

    /// The profile for `app`, belonging to the browser `browser_for` gives:
    /// the app's own when it has its own browser, else the default one.
    pub fn profile_for(&self, app: &str) -> (r: Option<String>)
        ensures
            opt_view(r) == profile_of(*self, app@),
    {
        if self.app_browsers.contains_key(app) {
            self.app_profiles.get(app)
        } else {
            match &self.default_profile {
                Some(p) => Some(p.clone()),
                None => None,
            }
        }
    }

    /// Every app follows `id` (None: the system's default): a profile
    /// belongs to one browser, so another browser starts on its own default.
    pub fn set_default_browser(&mut self, id: Option<String>)
        ensures
            final(self).default_browser == id,
            final(self).default_profile is None,
            final(self).app_browsers == old(self).app_browsers,
            final(self).app_profiles == old(self).app_profiles,
            final(self).associated_apps == old(self).associated_apps,
            final(self).shortcut_apps == old(self).shortcut_apps,
            final(self).app_urls == old(self).app_urls,
    {
        self.default_profile = None;
        self.default_browser = id;
    }

    /// The profile of the default browser.
    pub fn set_default_profile(&mut self, id: Option<String>)
        ensures
            final(self).default_profile == id,
            final(self).default_browser == old(self).default_browser,
            final(self).app_browsers == old(self).app_browsers,
            final(self).app_profiles == old(self).app_profiles,
    {
        self.default_profile = id;
    }

    /// `code` follows its own browser `id` (None: the default again); its
    /// own profile is forgotten either way.
    pub fn set_app_browser(&mut self, code: String, id: Option<String>)
        ensures
            final(self).app_profiles@ == old(self).app_profiles@.remove(code@),
            final(self).app_browsers@ == match id {
                Some(b) => old(self).app_browsers@.insert(code@, b@),
                None => old(self).app_browsers@.remove(code@),
            },
            final(self).default_browser == old(self).default_browser,
            final(self).default_profile == old(self).default_profile,
    {
        self.app_profiles.remove(code.as_str());
        match id {
            Some(b) => self.app_browsers.insert(code, b),
            None => self.app_browsers.remove(code.as_str()),
        }
    }

    /// The profile of the own browser of `code` (None: its default).
    pub fn set_app_profile(&mut self, code: String, id: Option<String>)
        ensures
            final(self).app_profiles@ == match id {
                Some(p) => old(self).app_profiles@.insert(code@, p@),
                None => old(self).app_profiles@.remove(code@),
            },
            final(self).app_browsers == old(self).app_browsers,
            final(self).default_browser == old(self).default_browser,
            final(self).default_profile == old(self).default_profile,
    {
        match id {
            Some(p) => self.app_profiles.insert(code, p),
            None => self.app_profiles.remove(code.as_str()),
        }
    }

    /// Marks the file types of `code` associated (once) or not.
    pub fn set_associated(&mut self, code: String, on: bool)
        ensures
            final(self).associated_apps.deep_view() == if on {
                if old(self).associated_apps.deep_view().contains(code@) {
                    old(self).associated_apps.deep_view()
                } else {
                    old(self).associated_apps.deep_view().push(code@)
                }
            } else {
                without_code(old(self).associated_apps.deep_view(), code@)
            },
            final(self).shortcut_apps == old(self).shortcut_apps,
    {
        if on {
            if !has_code(&self.associated_apps, &code) {
                let ghost av = self.associated_apps.deep_view();
                let ghost c = code@;
                self.associated_apps.push(code);
                assert(self.associated_apps.deep_view() =~= av.push(c));
            }
        } else {
            remove_code(&mut self.associated_apps, &code);
        }
    }

    /// Marks `code` as having shortcuts (rebuilt: it goes last) or not.
    pub fn set_shortcuts(&mut self, code: String, on: bool)
        ensures
            final(self).shortcut_apps.deep_view() == if on {
                without_code(old(self).shortcut_apps.deep_view(), code@).push(code@)
            } else {
                without_code(old(self).shortcut_apps.deep_view(), code@)
            },
            final(self).associated_apps == old(self).associated_apps,
    {
        remove_code(&mut self.shortcut_apps, &code);
        if on {
            let ghost sv = self.shortcut_apps.deep_view();
            let ghost c = code@;
            self.shortcut_apps.push(code);
            assert(self.shortcut_apps.deep_view() =~= sv.push(c));
        }
    }

    /// Remembers the window's language; says whether it changed (and the
    /// settings need saving).
    pub fn set_ui_lang(&mut self, lang: &str) -> (changed: bool)
        ensures
            opt_view(final(self).ui_lang) == Some(lang@),
            changed == (opt_view(old(self).ui_lang) != Some(lang@)),
            final(self).associated_apps == old(self).associated_apps,
            final(self).shortcut_apps == old(self).shortcut_apps,
    {
        let l = lang.to_owned();
        let same = match &self.ui_lang {
            Some(u) => *u == l,
            None => false,
        };
        if !same {
            self.ui_lang = Some(l);
        }
        !same
    }
}

/* --------------------------------------------------------------- inventory */

/// One thing written to the system, in the order it was written.
#[derive(Debug)]
pub enum Artefact {
    /// A registry key under HKEY_CURRENT_USER we created (removed with its tree).
    RegistryKey { path: String },
    /// A value we added to a key that is not ours (removed alone).
    RegistryValue { path: String, name: String },
    /// A file we created.
    File { path: String },
    /// A directory we created (removed only if empty).
    Dir { path: String },
    /// A directory tree we created (a shortcut bundle), removed whole.
    Tree { path: String },
    /// A default handler we set, with the one it replaced (put back on removal).
    MimeDefault { mime: String, desktop: String, previous: Option<String> },
}

/// An artefact, as a value.
pub enum ArtefactModel {
    RegistryKey { path: Seq<char> },
    RegistryValue { path: Seq<char>, name: Seq<char> },
    File { path: Seq<char> },
    Dir { path: Seq<char> },
    Tree { path: Seq<char> },
    MimeDefault { mime: Seq<char>, desktop: Seq<char>, previous: Option<Seq<char>> },
}

impl View for Artefact {
    type V = ArtefactModel;

    open spec fn view(&self) -> ArtefactModel {
        match self {
            Artefact::RegistryKey { path } => ArtefactModel::RegistryKey { path: path@ },
            Artefact::RegistryValue { path, name } => ArtefactModel::RegistryValue { path: path@, name: name@ },
            Artefact::File { path } => ArtefactModel::File { path: path@ },
            Artefact::Dir { path } => ArtefactModel::Dir { path: path@ },
            Artefact::Tree { path } => ArtefactModel::Tree { path: path@ },
            Artefact::MimeDefault { mime, desktop, previous } => ArtefactModel::MimeDefault {
                mime: mime@,
                desktop: desktop@,
                previous: opt_view(*previous),
            },
        }
    }
}

fn same_opt(a: &Option<String>, b: &Option<String>) -> (r: bool)
    ensures
        r == (opt_view(*a) == opt_view(*b)),
{
    match (a, b) {
        (Some(x), Some(y)) => *x == *y,
        (None, None) => true,
        _ => false,
    }
}

impl Artefact {
    /// The same artefact (`==`).
    pub fn same(&self, other: &Artefact) -> (r: bool)
        ensures
            r == (self@ == other@),
    {
        match (self, other) {
            (Artefact::RegistryKey { path: a }, Artefact::RegistryKey { path: b }) => *a == *b,
            (
                Artefact::RegistryValue { path: a, name: n },
                Artefact::RegistryValue { path: b, name: m },
            ) => *a == *b && *n == *m,
            (Artefact::File { path: a }, Artefact::File { path: b }) => *a == *b,
            (Artefact::Dir { path: a }, Artefact::Dir { path: b }) => *a == *b,
            (Artefact::Tree { path: a }, Artefact::Tree { path: b }) => *a == *b,
            (
                Artefact::MimeDefault { mime: a, desktop: d, previous: p },
                Artefact::MimeDefault { mime: b, desktop: e, previous: q },
            ) => *a == *b && *d == *e && same_opt(p, q),
            _ => false,
        }
    }
}

/// Everything written to the system, oldest first.
#[derive(Debug)]
pub struct Inventory {
    pub artefacts: Vec<Artefact>,
}

impl View for Inventory {
    type V = Seq<ArtefactModel>;

    open spec fn view(&self) -> Seq<ArtefactModel> {
        self.artefacts@.map_values(|a: Artefact| a@)
    }
}

/// `s` without every occurrence of `x`, the rest in order.
pub open spec fn without_artefact(s: Seq<ArtefactModel>, x: ArtefactModel) -> Seq<ArtefactModel>
    decreases s.len(),
{
    if s.len() == 0 {
        seq![]
    } else if s.last() == x {
        without_artefact(s.drop_last(), x)
    } else {
        without_artefact(s.drop_last(), x).push(s.last())
    }
}

/// The artefacts of `s` that `keep` holds of, in order.
pub open spec fn select(s: Seq<ArtefactModel>, keep: spec_fn(ArtefactModel) -> bool) -> Seq<ArtefactModel>
    decreases s.len(),
{
    if s.len() == 0 {
        seq![]
    } else if keep(s.last()) {
        select(s.drop_last(), keep).push(s.last())
    } else {
        select(s.drop_last(), keep)
    }
}

/// `s` with `a` recorded: appended unless it is there already.
pub open spec fn recorded(s: Seq<ArtefactModel>, a: ArtefactModel) -> Seq<ArtefactModel> {
    if s.contains(a) {
        s
    } else {
        s.push(a)
    }
}

impl Default for Inventory {
    fn default() -> (r: Inventory)
        ensures
            r@.len() == 0,
    {
        Inventory { artefacts: Vec::new() }
    }
}

impl Inventory {
    /// The inventory holds `artefact`.
    pub fn contains(&self, artefact: &Artefact) -> (r: bool)
        ensures
            r == self@.contains(artefact@),
    {
        let mut i: usize = 0;
        while i < self.artefacts.len()
            invariant
                i <= self.artefacts@.len(),
                forall|j: int| 0 <= j < i ==> self@[j] != artefact@,
            decreases self.artefacts@.len() - i,
        {
            if self.artefacts[i].same(artefact) {
                assert(self@[i as int] == artefact@);
                return true;
            }
            i = i + 1;
        }
        false
    }

    /// Records `artefact`, once (the file is written by the caller right away).
    pub fn record(&mut self, artefact: Artefact)
        ensures
            final(self)@ == recorded(old(self)@, artefact@),
    {
        if !self.contains(&artefact) {
            let ghost v = self@;
            let ghost a = artefact@;
            self.artefacts.push(artefact);
            assert(self@ =~= v.push(a));
        }
    }

    /// Forgets `artefact`: every record of it goes, the others stay in order.
    pub fn forget(&mut self, artefact: &Artefact)
        ensures
            final(self)@ == without_artefact(old(self)@, artefact@),
    {
        let ghost all = self@;
        let mut kept: Vec<Artefact> = Vec::new();
        let mut rest: Vec<Artefact> = Vec::new();
        std::mem::swap(&mut rest, &mut self.artefacts);
        let n = rest.len();
        let mut i: usize = 0;
        assert(all.take(0) =~= Seq::<ArtefactModel>::empty());
        assert(rest@.map_values(|a: Artefact| a@) =~= all);
        while rest.len() > 0
            invariant
                i <= n == all.len(),
                i + rest@.len() == n,
                rest@.map_values(|a: Artefact| a@) == all.skip(i as int),
                kept@.map_values(|a: Artefact| a@) == without_artefact(all.take(i as int), artefact@),
            decreases rest@.len(),
        {
            let ghost rv = rest@;
            let a = rest.remove(0);
            assert(rv.map_values(|a: Artefact| a@)[0] == a@);
            assert(all.take(i + 1).drop_last() =~= all.take(i as int));
            assert(all.take(i + 1).last() == a@);
            let ghost kv = kept@.map_values(|a: Artefact| a@);
            if !a.same(artefact) {
                let ghost av = a@;
                kept.push(a);
                assert(kept@.map_values(|a: Artefact| a@) =~= kv.push(av));
            }
            assert(rest@ =~= rv.drop_first());
            assert(all.skip(i + 1) =~= all.skip(i as int).drop_first());
            assert(rest@.map_values(|a: Artefact| a@) =~= rv.map_values(|a: Artefact| a@).drop_first());
            i = i + 1;
        }
        assert(all.take(i as int) =~= all);
        self.artefacts = kept;
    }
}

/* -------------------------------------------------------------------- laws */

/// Changing the default browser moves every app without one of its own,
/// each on the new browser's own default profile; an app with its own
/// browser keeps it and its profile. (`after` is `before` once
/// `set_default_browser(id)` ran.)
pub proof fn law_default_browser(before: Settings, after: Settings, id: Option<String>, app: Seq<char>)
    requires
        after.default_browser == id,
        after.default_profile is None,
        after.app_browsers == before.app_browsers,
        after.app_profiles == before.app_profiles,
    ensures
        !before.app_browsers@.contains_key(app) ==> browser_of(after, app) == opt_view(id) && profile_of(after, app)
            is None,
        before.app_browsers@.contains_key(app) ==> browser_of(after, app) == browser_of(before, app) && profile_of(
            after,
            app,
        ) == profile_of(before, app),
{
}

/// An app given its own browser is opened in it, on that browser's own
/// default profile until one is chosen; given none, it follows the default
/// browser and profile again. Other apps are not affected. (`after` is
/// `before` once `set_app_browser(code, id)` ran.)
pub proof fn law_app_browser(before: Settings, after: Settings, code: Seq<char>, id: Option<Seq<char>>, other: Seq<char>)
    requires
        after.app_profiles@ == before.app_profiles@.remove(code),
        after.app_browsers@ == match id {
            Some(b) => before.app_browsers@.insert(code, b),
            None => before.app_browsers@.remove(code),
        },
        after.default_browser == before.default_browser,
        after.default_profile == before.default_profile,
        other != code,
    ensures
        browser_of(after, code) == match id {
            Some(b) => Some(b),
            None => opt_view(before.default_browser),
        },
        profile_of(after, code) == match id {
            Some(_) => None,
            None => opt_view(before.default_profile),
        },
        browser_of(after, other) == browser_of(before, other),
        profile_of(after, other) == profile_of(before, other),
{
}

/// A recorded artefact is in the inventory, once: recording it again
/// changes nothing.
pub proof fn law_record(s: Seq<ArtefactModel>, a: ArtefactModel)
    ensures
        recorded(s, a).contains(a),
        recorded(recorded(s, a), a) == recorded(s, a),
        forall|b: ArtefactModel| s.contains(b) ==> recorded(s, a).contains(b),
{
    if !s.contains(a) {
        assert(s.push(a)[s.len() as int] == a);
        assert forall|b: ArtefactModel| s.contains(b) implies recorded(s, a).contains(b) by {
            let i = choose|i: int| 0 <= i < s.len() && s[i] == b;
            assert(s.push(a)[i] == b);
        }
    }
}

/// A forgotten artefact is no longer in the inventory, and every other one
/// stays, in order.
pub proof fn law_forget(s: Seq<ArtefactModel>, a: ArtefactModel)
    ensures
        !without_artefact(s, a).contains(a),
        forall|b: ArtefactModel| b != a ==> (without_artefact(s, a).contains(b) <==> s.contains(b)),
    decreases s.len(),
{
    if s.len() > 0 {
        law_forget(s.drop_last(), a);
        let w = without_artefact(s.drop_last(), a);
        assert forall|b: ArtefactModel| b != a implies (without_artefact(s, a).contains(b) <==> s.contains(b)) by {
            if s.contains(b) {
                let i = choose|i: int| 0 <= i < s.len() && s[i] == b;
                if i < s.len() - 1 {
                    assert(s.drop_last()[i] == b);
                    assert(s.drop_last().contains(b));
                    if s.last() != a {
                        let j = choose|j: int| 0 <= j < w.len() && w[j] == b;
                        assert(w.push(s.last())[j] == b);
                    }
                } else {
                    assert(s.last() == b);
                    assert(w.push(s.last())[w.len() as int] == b);
                }
            }
            if without_artefact(s, a).contains(b) {
                if s.last() != a && b == s.last() {
                    assert(s[s.len() - 1] == b);
                } else {
                    if s.last() != a {
                        let j = choose|j: int| 0 <= j < w.push(s.last()).len() && w.push(s.last())[j] == b;
                        assert(j < w.len());
                        assert(w[j] == b);
                    }
                    assert(w.contains(b));
                    assert(s.drop_last().contains(b));
                    let k = choose|k: int| 0 <= k < s.drop_last().len() && s.drop_last()[k] == b;
                    assert(s[k] == b);
                }
            }
        }
        if s.last() != a {
            assert(!w.push(s.last()).contains(a)) by {
                if w.push(s.last()).contains(a) {
                    let j = choose|j: int| 0 <= j < w.push(s.last()).len() && w.push(s.last())[j] == a;
                    if j < w.len() {
                        assert(w[j] == a);
                    }
                }
            }
        }
    }
}


/// `t` is `s` followed by artefacts that `keep` leaves out.
pub open spec fn grown_by(t: Seq<ArtefactModel>, s: Seq<ArtefactModel>, keep: spec_fn(ArtefactModel) -> bool) -> bool {
    &&& s.len() <= t.len()
    &&& t.subrange(0, s.len() as int) == s
    &&& forall|i: int| s.len() <= i < t.len() ==> !keep(#[trigger] t[i])
}

/// Recording an artefact that `keep` leaves out keeps `t` grown from `s`.
pub proof fn lemma_recorded_grows(t: Seq<ArtefactModel>, s: Seq<ArtefactModel>, keep: spec_fn(ArtefactModel) -> bool, a: ArtefactModel)
    requires
        grown_by(t, s, keep),
        !keep(a),
    ensures
        grown_by(recorded(t, a), s, keep),
{
    if !t.contains(a) {
        assert(t.push(a).subrange(0, s.len() as int) =~= t.subrange(0, s.len() as int));
        assert forall|i: int| s.len() <= i < t.push(a).len() implies !keep(#[trigger] t.push(a)[i]) by {
            if i < t.len() {
                assert(t.push(a)[i] == t[i]);
            }
        }
    }
}

/// What `keep` keeps of an inventory that keeps all of it: all of it.
pub proof fn lemma_select_all(s: Seq<ArtefactModel>, keep: spec_fn(ArtefactModel) -> bool)
    requires
        forall|i: int| 0 <= i < s.len() ==> keep(#[trigger] s[i]),
    ensures
        select(s, keep) == s,
    decreases s.len(),
{
    if s.len() > 0 {
        assert(keep(s[s.len() - 1]));
        lemma_select_all(s.drop_last(), keep);
        assert(s.drop_last().push(s.last()) =~= s);
    }
}

/// What `keep` keeps of `s` grown by artefacts it leaves out, when it keeps
/// all of `s`: `s`.
pub proof fn lemma_select_grown(t: Seq<ArtefactModel>, s: Seq<ArtefactModel>, keep: spec_fn(ArtefactModel) -> bool)
    requires
        grown_by(t, s, keep),
        forall|i: int| 0 <= i < s.len() ==> keep(#[trigger] s[i]),
    ensures
        select(t, keep) == s,
    decreases t.len(),
{
    if t.len() == s.len() {
        assert(t =~= t.subrange(0, s.len() as int));
        lemma_select_all(s, keep);
    } else {
        assert(!keep(t[t.len() - 1]));
        let d = t.drop_last();
        assert(d.subrange(0, s.len() as int) =~= t.subrange(0, s.len() as int));
        assert forall|i: int| s.len() <= i < d.len() implies !keep(#[trigger] d[i]) by {
            assert(d[i] == t[i]);
        }
        lemma_select_grown(d, s, keep);
    }
}

} // verus!
