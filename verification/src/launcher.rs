//! The launcher's roles and the addresses it opens.
//!
//! One binary, several roles:
//! - no argument, or `kynoko-launcher://settings?app=<code>` (the apps' menu
//!   entry): the settings window, on that app;
//! - `open <file>...`: what a double-click runs;
//! - `launch <app>[/<facade>]`: what a shortcut runs;
//! - `cleanup`: removes everything the launcher wrote.

use vstd::prelude::*;
use crate::text::{
    chars_of, eq_chars, first_index, lemma_chars_deep_view, lemma_first_index, push_all, push_str,
    slice_chars, split, split_chars, split_once, split_once_chars, starts_with, starts_with_chars,
    to_string, has_char, lemma_first_index_is, join_with, join_chars,
};
use crate::browsers::{Browser, Engine, lowercase, to_lowercase};
use crate::catalogue::{App, AppModel, Catalogue, CatalogueModel, app_index, app_for_ext_index, facade_exts, opens,
    law_app_for_ext,
    same_app, same_content, same_facade, FacadeModel};
use crate::settings::{Settings, without_code, opt_view, map_get};

verus! {

/// The launcher's own address scheme, `kynoko-launcher://`: what the apps'
/// menu entry opens.
pub const SCHEME: &'static str = "kynoko-launcher";

/// Added to every app address the launcher opens: the app then knows the
/// launcher is installed for this browser.
pub const MARKER: &'static str = "kynokoLauncher=1";

/// What one invocation is asked to do.
#[derive(Debug)]
pub enum Command {
    /// The settings window, optionally on one app.
    Window(Option<String>),
    /// Open these files.
    Open(Vec<String>),
    /// Launch an app or one of its facades.
    Launch(String),
    /// Remove everything the launcher wrote.
    Cleanup,
}

/// A character an app code may hold.
pub open spec fn code_char(c: char) -> bool {
    ('a' <= c && c <= 'z') || ('A' <= c && c <= 'Z') || ('0' <= c && c <= '9')
}

/// A plain app code: 1 to 40 ASCII letters and digits.
pub open spec fn plain_code(c: Seq<char>) -> bool {
    &&& 0 < c.len() <= 40
    &&& forall|i: int| 0 <= i < c.len() ==> code_char(#[trigger] c[i])
}

/// The value of the first `app=` pair of a query, if any.
pub open spec fn first_app_pair(pairs: Seq<Seq<char>>) -> Option<Seq<char>>
    decreases pairs.len(),
{
    if pairs.len() == 0 {
        None
    } else if starts_with(pairs[0], "app="@) {
        Some(pairs[0].skip(4))
    } else {
        first_app_pair(pairs.drop_first())
    }
}

/// The app a `kynoko-launcher://settings?app=<code>` link names: the first
/// `app=` of its query, kept only when it is a plain app code (a link must
/// not steer the launcher).
pub open spec fn app_param_of(url: Seq<char>) -> Option<Seq<char>> {
    match split_once(url, '?') {
        Some((_, query)) => match first_app_pair(split(query, '&')) {
            Some(code) => if plain_code(code) {
                Some(code)
            } else {
                None
            },
            None => None,
        },
        None => None,
    }
}

/// `kynoko-launcher://settings?app=Office` -> Some("Office"). Anything that
/// is not a plain app code is ignored: a link must not steer the launcher.
pub fn app_param(url: &str) -> (r: Option<String>)
    ensures
        match r {
            Some(c) => app_param_of(url@) == Some(c@),
            None => app_param_of(url@) is None,
        },
{
    let u = chars_of(url);
    let query = match split_once_chars(&u, '?') {
        Some((_, q)) => q,
        None => return None,
    };
    let pairs = split_chars(&query, '&');
    let ghost pv = pairs.deep_view();
    let prefix = chars_of("app=");
    proof {
        reveal_strlit("app=");
    }
    let mut i: usize = 0;
    assert(pv.skip(0) =~= pv);
    assert(app_param_of(url@) == match first_app_pair(pv) {
        Some(code) => if plain_code(code) {
            Some(code)
        } else {
            None
        },
        None => None::<Seq<char>>,
    });
    while i < pairs.len()
        invariant
            i <= pairs@.len(),
            pv == pairs.deep_view(),
            app_param_of(url@) == match first_app_pair(pv) {
                Some(code) => if plain_code(code) {
                    Some(code)
                } else {
                    None
                },
                None => None::<Seq<char>>,
            },
            prefix@ == "app="@,
            prefix@.len() == 4,
            first_app_pair(pv) == first_app_pair(pv.skip(i as int)),
        decreases pairs@.len() - i,
    {
        let ghost rest = pv.skip(i as int);
        assert(rest[0] == pairs@[i as int]@);
        assert(rest.drop_first() =~= pv.skip(i + 1));
        if starts_with_chars(&pairs[i], &prefix) {
            let n = pairs[i].len();
            let code = slice_chars(&pairs[i], 4, n);
            assert(code@ == pairs@[i as int]@.skip(4));
            let mut ok = code.len() > 0 && code.len() <= 40;
            let mut j: usize = 0;
            while j < code.len()
                invariant
                    j <= code@.len(),
                    ok == (0 < code@.len() <= 40 && forall|k: int| 0 <= k < j ==> code_char(#[trigger] code@[k])),
                decreases code@.len() - j,
            {
                let c = code[j];
                let good = ('a' <= c && c <= 'z') || ('A' <= c && c <= 'Z') || ('0' <= c && c <= '9');
                ok = ok && good;
                j = j + 1;
            }
            assert(first_app_pair(rest) == Some(code@));
            if ok {
                return Some(to_string(&code));
            } else {
                return None;
            }
        }
        i = i + 1;
    }
    None
}

/// What one invocation is asked to do, from its arguments (the program's
/// name left out).
pub open spec fn command_of(args: Seq<Seq<char>>) -> CommandModel {
    if args.len() == 0 {
        CommandModel::Window(None)
    } else if args[0] == "open"@ {
        CommandModel::Open(args.skip(1))
    } else if args[0] == "launch"@ {
        CommandModel::Launch(if args.len() > 1 {
            args[1]
        } else {
            seq![]
        })
    } else if args[0] == "cleanup"@ {
        CommandModel::Cleanup
    } else if starts_with(args[0], "kynoko-launcher:"@) {
        CommandModel::Window(app_param_of(args[0]))
    } else {
        CommandModel::Window(None)
    }
}

/// A command, as a value.
pub enum CommandModel {
    Window(Option<Seq<char>>),
    Open(Seq<Seq<char>>),
    Launch(Seq<char>),
    Cleanup,
}

impl View for Command {
    type V = CommandModel;

    open spec fn view(&self) -> CommandModel {
        match self {
            Command::Window(w) => CommandModel::Window(match w {
                Some(c) => Some(c@),
                None => None,
            }),
            Command::Open(files) => CommandModel::Open(files.deep_view()),
            Command::Launch(t) => CommandModel::Launch(t@),
            Command::Cleanup => CommandModel::Cleanup,
        }
    }
}

/// What one invocation is asked to do, from its arguments.
pub fn parse(args: &[String]) -> (r: Command)
    ensures
        r@ == command_of(args.deep_view()),
{
    let ghost av = args.deep_view();
    if args.len() == 0 {
        return Command::Window(None);
    }
    assert(av[0] == args@[0]@);
    let first = chars_of(args[0].as_str());
    if eq_chars(&first, &chars_of("open")) {
        let mut files: Vec<String> = Vec::new();
        let mut i: usize = 1;
        while i < args.len()
            invariant
                1 <= i <= args@.len(),
                av == args.deep_view(),
                files.deep_view() == av.subrange(1, i as int),
            decreases args@.len() - i,
        {
            let ghost fv = files.deep_view();
            files.push(args[i].clone());
            assert(files.deep_view() =~= fv.push(av[i as int]));
            i = i + 1;
        }
        assert(av.subrange(1, i as int) =~= av.skip(1));
        return Command::Open(files);
    }
    if eq_chars(&first, &chars_of("launch")) {
        if args.len() > 1 {
            assert(av[1] == args@[1]@);
            return Command::Launch(args[1].clone());
        }
        return Command::Launch(String::new());
    }
    if eq_chars(&first, &chars_of("cleanup")) {
        return Command::Cleanup;
    }
    let mut scheme = chars_of(SCHEME);
    scheme.push(':');
    proof {
        reveal_strlit("kynoko-launcher");
        reveal_strlit("kynoko-launcher:");
        assert(scheme@ =~= "kynoko-launcher:"@);
    }
    if starts_with_chars(&first, &scheme) {
        return Command::Window(app_param(args[0].as_str()));
    }
    Command::Window(None)
}

/* ------------------------------------------------------------- addresses */

/// The first index where `p` occurs in `s`.
pub open spec fn find_seq(s: Seq<char>, p: Seq<char>) -> Option<int>
    decreases s.len(),
{
    if starts_with(s, p) {
        Some(0)
    } else if s.len() == 0 {
        None
    } else {
        match find_seq(s.drop_first(), p) {
            Some(i) => Some(i + 1),
            None => None,
        }
    }
}

/// Where the host of a URL starts: after `://`, or 0 without one.
pub open spec fn host_start(url: Seq<char>) -> int {
    match find_seq(url, "://"@) {
        Some(i) => i + 3,
        None => 0,
    }
}

/// Where the origin of a URL ends: at the first `/` after its host start,
/// or at its end.
pub open spec fn origin_end(url: Seq<char>) -> int {
    let start = host_start(url);
    match first_index(url.skip(start), '/') {
        Some(i) => start + i,
        None => url.len() as int,
    }
}

/// `scheme://host[:port]` of a URL, without its path.
pub open spec fn origin_of_url(url: Seq<char>) -> Seq<char> {
    url.take(origin_end(url))
}

pub proof fn lemma_find_seq_bounds(s: Seq<char>, p: Seq<char>)
    ensures
        match find_seq(s, p) {
            Some(i) => 0 <= i && i + p.len() <= s.len(),
            None => true,
        },
    decreases s.len(),
{
    if !starts_with(s, p) && s.len() > 0 {
        lemma_find_seq_bounds(s.drop_first(), p);
    }
}

/// Where the origin of a URL ends.
pub fn origin_end_exec(url: &Vec<char>) -> (r: usize)
    ensures
        r == origin_end(url@),
        r <= url@.len(),
{
    let sep = chars_of("://");
    let n = url.len();
    let mut i: usize = 0;
    let mut found = false;
    assert(url@.skip(0) =~= url@);
    while !found && i < n
        invariant
            i <= n == url@.len(),
            sep@ == "://"@,
            found ==> starts_with(url@.skip(i as int), "://"@),
            find_seq(url@, "://"@) == match find_seq(url@.skip(i as int), "://"@) {
                Some(k) => Some(k + i),
                None => None::<int>,
            },
        decreases n - i, (if found { 0int } else { 1int }),
    {
        let rest = slice_chars(url, i, n);
        assert(rest@ == url@.skip(i as int));
        if starts_with_chars(&rest, &sep) {
            found = true;
        } else {
            assert(url@.skip(i as int).drop_first() =~= url@.skip(i + 1));
            i = i + 1;
        }
    }
    proof {
        lemma_find_seq_bounds(url@, "://"@);
        reveal_strlit("://");
    }
    let start = if found {
        assert(find_seq(url@.skip(i as int), "://"@) == Some(0int));
        i + 3
    } else {
        let rest = slice_chars(url, i, n);
        assert(rest@ == url@.skip(i as int));
        if starts_with_chars(&rest, &sep) {
            assert(false);
        }
        assert(url@.skip(i as int).len() == 0);
        assert(find_seq(url@.skip(i as int), "://"@) is None);
        0
    };
    let tail = slice_chars(url, start, n);
    assert(tail@ == url@.skip(start as int));
    let f = crate::text::find_char(&tail, '/');
    proof {
        lemma_first_index(tail@, '/');
    }
    match f {
        Some(k) => start + k,
        None => n,
    }
}

/// `scheme://host[:port]` of a URL, without its path.
pub fn origin_of(url: &str) -> (r: String)
    ensures
        r@ == origin_of_url(url@),
{
    let u = chars_of(url);
    let end = origin_end_exec(&u);
    to_string(&slice_chars(&u, 0, end))
}

/// `s` without its trailing `/`s (`str::trim_end_matches('/')`).
pub open spec fn trim_slashes(s: Seq<char>) -> Seq<char>
    decreases s.len(),
{
    if s.len() > 0 && s.last() == '/' {
        trim_slashes(s.drop_last())
    } else {
        s
    }
}

/// `s` without its trailing `/`s.
pub fn trim_slashes_chars(s: &Vec<char>) -> (r: Vec<char>)
    ensures
        r@ == trim_slashes(s@),
{
    let mut j: usize = s.len();
    assert(s@.take(j as int) =~= s@);
    while j > 0 && s[j - 1] == '/'
        invariant
            j <= s@.len(),
            trim_slashes(s@) == trim_slashes(s@.take(j as int)),
        decreases j,
    {
        assert(s@.take(j as int).drop_last() =~= s@.take(j - 1));
        j = j - 1;
    }
    slice_chars(s, 0, j)
}

/// The decimal digits of `n`.
pub open spec fn decimal(n: nat) -> Seq<char>
    decreases n,
{
    if n < 10 {
        seq![digit(n)]
    } else {
        decimal(n / 10).push(digit(n % 10))
    }
}

/// The digit of `d < 10`.
pub open spec fn digit(d: nat) -> char {
    if d == 0 {
        '0'
    } else if d == 1 {
        '1'
    } else if d == 2 {
        '2'
    } else if d == 3 {
        '3'
    } else if d == 4 {
        '4'
    } else if d == 5 {
        '5'
    } else if d == 6 {
        '6'
    } else if d == 7 {
        '7'
    } else if d == 8 {
        '8'
    } else {
        '9'
    }
}

fn digit_exec(d: u64) -> (c: char)
    requires
        d < 10,
    ensures
        c == digit(d as nat),
{
    if d == 0 {
        '0'
    } else if d == 1 {
        '1'
    } else if d == 2 {
        '2'
    } else if d == 3 {
        '3'
    } else if d == 4 {
        '4'
    } else if d == 5 {
        '5'
    } else if d == 6 {
        '6'
    } else if d == 7 {
        '7'
    } else if d == 8 {
        '8'
    } else {
        '9'
    }
}

/// The decimal digits of `n` (`n.to_string()`).
pub fn decimal_chars(n: u64) -> (r: Vec<char>)
    ensures
        r@ == decimal(n as nat),
    decreases n,
{
    if n < 10 {
        let mut r = Vec::new();
        r.push(digit_exec(n));
        r
    } else {
        let mut r = decimal_chars(n / 10);
        r.push(digit_exec(n % 10));
        r
    }
}

/// The address a file is opened at: the app's `/open` route, with the
/// bridge session in the fragment and the launcher's marker.
pub open spec fn open_url_of(base: Seq<char>, port: u16, token: Seq<char>) -> Seq<char> {
    trim_slashes(base) + "/open#kynokoBridge=127.0.0.1:"@ + decimal(port as nat) + seq!['/'] + token + seq!['&']
        + "kynokoLauncher=1"@
}

/// The address a file is opened at.
pub fn open_url(base: &str, port: u16, token: &str) -> (r: String)
    ensures
        r@ == open_url_of(base@, port, token@),
{
    let b = chars_of(base);
    let mut out = trim_slashes_chars(&b);
    push_str(&mut out, "/open#kynokoBridge=127.0.0.1:");
    push_all(&mut out, &decimal_chars(port as u64));
    out.push('/');
    push_str(&mut out, token);
    out.push('&');
    push_str(&mut out, MARKER);
    to_string(&out)
}

/// The address several files of one app are opened at: one session each,
/// their tokens joined by `,` in the fragment.
pub fn open_url_many(base: &str, port: u16, tokens: &Vec<String>) -> (r: String)
    ensures
        r@ == open_url_of(base@, port, join_with(tokens.deep_view(), ',')),
{
    let mut items: Vec<Vec<char>> = Vec::new();
    let mut i: usize = 0;
    while i < tokens.len()
        invariant
            i <= tokens@.len(),
            items.deep_view() == tokens.deep_view().take(i as int),
        decreases tokens@.len() - i,
    {
        let c = chars_of(tokens[i].as_str());
        let ghost before = items.deep_view();
        proof {
            lemma_chars_deep_view(c);
        }
        let ghost cv = c@;
        items.push(c);
        assert(items.deep_view() =~= before.push(cv));
        assert(tokens.deep_view().take(i + 1) =~= tokens.deep_view().take(i as int).push(tokens@[i as int]@));
        i = i + 1;
    }
    assert(tokens.deep_view().take(i as int) =~= tokens.deep_view());
    let joined = join_chars(&items, ',');
    open_url(base, port, &to_string(&joined))
}

/// Where the group of `code` is among `groups`, if it has one.
pub open spec fn group_index(groups: Seq<(Seq<char>, Seq<usize>)>, code: Seq<char>) -> Option<int>
    decreases groups.len(),
{
    if groups.len() == 0 {
        None
    } else if groups[0].0 == code {
        Some(0)
    } else {
        match group_index(groups.drop_first(), code) {
            Some(i) => Some(i + 1),
            None => None,
        }
    }
}

/// The files grouped by the app that opens them: each app once, in the
/// order its first file comes, with the positions of its files in order.
pub open spec fn groups_of(codes: Seq<Seq<char>>) -> Seq<(Seq<char>, Seq<usize>)>
    decreases codes.len(),
{
    if codes.len() == 0 {
        seq![]
    } else {
        let g = groups_of(codes.drop_last());
        let c = codes.last();
        let k = (codes.len() - 1) as usize;
        match group_index(g, c) {
            Some(m) => g.update(m, (c, g[m].1.push(k))),
            None => g.push((c, seq![k])),
        }
    }
}

proof fn lemma_group_index(g: Seq<(Seq<char>, Seq<usize>)>, c: Seq<char>)
    ensures
        match group_index(g, c) {
            Some(i) => 0 <= i < g.len() && g[i].0 == c && forall|j: int| 0 <= j < i ==> g[j].0 != c,
            None => forall|j: int| 0 <= j < g.len() ==> g[j].0 != c,
        },
    decreases g.len(),
{
    if g.len() > 0 && g[0].0 != c {
        lemma_group_index(g.drop_first(), c);
        assert forall|j: int| 1 <= j < g.len() implies g[j] == g.drop_first()[j - 1] by {}
    }
}

/// The files grouped by the app that opens them (`apps` gives each file's
/// app, in order): one launch per app, its files' sessions together.
pub fn group_by_app(apps: &Vec<String>) -> (r: Vec<(String, Vec<usize>)>)
    ensures
        r.deep_view() == groups_of(apps.deep_view()),
{
    let ghost av = apps.deep_view();
    let mut groups: Vec<(String, Vec<usize>)> = Vec::new();
    let mut i: usize = 0;
    assert(av.take(0) =~= Seq::<Seq<char>>::empty());
    assert(groups.deep_view() =~= Seq::<(Seq<char>, Seq<usize>)>::empty());
    while i < apps.len()
        invariant
            i <= apps@.len(),
            av == apps.deep_view(),
            groups.deep_view() == groups_of(av.take(i as int)),
        decreases apps@.len() - i,
    {
        let ghost g = groups.deep_view();
        let ghost sub = av.take(i + 1);
        assert(sub.drop_last() =~= av.take(i as int));
        assert(sub.last() == apps@[i as int]@);
        assert(sub.len() - 1 == i);
        let c = apps[i].clone();
        proof {
            lemma_group_index(g, c@);
        }
        let mut m: usize = 0;
        while m < groups.len() && groups[m].0 != c
            invariant
                m <= groups@.len(),
                g == groups.deep_view(),
                forall|j: int| 0 <= j < m ==> g[j].0 != c@,
            decreases groups@.len() - m,
        {
            assert(g[m as int].0 == groups@[m as int].0@);
            m = m + 1;
        }
        if m < groups.len() {
            assert(g[m as int].0 == groups@[m as int].0@);
            assert(group_index(g, c@) == Some(m as int));
            let ghost old_groups = groups@;
            let (code, mut members) = groups.remove(m);
            assert(code@ == c@);
            assert(members.deep_view() =~= g[m as int].1);
            members.push(i);
            assert(members.deep_view() =~= g[m as int].1.push(i));
            let ghost nv = (code@, members.deep_view());
            groups.insert(m, (code, members));
            assert(groups@ =~= old_groups.update(m as int, groups@[m as int]));
            let ghost want = g.update(m as int, (c@, g[m as int].1.push(i)));
            assert forall|j: int| 0 <= j < groups@.len() implies #[trigger] groups.deep_view()[j] == want[j] by {
                if j != m {
                    assert(groups@[j] == old_groups[j]);
                }
            }
            assert(groups.deep_view() =~= want);
        } else {
            assert(group_index(g, c@) is None);
            let mut members: Vec<usize> = Vec::new();
            members.push(i);
            assert(members.deep_view() =~= seq![i]);
            let ghost old_groups = groups@;
            groups.push((c, members));
            let ghost want = g.push((c@, seq![i]));
            assert forall|j: int| 0 <= j < groups@.len() implies #[trigger] groups.deep_view()[j] == want[j] by {
                if j < g.len() {
                    assert(groups@[j] == old_groups[j]);
                }
            }
            assert(groups.deep_view() =~= want);
        }
        i = i + 1;
    }
    assert(av.take(i as int) =~= av);
    groups
}

/// The address an app (or one of its facades) is launched at.
pub open spec fn launch_url_of(base: Seq<char>, facade: Seq<char>) -> Seq<char> {
    trim_slashes(base) + seq!['/'] + facade + seq!['#'] + "kynokoLauncher=1"@
}

/// The address an app (or one of its facades, `""` for none) is launched at.
pub fn launch_url(base: &str, facade: &str) -> (r: String)
    ensures
        r@ == launch_url_of(base@, facade@),
{
    let b = chars_of(base);
    let mut out = trim_slashes_chars(&b);
    out.push('/');
    push_str(&mut out, facade);
    out.push('#');
    push_str(&mut out, MARKER);
    to_string(&out)
}

/// `launch <app>[/<facade>]`: the app's code and the facade's path (empty
/// when none), cut at the first `/`.
pub open spec fn launch_target_of(target: Seq<char>) -> (Seq<char>, Seq<char>) {
    match split_once(target, '/') {
        Some((code, facade)) => (code, facade),
        None => (target, seq![]),
    }
}

/// The app's code and the facade's path of a `launch` target.
pub fn launch_target(target: &str) -> (r: (String, String))
    ensures
        (r.0@, r.1@) == launch_target_of(target@),
{
    let t = chars_of(target);
    match split_once_chars(&t, '/') {
        Some((code, facade)) => (to_string(&code), to_string(&facade)),
        None => (target.to_owned(), String::new()),
    }
}

/// What a shortcut runs, `launch` reads back: the target of an app's
/// shortcut (its code) names that app and no facade, and the target of a
/// facade's (`<code>/<path>`) names that app and that facade's path, for an
/// app code without `/`.
pub proof fn law_shortcut_target(code: Seq<char>, path: Seq<char>)
    requires
        !has_char(code, '/'),
    ensures
        launch_target_of(code) == (code, Seq::<char>::empty()),
        launch_target_of(code + seq!['/'] + path) == (code, path),
{
    assert forall|j: int| 0 <= j < code.len() implies code[j] != '/' by {
        if code[j] == '/' {
            assert(has_char(code, '/'));
        }
    }
    lemma_first_index_is(code, '/', code.len() as int);
    let t = code + seq!['/'] + path;
    assert forall|j: int| 0 <= j < code.len() implies t[j] != '/' by {
        assert(t[j] == code[j]);
    }
    assert(t[code.len() as int] == '/');
    lemma_first_index_is(t, '/', code.len() as int);
    assert(t.take(code.len() as int) =~= code);
    assert(t.skip(code.len() + 1int) =~= path);
}

/// The extension of a file name as `Path::extension` reads it: what follows
/// its last dot, unless that dot starts the name (or the name is `..`).
pub open spec fn extension_of_name(name: Seq<char>) -> Option<Seq<char>> {
    if name == ".."@ {
        None
    } else {
        match crate::text::last_index(name, '.') {
            Some(i) => if i == 0 {
                None
            } else {
                Some(name.skip(i + 1))
            },
            None => None,
        }
    }
}

/// The extension of a file name, if it has one.
pub fn extension_of(name: &str) -> (r: Option<String>)
    ensures
        match r {
            Some(e) => extension_of_name(name@) == Some(e@),
            None => extension_of_name(name@) is None,
        },
{
    let n = chars_of(name);
    if eq_chars(&n, &chars_of("..")) {
        return None;
    }
    let len = n.len();
    let mut i: usize = len;
    assert(n@.take(i as int) =~= n@);
    while i > 0 && n[i - 1] != '.'
        invariant
            i <= n@.len(),
            crate::text::last_index(n@, '.') == crate::text::last_index(n@.take(i as int), '.'),
        decreases i,
    {
        assert(n@.take(i as int).drop_last() =~= n@.take(i - 1));
        i = i - 1;
    }
    if i == 0 {
        assert(crate::text::last_index(n@.take(0), '.') is None);
        return None;
    }
    assert(n@.take(i as int).last() == n@[i - 1]);
    if i == 1 {
        return None;
    }
    Some(to_string(&slice_chars(&n, i, len)))
}

/* ------------------------------------------------------------ launching */

/// The system the launcher runs on.
#[derive(Clone, Copy, Debug, PartialEq, Eq, Structural)]
pub enum Platform {
    Windows,
    MacOs,
    Linux,
}

/// The command that opens `url` in the system's default browser.
pub open spec fn system_command_of(platform: Platform, url: Seq<char>) -> Seq<Seq<char>> {
    match platform {
        // `start` treats its first quoted argument as a title: an empty one.
        Platform::Windows => seq!["cmd"@, "/C"@, "start"@, seq![], url],
        Platform::MacOs => seq!["open"@, url],
        Platform::Linux => seq!["xdg-open"@, url],
    }
}

/// The arguments the launcher adds for an engine: Chromium opens an app
/// window (no tabs, no address bar) in the profile directory, Gecko a new
/// window in the named profile, others just the address.
pub open spec fn engine_args(engine: Engine, url: Seq<char>, profile: Option<Seq<char>>) -> Seq<Seq<char>> {
    match engine {
        Engine::Chromium => match profile {
            Some(p) => seq!["--profile-directory="@ + p, "--app="@ + url],
            None => seq!["--app="@ + url],
        },
        Engine::Gecko => match profile {
            Some(p) => seq!["-P"@, p, "-new-window"@, url],
            None => seq!["-new-window"@, url],
        },
        _ => seq![url],
    }
}

/// The command that opens `url`: in `browser` (its own command, else its
/// program, then the engine's arguments) with `profile`, or, when no
/// browser is chosen, in the system's default.
pub open spec fn launch_command_of(
    platform: Platform,
    url: Seq<char>,
    browser: Option<Browser>,
    profile: Option<Seq<char>>,
) -> Seq<Seq<char>> {
    match browser {
        Some(b) => (if b.command@.len() > 0 {
            b.command.deep_view()
        } else {
            seq![b.exe@]
        }) + engine_args(b.engine, url, profile),
        None => system_command_of(platform, url),
    }
}

fn prefixed(p: &str, s: &str) -> (r: String)
    ensures
        r@ == p@ + s@,
{
    let mut v = chars_of(p);
    push_str(&mut v, s);
    to_string(&v)
}

/// The command (program first) that opens `url` in `browser` with
/// `profile`, or in the system's default browser when none is chosen.
pub fn launch_command(platform: Platform, url: &str, browser: Option<&Browser>, profile: Option<&str>) -> (r: Vec<
    String,
>)
    ensures
        r.deep_view() == launch_command_of(platform, url@, match browser {
            Some(b) => Some(*b),
            None => None,
        }, match profile {
            Some(p) => Some(p@),
            None => None,
        }),
{
    proof {
        reveal_strlit("");
    }
    let mut out: Vec<String> = Vec::new();
    match browser {
        Some(b) => {
            if b.command.len() > 0 {
                let mut i: usize = 0;
                while i < b.command.len()
                    invariant
                        i <= b.command@.len(),
                        out.deep_view() == b.command.deep_view().take(i as int),
                    decreases b.command@.len() - i,
                {
                    let ghost ov = out.deep_view();
                    out.push(b.command[i].clone());
                    assert(out.deep_view() =~= ov.push(b.command.deep_view()[i as int]));
                    assert(b.command.deep_view().take(i + 1) =~= b.command.deep_view().take(i as int).push(
                        b.command.deep_view()[i as int],
                    ));
                    i = i + 1;
                }
                assert(b.command.deep_view().take(i as int) =~= b.command.deep_view());
            } else {
                out.push(b.exe.clone());
                assert(out.deep_view() =~= seq![b.exe@]);
            }
            let ghost head = out.deep_view();
            match b.engine {
                Engine::Chromium => {
                    match profile {
                        Some(p) => out.push(prefixed("--profile-directory=", p)),
                        None => {},
                    }
                    out.push(prefixed("--app=", url));
                },
                Engine::Gecko => {
                    match profile {
                        Some(p) => {
                            out.push("-P".to_owned());
                            out.push(p.to_owned());
                        },
                        None => {},
                    }
                    out.push("-new-window".to_owned());
                    out.push(url.to_owned());
                },
                _ => {
                    out.push(url.to_owned());
                },
            }
            assert(out.deep_view() =~= head + engine_args(b.engine, url@, match profile {
                Some(p) => Some(p@),
                None => None,
            }));
        },
        None => {
            match platform {
                Platform::Windows => {
                    out.push("cmd".to_owned());
                    out.push("/C".to_owned());
                    out.push("start".to_owned());
                    let title = "".to_owned();
                    assert(title@ == Seq::<char>::empty());
                    out.push(title);
                    out.push(url.to_owned());
                    assert(out.deep_view() =~= system_command_of(platform, url@));
                },
                Platform::MacOs => {
                    out.push("open".to_owned());
                    out.push(url.to_owned());
                },
                Platform::Linux => {
                    out.push("xdg-open".to_owned());
                    out.push(url.to_owned());
                },
            }
            assert(out.deep_view() =~= system_command_of(platform, url@));
        },
    }
    out
}

/* -------------------------------------------------------------- opening files */

/// The app that opens a file of extension `ext` (lower-cased): among the
/// apps the user associated, else among every app of the catalogue.
pub open spec fn app_for_file_index(c: CatalogueModel, ext: Seq<char>, associated: Seq<Seq<char>>) -> Option<int> {
    match app_for_ext_index(c.apps, lowercase(ext), associated) {
        Some(i) => Some(i),
        None => app_for_ext_index(c.apps, lowercase(ext), c.apps.map_values(|a: AppModel| a.code)),
    }
}

/// The app that opens a file named `name` (by its extension, lower-cased;
/// none is the empty one): among the apps the user associated, else among
/// every app of the catalogue; the error says which extension no app opens.
pub fn app_for_file<'a>(catalogue: &'a Catalogue, name: &str, associated: &[String]) -> (r: Result<&'a App, String>)
    ensures
        ({
            let ext = match extension_of_name(name@) {
                Some(e) => e,
                None => seq![],
            };
            match r {
                Ok(a) => exists|i: int|
                    app_for_file_index(catalogue@, ext, associated.deep_view()) == Some(i) && 0 <= i
                        < catalogue.apps@.len() && *a == catalogue.apps@[i],
                Err(e) => app_for_file_index(catalogue@, ext, associated.deep_view()) is None && e@
                    == "no Kynoko app opens ."@ + lowercase(ext),
            }
        }),
{
    let ext = match extension_of(name) {
        Some(e) => e,
        None => String::new(),
    };
    let lower = to_lowercase(ext.as_str());
    match catalogue.app_for_ext(lower.as_str(), associated) {
        Some(a) => Ok(a),
        None => {
            let mut every: Vec<String> = Vec::new();
            let mut i: usize = 0;
            while i < catalogue.apps.len()
                invariant
                    i <= catalogue.apps@.len(),
                    every.deep_view() == catalogue@.apps.take(i as int).map_values(|a: AppModel| a.code),
                decreases catalogue.apps@.len() - i,
            {
                let ghost ev = every.deep_view();
                every.push(catalogue.apps[i].code.clone());
                assert(catalogue@.apps[i as int] == catalogue.apps@[i as int]@);
                assert(every.deep_view() =~= ev.push(catalogue@.apps[i as int].code));
                assert(catalogue@.apps.take(i + 1).map_values(|a: AppModel| a.code) =~= catalogue@.apps.take(
                    i as int,
                ).map_values(|a: AppModel| a.code).push(catalogue@.apps[i as int].code));
                i = i + 1;
            }
            assert(catalogue@.apps.take(i as int) =~= catalogue@.apps);
            match catalogue.app_for_ext(lower.as_str(), every.as_slice()) {
                Some(a) => Ok(a),
                None => Err(prefixed("no Kynoko app opens .", lower.as_str())),
            }
        },
    }
}

/* ------------------------------------------------------------- reconciling */

/// A change to what the user set up, when a new catalogue arrives.
#[derive(Debug)]
pub enum Step {
    /// Take away the associations of the app of that code, as the prior catalogue has it.
    Unassociate(String),
    /// Associate the app of that code, as the new catalogue has it.
    Associate(String),
    /// Take away the shortcuts of the app of that code, as the prior catalogue has it.
    RemoveShortcuts(String),
    /// Create the shortcuts of the app of that code, as the new catalogue has it.
    CreateShortcuts(String),
}

/// A step, as a value.
pub enum StepModel {
    Unassociate(Seq<char>),
    Associate(Seq<char>),
    RemoveShortcuts(Seq<char>),
    CreateShortcuts(Seq<char>),
}

impl View for Step {
    type V = StepModel;

    open spec fn view(&self) -> StepModel {
        match self {
            Step::Unassociate(c) => StepModel::Unassociate(c@),
            Step::Associate(c) => StepModel::Associate(c@),
            Step::RemoveShortcuts(c) => StepModel::RemoveShortcuts(c@),
            Step::CreateShortcuts(c) => StepModel::CreateShortcuts(c@),
        }
    }
}

/// The app of that code in a catalogue, if it has one.
pub open spec fn app_of(c: CatalogueModel, code: Seq<char>) -> Option<AppModel> {
    match app_index(c.apps, code) {
        Some(i) => Some(c.apps[i]),
        None => None,
    }
}

/// The app of that code in a catalogue, if it has one and it is live.
pub open spec fn live_app_of(c: CatalogueModel, code: Seq<char>) -> Option<AppModel> {
    match app_of(c, code) {
        Some(a) => if a.status == "live"@ {
            Some(a)
        } else {
            None
        },
        None => None,
    }
}

/// The app left the catalogue: the old one has it, the new one does not,
/// or no longer as a live app.
pub open spec fn left(prior: CatalogueModel, fresh: CatalogueModel, code: Seq<char>) -> bool {
    app_of(prior, code) is Some && live_app_of(fresh, code) is None
}

/// What a new catalogue changes in the associations of one app: nothing
/// when its extensions stay the same (or the prior catalogue did not have
/// it); else they go, and come back from its new definition if it is
/// still there.
pub open spec fn assoc_change(prior: CatalogueModel, fresh: CatalogueModel, code: Seq<char>) -> Seq<StepModel> {
    match app_of(prior, code) {
        None => seq![],
        Some(before) => match live_app_of(fresh, code) {
            Some(after) => if facade_exts(after.facades) == facade_exts(before.facades) {
                seq![]
            } else {
                seq![StepModel::Unassociate(code), StepModel::Associate(code)]
            },
            None => seq![StepModel::Unassociate(code)],
        },
    }
}

/// What a new catalogue changes in the shortcuts of one app: nothing when
/// the app is the same (or the prior catalogue did not have it); else they
/// are rebuilt from its new definition, or just go if it left.
pub open spec fn shortcut_change(prior: CatalogueModel, fresh: CatalogueModel, code: Seq<char>) -> Seq<StepModel> {
    match app_of(prior, code) {
        None => seq![],
        Some(before) => match live_app_of(fresh, code) {
            Some(after) => if same_app(after, before) {
                seq![]
            } else {
                seq![StepModel::RemoveShortcuts(code), StepModel::CreateShortcuts(code)]
            },
            None => seq![StepModel::RemoveShortcuts(code)],
        },
    }
}

/// The association changes of the apps `codes`, in order.
pub open spec fn assoc_changes(prior: CatalogueModel, fresh: CatalogueModel, codes: Seq<Seq<char>>) -> Seq<StepModel>
    decreases codes.len(),
{
    if codes.len() == 0 {
        seq![]
    } else {
        assoc_changes(prior, fresh, codes.drop_last()) + assoc_change(prior, fresh, codes.last())
    }
}

/// The shortcut changes of the apps `codes`, in order.
pub open spec fn shortcut_changes(prior: CatalogueModel, fresh: CatalogueModel, codes: Seq<Seq<char>>) -> Seq<StepModel>
    decreases codes.len(),
{
    if codes.len() == 0 {
        seq![]
    } else {
        shortcut_changes(prior, fresh, codes.drop_last()) + shortcut_change(prior, fresh, codes.last())
    }
}

/// `codes` without the apps that left.
pub open spec fn still_there(prior: CatalogueModel, fresh: CatalogueModel, codes: Seq<Seq<char>>) -> Seq<Seq<char>>
    decreases codes.len(),
{
    if codes.len() == 0 {
        seq![]
    } else if left(prior, fresh, codes.last()) {
        still_there(prior, fresh, codes.drop_last())
    } else {
        still_there(prior, fresh, codes.drop_last()).push(codes.last())
    }
}

/// The app a step is about.
pub open spec fn step_code(s: StepModel) -> Seq<char> {
    match s {
        StepModel::Unassociate(c) => c,
        StepModel::Associate(c) => c,
        StepModel::RemoveShortcuts(c) => c,
        StepModel::CreateShortcuts(c) => c,
    }
}

/// A new catalogue touches only what the user chose: every association
/// step is about an app the user associated, every shortcut step about an
/// app the user gave shortcuts, and no app is added to either choice.
pub proof fn law_reconcile_only_chosen(
    prior: CatalogueModel,
    fresh: CatalogueModel,
    associated: Seq<Seq<char>>,
    shortcuts: Seq<Seq<char>>,
)
    ensures
        forall|i: int|
            0 <= i < assoc_changes(prior, fresh, associated).len() ==> {
                let st = #[trigger] assoc_changes(prior, fresh, associated)[i];
                &&& (st is Unassociate || st is Associate)
                &&& associated.contains(step_code(st))
            },
        forall|i: int|
            0 <= i < shortcut_changes(prior, fresh, shortcuts).len() ==> {
                let st = #[trigger] shortcut_changes(prior, fresh, shortcuts)[i];
                &&& (st is RemoveShortcuts || st is CreateShortcuts)
                &&& shortcuts.contains(step_code(st))
            },
        forall|c: Seq<char>| #[trigger] still_there(prior, fresh, associated).contains(c) ==> associated.contains(c),
        forall|c: Seq<char>| #[trigger] still_there(prior, fresh, shortcuts).contains(c) ==> shortcuts.contains(c),
{
    lemma_assoc_changes(prior, fresh, associated);
    lemma_shortcut_changes(prior, fresh, shortcuts);
    lemma_still_there(prior, fresh, associated);
    lemma_still_there(prior, fresh, shortcuts);
}

proof fn lemma_app_index_same(a: Seq<AppModel>, b: Seq<AppModel>, code: Seq<char>)
    requires
        a.len() == b.len(),
        forall|i: int| 0 <= i < a.len() ==> (#[trigger] a[i]).code == b[i].code,
    ensures
        app_index(a, code) == app_index(b, code),
        app_index(a, code) matches Some(i) ==> 0 <= i < a.len(),
    decreases a.len(),
{
    if a.len() > 0 {
        assert(a[0].code == b[0].code);
        assert forall|i: int| 0 <= i < a.drop_first().len() implies (#[trigger] a.drop_first()[i]).code
            == b.drop_first()[i].code by {
            assert(a.drop_first()[i] == a[i + 1]);
            assert(b.drop_first()[i] == b[i + 1]);
        }
        lemma_app_index_same(a.drop_first(), b.drop_first(), code);
    }
}

proof fn lemma_facade_exts_same(fa: Seq<FacadeModel>, fb: Seq<FacadeModel>)
    requires
        fa.len() == fb.len(),
        forall|i: int| 0 <= i < fa.len() ==> (#[trigger] fa[i]).files == fb[i].files,
    ensures
        facade_exts(fa) == facade_exts(fb),
    decreases fa.len(),
{
    if fa.len() > 0 {
        let da = fa.drop_last();
        let db = fb.drop_last();
        assert forall|i: int| 0 <= i < da.len() implies (#[trigger] da[i]).files == db[i].files by {
            assert(da[i] == fa[i]);
            assert(db[i] == fb[i]);
        }
        lemma_facade_exts_same(da, db);
        assert(fa[fa.len() - 1].files == fb[fb.len() - 1].files);
    }
}

/// The app of a code in two catalogues of the same content: in both or in
/// neither, alike, with the same file types.
proof fn lemma_same_content_app(prior: CatalogueModel, fresh: CatalogueModel, code: Seq<char>)
    requires
        same_content(prior, fresh),
    ensures
        app_of(prior, code) is Some <==> app_of(fresh, code) is Some,
        app_of(prior, code) matches Some(before) ==> {
            let after = app_of(fresh, code).unwrap();
            &&& same_app(after, before)
            &&& after.status == before.status
            &&& facade_exts(after.facades) == facade_exts(before.facades)
        },
{
    assert forall|i: int| 0 <= i < prior.apps.len() implies (#[trigger] prior.apps[i]).code == fresh.apps[i].code by {
        assert(same_app(prior.apps[i], fresh.apps[i]));
    }
    lemma_app_index_same(prior.apps, fresh.apps, code);
    if let Some(i) = app_index(prior.apps, code) {
        let before = prior.apps[i];
        let after = fresh.apps[i];
        assert(same_app(before, after));
        assert forall|k: int| 0 <= k < after.facades.len() implies same_facade(#[trigger] after.facades[k], before.facades[k]) by {
            assert(same_facade(before.facades[k], after.facades[k]));
        }
        assert(same_app(after, before));
        lemma_facade_exts_same(after.facades, before.facades);
    }
}

/// An app that is no longer live is taken away as if it had left: its
/// associations and shortcuts go, and nothing is made again.
pub proof fn law_not_live_leaves(prior: CatalogueModel, fresh: CatalogueModel, code: Seq<char>)
    requires
        app_of(prior, code) is Some,
        app_of(fresh, code) matches Some(a) && a.status != "live"@,
    ensures
        left(prior, fresh, code),
        assoc_change(prior, fresh, code) == seq![StepModel::Unassociate(code)],
        shortcut_change(prior, fresh, code) == seq![StepModel::RemoveShortcuts(code)],
{
}

/// A new catalogue only ever takes apps out of the user's choices, in
/// order: each list becomes the apps of it that did not leave.
pub proof fn law_reconcile_keeps_order(prior: CatalogueModel, fresh: CatalogueModel, codes: Seq<Seq<char>>)
    ensures
        still_there(prior, fresh, codes) == codes.filter(|c: Seq<char>| !left(prior, fresh, c)),
    decreases codes.len(),
{
    reveal(Seq::filter);
    if codes.len() > 0 {
        law_reconcile_keeps_order(prior, fresh, codes.drop_last());
    }
}

/// The apps of `codes` that `c` has are live in it.
pub open spec fn chosen_live(c: CatalogueModel, codes: Seq<Seq<char>>) -> bool {
    forall|i: int| 0 <= i < codes.len() ==> (app_of(c, #[trigger] codes[i]) matches Some(a) ==> a.status == "live"@)
}

/// A catalogue that brings nothing new changes nothing of what the user set
/// up: no association or shortcut is taken away or rebuilt, and every app
/// the user chose stays chosen (for chosen apps that were live: one that
/// was not is taken away whatever comes).
pub proof fn law_same_content_changes_nothing(
    prior: CatalogueModel,
    fresh: CatalogueModel,
    associated: Seq<Seq<char>>,
    shortcuts: Seq<Seq<char>>,
)
    requires
        same_content(prior, fresh),
        chosen_live(prior, associated),
        chosen_live(prior, shortcuts),
    ensures
        assoc_changes(prior, fresh, associated) == Seq::<StepModel>::empty(),
        shortcut_changes(prior, fresh, shortcuts) == Seq::<StepModel>::empty(),
        still_there(prior, fresh, associated) == associated,
        still_there(prior, fresh, shortcuts) == shortcuts,
{
    lemma_same_changes(prior, fresh, associated);
    lemma_same_changes(prior, fresh, shortcuts);
}

proof fn lemma_same_changes(prior: CatalogueModel, fresh: CatalogueModel, codes: Seq<Seq<char>>)
    requires
        same_content(prior, fresh),
        chosen_live(prior, codes),
    ensures
        assoc_changes(prior, fresh, codes) == Seq::<StepModel>::empty(),
        shortcut_changes(prior, fresh, codes) == Seq::<StepModel>::empty(),
        still_there(prior, fresh, codes) == codes,
    decreases codes.len(),
{
    if codes.len() > 0 {
        let d = codes.drop_last();
        assert forall|i: int| 0 <= i < d.len() implies (app_of(prior, #[trigger] d[i]) matches Some(a) ==> a.status
            == "live"@) by {
            assert(d[i] == codes[i]);
        }
        lemma_same_changes(prior, fresh, d);
        assert(codes[codes.len() - 1] == codes.last());
        lemma_same_content_app(prior, fresh, codes.last());
        assert(assoc_change(prior, fresh, codes.last()) =~= Seq::<StepModel>::empty());
        assert(shortcut_change(prior, fresh, codes.last()) =~= Seq::<StepModel>::empty());
        assert(!left(prior, fresh, codes.last()));
        assert(codes.drop_last().push(codes.last()) =~= codes);
    }
}

proof fn lemma_assoc_changes(prior: CatalogueModel, fresh: CatalogueModel, codes: Seq<Seq<char>>)
    ensures
        forall|i: int|
            0 <= i < assoc_changes(prior, fresh, codes).len() ==> {
                let st = #[trigger] assoc_changes(prior, fresh, codes)[i];
                &&& (st is Unassociate || st is Associate)
                &&& codes.contains(step_code(st))
            },
    decreases codes.len(),
{
    if codes.len() > 0 {
        let before = codes.drop_last();
        lemma_assoc_changes(prior, fresh, before);
        let a = assoc_changes(prior, fresh, before);
        let b = assoc_change(prior, fresh, codes.last());
        assert forall|i: int| 0 <= i < (a + b).len() implies {
            let st = #[trigger] (a + b)[i];
            &&& (st is Unassociate || st is Associate)
            &&& codes.contains(step_code(st))
        } by {
            if i < a.len() {
                assert((a + b)[i] == a[i]);
                let j = choose|j: int| 0 <= j < before.len() && before[j] == step_code(a[i]);
                assert(codes[j] == before[j]);
            } else {
                assert((a + b)[i] == b[i - a.len()]);
                assert(codes[codes.len() - 1] == codes.last());
            }
        }
    }
}

proof fn lemma_shortcut_changes(prior: CatalogueModel, fresh: CatalogueModel, codes: Seq<Seq<char>>)
    ensures
        forall|i: int|
            0 <= i < shortcut_changes(prior, fresh, codes).len() ==> {
                let st = #[trigger] shortcut_changes(prior, fresh, codes)[i];
                &&& (st is RemoveShortcuts || st is CreateShortcuts)
                &&& codes.contains(step_code(st))
            },
    decreases codes.len(),
{
    if codes.len() > 0 {
        let before = codes.drop_last();
        lemma_shortcut_changes(prior, fresh, before);
        let a = shortcut_changes(prior, fresh, before);
        let b = shortcut_change(prior, fresh, codes.last());
        assert forall|i: int| 0 <= i < (a + b).len() implies {
            let st = #[trigger] (a + b)[i];
            &&& (st is RemoveShortcuts || st is CreateShortcuts)
            &&& codes.contains(step_code(st))
        } by {
            if i < a.len() {
                assert((a + b)[i] == a[i]);
                let j = choose|j: int| 0 <= j < before.len() && before[j] == step_code(a[i]);
                assert(codes[j] == before[j]);
            } else {
                assert((a + b)[i] == b[i - a.len()]);
                assert(codes[codes.len() - 1] == codes.last());
            }
        }
    }
}

proof fn lemma_still_there(prior: CatalogueModel, fresh: CatalogueModel, codes: Seq<Seq<char>>)
    ensures
        forall|c: Seq<char>| #[trigger] still_there(prior, fresh, codes).contains(c) ==> codes.contains(c),
    decreases codes.len(),
{
    if codes.len() > 0 {
        let before = codes.drop_last();
        lemma_still_there(prior, fresh, before);
        assert forall|c: Seq<char>| #[trigger] still_there(prior, fresh, codes).contains(c) implies codes.contains(c) by {
            let w = still_there(prior, fresh, before);
            if left(prior, fresh, codes.last()) {
                assert(w.contains(c));
                assert(before.contains(c));
                let j = choose|j: int| 0 <= j < before.len() && before[j] == c;
                assert(codes[j] == c);
            } else {
                let k = choose|k: int| 0 <= k < w.push(codes.last()).len() && w.push(codes.last())[k] == c;
                if k < w.len() {
                    assert(w[k] == c);
                    assert(w.contains(c));
                    assert(before.contains(c));
                    let j = choose|j: int| 0 <= j < before.len() && before[j] == c;
                    assert(codes[j] == c);
                } else {
                    assert(codes[codes.len() - 1] == c);
                }
            }
        }
    }
}

/// A link cannot steer the launcher: the app a link names is always a
/// plain app code (1 to 40 ASCII letters and digits).
pub proof fn law_plain_app_param(url: Seq<char>)
    ensures
        app_param_of(url) matches Some(c) ==> plain_code(c),
{
}

fn same_exts(a: &Vec<String>, b: &Vec<String>) -> (r: bool)
    ensures
        r == (a.deep_view() == b.deep_view()),
{
    if a.len() != b.len() {
        assert(a.deep_view().len() != b.deep_view().len());
        return false;
    }
    let mut i: usize = 0;
    while i < a.len()
        invariant
            i <= a@.len() == b@.len(),
            forall|j: int| 0 <= j < i ==> a.deep_view()[j] == b.deep_view()[j],
        decreases a@.len() - i,
    {
        assert(a.deep_view()[i as int] == a@[i as int]@);
        assert(b.deep_view()[i as int] == b@[i as int]@);
        if a[i] != b[i] {
            return false;
        }
        i = i + 1;
    }
    assert(a.deep_view() =~= b.deep_view());
    true
}

fn app_model<'a>(c: &'a Catalogue, code: &str) -> (r: Option<&'a App>)
    ensures
        match r {
            Some(a) => app_of(c@, code@) == Some(a@),
            None => app_of(c@, code@) is None,
        },
{
    let r = c.app(code);
    match r {
        Some(a) => {
            proof {
                let i = choose|i: int| app_index(c@.apps, code@) == Some(i) && 0 <= i < c.apps@.len() && *a == c.apps@[i];
                assert(c@.apps[i] == a@);
            }
            r
        },
        None => r,
    }
}

fn live_app_model<'a>(c: &'a Catalogue, code: &str) -> (r: Option<&'a App>)
    ensures
        match r {
            Some(a) => live_app_of(c@, code@) == Some(a@),
            None => live_app_of(c@, code@) is None,
        },
{
    match app_model(c, code) {
        Some(a) => {
            if eq_chars(&chars_of(a.status.as_str()), &chars_of("live")) {
                Some(a)
            } else {
                None
            }
        },
        None => None,
    }
}

/// What a new catalogue changes in what the user set up: an app that left
/// (gone, or no longer live) loses its associations and shortcuts; a changed app has them rebuilt
/// from its new definition. Nothing is added that the user did not ask
/// for: only apps already chosen are touched. Returns the steps, the
/// associations' first, and takes the apps that left out of `settings`.
pub fn reconcile(prior: &Catalogue, fresh: &Catalogue, settings: &mut Settings) -> (r: Vec<Step>)
    ensures
        r@.map_values(|s: Step| s@) == assoc_changes(prior@, fresh@, old(settings).associated_apps.deep_view())
            + shortcut_changes(prior@, fresh@, old(settings).shortcut_apps.deep_view()),
        final(settings).associated_apps.deep_view() == still_there(
            prior@,
            fresh@,
            old(settings).associated_apps.deep_view(),
        ),
        final(settings).shortcut_apps.deep_view() == still_there(prior@, fresh@, old(settings).shortcut_apps.deep_view()),
        final(settings).default_browser == old(settings).default_browser,
        final(settings).app_browsers == old(settings).app_browsers,
        final(settings).default_profile == old(settings).default_profile,
        final(settings).app_profiles == old(settings).app_profiles,
        final(settings).catalogue_url == old(settings).catalogue_url,
        final(settings).ui_lang == old(settings).ui_lang,
        final(settings).app_urls == old(settings).app_urls,
{
    let mut out: Vec<Step> = Vec::new();
    let ghost assoc = settings.associated_apps.deep_view();
    let ghost shortcut = settings.shortcut_apps.deep_view();
    let mut kept: Vec<String> = Vec::new();
    let mut i: usize = 0;
    assert(assoc.take(0) =~= Seq::<Seq<char>>::empty());
    while i < settings.associated_apps.len()
        invariant
            i <= settings.associated_apps@.len(),
            assoc == settings.associated_apps.deep_view(),
            out@.map_values(|s: Step| s@) == assoc_changes(prior@, fresh@, assoc.take(i as int)),
            kept.deep_view() == still_there(prior@, fresh@, assoc.take(i as int)),
        decreases settings.associated_apps@.len() - i,
    {
        assert(assoc.take(i + 1).drop_last() =~= assoc.take(i as int));
        assert(assoc.take(i + 1).last() == assoc[i as int]);
        let code = settings.associated_apps[i].clone();
        assert(code@ == assoc[i as int]);
        let ghost before_out = out@.map_values(|s: Step| s@);
        let ghost before_kept = kept.deep_view();
        match app_model(prior, code.as_str()) {
            None => {
                kept.push(code);
                assert(kept.deep_view() =~= before_kept.push(assoc[i as int]));
                assert(out@.map_values(|s: Step| s@) =~= before_out + assoc_change(prior@, fresh@, assoc[i as int]));
            },
            Some(before) => {
                match live_app_model(fresh, code.as_str()) {
                    Some(after) => {
                        if !same_exts(&after.extensions(), &before.extensions()) {
                            out.push(Step::Unassociate(code.clone()));
                            out.push(Step::Associate(code.clone()));
                        }
                        kept.push(code);
                        assert(kept.deep_view() =~= before_kept.push(assoc[i as int]));
                    },
                    None => {
                        out.push(Step::Unassociate(code));
                    },
                }
                assert(out@.map_values(|s: Step| s@) =~= before_out + assoc_change(prior@, fresh@, assoc[i as int]));
            },
        }
        i = i + 1;
    }
    assert(assoc.take(i as int) =~= assoc);
    let ghost mid = out@.map_values(|s: Step| s@);
    let mut kept_shortcuts: Vec<String> = Vec::new();
    let mut j: usize = 0;
    assert(shortcut.take(0) =~= Seq::<Seq<char>>::empty());
    while j < settings.shortcut_apps.len()
        invariant
            j <= settings.shortcut_apps@.len(),
            shortcut == settings.shortcut_apps.deep_view(),
            out@.map_values(|s: Step| s@) == mid + shortcut_changes(prior@, fresh@, shortcut.take(j as int)),
            kept_shortcuts.deep_view() == still_there(prior@, fresh@, shortcut.take(j as int)),
        decreases settings.shortcut_apps@.len() - j,
    {
        assert(shortcut.take(j + 1).drop_last() =~= shortcut.take(j as int));
        assert(shortcut.take(j + 1).last() == shortcut[j as int]);
        let code = settings.shortcut_apps[j].clone();
        assert(code@ == shortcut[j as int]);
        let ghost before_out = out@.map_values(|s: Step| s@);
        let ghost before_kept = kept_shortcuts.deep_view();
        match app_model(prior, code.as_str()) {
            None => {
                kept_shortcuts.push(code);
                assert(kept_shortcuts.deep_view() =~= before_kept.push(shortcut[j as int]));
                assert(out@.map_values(|s: Step| s@) =~= before_out + shortcut_change(prior@, fresh@, shortcut[j as int]));
            },
            Some(before) => {
                match live_app_model(fresh, code.as_str()) {
                    Some(after) => {
                        if !after.same(before) {
                            out.push(Step::RemoveShortcuts(code.clone()));
                            out.push(Step::CreateShortcuts(code.clone()));
                        }
                        kept_shortcuts.push(code);
                        assert(kept_shortcuts.deep_view() =~= before_kept.push(shortcut[j as int]));
                    },
                    None => {
                        out.push(Step::RemoveShortcuts(code));
                    },
                }
                assert(out@.map_values(|s: Step| s@) =~= before_out + shortcut_change(
                    prior@,
                    fresh@,
                    shortcut[j as int],
                ));
            },
        }
        j = j + 1;
    }
    assert(shortcut.take(j as int) =~= shortcut);
    settings.associated_apps = kept;
    settings.shortcut_apps = kept_shortcuts;
    out
}

/* ------------------------------------------------------------------ the window */

/// What the settings window shows of an app.
#[derive(Debug)]
pub struct AppView {
    pub code: String,
    pub name: String,
    pub extensions: Vec<String>,
    pub associated: bool,
    pub shortcuts: bool,
    pub browser: Option<String>,
    pub profile: Option<String>,
}

/// What the window shows of each app of the catalogue, in order: its name in
/// the window's language `lang`, its file types, whether it is associated
/// and has shortcuts, and its own browser and profile if it has them.
pub fn app_views(catalogue: &Catalogue, settings: &Settings, lang: &str) -> (r: Vec<AppView>)
    ensures
        r@.len() == catalogue.apps@.len(),
        forall|i: int|
            0 <= i < r@.len() ==> {
                let a = catalogue@.apps[i];
                let v = #[trigger] r@[i];
                &&& v.code@ == a.code
                &&& v.name@ == crate::catalogue::localized(a.names, lang@, a.code)
                &&& v.extensions.deep_view() == facade_exts(a.facades)
                &&& v.associated == settings.associated_apps.deep_view().contains(a.code)
                &&& v.shortcuts == settings.shortcut_apps.deep_view().contains(a.code)
                &&& opt_view(v.browser) == map_get(settings.app_browsers@, a.code)
                &&& opt_view(v.profile) == map_get(settings.app_profiles@, a.code)
            },
{
    let mut out: Vec<AppView> = Vec::new();
    let mut i: usize = 0;
    while i < catalogue.apps.len()
        invariant
            i <= catalogue.apps@.len(),
            out@.len() == i,
            forall|k: int|
                0 <= k < i ==> {
                    let a = catalogue@.apps[k];
                    let v = #[trigger] out@[k];
                    &&& v.code@ == a.code
                    &&& v.name@ == crate::catalogue::localized(a.names, lang@, a.code)
                    &&& v.extensions.deep_view() == facade_exts(a.facades)
                    &&& v.associated == settings.associated_apps.deep_view().contains(a.code)
                    &&& v.shortcuts == settings.shortcut_apps.deep_view().contains(a.code)
                    &&& opt_view(v.browser) == map_get(settings.app_browsers@, a.code)
                    &&& opt_view(v.profile) == map_get(settings.app_profiles@, a.code)
                },
        decreases catalogue.apps@.len() - i,
    {
        let a = &catalogue.apps[i];
        assert(catalogue@.apps[i as int] == a@);
        let view = AppView {
            code: a.code.clone(),
            name: a.name(lang),
            extensions: a.extensions(),
            associated: crate::settings::has_code(&settings.associated_apps, &a.code),
            shortcuts: crate::settings::has_code(&settings.shortcut_apps, &a.code),
            browser: settings.app_browsers.get(a.code.as_str()),
            profile: settings.app_profiles.get(a.code.as_str()),
        };
        out.push(view);
        i = i + 1;
    }
    out
}

/* ------------------------------------------------------------------ the agent */

/// How long a freshly opened session waits for its page before the agent
/// may quit, in milliseconds (the browser can take a while to start).
pub const FIRST_CONTACT_MS: u64 = 120000;

/// The agent can quit: no window is shown, no bridge session is live, and
/// no file opened less than `FIRST_CONTACT_MS` ago (at `last_open`, in
/// milliseconds on a clock that only goes forward) still waits for its page.
pub open spec fn idle_of(window_shown: bool, live: usize, last_open: Option<u64>, now: u64) -> bool {
    &&& !window_shown
    &&& live == 0
    &&& match last_open {
        Some(t) => !(now >= t && now - t < 120000) && now >= t,
        None => true,
    }
}

/// The agent can quit (see `idle_of`).
pub fn idle(window_shown: bool, live: usize, last_open: Option<u64>, now: u64) -> (r: bool)
    ensures
        r == idle_of(window_shown, live, last_open, now),
{
    let waiting = match last_open {
        Some(t) => now < t || now - t < FIRST_CONTACT_MS,
        None => false,
    };
    !window_shown && live == 0 && !waiting
}

/// A manual "check now" goes ahead: at most one a minute, whatever the
/// button is clicked (`last` and `now` in seconds on a clock that only goes
/// forward).
pub open spec fn manual_check_due_of(last: Option<u64>, now: u64) -> bool {
    match last {
        Some(t) => now >= t && now - t >= 60,
        None => true,
    }
}

/// A manual "check now" goes ahead.
pub fn manual_check_due(last: Option<u64>, now: u64) -> (r: bool)
    ensures
        r == manual_check_due_of(last, now),
{
    match last {
        Some(t) => now >= t && now - t >= 60,
        None => true,
    }
}

/// How long, in seconds, the background check of the catalogue waits first:
/// soon on a first run (nothing but the bundled copy), else 30 s plus a
/// random delay under 570 s, so that machines started together do not all
/// ask together (`jitter` is two random bytes, little-endian).
pub open spec fn first_delay_of(first_run: bool, jitter: (u8, u8)) -> u64 {
    if first_run {
        5
    } else {
        (30 + (jitter.0 as int + 256 * jitter.1 as int) % 570) as u64
    }
}

/// How long the background check of the catalogue waits first, for
/// `jitter` (two random bytes).
pub fn first_delay(first_run: bool, jitter: (u8, u8)) -> (r: u64)
    ensures
        r == first_delay_of(first_run, jitter),
{
    if first_run {
        5
    } else {
        30 + (jitter.0 as u64 + 256 * jitter.1 as u64) % 570
    }
}

/// How long the background check of the catalogue waits first, the jitter
/// drawn from the system's random source (none when it fails: no jitter).
pub fn catalogue_first_delay(first_run: bool) -> (r: u64)
    ensures
        exists|j: (u8, u8)| r == first_delay_of(first_run, j),
        first_run ==> r == 5,
        !first_run ==> 30 <= r < 600,
{
    let jitter = match crate::bridge::os_random() {
        Some(bytes) => (bytes[0], bytes[1]),
        None => (0u8, 0u8),
    };
    first_delay(first_run, jitter)
}


/// A file goes to an app the user associated whenever one may open it:
/// when a live app among `associated` has a facade for the file's
/// lower-cased extension, the app chosen is one of `associated`, whatever
/// the other apps mark primary; the other apps are looked at only when
/// none of those may. The app chosen is live and opens the extension, and
/// there is one exactly when some live app of the catalogue does.
pub proof fn law_file_goes_to_associated(c: CatalogueModel, ext: Seq<char>, associated: Seq<Seq<char>>)
    ensures
        ({
            let e = crate::text::ascii_lower(lowercase(ext));
            let r = app_for_file_index(c, ext, associated);
            &&& (exists|k: int|
                0 <= k < c.apps.len() && c.apps[k].status == "live"@ && opens(c.apps[k], e) && associated.contains(
                    #[trigger] c.apps[k].code,
                )) ==> (r matches Some(i) && 0 <= i < c.apps.len() && associated.contains(c.apps[i].code))
            &&& r matches Some(i) ==> 0 <= i < c.apps.len() && c.apps[i].status == "live"@ && opens(c.apps[i], e)
            &&& r is None <==> forall|k: int|
                0 <= k < c.apps.len() ==> !(#[trigger] c.apps[k].status == "live"@ && opens(c.apps[k], e))
        }),
{
    let x = lowercase(ext);
    let e = crate::text::ascii_lower(x);
    let codes = c.apps.map_values(|a: AppModel| a.code);
    law_app_for_ext(c.apps, x, associated);
    law_app_for_ext(c.apps, x, codes);
    assert forall|k: int| 0 <= k < c.apps.len() implies codes.contains(#[trigger] c.apps[k].code) by {
        assert(codes[k] == c.apps[k].code);
    }
    if exists|k: int|
        0 <= k < c.apps.len() && c.apps[k].status == "live"@ && opens(c.apps[k], e) && associated.contains(
            #[trigger] c.apps[k].code,
        ) {
        let k = choose|k: int|
            0 <= k < c.apps.len() && c.apps[k].status == "live"@ && opens(c.apps[k], e) && associated.contains(
                #[trigger] c.apps[k].code,
            );
        assert(crate::catalogue::eligible(c.apps[k], e, associated));
    }
    if app_for_ext_index(c.apps, x, associated) is None {
        if exists|k: int| 0 <= k < c.apps.len() && (#[trigger] c.apps[k].status == "live"@ && opens(c.apps[k], e)) {
            let k = choose|k: int| 0 <= k < c.apps.len() && (#[trigger] c.apps[k].status == "live"@ && opens(c.apps[k], e));
            assert(codes.contains(c.apps[k].code));
            assert(crate::catalogue::eligible(c.apps[k], e, codes));
        }
    } else {
        let i = app_for_ext_index(c.apps, x, associated).unwrap();
        assert(crate::catalogue::eligible(c.apps[i], e, associated));
    }
}

/// The command that opens an app's address always carries it: the
/// browser's own command (else its program) comes first, unchanged, and
/// the address comes last, as `--app=` and the address for Chromium, after
/// `-new-window` for Gecko (after `-P` and the profile when one is chosen),
/// alone for another engine, and last of the system's opener when no
/// browser is chosen.
pub proof fn law_launch_carries_url(platform: Platform, url: Seq<char>, browser: Option<Browser>, profile: Option<Seq<char>>)
    ensures
        ({
            let cmd = launch_command_of(platform, url, browser, profile);
            let n = cmd.len();
            match browser {
                None => n >= 2 && cmd[n - 1] == url,
                Some(b) => {
                    let head = if b.command@.len() > 0 {
                        b.command.deep_view()
                    } else {
                        seq![b.exe@]
                    };
                    &&& n > head.len()
                    &&& cmd.take(head.len() as int) == head
                    &&& match b.engine {
                        Engine::Chromium => {
                            &&& cmd[n - 1] == "--app="@ + url
                            &&& match profile {
                                Some(p) => n == head.len() + 2 && cmd[n - 2] == "--profile-directory="@ + p,
                                None => n == head.len() + 1,
                            }
                        },
                        Engine::Gecko => {
                            &&& cmd[n - 1] == url
                            &&& cmd[n - 2] == "-new-window"@
                            &&& match profile {
                                Some(p) => n == head.len() + 4 && cmd[n - 4] == "-P"@ && cmd[n - 3] == p,
                                None => n == head.len() + 2,
                            }
                        },
                        _ => n == head.len() + 1 && cmd[n - 1] == url,
                    }
                },
            }
        }),
{
    let cmd = launch_command_of(platform, url, browser, profile);
    match browser {
        None => {},
        Some(b) => {
            let head = if b.command@.len() > 0 {
                b.command.deep_view()
            } else {
                seq![b.exe@]
            };
            let args = engine_args(b.engine, url, profile);
            assert(cmd == head + args);
            assert(cmd.take(head.len() as int) =~= head);
        },
    }
}

} // verus!
