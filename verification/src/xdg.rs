//! The freedesktop.org pieces Linux integration is made of: desktop
//! entries, shared-mime-info packages and `mimeapps.list`. Text in, text out.

use vstd::prelude::*;
use crate::text::{
    after_last, after_last_chars, ascii_lower, ascii_lower_chars, chars_of, eq_chars, first_is, lemma_chars_deep_view,
    is_whitespace, is_ws, join_chars, join_with, lex_lt, lex_lt_chars, lines, lines_of, push_all,
    push_str, slice_chars, split, split_chars, starts_with, starts_with_chars, split_once, split_once_chars, to_string, trim, trim_chars,
    has_char, no_newline, text_of_lines, strip_cr, line_state, trim_start, trim_end, lemma_lines_of_lines, lemma_lines_no_newline,
    lemma_trim_strip_cr, lemma_split_nonempty, first_index, lemma_first_index,
};

verus! {

/* ------------------------------------------------------------ desktop entries */

/// A line that opens a group (`[...]`), once trimmed.
pub open spec fn is_header(line: Seq<char>) -> bool {
    first_is(line, '[')
}

/// `pairs` has a pair whose key is `k`.
pub open spec fn has_key(pairs: Seq<(Seq<char>, Seq<char>)>, k: Seq<char>) -> bool {
    exists|i: int| 0 <= i < pairs.len() && pairs[i].0 == k
}

/// Reading one line of a desktop file: whether the `[Desktop Entry]` group is
/// the current one, and its keys so far (the first occurrence of a key wins).
pub open spec fn entry_step(
    st: (bool, Seq<(Seq<char>, Seq<char>)>),
    raw: Seq<char>,
) -> (bool, Seq<(Seq<char>, Seq<char>)>) {
    let line = trim(raw);
    if is_header(line) {
        (line == "[Desktop Entry]"@, st.1)
    } else if st.0 {
        match split_once(line, '=') {
            Some((k, v)) => if has_key(st.1, trim(k)) {
                st
            } else {
                (st.0, st.1.push((trim(k), trim(v))))
            },
            None => st,
        }
    } else {
        st
    }
}

pub open spec fn entry_fold(ls: Seq<Seq<char>>) -> (bool, Seq<(Seq<char>, Seq<char>)>)
    decreases ls.len(),
{
    if ls.len() == 0 {
        (false, seq![])
    } else {
        entry_step(entry_fold(ls.drop_last()), ls.last())
    }
}

/// The keys and values of the `[Desktop Entry]` group of a desktop file, in
/// the order their first occurrence has them.
pub open spec fn desktop_entry_of(text: Seq<char>) -> Seq<(Seq<char>, Seq<char>)> {
    entry_fold(lines(text)).1
}

/// The value a list of pairs gives `k`: that of the first pair with key `k`.
pub open spec fn lookup(pairs: Seq<(Seq<char>, Seq<char>)>, k: Seq<char>) -> Option<Seq<char>>
    decreases pairs.len(),
{
    if pairs.len() == 0 {
        None
    } else if pairs[0].0 == k {
        Some(pairs[0].1)
    } else {
        lookup(pairs.drop_first(), k)
    }
}

fn has_key_exec(pairs: &Vec<(Vec<char>, Vec<char>)>, k: &Vec<char>) -> (b: bool)
    ensures
        b == has_key(pairs.deep_view(), k@),
{
    let mut i: usize = 0;
    while i < pairs.len()
        invariant
            i <= pairs@.len(),
            forall|j: int| 0 <= j < i ==> pairs.deep_view()[j].0 != k@,
        decreases pairs@.len() - i,
    {
        assert(pairs.deep_view()[i as int].0 == pairs@[i as int].0@);
        if eq_chars(&pairs[i].0, k) {
            return true;
        }
        i = i + 1;
    }
    false
}

/// Pairs of character vectors as pairs of strings.
pub fn pairs_to_strings(v: &Vec<(Vec<char>, Vec<char>)>) -> (r: Vec<(String, String)>)
    ensures
        r.deep_view() == v.deep_view(),
{
    let mut r: Vec<(String, String)> = Vec::new();
    let mut i: usize = 0;
    while i < v.len()
        invariant
            i <= v@.len(),
            r.deep_view() == v.deep_view().take(i as int),
        decreases v@.len() - i,
    {
        let ghost rv = r.deep_view();
        proof {
            lemma_chars_deep_view(v@[i as int].0);
            lemma_chars_deep_view(v@[i as int].1);
        }
        let k = to_string(&v[i].0);
        let val = to_string(&v[i].1);
        r.push((k, val));
        assert(r.deep_view() =~= rv.push((v@[i as int].0@, v@[i as int].1@)));
        assert(v.deep_view().take(i + 1) =~= v.deep_view().take(i as int).push(v.deep_view()[i as int]));
        i = i + 1;
    }
    assert(v.deep_view().take(i as int) =~= v.deep_view());
    r
}

/// The `[Desktop Entry]` group of a .desktop file (other groups ignored): its
/// keys and values, trimmed, each key once (its first occurrence).
pub fn desktop_entry(text: &str) -> (r: Vec<(String, String)>)
    ensures
        r.deep_view() == desktop_entry_of(text@),
{
    let chars = chars_of(text);
    let ls = lines_of(&chars);
    let header = chars_of("[Desktop Entry]");
    let mut out: Vec<(Vec<char>, Vec<char>)> = Vec::new();
    let mut inside = false;
    let mut i: usize = 0;
    assert(ls.deep_view().take(0) =~= Seq::<Seq<char>>::empty());
    while i < ls.len()
        invariant
            i <= ls@.len(),
            ls.deep_view() == lines(text@),
            header@ == "[Desktop Entry]"@,
            (inside, out.deep_view()) == entry_fold(ls.deep_view().take(i as int)),
        decreases ls@.len() - i,
    {
        let ghost before = ls.deep_view().take(i as int);
        assert(ls.deep_view().take(i + 1).drop_last() =~= before);
        assert(ls.deep_view().take(i + 1).last() == ls@[i as int]@);
        let line = trim_chars(&ls[i]);
        if line.len() > 0 && line[0] == '[' {
            inside = eq_chars(&line, &header);
        } else if inside {
            match split_once_chars(&line, '=') {
                Some((k, v)) => {
                    let key = trim_chars(&k);
                    if !has_key_exec(&out, &key) {
                        let value = trim_chars(&v);
                        let ghost ov = out.deep_view();
                        let ghost pair = (key@, value@);
                        proof {
                            lemma_chars_deep_view(key);
                            lemma_chars_deep_view(value);
                        }
                        out.push((key, value));
                        assert(out.deep_view() =~= ov.push(pair));
                    }
                },
                None => {},
            }
        }
        i = i + 1;
    }
    assert(ls.deep_view().take(i as int) =~= ls.deep_view());
    pairs_to_strings(&out)
}

/// The value `entry` gives `key` (`entry["Name"]`), if any.
pub fn entry_get(entry: &[(String, String)], key: &str) -> (r: Option<String>)
    ensures
        match r {
            Some(v) => lookup(entry.deep_view(), key@) == Some(v@),
            None => lookup(entry.deep_view(), key@) is None,
        },
{
    let k = key.to_owned();
    let mut i: usize = 0;
    assert(entry.deep_view().skip(0) =~= entry.deep_view());
    while i < entry.len()
        invariant
            i <= entry@.len(),
            k@ == key@,
            lookup(entry.deep_view(), key@) == lookup(entry.deep_view().skip(i as int), key@),
        decreases entry@.len() - i,
    {
        let ghost rest = entry.deep_view().skip(i as int);
        assert(rest[0] == (entry@[i as int].0@, entry@[i as int].1@));
        assert(rest.drop_first() =~= entry.deep_view().skip(i + 1));
        if entry[i].0 == k {
            return Some(entry[i].1.clone());
        }
        i = i + 1;
    }
    None
}

/* ------------------------------------------------------------------ Exec lines */

/// Reading one character of an Exec value: the arguments so far, the one
/// being read, inside quotes or not, whether an argument has started, and
/// whether the previous character was an escaping backslash.
pub open spec fn argv_step(
    st: (Seq<Seq<char>>, Seq<char>, bool, bool, bool),
    c: char,
) -> (Seq<Seq<char>>, Seq<char>, bool, bool, bool) {
    let (args, cur, quoted, started, escaped) = st;
    if escaped {
        (args, cur.push(c), quoted, started, false)
    } else if c == '"' {
        (args, cur, !quoted, true, false)
    } else if c == '\\' && quoted {
        (args, cur, quoted, started, true)
    } else if is_ws(c) && !quoted {
        if started {
            (args.push(cur), seq![], quoted, false, false)
        } else {
            st
        }
    } else {
        (args, cur.push(c), quoted, true, false)
    }
}

pub open spec fn argv_fold(s: Seq<char>) -> (Seq<Seq<char>>, Seq<char>, bool, bool, bool)
    decreases s.len(),
{
    if s.len() == 0 {
        (seq![], seq![], false, false, false)
    } else {
        argv_step(argv_fold(s.drop_last()), s.last())
    }
}

/// The words of an Exec value, quotes honoured, before field codes are dropped.
pub open spec fn raw_argv(s: Seq<char>) -> Seq<Seq<char>> {
    let st = argv_fold(s);
    if st.3 {
        st.0.push(st.1)
    } else {
        st.0
    }
}

/// A field code (`%u`, `%F`...: two bytes, a percent then any ASCII
/// character but a percent) or one of Flatpak's file-forwarding markers.
pub open spec fn dropped_arg(a: Seq<char>) -> bool {
    ||| (a.len() == 2 && a[0] == '%' && (a[1] as u32) < 0x80 && a[1] != '%')
    ||| a == seq!['@', '@']
    ||| a == seq!['@', '@', 'u']
}

/// `%%` read as a literal percent, left to right.
pub open spec fn unescape_percent(s: Seq<char>) -> Seq<char>
    decreases s.len(),
{
    if s.len() >= 2 && s[0] == '%' && s[1] == '%' {
        seq!['%'] + unescape_percent(s.skip(2))
    } else if s.len() > 0 {
        seq![s[0]] + unescape_percent(s.skip(1))
    } else {
        seq![]
    }
}

/// The words kept, each with `%%` read as `%`.
pub open spec fn clean_argv(a: Seq<Seq<char>>) -> Seq<Seq<char>>
    decreases a.len(),
{
    if a.len() == 0 {
        seq![]
    } else {
        let r = clean_argv(a.drop_last());
        if dropped_arg(a.last()) {
            r
        } else {
            r.push(unescape_percent(a.last()))
        }
    }
}

/// An Exec value as argv.
pub open spec fn exec_argv_of(s: Seq<char>) -> Seq<Seq<char>> {
    clean_argv(raw_argv(s))
}

fn unescape_percent_chars(s: &Vec<char>) -> (r: Vec<char>)
    ensures
        r@ == unescape_percent(s@),
{
    let mut out: Vec<char> = Vec::new();
    let mut i: usize = 0;
    assert(s@.skip(0) =~= s@);
    while i < s.len()
        invariant
            i <= s@.len(),
            out@ + unescape_percent(s@.skip(i as int)) == unescape_percent(s@),
        decreases s@.len() - i,
    {
        let ghost rest = s@.skip(i as int);
        if i + 1 < s.len() && s[i] == '%' && s[i + 1] == '%' {
            assert(rest.skip(2) =~= s@.skip(i + 2));
            out.push('%');
            i = i + 2;
        } else {
            assert(rest.skip(1) =~= s@.skip(i + 1));
            out.push(s[i]);
            i = i + 1;
        }
        assert(out@ + unescape_percent(s@.skip(i as int)) =~= unescape_percent(s@));
    }
    assert(out@ + unescape_percent(s@.skip(i as int)) =~= out@);
    out
}

fn dropped_arg_exec(a: &Vec<char>) -> (b: bool)
    ensures
        b == dropped_arg(a@),
{
    let n = a.len();
    if n == 2 && a[0] == '%' && (a[1] as u32) < 0x80 && a[1] != '%' {
        return true;
    }
    let r = (n == 2 && a[0] == '@' && a[1] == '@') || (n == 3 && a[0] == '@' && a[1] == '@' && a[2]
        == 'u');
    proof {
        if n == 2 && a[0] == '@' && a[1] == '@' {
            assert(a@ =~= seq!['@', '@']);
        }
        if n == 3 && a[0] == '@' && a[1] == '@' && a[2] == 'u' {
            assert(a@ =~= seq!['@', '@', 'u']);
        }
    }
    r
}

/// An Exec line as argv: quotes honoured, field codes (%u %F...) dropped,
/// `%%` kept as a literal percent.
pub fn exec_argv(exec: &str) -> (r: Vec<String>)
    ensures
        r.deep_view() == exec_argv_of(exec@),
{
    let s = chars_of(exec);
    let mut args: Vec<Vec<char>> = Vec::new();
    let mut cur: Vec<char> = Vec::new();
    let mut quoted = false;
    let mut started = false;
    let mut escaped = false;
    let mut i: usize = 0;
    assert(s@.take(0) =~= Seq::<char>::empty());
    while i < s.len()
        invariant
            i <= s@.len(),
            s@ == exec@,
            (args.deep_view(), cur@, quoted, started, escaped) == argv_fold(s@.take(i as int)),
        decreases s@.len() - i,
    {
        assert(s@.take(i + 1).drop_last() =~= s@.take(i as int));
        let c = s[i];
        let ghost av = args.deep_view();
        if escaped {
            cur.push(c);
            escaped = false;
        } else if c == '"' {
            quoted = !quoted;
            started = true;
        } else if c == '\\' && quoted {
            escaped = true;
        } else if is_whitespace(c) && !quoted {
            if started {
                let word = cur;
                let ghost w = word@;
                assert(word.deep_view() =~= w);
                args.push(word);
                assert(args.deep_view() =~= av.push(w));
                cur = Vec::new();
                started = false;
            }
        } else {
            cur.push(c);
            started = true;
        }
        i = i + 1;
    }
    assert(s@.take(i as int) =~= s@);
    if started {
        let ghost av = args.deep_view();
        let ghost w = cur@;
        assert(cur.deep_view() =~= w);
        args.push(cur);
        assert(args.deep_view() =~= av.push(w));
    }
    let ghost raw = args.deep_view();
    assert(raw == raw_argv(exec@));
    let mut out: Vec<String> = Vec::new();
    let mut j: usize = 0;
    assert(raw.take(0) =~= Seq::<Seq<char>>::empty());
    while j < args.len()
        invariant
            j <= args@.len(),
            raw == args.deep_view(),
            out.deep_view() == clean_argv(raw.take(j as int)),
        decreases args@.len() - j,
    {
        assert(raw.take(j + 1).drop_last() =~= raw.take(j as int));
        assert(raw[j as int] == args@[j as int]@);
        if !dropped_arg_exec(&args[j]) {
            let ghost ov = out.deep_view();
            let word = unescape_percent_chars(&args[j]);
            let w = to_string(&word);
            out.push(w);
            assert(out.deep_view() =~= ov.push(word@));
        }
        j = j + 1;
    }
    assert(raw.take(j as int) =~= raw);
    out
}

/// The first argument `a` in `argv`, if any.
pub open spec fn index_of_arg(argv: Seq<Seq<char>>, a: Seq<char>) -> Option<int>
    decreases argv.len(),
{
    if argv.len() == 0 {
        None
    } else if argv[0] == a {
        Some(0)
    } else {
        match index_of_arg(argv.drop_first(), a) {
            Some(i) => Some(i + 1),
            None => None,
        }
    }
}

/// The first argument that is not an option (does not start with `-`).
pub open spec fn first_non_option(args: Seq<Seq<char>>) -> Option<Seq<char>>
    decreases args.len(),
{
    if args.len() == 0 {
        None
    } else if first_is(args[0], '-') {
        first_non_option(args.drop_first())
    } else {
        Some(args[0])
    }
}

/// The application a `flatpak run [options] <id>` command starts.
pub open spec fn flatpak_app(argv: Seq<Seq<char>>) -> Option<Seq<char>> {
    match index_of_arg(argv, "run"@) {
        Some(i) => first_non_option(argv.skip(i + 1)),
        None => None,
    }
}

/// The program a command runs: the file name of its first word, or, behind
/// `flatpak run`, the last dot-separated part of the application id in lower case.
pub open spec fn program_of_argv(argv: Seq<Seq<char>>) -> Seq<char> {
    if argv.len() == 0 {
        seq![]
    } else if after_last(argv[0], '/') == "flatpak"@ {
        match flatpak_app(argv) {
            Some(id) => ascii_lower(after_last(id, '.')),
            None => seq![],
        }
    } else {
        after_last(argv[0], '/')
    }
}

/// The application `flatpak run` starts in `argv`, if it is one.
pub fn flatpak_app_exec(argv: &[String]) -> (r: Option<String>)
    ensures
        match r {
            Some(id) => flatpak_app(argv.deep_view()) == Some(id@),
            None => flatpak_app(argv.deep_view()) is None,
        },
{
    let run = "run".to_owned();
    let ghost av = argv.deep_view();
    let mut i: usize = 0;
    let mut found = false;
    assert(av.skip(0) =~= av);
    while !found && i < argv.len()
        invariant
            i <= argv@.len(),
            av == argv.deep_view(),
            run@ == "run"@,
            found ==> i < argv@.len() && av[i as int] == "run"@,
            index_of_arg(av, "run"@) == match index_of_arg(av.skip(i as int), "run"@) {
                Some(k) => Some(k + i),
                None => None::<int>,
            },
        decreases argv@.len() - i, (if found { 0int } else { 1int }),
    {
        let ghost rest = av.skip(i as int);
        assert(rest[0] == argv@[i as int]@);
        assert(rest.drop_first() =~= av.skip(i + 1));
        if argv[i] == run {
            found = true;
        } else {
            i = i + 1;
        }
    }
    if !found {
        assert(av.skip(i as int).len() == 0);
        return None;
    }
    assert(av.skip(i as int)[0] == argv@[i as int]@);
    assert(index_of_arg(av, "run"@) == Some(i as int));
    let n = argv.len();
    assert(i < n);
    let mut j: usize = i + 1;
    assert(av.skip(i + 1) =~= av.skip(j as int));
    while j < argv.len()
        invariant
            i < j <= argv@.len(),
            av == argv.deep_view(),
            index_of_arg(av, "run"@) == Some(i as int),
            first_non_option(av.skip(i + 1)) == first_non_option(av.skip(j as int)),
        decreases argv@.len() - j,
    {
        let ghost rest = av.skip(j as int);
        assert(rest[0] == argv@[j as int]@);
        assert(rest.drop_first() =~= av.skip(j + 1));
        let word = chars_of(argv[j].as_str());
        if !(word.len() > 0 && word[0] == '-') {
            assert(first_non_option(rest) == Some(argv@[j as int]@));
            return Some(argv[j].clone());
        }
        j = j + 1;
    }
    assert(av.skip(j as int).len() == 0);
    assert(index_of_arg(av, "run"@) == Some(i as int));
    None
}

/// The program a browser really is, behind `flatpak run <id>` or a wrapper.
pub fn program_of(argv: &[String]) -> (r: String)
    ensures
        r@ == program_of_argv(argv.deep_view()),
{
    if argv.len() == 0 {
        return String::new();
    }
    let first = chars_of(argv[0].as_str());
    let base = after_last_chars(&first, '/');
    let flatpak = chars_of("flatpak");
    assert(argv.deep_view()[0] == argv@[0]@);
    if eq_chars(&base, &flatpak) {
        match flatpak_app_exec(argv) {
            Some(id) => {
                let idc = chars_of(id.as_str());
                let last = after_last_chars(&idc, '.');
                let lower = ascii_lower_chars(&last);
                to_string(&lower)
            },
            None => String::new(),
        }
    } else {
        to_string(&base)
    }
}

/* --------------------------------------------------------------- quoting */

/// A character an Exec value may hold unquoted.
pub open spec fn exec_safe(c: char) -> bool {
    ||| ('a' <= c && c <= 'z')
    ||| ('A' <= c && c <= 'Z')
    ||| ('0' <= c && c <= '9')
    ||| c == '/' || c == '.' || c == '_' || c == '-' || c == '+' || c == ':' || c == '='
}

/// A character that must be escaped inside a quoted Exec value.
pub open spec fn exec_special(c: char) -> bool {
    c == '\\' || c == '"' || c == '`' || c == '$'
}

/// `s` with a backslash before each of `\ " ` $`.
pub open spec fn exec_escape(s: Seq<char>) -> Seq<char>
    decreases s.len(),
{
    if s.len() == 0 {
        seq![]
    } else if exec_special(s.last()) {
        exec_escape(s.drop_last()).push('\\').push(s.last())
    } else {
        exec_escape(s.drop_last()).push(s.last())
    }
}

/// The value for Exec of one argument: as is when every character is safe,
/// else quoted and escaped.
pub open spec fn exec_quote_of(s: Seq<char>) -> Seq<char> {
    if forall|i: int| 0 <= i < s.len() ==> exec_safe(#[trigger] s[i]) {
        s
    } else {
        seq!['"'] + exec_escape(s) + seq!['"']
    }
}

/// A value for Exec: a path with spaces or quotes must be quoted.
pub fn exec_quote(arg: &str) -> (r: String)
    ensures
        r@ == exec_quote_of(arg@),
{
    let s = chars_of(arg);
    let mut safe = true;
    let mut i: usize = 0;
    while i < s.len()
        invariant
            i <= s@.len(),
            safe <==> forall|k: int| 0 <= k < i ==> exec_safe(#[trigger] s@[k]),
        decreases s@.len() - i,
    {
        let c = s[i];
        let ok = ('a' <= c && c <= 'z') || ('A' <= c && c <= 'Z') || ('0' <= c && c <= '9') || c
            == '/' || c == '.' || c == '_' || c == '-' || c == '+' || c == ':' || c == '=';
        safe = safe && ok;
        i = i + 1;
    }
    if safe {
        return arg.to_owned();
    }
    let mut out: Vec<char> = Vec::new();
    out.push('"');
    let mut j: usize = 0;
    assert(s@.take(0) =~= Seq::<char>::empty());
    while j < s.len()
        invariant
            j <= s@.len(),
            out@ == seq!['"'] + exec_escape(s@.take(j as int)),
        decreases s@.len() - j,
    {
        assert(s@.take(j + 1).drop_last() =~= s@.take(j as int));
        let c = s[j];
        if c == '\\' || c == '"' || c == '`' || c == '$' {
            out.push('\\');
        }
        out.push(c);
        j = j + 1;
        assert(out@ =~= seq!['"'] + exec_escape(s@.take(j as int)));
    }
    assert(s@.take(j as int) =~= s@);
    out.push('"');
    to_string(&out)
}

/* ------------------------------------------------------------- rendering */

/// `key=value` lines, one per field, in order.
pub open spec fn fields_text(fields: Seq<(Seq<char>, Seq<char>)>) -> Seq<char>
    decreases fields.len(),
{
    if fields.len() == 0 {
        seq![]
    } else {
        fields_text(fields.drop_last()) + fields.last().0 + seq!['='] + fields.last().1 + seq!['\n']
    }
}

/// One `[Desktop Action <id>]` group per action, each after an empty line.
pub open spec fn actions_text(actions: Seq<(Seq<char>, Seq<char>, Seq<char>)>) -> Seq<char>
    decreases actions.len(),
{
    if actions.len() == 0 {
        seq![]
    } else {
        let (id, name, exec) = actions.last();
        actions_text(actions.drop_last()) + "\n[Desktop Action "@ + id + "]\nName="@ + name
            + "\nExec="@ + exec + seq!['\n']
    }
}

/// The ids of `actions`.
pub open spec fn action_ids(actions: Seq<(Seq<char>, Seq<char>, Seq<char>)>) -> Seq<Seq<char>> {
    actions.map_values(|a: (Seq<char>, Seq<char>, Seq<char>)| a.0)
}

/// A desktop entry: its fields in the order given, then, when there are
/// actions, the `Actions` key and a group per action.
pub open spec fn render_entry_of(
    fields: Seq<(Seq<char>, Seq<char>)>,
    actions: Seq<(Seq<char>, Seq<char>, Seq<char>)>,
) -> Seq<char> {
    "[Desktop Entry]\n"@ + fields_text(fields) + if actions.len() == 0 {
        seq![]
    } else {
        "Actions="@ + join_with(action_ids(actions), ';') + seq![';', '\n'] + actions_text(actions)
    }
}

/// A desktop entry, keys written in a fixed order.
pub fn render_entry(fields: &[(&str, String)], actions: &[(String, String, String)]) -> (r: String)
    ensures
        r@ == render_entry_of(fields.deep_view(), actions.deep_view()),
{
    let mut out: Vec<char> = Vec::new();
    push_str(&mut out, "[Desktop Entry]\n");
    let ghost fv = fields.deep_view();
    let mut i: usize = 0;
    assert(fv.take(0) =~= Seq::<(Seq<char>, Seq<char>)>::empty());
    while i < fields.len()
        invariant
            i <= fields@.len(),
            fv == fields.deep_view(),
            out@ == "[Desktop Entry]\n"@ + fields_text(fv.take(i as int)),
        decreases fields@.len() - i,
    {
        assert(fv.take(i + 1).drop_last() =~= fv.take(i as int));
        assert(fv[i as int] == (fields@[i as int].0@, fields@[i as int].1@));
        push_str(&mut out, fields[i].0);
        out.push('=');
        push_str(&mut out, fields[i].1.as_str());
        out.push('\n');
        i = i + 1;
        assert(out@ =~= "[Desktop Entry]\n"@ + fields_text(fv.take(i as int)));
    }
    assert(fv.take(i as int) =~= fv);
    if actions.len() > 0 {
        let ghost av = actions.deep_view();
        let mut ids: Vec<Vec<char>> = Vec::new();
        let mut k: usize = 0;
        while k < actions.len()
            invariant
                k <= actions@.len(),
                av == actions.deep_view(),
                ids.deep_view() == action_ids(av).take(k as int),
            decreases actions@.len() - k,
        {
            let ghost idv = ids.deep_view();
            let id = chars_of(actions[k].0.as_str());
            proof {
                lemma_chars_deep_view(id);
            }
            ids.push(id);
            assert(ids.deep_view() =~= idv.push(av[k as int].0));
            k = k + 1;
            assert(action_ids(av).take(k as int) =~= action_ids(av).take(k - 1).push(av[k - 1].0));
        }
        assert(action_ids(av).take(k as int) =~= action_ids(av));
        let ghost head = out@;
        push_str(&mut out, "Actions=");
        let joined = join_chars(&ids, ';');
        push_all(&mut out, &joined);
        out.push(';');
        out.push('\n');
        let ghost mid = out@;
        assert(mid =~= head + "Actions="@ + join_with(action_ids(av), ';') + seq![';', '\n']);
        let mut j: usize = 0;
        assert(av.take(0) =~= Seq::<(Seq<char>, Seq<char>, Seq<char>)>::empty());
        while j < actions.len()
            invariant
                j <= actions@.len(),
                av == actions.deep_view(),
                out@ == mid + actions_text(av.take(j as int)),
            decreases actions@.len() - j,
        {
            assert(av.take(j + 1).drop_last() =~= av.take(j as int));
            assert(av[j as int] == (
                actions@[j as int].0@,
                actions@[j as int].1@,
                actions@[j as int].2@,
            ));
            push_str(&mut out, "\n[Desktop Action ");
            push_str(&mut out, actions[j].0.as_str());
            push_str(&mut out, "]\nName=");
            push_str(&mut out, actions[j].1.as_str());
            push_str(&mut out, "\nExec=");
            push_str(&mut out, actions[j].2.as_str());
            out.push('\n');
            j = j + 1;
            assert(out@ =~= mid + actions_text(av.take(j as int)));
        }
        assert(av.take(j as int) =~= av);
    }
    to_string(&out)
}

/* ------------------------------------------------------- shared-mime-info */

/// `s` with `x` in its place among sorted, distinct strings (nothing when it
/// is already there).
pub open spec fn insert_sorted(s: Seq<Seq<char>>, x: Seq<char>) -> Seq<Seq<char>>
    decreases s.len(),
{
    if s.len() == 0 {
        seq![x]
    } else if s[0] == x {
        s
    } else if lex_lt(x, s[0]) {
        seq![x] + s
    } else {
        seq![s[0]] + insert_sorted(s.drop_first(), x)
    }
}

/// The MIME types of `pairs`, each once, in the order of `str`.
pub open spec fn sorted_mimes(pairs: Seq<(Seq<char>, Seq<char>)>) -> Seq<Seq<char>>
    decreases pairs.len(),
{
    if pairs.len() == 0 {
        seq![]
    } else {
        insert_sorted(sorted_mimes(pairs.drop_last()), pairs.last().0)
    }
}

/// The extensions `pairs` gives `mime`, in order.
pub open spec fn exts_of(pairs: Seq<(Seq<char>, Seq<char>)>, mime: Seq<char>) -> Seq<Seq<char>>
    decreases pairs.len(),
{
    if pairs.len() == 0 {
        seq![]
    } else if pairs.last().0 == mime {
        exts_of(pairs.drop_last(), mime).push(pairs.last().1)
    } else {
        exts_of(pairs.drop_last(), mime)
    }
}

/// One `<glob>` line per extension.
pub open spec fn globs_text(exts: Seq<Seq<char>>) -> Seq<char>
    decreases exts.len(),
{
    if exts.len() == 0 {
        seq![]
    } else {
        globs_text(exts.drop_last()) + "    <glob pattern=\"*."@ + exts.last() + "\"/>\n"@
    }
}

/// One `<mime-type>` element per MIME type of `mimes`, with its globs.
pub open spec fn types_text(mimes: Seq<Seq<char>>, pairs: Seq<(Seq<char>, Seq<char>)>) -> Seq<char>
    decreases mimes.len(),
{
    if mimes.len() == 0 {
        seq![]
    } else {
        types_text(mimes.drop_last(), pairs) + "  <mime-type type=\""@ + mimes.last() + "\">\n"@
            + globs_text(exts_of(pairs, mimes.last())) + "  </mime-type>\n"@
    }
}

/// The shared-mime-info package of `pairs`.
pub open spec fn mime_package_of(pairs: Seq<(Seq<char>, Seq<char>)>) -> Seq<char> {
    "<?xml version=\"1.0\" encoding=\"UTF-8\"?>\n<mime-info xmlns=\"http://www.freedesktop.org/standards/shared-mime-info\">\n"@
        + types_text(sorted_mimes(pairs), pairs) + "</mime-info>\n"@
}

fn insert_sorted_exec(s: &mut Vec<Vec<char>>, x: Vec<char>)
    ensures
        final(s).deep_view() == insert_sorted(old(s).deep_view(), x@),
{
    let ghost sv = s.deep_view();
    let mut i: usize = 0;
    let mut stop = false;
    assert(sv.skip(0) =~= sv);
    while !stop && i < s.len()
        invariant
            i <= s@.len(),
            sv == s.deep_view(),
            insert_sorted(sv, x@) == sv.take(i as int) + insert_sorted(sv.skip(i as int), x@),
            stop ==> i < s@.len() && (sv[i as int] == x@ || lex_lt(x@, sv[i as int])),
        decreases s@.len() - i, (if stop { 0int } else { 1int }),
    {
        assert(sv[i as int] == s@[i as int]@);
        if eq_chars(&s[i], &x) || lex_lt_chars(&x, &s[i]) {
            stop = true;
        } else {
            let ghost rest = sv.skip(i as int);
            assert(rest.drop_first() =~= sv.skip(i + 1));
            assert(sv.take(i + 1) =~= sv.take(i as int).push(sv[i as int]));
            assert(sv.take(i as int) + insert_sorted(rest, x@) =~= sv.take(i + 1) + insert_sorted(
                sv.skip(i + 1),
                x@,
            ));
            i = i + 1;
        }
    }
    if !stop {
        assert(sv.skip(i as int) =~= Seq::<Seq<char>>::empty());
        assert(sv.take(i as int) =~= sv);
        let ghost xv = x@;
        proof {
            lemma_chars_deep_view(x);
        }
        s.push(x);
        assert(s.deep_view() =~= sv.push(xv));
        assert(insert_sorted(sv.skip(i as int), xv) == seq![xv]);
        assert(s.deep_view() == insert_sorted(sv, xv));
    } else if eq_chars(&s[i], &x) {
        proof {
            lemma_chars_deep_view(s@[i as int]);
        }
        assert(sv.skip(i as int)[0] == sv[i as int]);
        assert(sv.take(i as int) + sv.skip(i as int) =~= sv);
        assert(s.deep_view() == insert_sorted(sv, x@));
    } else {
        proof {
            lemma_chars_deep_view(s@[i as int]);
        }
        assert(sv.skip(i as int)[0] == sv[i as int]);
        let ghost xv = x@;
        proof {
            lemma_chars_deep_view(x);
        }
        s.insert(i, x);
        assert(s.deep_view() =~= sv.take(i as int) + seq![xv] + sv.skip(i as int));
        assert(insert_sorted(sv.skip(i as int), xv) == seq![xv] + sv.skip(i as int));
        assert(s.deep_view() == insert_sorted(sv, xv));
    }
}

/// A shared-mime-info package declaring each `(mime, extension)` pair: types
/// the system already knows gain nothing but a glob, new ones exist.
pub fn mime_package(pairs: &[(String, String)]) -> (r: String)
    ensures
        r@ == mime_package_of(pairs.deep_view()),
{
    let ghost pv = pairs.deep_view();
    let mut mimes: Vec<Vec<char>> = Vec::new();
    let mut i: usize = 0;
    assert(pv.take(0) =~= Seq::<(Seq<char>, Seq<char>)>::empty());
    while i < pairs.len()
        invariant
            i <= pairs@.len(),
            pv == pairs.deep_view(),
            mimes.deep_view() == sorted_mimes(pv.take(i as int)),
        decreases pairs@.len() - i,
    {
        assert(pv.take(i + 1).drop_last() =~= pv.take(i as int));
        assert(pv[i as int].0 == pairs@[i as int].0@);
        let m = chars_of(pairs[i].0.as_str());
        insert_sorted_exec(&mut mimes, m);
        i = i + 1;
    }
    assert(pv.take(i as int) =~= pv);
    let mut out: Vec<char> = Vec::new();
    push_str(
        &mut out,
        "<?xml version=\"1.0\" encoding=\"UTF-8\"?>\n<mime-info xmlns=\"http://www.freedesktop.org/standards/shared-mime-info\">\n",
    );
    let ghost head = out@;
    let ghost mv = mimes.deep_view();
    let mut k: usize = 0;
    assert(mv.take(0) =~= Seq::<Seq<char>>::empty());
    while k < mimes.len()
        invariant
            k <= mimes@.len(),
            pv == pairs.deep_view(),
            mv == mimes.deep_view(),
            out@ == head + types_text(mv.take(k as int), pv),
        decreases mimes@.len() - k,
    {
        assert(mv.take(k + 1).drop_last() =~= mv.take(k as int));
        assert(mv[k as int] == mimes@[k as int]@);
        let ghost before = out@;
        push_str(&mut out, "  <mime-type type=\"");
        push_all(&mut out, &mimes[k]);
        push_str(&mut out, "\">\n");
        let ghost opened = out@;
        let mut j: usize = 0;
        assert(pv.take(0) =~= Seq::<(Seq<char>, Seq<char>)>::empty());
        while j < pairs.len()
            invariant
                j <= pairs@.len(),
                k < mimes@.len(),
                pv == pairs.deep_view(),
                mv == mimes.deep_view(),
                mv[k as int] == mimes@[k as int]@,
                out@ == opened + globs_text(exts_of(pv.take(j as int), mv[k as int])),
            decreases pairs@.len() - j,
        {
            assert(pv.take(j + 1).drop_last() =~= pv.take(j as int));
            assert(pv[j as int] == (pairs@[j as int].0@, pairs@[j as int].1@));
            assert(pv.take(j + 1).last() == pv[j as int]);
            let pm = chars_of(pairs[j].0.as_str());
            let ghost o1 = out@;
            if eq_chars(&pm, &mimes[k]) {
                let ghost e0 = exts_of(pv.take(j as int), mv[k as int]);
                assert(exts_of(pv.take(j + 1), mv[k as int]) == e0.push(pv[j as int].1));
                assert(e0.push(pv[j as int].1).drop_last() =~= e0);
                push_str(&mut out, "    <glob pattern=\"*.");
                push_str(&mut out, pairs[j].1.as_str());
                push_str(&mut out, "\"/>\n");
            }
            j = j + 1;
            assert(out@ =~= opened + globs_text(exts_of(pv.take(j as int), mv[k as int])));
        }
        assert(pv.take(j as int) =~= pv);
        push_str(&mut out, "  </mime-type>\n");
        k = k + 1;
        assert(out@ =~= head + types_text(mv.take(k as int), pv));
    }
    assert(mv.take(k as int) =~= mv);
    push_str(&mut out, "</mime-info>\n");
    to_string(&out)
}

/* ----------------------------------------------------------- mimeapps.list */

/// The group of default applications.
pub open spec fn defaults_header() -> Seq<char> {
    "[Default Applications]"@
}

/// The group of "Open with" associations.
pub open spec fn added_header() -> Seq<char> {
    "[Added Associations]"@
}

/// `mime=`: how the line of `mime` starts.
pub open spec fn key_prefix(mime: Seq<char>) -> Seq<char> {
    mime.push('=')
}

/// The pieces of a `;`-separated list, trimmed, the empty ones left out.
pub open spec fn list_items(pieces: Seq<Seq<char>>) -> Seq<Seq<char>>
    decreases pieces.len(),
{
    if pieces.len() == 0 {
        seq![]
    } else if trim(pieces.last()).len() == 0 {
        list_items(pieces.drop_last())
    } else {
        list_items(pieces.drop_last()).push(trim(pieces.last()))
    }
}

/// The first item of a `;`-separated list.
pub open spec fn first_item(v: Seq<char>) -> Option<Seq<char>> {
    let items = list_items(split(v, ';'));
    if items.len() == 0 {
        None
    } else {
        Some(items[0])
    }
}

/// What `mimeapps_get` finds in the lines `ls`, reading them from the first,
/// `inside` telling whether the group sought is the current one.
pub open spec fn get_in(ls: Seq<Seq<char>>, inside: bool, group: Seq<char>, mime: Seq<char>) -> Option<
    Seq<char>,
>
    decreases ls.len(),
{
    if ls.len() == 0 {
        None
    } else {
        let line = trim(ls[0]);
        if is_header(line) {
            get_in(ls.drop_first(), line == group, group, mime)
        } else if inside && starts_with(line, key_prefix(mime)) {
            first_item(line.skip(mime.len() + 1int))
        } else {
            get_in(ls.drop_first(), inside, group, mime)
        }
    }
}

/// The first desktop file `mimeapps.list` gives `mime` in `group`: the first
/// item of the first line of `mime` in that group.
pub open spec fn mimeapps_get_of(list: Seq<char>, group: Seq<char>, mime: Seq<char>) -> Option<
    Seq<char>,
> {
    get_in(lines(list), false, group, mime)
}

/// The non-empty items of a `;`-separated list, trimmed.
fn list_items_exec(v: &Vec<char>) -> (r: Vec<Vec<char>>)
    ensures
        r.deep_view() == list_items(split(v@, ';')),
{
    let pieces = split_chars(v, ';');
    let ghost pv = pieces.deep_view();
    let mut out: Vec<Vec<char>> = Vec::new();
    let mut i: usize = 0;
    assert(pv.take(0) =~= Seq::<Seq<char>>::empty());
    while i < pieces.len()
        invariant
            i <= pieces@.len(),
            pv == pieces.deep_view(),
            out.deep_view() == list_items(pv.take(i as int)),
        decreases pieces@.len() - i,
    {
        assert(pv.take(i + 1).drop_last() =~= pv.take(i as int));
        assert(pv[i as int] == pieces@[i as int]@);
        let t = trim_chars(&pieces[i]);
        if t.len() > 0 {
            let ghost ov = out.deep_view();
            let ghost tv = t@;
            proof {
                lemma_chars_deep_view(t);
            }
            out.push(t);
            assert(out.deep_view() =~= ov.push(tv));
        }
        i = i + 1;
    }
    assert(pv.take(i as int) =~= pv);
    out
}

/// The first desktop file `mimeapps.list` gives `mime` in `group`.
pub fn mimeapps_get(list: &str, group: &str, mime: &str) -> (r: Option<String>)
    ensures
        match r {
            Some(v) => mimeapps_get_of(list@, group@, mime@) == Some(v@),
            None => mimeapps_get_of(list@, group@, mime@) is None,
        },
{
    let text = chars_of(list);
    let ls = lines_of(&text);
    let g = chars_of(group);
    let mut prefix = chars_of(mime);
    prefix.push('=');
    let ghost lv = ls.deep_view();
    let mut inside = false;
    let mut i: usize = 0;
    assert(lv.skip(0) =~= lv);
    while i < ls.len()
        invariant
            i <= ls@.len(),
            lv == ls.deep_view(),
            lv == lines(list@),
            g@ == group@,
            prefix@ == key_prefix(mime@),
            get_in(lv, false, group@, mime@) == get_in(lv.skip(i as int), inside, group@, mime@),
        decreases ls@.len() - i,
    {
        let ghost rest = lv.skip(i as int);
        assert(rest[0] == ls@[i as int]@);
        assert(rest.drop_first() =~= lv.skip(i + 1));
        let line = trim_chars(&ls[i]);
        if line.len() > 0 && line[0] == '[' {
            inside = eq_chars(&line, &g);
        } else if inside && starts_with_chars(&line, &prefix) {
            let n = line.len();
            let value = slice_chars(&line, prefix.len(), n);
            let items = list_items_exec(&value);
            if items.len() == 0 {
                return None;
            }
            proof {
                lemma_chars_deep_view(items@[0]);
            }
            return Some(to_string(&items[0]));
        }
        i = i + 1;
    }
    None
}

/// A line of `mime` giving `v`.
pub open spec fn entry_line(mime: Seq<char>, v: Seq<char>) -> Seq<char> {
    mime + seq!['='] + v + seq![';']
}

/// The optional line of `mime`: none for `None`.
pub open spec fn maybe_line(out: Seq<Seq<char>>, mime: Seq<char>, value: Option<Seq<char>>) -> Seq<
    Seq<char>,
> {
    match value {
        Some(v) => out.push(entry_line(mime, v)),
        None => out,
    }
}

/// Reading one line while setting `mime` in `group`: the lines written so
/// far, whether `group` is the current group, whether it was seen, whether
/// the line of `mime` is written (or, for `None`, removed) already.
pub open spec fn set_step(
    st: (Seq<Seq<char>>, bool, bool, bool),
    line: Seq<char>,
    group: Seq<char>,
    mime: Seq<char>,
    value: Option<Seq<char>>,
) -> (Seq<Seq<char>>, bool, bool, bool) {
    let (out, inside, seen, done) = st;
    let t = trim(line);
    if is_header(t) {
        let closing = inside && !done;
        let out1 = if closing {
            maybe_line(out, mime, value)
        } else {
            out
        };
        let now_inside = t == group;
        (out1.push(line), now_inside, seen || now_inside, done || closing)
    } else if inside && starts_with(t, key_prefix(mime)) {
        if !done {
            (maybe_line(out, mime, value), inside, seen, true)
        } else {
            st
        }
    } else {
        (out.push(line), inside, seen, done)
    }
}

pub open spec fn set_fold(
    ls: Seq<Seq<char>>,
    group: Seq<char>,
    mime: Seq<char>,
    value: Option<Seq<char>>,
) -> (Seq<Seq<char>>, bool, bool, bool)
    decreases ls.len(),
{
    if ls.len() == 0 {
        (seq![], false, false, false)
    } else {
        set_step(set_fold(ls.drop_last(), group, mime, value), ls.last(), group, mime, value)
    }
}

/// The lines of `list` with `mime` set to `value` in `group`.
pub open spec fn set_lines(
    list: Seq<char>,
    group: Seq<char>,
    mime: Seq<char>,
    value: Option<Seq<char>>,
) -> Seq<Seq<char>> {
    let (out, inside, seen, done) = set_fold(lines(list), group, mime, value);
    if done {
        out
    } else {
        match value {
            None => out,
            Some(v) => {
                let grouped = if seen {
                    out
                } else {
                    let spaced = if out.len() > 0 && trim(out.last()).len() > 0 {
                        out.push(seq![])
                    } else {
                        out
                    };
                    spaced.push(group)
                };
                grouped.push(entry_line(mime, v))
            },
        }
    }
}

/// `list` with `mime` set to `value` in `group` (`None` removes its line):
/// the line of `mime` takes the place of the first one it had in the group,
/// or ends the group, or ends the file (the group created when missing);
/// every other line is kept.
pub open spec fn mimeapps_set_of(
    list: Seq<char>,
    group: Seq<char>,
    mime: Seq<char>,
    value: Option<Seq<char>>,
) -> Seq<char> {
    join_with(set_lines(list, group, mime, value), '\n').push('\n')
}

fn entry_line_exec(mime: &Vec<char>, v: &Vec<char>) -> (r: Vec<char>)
    ensures
        r@ == entry_line(mime@, v@),
{
    let mut r = mime.clone();
    r.push('=');
    push_all(&mut r, v);
    r.push(';');
    r
}

fn push_line(out: &mut Vec<Vec<char>>, line: Vec<char>)
    ensures
        final(out).deep_view() == old(out).deep_view().push(line@),
{
    let ghost ov = out.deep_view();
    let ghost lv = line@;
    proof {
        lemma_chars_deep_view(line);
    }
    out.push(line);
    assert(out.deep_view() =~= ov.push(lv));
}

fn mimeapps_set_chars(list: &Vec<char>, group: &Vec<char>, mime: &Vec<char>, value: &Option<Vec<char>>) -> (r: Vec<char>)
    ensures
        r@ == mimeapps_set_of(list@, group@, mime@, match value {
            Some(v) => Some(v@),
            None => None,
        }),
{
    let ghost val = match value {
        Some(v) => Some(v@),
        None => None::<Seq<char>>,
    };
    let ls = lines_of(list);
    let ghost lv = ls.deep_view();
    let mut prefix = mime.clone();
    prefix.push('=');
    let mut out: Vec<Vec<char>> = Vec::new();
    let mut inside = false;
    let mut seen = false;
    let mut done = false;
    let mut i: usize = 0;
    assert(lv.take(0) =~= Seq::<Seq<char>>::empty());
    while i < ls.len()
        invariant
            i <= ls@.len(),
            lv == ls.deep_view(),
            prefix@ == key_prefix(mime@),
            val == match value {
                Some(v) => Some(v@),
                None => None::<Seq<char>>,
            },
            (out.deep_view(), inside, seen, done) == set_fold(lv.take(i as int), group@, mime@, val),
        decreases ls@.len() - i,
    {
        assert(lv.take(i + 1).drop_last() =~= lv.take(i as int));
        assert(lv.take(i + 1).last() == ls@[i as int]@);
        let t = trim_chars(&ls[i]);
        if t.len() > 0 && t[0] == '[' {
            if inside && !done {
                match value {
                    Some(v) => push_line(&mut out, entry_line_exec(mime, v)),
                    None => {},
                }
                done = true;
            }
            inside = eq_chars(&t, group);
            seen = seen || inside;
            push_line(&mut out, ls[i].clone());
        } else if inside && starts_with_chars(&t, &prefix) {
            if !done {
                match value {
                    Some(v) => push_line(&mut out, entry_line_exec(mime, v)),
                    None => {},
                }
                done = true;
            }
        } else {
            push_line(&mut out, ls[i].clone());
        }
        i = i + 1;
    }
    assert(lv.take(i as int) =~= lv);
    if !done {
        match value {
            Some(v) => {
                if !seen {
                    let n = out.len();
                    if n > 0 {
                        let last = trim_chars(&out[n - 1]);
                        proof {
                            lemma_chars_deep_view(out@[n - 1]);
                        }
                        if last.len() > 0 {
                            push_line(&mut out, Vec::new());
                        }
                    }
                    push_line(&mut out, group.clone());
                }
                push_line(&mut out, entry_line_exec(mime, v));
            },
            None => {},
        }
    }
    let mut text = join_chars(&out, '\n');
    text.push('\n');
    text
}

/// `list` with `mime` set to `value` in `group` (None removes the line),
/// every other line kept as it was.
pub fn mimeapps_set(list: &str, group: &str, mime: &str, value: Option<&str>) -> (r: String)
    ensures
        r@ == mimeapps_set_of(list@, group@, mime@, match value {
            Some(v) => Some(v@),
            None => None,
        }),
{
    let l = chars_of(list);
    let g = chars_of(group);
    let m = chars_of(mime);
    let v = match value {
        Some(v) => Some(chars_of(v)),
        None => None,
    };
    let r = mimeapps_set_chars(&l, &g, &m, &v);
    to_string(&r)
}

/// Reading one line for the "Open with" list of `mime`: whether the group
/// of added associations is the current one, and the items of the last line
/// of `mime` read in it.
pub open spec fn added_step(st: (bool, Seq<Seq<char>>), raw: Seq<char>, mime: Seq<char>) -> (
    bool,
    Seq<Seq<char>>,
) {
    let line = trim(raw);
    if is_header(line) {
        (line == added_header(), st.1)
    } else if st.0 && starts_with(line, key_prefix(mime)) {
        (st.0, list_items(split(line.skip(mime.len() + 1int), ';')))
    } else {
        st
    }
}

pub open spec fn added_fold(ls: Seq<Seq<char>>, mime: Seq<char>) -> (bool, Seq<Seq<char>>)
    decreases ls.len(),
{
    if ls.len() == 0 {
        (false, seq![])
    } else {
        added_step(added_fold(ls.drop_last(), mime), ls.last(), mime)
    }
}

/// `items` without `x`.
pub open spec fn without(items: Seq<Seq<char>>, x: Seq<char>) -> Seq<Seq<char>>
    decreases items.len(),
{
    if items.len() == 0 {
        seq![]
    } else if items.last() == x {
        without(items.drop_last(), x)
    } else {
        without(items.drop_last(), x).push(items.last())
    }
}

/// The "Open with" list of `mime` once `desktop` is added first to it (or removed from it).
pub open spec fn added_list(list: Seq<char>, mime: Seq<char>, desktop: Seq<char>, add: bool) -> Seq<
    Seq<char>,
> {
    let rest = without(added_fold(lines(list), mime).1, desktop);
    if add {
        seq![desktop] + rest
    } else {
        rest
    }
}

/// `list` with `desktop` added to (or removed from) the "Open with" list of
/// `mime`: added first, removed alone; an empty list loses its line.
pub open spec fn mimeapps_added_of(list: Seq<char>, mime: Seq<char>, desktop: Seq<char>, add: bool) -> Seq<
    char,
> {
    let next = added_list(list, mime, desktop, add);
    mimeapps_set_of(
        list,
        added_header(),
        mime,
        if next.len() == 0 {
            None
        } else {
            Some(join_with(next, ';'))
        },
    )
}

/// `list` with `desktop` added to (or removed from) the "Open with" list of `mime`.
pub fn mimeapps_added(list: &str, mime: &str, desktop: &str, add: bool) -> (r: String)
    ensures
        r@ == mimeapps_added_of(list@, mime@, desktop@, add),
{
    let text = chars_of(list);
    let ls = lines_of(&text);
    let ghost lv = ls.deep_view();
    let m = chars_of(mime);
    let d = chars_of(desktop);
    let header = chars_of("[Added Associations]");
    let mut prefix = chars_of(mime);
    prefix.push('=');
    let mut inside = false;
    let mut found: Vec<Vec<char>> = Vec::new();
    let mut i: usize = 0;
    assert(lv.take(0) =~= Seq::<Seq<char>>::empty());
    while i < ls.len()
        invariant
            i <= ls@.len(),
            lv == ls.deep_view(),
            header@ == added_header(),
            prefix@ == key_prefix(mime@),
            (inside, found.deep_view()) == added_fold(lv.take(i as int), mime@),
        decreases ls@.len() - i,
    {
        assert(lv.take(i + 1).drop_last() =~= lv.take(i as int));
        assert(lv.take(i + 1).last() == ls@[i as int]@);
        let line = trim_chars(&ls[i]);
        if line.len() > 0 && line[0] == '[' {
            inside = eq_chars(&line, &header);
        } else if inside && starts_with_chars(&line, &prefix) {
            let n = line.len();
            let value = slice_chars(&line, prefix.len(), n);
            found = list_items_exec(&value);
        }
        i = i + 1;
    }
    assert(lv.take(i as int) =~= lv);
    let ghost fv = found.deep_view();
    let mut rest: Vec<Vec<char>> = Vec::new();
    let mut j: usize = 0;
    assert(fv.take(0) =~= Seq::<Seq<char>>::empty());
    while j < found.len()
        invariant
            j <= found@.len(),
            fv == found.deep_view(),
            d@ == desktop@,
            rest.deep_view() == without(fv.take(j as int), desktop@),
        decreases found@.len() - j,
    {
        assert(fv.take(j + 1).drop_last() =~= fv.take(j as int));
        assert(fv[j as int] == found@[j as int]@);
        if !eq_chars(&found[j], &d) {
            push_line(&mut rest, found[j].clone());
        }
        j = j + 1;
    }
    assert(fv.take(j as int) =~= fv);
    let mut next: Vec<Vec<char>> = Vec::new();
    if add {
        push_line(&mut next, d.clone());
    }
    let ghost nv0 = next.deep_view();
    let mut k: usize = 0;
    let ghost rv = rest.deep_view();
    while k < rest.len()
        invariant
            k <= rest@.len(),
            rv == rest.deep_view(),
            next.deep_view() == nv0 + rv.take(k as int),
        decreases rest@.len() - k,
    {
        assert(rv[k as int] == rest@[k as int]@);
        push_line(&mut next, rest[k].clone());
        k = k + 1;
        assert(next.deep_view() =~= nv0 + rv.take(k as int));
    }
    assert(rv.take(k as int) =~= rv);
    assert(next.deep_view() =~= added_list(list@, mime@, desktop@, add));
    let value = if next.len() == 0 {
        None
    } else {
        Some(join_chars(&next, ';'))
    };
    let r = mimeapps_set_chars(&text, &header, &m, &value);
    to_string(&r)
}

/// The group of default applications in `mimeapps.list`.
pub fn defaults_group() -> (r: &'static str)
    ensures
        r@ == defaults_header(),
{
    "[Default Applications]"
}

/* ------------------------------------------------------- quoting read back */

proof fn lemma_argv_fold_push(s: Seq<char>, c: char)
    ensures
        argv_fold(s.push(c)) == argv_step(argv_fold(s), c),
{
    assert(s.push(c).drop_last() =~= s);
}

/// `s` holds no `%%` (which Exec values read as one `%`).
pub open spec fn no_double_percent(s: Seq<char>) -> bool {
    forall|i: int| 0 <= i < s.len() - 1 ==> !(#[trigger] s[i] == '%' && s[i + 1] == '%')
}

proof fn lemma_unescape_plain(s: Seq<char>)
    requires
        no_double_percent(s),
    ensures
        unescape_percent(s) == s,
    decreases s.len(),
{
    if s.len() > 0 {
        if s.len() >= 2 {
            assert(!(s[0int] == '%' && s[1int] == '%'));
        }
        let t = s.skip(1);
        assert forall|i: int| 0 <= i < t.len() - 1 implies !(#[trigger] t[i] == '%' && t[i + 1] == '%') by {
            assert(t[i] == s[i + 1] && t[i + 1] == s[i + 2]);
            assert(!(s[i + 1] == '%' && s[(i + 1) + 1] == '%'));
        }
        lemma_unescape_plain(t);
        assert(seq![s[0]] + t =~= s);
    }
}

/// Reading a quoted and escaped argument: after the opening quote and the
/// escaped characters, the argument read so far is the original.
proof fn lemma_argv_quoted(s: Seq<char>)
    ensures
        argv_fold(seq!['"'] + exec_escape(s)) == (Seq::<Seq<char>>::empty(), s, true, true, false),
    decreases s.len(),
{
    if s.len() == 0 {
        assert(seq!['"'] + exec_escape(s) =~= seq!['"']);
        lemma_argv_fold_push(Seq::<char>::empty(), '"');
        assert(seq!['"'] =~= Seq::<char>::empty().push('"'));
    } else {
        let before = s.drop_last();
        let c = s.last();
        lemma_argv_quoted(before);
        let pre = seq!['"'] + exec_escape(before);
        if exec_special(c) {
            assert(seq!['"'] + exec_escape(s) =~= pre.push('\\').push(c));
            lemma_argv_fold_push(pre, '\\');
            lemma_argv_fold_push(pre.push('\\'), c);
        } else {
            assert(seq!['"'] + exec_escape(s) =~= pre.push(c));
            lemma_argv_fold_push(pre, c);
        }
        assert(before.push(c) =~= s);
    }
}

/// Reading characters that need no quoting, after nothing.
proof fn lemma_argv_plain(s: Seq<char>)
    requires
        s.len() > 0,
        forall|i: int| 0 <= i < s.len() ==> exec_safe(#[trigger] s[i]),
    ensures
        argv_fold(s) == (Seq::<Seq<char>>::empty(), s, false, true, false),
    decreases s.len(),
{
    let before = s.drop_last();
    let c = s.last();
    assert(exec_safe(s[s.len() - 1]));
    assert(s.drop_last().push(c) =~= s);
    lemma_argv_fold_push(before, c);
    if before.len() > 0 {
        assert forall|i: int| 0 <= i < before.len() implies exec_safe(#[trigger] before[i]) by {
            assert(before[i] == s[i]);
        }
        lemma_argv_plain(before);
    } else {
        assert(argv_fold(before) == (Seq::<Seq<char>>::empty(), Seq::<char>::empty(), false, false, false));
        assert(Seq::<char>::empty().push(c) =~= s);
    }
}

/// Quoting reads back: the Exec value of one argument is read as that one
/// argument (for an argument that is not empty, holds no `%%`, and is
/// neither a field code nor one of Flatpak's file markers, which Exec
/// values give a meaning of their own).
pub proof fn law_quote_then_argv(s: Seq<char>)
    requires
        s.len() > 0,
        no_double_percent(s),
        !dropped_arg(s),
    ensures
        exec_argv_of(exec_quote_of(s)) == seq![s],
{
    lemma_unescape_plain(s);
    if forall|i: int| 0 <= i < s.len() ==> exec_safe(#[trigger] s[i]) {
        lemma_argv_plain(s);
    } else {
        let q = seq!['"'] + exec_escape(s) + seq!['"'];
        lemma_argv_quoted(s);
        assert(q =~= (seq!['"'] + exec_escape(s)).push('"'));
        lemma_argv_fold_push(seq!['"'] + exec_escape(s), '"');
    }
    let raw = seq![s];
    assert(Seq::<Seq<char>>::empty().push(s) =~= raw);
    assert(raw_argv(exec_quote_of(s)) == raw);
    assert(raw.drop_last() =~= Seq::<Seq<char>>::empty());
    assert(raw.last() == s);
    assert(clean_argv(Seq::<Seq<char>>::empty()) == Seq::<Seq<char>>::empty());
    assert(clean_argv(raw) == Seq::<Seq<char>>::empty().push(unescape_percent(s)));
}

/* ------------------------------------------------------------------- laws */

/// Reading `ls` from its first line (`inside`: whether `group` is the
/// current group at the start), a line of `mime` is met inside `group`.
pub open spec fn reaches(ls: Seq<Seq<char>>, inside: bool, group: Seq<char>, mime: Seq<char>) -> bool
    decreases ls.len(),
{
    if ls.len() == 0 {
        false
    } else {
        let line = trim(ls[0]);
        if is_header(line) {
            reaches(ls.drop_first(), line == group, group, mime)
        } else if inside && starts_with(line, key_prefix(mime)) {
            true
        } else {
            reaches(ls.drop_first(), inside, group, mime)
        }
    }
}

/// Whether `group` is the current group once `ls` is read.
pub open spec fn inside_after(ls: Seq<Seq<char>>, inside: bool, group: Seq<char>) -> bool
    decreases ls.len(),
{
    if ls.len() == 0 {
        inside
    } else {
        let line = trim(ls[0]);
        if is_header(line) {
            inside_after(ls.drop_first(), line == group, group)
        } else {
            inside_after(ls.drop_first(), inside, group)
        }
    }
}

proof fn lemma_get_in_concat(a: Seq<Seq<char>>, b: Seq<Seq<char>>, inside: bool, group: Seq<char>, mime: Seq<char>)
    ensures
        get_in(a + b, inside, group, mime) == if reaches(a, inside, group, mime) {
            get_in(a, inside, group, mime)
        } else {
            get_in(b, inside_after(a, inside, group), group, mime)
        },
        reaches(a + b, inside, group, mime) == (reaches(a, inside, group, mime) || reaches(
            b,
            inside_after(a, inside, group),
            group,
            mime,
        )),
        inside_after(a + b, inside, group) == inside_after(b, inside_after(a, inside, group), group),
    decreases a.len(),
{
    if a.len() == 0 {
        assert(a + b =~= b);
    } else {
        assert((a + b).drop_first() =~= a.drop_first() + b);
        assert((a + b)[0] == a[0]);
        let line = trim(a[0]);
        if is_header(line) {
            lemma_get_in_concat(a.drop_first(), b, line == group, group, mime);
        } else {
            lemma_get_in_concat(a.drop_first(), b, inside, group, mime);
        }
    }
}

proof fn lemma_get_in_strip_cr(ls: Seq<Seq<char>>, inside: bool, group: Seq<char>, mime: Seq<char>)
    ensures
        get_in(ls.map_values(|l: Seq<char>| strip_cr(l)), inside, group, mime) == get_in(ls, inside, group, mime),
    decreases ls.len(),
{
    let ms = ls.map_values(|l: Seq<char>| strip_cr(l));
    if ls.len() > 0 {
        assert(ms[0] == strip_cr(ls[0]));
        lemma_trim_strip_cr(ls[0]);
        assert(ms.drop_first() =~= ls.drop_first().map_values(|l: Seq<char>| strip_cr(l)));
        let line = trim(ls[0]);
        if is_header(line) {
            lemma_get_in_strip_cr(ls.drop_first(), line == group, group, mime);
        } else {
            lemma_get_in_strip_cr(ls.drop_first(), inside, group, mime);
        }
    }
}

proof fn lemma_unreached(ls: Seq<Seq<char>>, inside: bool, group: Seq<char>, mime: Seq<char>)
    requires
        !reaches(ls, inside, group, mime),
    ensures
        get_in(ls, inside, group, mime) is None,
    decreases ls.len(),
{
    if ls.len() > 0 {
        let line = trim(ls[0]);
        if is_header(line) {
            lemma_unreached(ls.drop_first(), line == group, group, mime);
        } else {
            lemma_unreached(ls.drop_first(), inside, group, mime);
        }
    }
}

/// A group line that reads back as itself: a header, trimmed, on one line.
pub open spec fn plain_group(group: Seq<char>) -> bool {
    is_header(group) && trim(group) == group && !has_char(group, '\n')
}

/// A MIME type whose line reads back as its own: on one line, and neither
/// starting with whitespace nor with `[` (which would open a group).
pub open spec fn plain_mime(mime: Seq<char>) -> bool {
    !has_char(mime, '\n') && (mime.len() == 0 || (!is_ws(mime[0]) && mime[0] != '['))
}

proof fn lemma_entry_line(mime: Seq<char>, v: Seq<char>)
    requires
        plain_mime(mime),
        !has_char(v, '\n'),
    ensures
        trim(entry_line(mime, v)) == entry_line(mime, v),
        !is_header(entry_line(mime, v)),
        starts_with(entry_line(mime, v), key_prefix(mime)),
        !has_char(entry_line(mime, v), '\n'),
        entry_line(mime, v).skip(mime.len() + 1int) == v.push(';'),
{
    let e = entry_line(mime, v);
    assert(e[0] != '[' && !is_ws(e[0])) by {
        if mime.len() == 0 {
            assert(e[0] == '=');
        } else {
            assert(e[0] == mime[0]);
        }
    }
    assert(e.last() == ';');
    assert(trim_start(e) == e);
    assert(trim_end(e) == e);
    assert(e.subrange(0, mime.len() + 1int) =~= key_prefix(mime));
    assert(e.skip(mime.len() + 1int) =~= v.push(';'));
    assert(!has_char(e, '\n')) by {
        if has_char(e, '\n') {
            let i = choose|i: int| 0 <= i < e.len() && e[i] == '\n';
            if i < mime.len() {
                assert(mime[i] == '\n');
            } else if i > mime.len() && i < e.len() - 1 {
                assert(v[i - mime.len() - 1] == '\n');
            }
        }
    }
}

/// What setting keeps true of its output line after line (see `set_fold`).
pub open spec fn set_invariant(
    st: (Seq<Seq<char>>, bool, bool, bool),
    group: Seq<char>,
    mime: Seq<char>,
    value: Option<Seq<char>>,
) -> bool {
    let (out, inside, seen, done) = st;
    &&& no_newline(out)
    &&& match value {
        Some(v) => if done {
            reaches(out, false, group, mime) && get_in(out, false, group, mime) == first_item(v.push(';'))
        } else {
            !reaches(out, false, group, mime) && inside_after(out, false, group) == inside && (seen ==> inside)
        },
        None => !reaches(out, false, group, mime) && inside_after(out, false, group) == inside,
    }
}

proof fn lemma_single(x: Seq<char>, inside: bool, group: Seq<char>, mime: Seq<char>)
    ensures
        reaches(seq![x], inside, group, mime) == (!is_header(trim(x)) && inside && starts_with(trim(x), key_prefix(mime))),
        inside_after(seq![x], inside, group) == if is_header(trim(x)) {
            trim(x) == group
        } else {
            inside
        },
        get_in(seq![x], inside, group, mime) == if !is_header(trim(x)) && inside && starts_with(
            trim(x),
            key_prefix(mime),
        ) {
            first_item(trim(x).skip(mime.len() + 1int))
        } else {
            None
        },
{
    let one = seq![x];
    let none = Seq::<Seq<char>>::empty();
    assert(one[0] == x);
    assert(one.drop_first() =~= none);
    assert(!reaches(none, trim(x) == group, group, mime));
    assert(!reaches(none, inside, group, mime));
    assert(inside_after(none, trim(x) == group, group) == (trim(x) == group));
    assert(inside_after(none, inside, group) == inside);
    assert(get_in(none, trim(x) == group, group, mime) is None);
    assert(get_in(none, inside, group, mime) is None);
}

proof fn lemma_push_line(out: Seq<Seq<char>>, x: Seq<char>, group: Seq<char>, mime: Seq<char>)
    ensures
        get_in(out.push(x), false, group, mime) == if reaches(out, false, group, mime) {
            get_in(out, false, group, mime)
        } else if !is_header(trim(x)) && inside_after(out, false, group) && starts_with(trim(x), key_prefix(mime)) {
            first_item(trim(x).skip(mime.len() + 1int))
        } else {
            None
        },
        reaches(out.push(x), false, group, mime) == (reaches(out, false, group, mime) || (!is_header(trim(x))
            && inside_after(out, false, group) && starts_with(trim(x), key_prefix(mime)))),
        inside_after(out.push(x), false, group) == if is_header(trim(x)) {
            trim(x) == group
        } else {
            inside_after(out, false, group)
        },
{
    assert(out.push(x) =~= out + seq![x]);
    lemma_get_in_concat(out, seq![x], false, group, mime);
    lemma_single(x, inside_after(out, false, group), group, mime);
}

proof fn lemma_no_newline_push(out: Seq<Seq<char>>, x: Seq<char>)
    requires
        no_newline(out),
        !has_char(x, '\n'),
    ensures
        no_newline(out.push(x)),
{
    assert forall|i: int| 0 <= i < out.push(x).len() implies !has_char(#[trigger] out.push(x)[i], '\n') by {
        if i < out.len() {
            assert(out.push(x)[i] == out[i]);
        }
    }
}

proof fn lemma_set_fold_invariant(ls: Seq<Seq<char>>, group: Seq<char>, mime: Seq<char>, value: Option<Seq<char>>)
    requires
        no_newline(ls),
        plain_mime(mime),
        value matches Some(v) ==> !has_char(v, '\n'),
    ensures
        set_invariant(set_fold(ls, group, mime, value), group, mime, value),
    decreases ls.len(),
{
    if ls.len() == 0 {
        assert(no_newline(Seq::<Seq<char>>::empty()));
        assert(!reaches(Seq::<Seq<char>>::empty(), false, group, mime));
        assert(inside_after(Seq::<Seq<char>>::empty(), false, group) == false);
    } else {
        let before = ls.drop_last();
        assert(no_newline(before)) by {
            assert forall|i: int| 0 <= i < before.len() implies !has_char(#[trigger] before[i], '\n') by {
                assert(before[i] == ls[i]);
            }
        }
        lemma_set_fold_invariant(before, group, mime, value);
        let st = set_fold(before, group, mime, value);
        let (out, inside, seen, done) = st;
        let line = ls.last();
        assert(!has_char(ls[ls.len() - 1], '\n'));
        assert(set_fold(ls, group, mime, value) == set_step(st, line, group, mime, value));
        let t = trim(line);
        match value {
            Some(v) => {
                lemma_entry_line(mime, v);
                let e = entry_line(mime, v);
                if is_header(t) {
                    if inside && !done {
                        lemma_push_line(out, e, group, mime);
                        lemma_no_newline_push(out, e);
                        lemma_push_line(out.push(e), line, group, mime);
                        lemma_no_newline_push(out.push(e), line);
                        assert(set_step(st, line, group, mime, value) == (out.push(e).push(line), t == group, seen
                            || t == group, true));
                        assert(reaches(out.push(e), false, group, mime));
                        assert(get_in(out.push(e), false, group, mime) == first_item(v.push(';')));
                        assert(set_invariant(set_step(st, line, group, mime, value), group, mime, value));
                    } else {
                        lemma_push_line(out, line, group, mime);
                        lemma_no_newline_push(out, line);
                        assert(set_step(st, line, group, mime, value) == (out.push(line), t == group, seen || t
                            == group, done));
                        assert(set_invariant(set_step(st, line, group, mime, value), group, mime, value));
                    }
                } else if inside && starts_with(t, key_prefix(mime)) {
                    if !done {
                        lemma_push_line(out, e, group, mime);
                        lemma_no_newline_push(out, e);
                        assert(set_step(st, line, group, mime, value) == (out.push(e), inside, seen, true));
                        assert(set_invariant(set_step(st, line, group, mime, value), group, mime, value));
                    }
                } else {
                    lemma_push_line(out, line, group, mime);
                    lemma_no_newline_push(out, line);
                    assert(set_step(st, line, group, mime, value) == (out.push(line), inside, seen, done));
                    assert(set_invariant(set_step(st, line, group, mime, value), group, mime, value));
                }
            },
            None => {
                if is_header(t) {
                    lemma_push_line(out, line, group, mime);
                    lemma_no_newline_push(out, line);
                    assert(set_step(st, line, group, mime, value) == (out.push(line), t == group, seen || t == group,
                        done || (inside && !done)));
                } else if inside && starts_with(t, key_prefix(mime)) {
                    assert(set_step(st, line, group, mime, value).0 == out);
                    assert(set_step(st, line, group, mime, value).1 == inside);
                } else {
                    lemma_push_line(out, line, group, mime);
                    lemma_no_newline_push(out, line);
                    assert(set_step(st, line, group, mime, value) == (out.push(line), inside, seen, done));
                }
            },
        }
    }
}

proof fn lemma_first_item_semicolon(v: Seq<char>)
    ensures
        first_item(v.push(';')) == first_item(v),
{
    assert(v.push(';').drop_last() =~= v);
    assert(split(v.push(';'), ';') == split(v, ';').push(seq![]));
    let pieces = split(v, ';').push(seq![]);
    assert(pieces.drop_last() =~= split(v, ';'));
    assert(trim(Seq::<char>::empty()).len() == 0);
}

/// What `mimeapps_get` reads in the text of `ls` is what it reads in `ls`.
proof fn lemma_get_of_text(ls: Seq<Seq<char>>, group: Seq<char>, mime: Seq<char>)
    requires
        no_newline(ls),
    ensures
        mimeapps_get_of(text_of_lines(ls), group, mime) == if ls.len() == 0 {
            None
        } else {
            get_in(ls, false, group, mime)
        },
{
    if ls.len() == 0 {
        let one = seq![Seq::<char>::empty()];
        assert(no_newline(one)) by {
            assert(!has_char(Seq::<char>::empty(), '\n'));
        }
        assert(join_with(ls, '\n') =~= join_with(one, '\n'));
        lemma_lines_of_lines(one);
        assert(one.map_values(|l: Seq<char>| strip_cr(l)) =~= one);
        assert(get_in(one.drop_first(), false, group, mime) is None);
    } else {
        lemma_lines_of_lines(ls);
        lemma_get_in_strip_cr(ls, false, group, mime);
    }
}

/// Reading back a written default: once `mime` is set to `value` in
/// `group`, `mimeapps_get` gives the first desktop file of `value`
/// (for a group header and a MIME type that read back as themselves, and
/// values on one line).
pub proof fn law_set_then_get(list: Seq<char>, group: Seq<char>, mime: Seq<char>, value: Seq<char>)
    requires
        plain_group(group),
        plain_mime(mime),
        !has_char(value, '\n'),
    ensures
        mimeapps_get_of(mimeapps_set_of(list, group, mime, Some(value)), group, mime) == first_item(value),
{
    let ls = lines(list);
    lemma_lines_no_newline(list);
    lemma_set_fold_invariant(ls, group, mime, Some(value));
    lemma_entry_line(mime, value);
    lemma_first_item_semicolon(value);
    let (out, inside, seen, done) = set_fold(ls, group, mime, Some(value));
    let result = set_lines(list, group, mime, Some(value));
    let e = entry_line(mime, value);
    if !done {
        let grouped = if seen {
            out
        } else {
            let spaced = if out.len() > 0 && trim(out.last()).len() > 0 {
                out.push(seq![])
            } else {
                out
            };
            spaced.push(group)
        };
        if !seen {
            let spaced = if out.len() > 0 && trim(out.last()).len() > 0 {
                out.push(seq![])
            } else {
                out
            };
            if out.len() > 0 && trim(out.last()).len() > 0 {
                lemma_push_line(out, seq![], group, mime);
                assert(!has_char(Seq::<char>::empty(), '\n'));
                lemma_no_newline_push(out, seq![]);
                assert(trim(Seq::<char>::empty()) =~= Seq::<char>::empty());
                assert(!starts_with(Seq::<char>::empty(), key_prefix(mime)));
            }
            lemma_push_line(spaced, group, group, mime);
            lemma_no_newline_push(spaced, group);
        }
        lemma_push_line(grouped, e, group, mime);
        lemma_no_newline_push(grouped, e);
        assert(result == grouped.push(e));
    }
    lemma_get_of_text(result, group, mime);
}

/// Reading back a removed default: once the line of `mime` is taken out of
/// `group`, `mimeapps_get` finds none there (for a MIME type whose line
/// reads back as its own).
pub proof fn law_unset_then_get(list: Seq<char>, group: Seq<char>, mime: Seq<char>)
    requires
        plain_mime(mime),
    ensures
        mimeapps_get_of(mimeapps_set_of(list, group, mime, None), group, mime) is None,
{
    let ls = lines(list);
    lemma_lines_no_newline(list);
    lemma_set_fold_invariant(ls, group, mime, None);
    let (out, inside, seen, done) = set_fold(ls, group, mime, None);
    assert(set_lines(list, group, mime, None) == out);
    lemma_unreached(out, false, group, mime);
    lemma_get_of_text(out, group, mime);
}

/* ------------------------------------------------- putting a default back */

proof fn lemma_no_char_push(s: Seq<char>, c: char, x: char)
    requires
        !has_char(s, x),
        c != x,
    ensures
        !has_char(s.push(c), x),
{
    if has_char(s.push(c), x) {
        let i = choose|i: int| 0 <= i < s.push(c).len() && s.push(c)[i] == x;
        assert(i < s.len());
        assert(s[i] == x);
    }
}

proof fn lemma_no_char_skip(s: Seq<char>, k: int, x: char)
    requires
        !has_char(s, x),
        0 <= k <= s.len(),
    ensures
        !has_char(s.skip(k), x),
{
    if has_char(s.skip(k), x) {
        let i = choose|i: int| 0 <= i < s.skip(k).len() && s.skip(k)[i] == x;
        assert(s[i + k] == x);
    }
}

proof fn lemma_no_char_take(s: Seq<char>, k: int, x: char)
    requires
        !has_char(s, x),
        0 <= k <= s.len(),
    ensures
        !has_char(s.take(k), x),
{
    if has_char(s.take(k), x) {
        let i = choose|i: int| 0 <= i < s.take(k).len() && s.take(k)[i] == x;
        assert(s[i] == x);
    }
}

proof fn lemma_trim_start_skip_of(s: Seq<char>) -> (k: int)
    ensures
        0 <= k <= s.len(),
        trim_start(s) == s.skip(k),
        trim_start(s).len() > 0 ==> !is_ws(trim_start(s)[0]),
    decreases s.len(),
{
    if s.len() > 0 && is_ws(s[0]) {
        let k = lemma_trim_start_skip_of(s.drop_first());
        assert(s.drop_first().skip(k) =~= s.skip(k + 1));
        k + 1
    } else {
        assert(s.skip(0) =~= s);
        0
    }
}

proof fn lemma_trim_end_take_of(s: Seq<char>) -> (k: int)
    ensures
        0 <= k <= s.len(),
        trim_end(s) == s.take(k),
        trim_end(s).len() > 0 ==> !is_ws(trim_end(s).last()),
    decreases s.len(),
{
    if s.len() > 0 && is_ws(s.last()) {
        let k = lemma_trim_end_take_of(s.drop_last());
        assert(s.drop_last().take(k) =~= s.take(k));
        k
    } else {
        assert(s.take(s.len() as int) =~= s);
        s.len() as int
    }
}

/// Trimming drops no character but whitespace at the ends: a character
/// `s` lacks, its trimmed form lacks too; and trimming twice is trimming.
proof fn lemma_trim_props(s: Seq<char>, x: char)
    ensures
        !has_char(s, x) ==> !has_char(trim(s), x),
        trim(trim(s)) == trim(s),
{
    let a = lemma_trim_start_skip_of(s);
    let t = trim_start(s);
    let b = lemma_trim_end_take_of(t);
    let u = trim_end(t);
    if !has_char(s, x) {
        lemma_no_char_skip(s, a, x);
        lemma_no_char_take(t, b, x);
    }
    if u.len() > 0 {
        assert(u[0] == t[0]);
    }
    assert(trim_start(u) == u);
    assert(trim_end(u) == u);
}

/// The pieces of a split hold no separator, nor any character the text lacks.
proof fn lemma_split_pieces(s: Seq<char>, c: char, x: char)
    ensures
        forall|i: int| 0 <= i < split(s, c).len() ==> !has_char(#[trigger] split(s, c)[i], c),
        !has_char(s, x) ==> forall|i: int| 0 <= i < split(s, c).len() ==> !has_char(#[trigger] split(s, c)[i], x),
    decreases s.len(),
{
    if s.len() > 0 {
        let d = s.drop_last();
        lemma_split_pieces(d, c, x);
        lemma_split_nonempty(d, c);
        let pieces = split(d, c);
        let last = s.last();
        assert(!has_char(Seq::<char>::empty(), c));
        assert(!has_char(Seq::<char>::empty(), x));
        if !has_char(s, x) {
            assert(!has_char(d, x)) by {
                if has_char(d, x) {
                    let i = choose|i: int| 0 <= i < d.len() && d[i] == x;
                    assert(s[i] == x);
                }
            }
            assert(last != x) by {
                assert(s[s.len() - 1] == last);
            }
        }
        if last == c {
            assert forall|i: int| 0 <= i < split(s, c).len() implies !has_char(#[trigger] split(s, c)[i], c) by {
                if i < pieces.len() {
                    assert(split(s, c)[i] == pieces[i]);
                }
            }
            if !has_char(s, x) {
                assert forall|i: int| 0 <= i < split(s, c).len() implies !has_char(#[trigger] split(s, c)[i], x) by {
                    if i < pieces.len() {
                        assert(split(s, c)[i] == pieces[i]);
                    }
                }
            }
        } else {
            let n = pieces.len() - 1;
            assert(!has_char(pieces[n], c));
            lemma_no_char_push(pieces[n], last, c);
            assert forall|i: int| 0 <= i < split(s, c).len() implies !has_char(#[trigger] split(s, c)[i], c) by {
                if i < n {
                    assert(split(s, c)[i] == pieces[i]);
                }
            }
            if !has_char(s, x) {
                assert(!has_char(pieces[n], x));
                lemma_no_char_push(pieces[n], last, x);
                assert forall|i: int| 0 <= i < split(s, c).len() implies !has_char(#[trigger] split(s, c)[i], x) by {
                    if i < n {
                        assert(split(s, c)[i] == pieces[i]);
                    }
                }
            }
        }
    }
}

/// A text without the separator is one piece.
proof fn lemma_split_none(s: Seq<char>, c: char)
    requires
        !has_char(s, c),
    ensures
        split(s, c) == seq![s],
    decreases s.len(),
{
    if s.len() > 0 {
        let d = s.drop_last();
        assert(!has_char(d, c)) by {
            if has_char(d, c) {
                let i = choose|i: int| 0 <= i < d.len() && d[i] == c;
                assert(s[i] == c);
            }
        }
        lemma_split_none(d, c);
        assert(s[s.len() - 1] != c);
        assert(d.push(s.last()) =~= s);
        assert(split(s, c) =~= seq![s]);
    } else {
        assert(s =~= Seq::<char>::empty());
    }
}

/// An item of a `;`-separated list as `list_items` gives it: not empty,
/// trimmed, no `;`, on one line.
pub open spec fn plain_item(p: Seq<char>) -> bool {
    p.len() > 0 && trim(p) == p && !has_char(p, ';') && !has_char(p, '\n')
}

proof fn lemma_list_items(pieces: Seq<Seq<char>>)
    requires
        forall|i: int| 0 <= i < pieces.len() ==> !has_char(#[trigger] pieces[i], ';') && !has_char(pieces[i], '\n'),
    ensures
        forall|i: int| 0 <= i < list_items(pieces).len() ==> plain_item(#[trigger] list_items(pieces)[i]),
    decreases pieces.len(),
{
    if pieces.len() > 0 {
        let d = pieces.drop_last();
        assert forall|i: int| 0 <= i < d.len() implies !has_char(#[trigger] d[i], ';') && !has_char(d[i], '\n') by {
            assert(d[i] == pieces[i]);
        }
        lemma_list_items(d);
        let last = pieces.last();
        assert(!has_char(pieces[pieces.len() - 1], ';'));
        lemma_trim_props(last, ';');
        lemma_trim_props(last, '\n');
        let before = list_items(d);
        if trim(last).len() > 0 {
            assert forall|i: int| 0 <= i < list_items(pieces).len() implies plain_item(#[trigger] list_items(pieces)[i]) by {
                if i < before.len() {
                    assert(list_items(pieces)[i] == before[i]);
                }
            }
        }
    }
}

/// What `first_item` gives of a text on one line is a plain item.
proof fn lemma_first_item_plain(v: Seq<char>)
    requires
        !has_char(v, '\n'),
    ensures
        first_item(v) matches Some(p) ==> plain_item(p),
{
    lemma_split_pieces(v, ';', '\n');
    lemma_list_items(split(v, ';'));
}

/// A plain item is its own first item.
pub proof fn lemma_first_item_of_plain(p: Seq<char>)
    requires
        plain_item(p),
    ensures
        first_item(p) == Some(p),
{
    lemma_split_none(p, ';');
    let pieces = seq![p];
    assert(pieces.drop_last() =~= Seq::<Seq<char>>::empty());
    assert(pieces.last() == p);
    assert(list_items(Seq::<Seq<char>>::empty()) =~= Seq::<Seq<char>>::empty());
    assert(list_items(pieces) == list_items(pieces.drop_last()).push(p));
    assert(list_items(pieces) =~= seq![p]);
}

/// What `mimeapps_get` finds in lines without line feeds is a plain item.
proof fn lemma_get_in_plain(ls: Seq<Seq<char>>, inside: bool, group: Seq<char>, mime: Seq<char>)
    requires
        no_newline(ls),
    ensures
        get_in(ls, inside, group, mime) matches Some(p) ==> plain_item(p),
    decreases ls.len(),
{
    if ls.len() > 0 {
        let d = ls.drop_first();
        assert(no_newline(d)) by {
            assert forall|i: int| 0 <= i < d.len() implies !has_char(#[trigger] d[i], '\n') by {
                assert(d[i] == ls[i + 1]);
            }
        }
        let line = trim(ls[0]);
        assert(!has_char(ls[0], '\n'));
        lemma_trim_props(ls[0], '\n');
        if is_header(line) {
            lemma_get_in_plain(d, line == group, group, mime);
        } else if inside && starts_with(line, key_prefix(mime)) {
            if mime.len() + 1 <= line.len() {
                lemma_no_char_skip(line, mime.len() + 1int, '\n');
                lemma_first_item_plain(line.skip(mime.len() + 1int));
            } else {
                assert(line.skip(mime.len() + 1int) =~= Seq::<char>::empty());
                lemma_first_item_plain(Seq::<char>::empty());
            }
        } else {
            lemma_get_in_plain(d, inside, group, mime);
        }
    }
}

proof fn lemma_join_no_newline(items: Seq<Seq<char>>, sep: char)
    requires
        sep != '\n',
        forall|i: int| 0 <= i < items.len() ==> !has_char(#[trigger] items[i], '\n'),
    ensures
        !has_char(join_with(items, sep), '\n'),
    decreases items.len(),
{
    if items.len() == 1 {
        assert(!has_char(items[0], '\n'));
    } else if items.len() > 1 {
        let d = items.drop_last();
        assert forall|i: int| 0 <= i < d.len() implies !has_char(#[trigger] d[i], '\n') by {
            assert(d[i] == items[i]);
        }
        lemma_join_no_newline(d, sep);
        let a = join_with(d, sep);
        let b = items.last();
        assert(!has_char(items[items.len() - 1], '\n'));
        let j = a + seq![sep] + b;
        if has_char(j, '\n') {
            let i = choose|i: int| 0 <= i < j.len() && j[i] == '\n';
            if i < a.len() {
                assert(a[i] == '\n');
            } else if i > a.len() {
                assert(b[i - a.len() - 1] == '\n');
            }
        }
    }
}

proof fn lemma_without_plain(items: Seq<Seq<char>>, x: Seq<char>)
    requires
        forall|i: int| 0 <= i < items.len() ==> !has_char(#[trigger] items[i], '\n'),
    ensures
        forall|i: int| 0 <= i < without(items, x).len() ==> !has_char(#[trigger] without(items, x)[i], '\n'),
    decreases items.len(),
{
    if items.len() > 0 {
        let d = items.drop_last();
        assert forall|i: int| 0 <= i < d.len() implies !has_char(#[trigger] d[i], '\n') by {
            assert(d[i] == items[i]);
        }
        lemma_without_plain(d, x);
        assert(!has_char(items[items.len() - 1], '\n'));
        let w = without(d, x);
        if items.last() != x {
            assert forall|i: int| 0 <= i < without(items, x).len() implies !has_char(#[trigger] without(items, x)[i], '\n') by {
                if i < w.len() {
                    assert(without(items, x)[i] == w[i]);
                }
            }
        }
    }
}

/// The items `added_fold` reads are on one line.
proof fn lemma_added_fold_plain(ls: Seq<Seq<char>>, mime: Seq<char>)
    requires
        no_newline(ls),
    ensures
        forall|i: int| 0 <= i < added_fold(ls, mime).1.len() ==> !has_char(#[trigger] added_fold(ls, mime).1[i], '\n'),
    decreases ls.len(),
{
    if ls.len() > 0 {
        let d = ls.drop_last();
        assert(no_newline(d)) by {
            assert forall|i: int| 0 <= i < d.len() implies !has_char(#[trigger] d[i], '\n') by {
                assert(d[i] == ls[i]);
            }
        }
        lemma_added_fold_plain(d, mime);
        let raw = ls.last();
        assert(!has_char(ls[ls.len() - 1], '\n'));
        let line = trim(raw);
        lemma_trim_props(raw, '\n');
        let st = added_fold(d, mime);
        if !is_header(line) && st.0 && starts_with(line, key_prefix(mime)) {
            let rest = line.skip(mime.len() + 1int);
            if mime.len() + 1 <= line.len() {
                lemma_no_char_skip(line, mime.len() + 1int, '\n');
            } else {
                assert(rest =~= Seq::<char>::empty());
            }
            lemma_split_pieces(rest, ';', '\n');
            lemma_list_items(split(rest, ';'));
            let items = list_items(split(rest, ';'));
            assert forall|i: int| 0 <= i < items.len() implies !has_char(#[trigger] items[i], '\n') by {
                assert(plain_item(items[i]));
            }
        }
    }
}


/// A line that is no header, pushed where `other` is not the current group
/// or that is no line of `om`, changes nothing of what is read for `om` in
/// `other`.
proof fn lemma_push_outside(out: Seq<Seq<char>>, x: Seq<char>, other: Seq<char>, om: Seq<char>)
    requires
        !is_header(trim(x)),
        !inside_after(out, false, other) || !starts_with(trim(x), key_prefix(om)),
    ensures
        reaches(out.push(x), false, other, om) == reaches(out, false, other, om),
        get_in(out.push(x), false, other, om) == get_in(out, false, other, om),
        inside_after(out.push(x), false, other) == inside_after(out, false, other),
{
    lemma_push_line(out, x, other, om);
    if !reaches(out, false, other, om) {
        lemma_unreached(out, false, other, om);
    }
}

/// Two MIME types without `=`: a line of one is no line of the other.
proof fn lemma_keys_apart(t: Seq<char>, m: Seq<char>, om: Seq<char>)
    requires
        !has_char(m, '='),
        !has_char(om, '='),
        m != om,
        starts_with(t, key_prefix(m)),
    ensures
        !starts_with(t, key_prefix(om)),
{
    if starts_with(t, key_prefix(om)) {
        assert(t.subrange(0, key_prefix(m).len() as int)[m.len() as int] == t[m.len() as int]);
        assert(key_prefix(m)[m.len() as int] == '=');
        assert(t[m.len() as int] == '=');
        assert(t.subrange(0, key_prefix(om).len() as int)[om.len() as int] == t[om.len() as int]);
        assert(key_prefix(om)[om.len() as int] == '=');
        assert(t[om.len() as int] == '=');
        if m.len() < om.len() {
            assert(om[m.len() as int] == t[m.len() as int]);
            assert(has_char(om, '='));
        } else if om.len() < m.len() {
            assert(m[om.len() as int] == t[om.len() as int]);
            assert(has_char(m, '='));
        } else {
            assert forall|k: int| 0 <= k < m.len() implies m[k] == om[k] by {
                assert(m[k] == key_prefix(m)[k]);
                assert(om[k] == key_prefix(om)[k]);
                assert(t.subrange(0, key_prefix(m).len() as int)[k] == t[k]);
                assert(t.subrange(0, key_prefix(om).len() as int)[k] == t[k]);
            }
            assert(m =~= om);
        }
    }
}

/// Setting `mime` in `group` and reading `om` in `other`: another pair.
pub open spec fn other_pair(group: Seq<char>, mime: Seq<char>, other: Seq<char>, om: Seq<char>) -> bool {
    group != other || (mime != om && !has_char(mime, '=') && !has_char(om, '='))
}

/// What setting `mime` in `group` keeps of what is read for `om` in `other`.
pub open spec fn frame_invariant(
    st: (Seq<Seq<char>>, bool, bool, bool),
    ls: Seq<Seq<char>>,
    group: Seq<char>,
    other: Seq<char>,
    om: Seq<char>,
) -> bool {
    let (out, inside, seen, done) = st;
    &&& reaches(out, false, other, om) == reaches(ls, false, other, om)
    &&& get_in(out, false, other, om) == get_in(ls, false, other, om)
    &&& inside_after(out, false, other) == inside_after(ls, false, other)
    &&& group != other ==> (inside ==> !inside_after(out, false, other))
}

proof fn lemma_set_fold_frame(
    ls: Seq<Seq<char>>,
    group: Seq<char>,
    mime: Seq<char>,
    value: Option<Seq<char>>,
    other: Seq<char>,
    om: Seq<char>,
)
    requires
        other_pair(group, mime, other, om),
        plain_mime(mime),
        value matches Some(v) ==> !has_char(v, '\n'),
    ensures
        frame_invariant(set_fold(ls, group, mime, value), ls, group, other, om),
    decreases ls.len(),
{
    if ls.len() == 0 {
        assert(!reaches(Seq::<Seq<char>>::empty(), false, other, om));
    } else {
        let before = ls.drop_last();
        lemma_set_fold_frame(before, group, mime, value, other, om);
        let st = set_fold(before, group, mime, value);
        let (out, inside, seen, done) = st;
        let line = ls.last();
        let t = trim(line);
        assert(before.push(line) =~= ls);
        lemma_push_line(before, line, other, om);
        assert(set_fold(ls, group, mime, value) == set_step(st, line, group, mime, value));
        if is_header(t) {
            let out1 = if inside && !done {
                maybe_line(out, mime, value)
            } else {
                out
            };
            if inside && !done {
                if let Some(v) = value {
                    lemma_entry_line(mime, v);
                    if group == other {
                        lemma_keys_apart(entry_line(mime, v), mime, om);
                    }
                    lemma_push_outside(out, entry_line(mime, v), other, om);
                }
            }
            assert(reaches(out1, false, other, om) == reaches(out, false, other, om));
            assert(get_in(out1, false, other, om) == get_in(out, false, other, om));
            assert(inside_after(out1, false, other) == inside_after(out, false, other));
            lemma_push_line(out1, line, other, om);
        } else if inside && starts_with(t, key_prefix(mime)) {
            if group == other {
                lemma_keys_apart(t, mime, om);
            }
            if !reaches(before, false, other, om) {
                lemma_unreached(before, false, other, om);
            }
            if !done {
                if let Some(v) = value {
                    lemma_entry_line(mime, v);
                    if group == other {
                        lemma_keys_apart(entry_line(mime, v), mime, om);
                    }
                    lemma_push_outside(out, entry_line(mime, v), other, om);
                }
            }
        } else {
            lemma_push_line(out, line, other, om);
        }
    }
}

/// Setting `mime` in `group` changes nothing of what `mimeapps_get` reads
/// for another pair.
proof fn lemma_set_frame(
    list: Seq<char>,
    group: Seq<char>,
    mime: Seq<char>,
    value: Option<Seq<char>>,
    other: Seq<char>,
    om: Seq<char>,
)
    requires
        plain_group(group),
        other_pair(group, mime, other, om),
        plain_mime(mime),
        value matches Some(v) ==> !has_char(v, '\n'),
    ensures
        mimeapps_get_of(mimeapps_set_of(list, group, mime, value), other, om) == mimeapps_get_of(list, other, om),
{
    let ls = lines(list);
    lemma_lines_no_newline(list);
    lemma_set_fold_frame(ls, group, mime, value, other, om);
    lemma_set_fold_invariant(ls, group, mime, value);
    let (out, inside, seen, done) = set_fold(ls, group, mime, value);
    let result = set_lines(list, group, mime, value);
    if !done {
        if let Some(v) = value {
            lemma_entry_line(mime, v);
            let e = entry_line(mime, v);
            let grouped = if seen {
                out
            } else {
                let spaced = if out.len() > 0 && trim(out.last()).len() > 0 {
                    out.push(seq![])
                } else {
                    out
                };
                spaced.push(group)
            };
            if !seen {
                let spaced = if out.len() > 0 && trim(out.last()).len() > 0 {
                    out.push(seq![])
                } else {
                    out
                };
                if out.len() > 0 && trim(out.last()).len() > 0 {
                    assert(trim(Seq::<char>::empty()) =~= Seq::<char>::empty());
                    assert(!has_char(Seq::<char>::empty(), '\n'));
                    assert(!starts_with(Seq::<char>::empty(), key_prefix(om)));
                    lemma_push_line(out, seq![], other, om);
                    if !reaches(out, false, other, om) {
                        lemma_unreached(out, false, other, om);
                    }
                    lemma_no_newline_push(out, seq![]);
                }
                lemma_push_line(spaced, group, other, om);
                if !reaches(spaced, false, other, om) {
                    lemma_unreached(spaced, false, other, om);
                }
                lemma_no_newline_push(spaced, group);
            }
            if group == other {
                lemma_keys_apart(e, mime, om);
            } else {
                assert(!inside_after(grouped, false, other));
            }
            lemma_push_outside(grouped, e, other, om);
            lemma_no_newline_push(grouped, e);
            assert(result == grouped.push(e));
        }
    }
    assert(no_newline(result));
    lemma_get_of_text(result, other, om);
    if result.len() == 0 {
        assert(!reaches(result, false, other, om));
        lemma_unreached(ls, false, other, om);
    }
}

/// Setting one (group, MIME type) pair leaves every other pair as it read
/// before (for a group and a MIME type that read back as themselves, values
/// on one line, and MIME types without `=`, as MIME types are).
pub proof fn law_set_keeps_others(
    list: Seq<char>,
    group: Seq<char>,
    mime: Seq<char>,
    value: Option<Seq<char>>,
    other: Seq<char>,
    om: Seq<char>,
)
    requires
        plain_group(group),
        plain_mime(mime),
        !has_char(mime, '='),
        !has_char(om, '='),
        value matches Some(v) ==> !has_char(v, '\n'),
        other != group || om != mime,
    ensures
        mimeapps_get_of(mimeapps_set_of(list, group, mime, value), other, om) == mimeapps_get_of(list, other, om),
{
    lemma_set_frame(list, group, mime, value, other, om);
}

/// None of `ls` ends in a carriage return (which reading the lines back would drop).
pub open spec fn no_cr_end(ls: Seq<Seq<char>>) -> bool {
    forall|i: int| 0 <= i < ls.len() ==> strip_cr(#[trigger] ls[i]) == ls[i]
}

proof fn lemma_pushed_lines(out: Seq<Seq<char>>, x: Seq<char>)
    requires
        no_newline(out),
        no_cr_end(out),
        !has_char(x, '\n'),
        strip_cr(x) == x,
    ensures
        no_newline(out.push(x)),
        no_cr_end(out.push(x)),
        out.push(x).drop_last() == out,
        out.push(x).last() == x,
{
    assert(out.push(x).drop_last() =~= out);
    assert forall|i: int| 0 <= i < out.push(x).len() implies !has_char(#[trigger] out.push(x)[i], '\n') && strip_cr(
        out.push(x)[i],
    ) == out.push(x)[i] by {
        if i < out.len() {
            assert(out.push(x)[i] == out[i]);
        }
    }
}

proof fn lemma_entry_no_cr(mime: Seq<char>, v: Seq<char>)
    ensures
        strip_cr(entry_line(mime, v)) == entry_line(mime, v),
{
    let e = entry_line(mime, v);
    assert(e.last() == ';');
}

/// A second pass of setting `mime` in `group` over the lines that the first
/// pass wrote keeps them all and ends in the same state, but that a removal
/// it made in the group is only noticed when the group closes.
proof fn lemma_set_again_fold(ls: Seq<Seq<char>>, group: Seq<char>, mime: Seq<char>, value: Option<Seq<char>>)
    requires
        no_newline(ls),
        no_cr_end(others_fold(ls, group, mime).1),
        plain_mime(mime),
        value matches Some(v) ==> !has_char(v, '\n'),
    ensures
        ({
            let (out, inside, seen, done) = set_fold(ls, group, mime, value);
            let (out2, inside2, seen2, done2) = set_fold(out, group, mime, value);
            &&& out2 == out
            &&& inside2 == inside
            &&& seen2 == seen
            &&& (inside ==> seen)
            &&& (done2 ==> done)
            &&& (done && !done2 ==> inside && value is None)
            &&& no_newline(out)
            &&& no_cr_end(out)
        }),
    decreases ls.len(),
{
    if ls.len() == 0 {
        assert(no_newline(Seq::<Seq<char>>::empty()));
        assert(no_cr_end(Seq::<Seq<char>>::empty()));
    } else {
        let before = ls.drop_last();
        assert(no_newline(before)) by {
            assert forall|i: int| 0 <= i < before.len() implies !has_char(#[trigger] before[i], '\n') by {
                assert(before[i] == ls[i]);
            }
        }
        lemma_others_after_set(before, group, mime, value);
        let line = ls.last();
        let k = others_fold(before, group, mime).1;
        let kl = others_fold(ls, group, mime).1;
        assert(kl == k || kl == k.push(line));
        assert(no_cr_end(k)) by {
            assert forall|i: int| 0 <= i < k.len() implies strip_cr(#[trigger] k[i]) == k[i] by {
                if kl != k {
                    assert(kl[i] == k[i]);
                }
            }
        }
        lemma_set_again_fold(before, group, mime, value);
        let st = set_fold(before, group, mime, value);
        let (out, inside, seen, done) = st;
        let st2 = set_fold(out, group, mime, value);
        assert(!has_char(ls[ls.len() - 1], '\n'));
        assert(kl == k.push(line) ==> strip_cr(kl[kl.len() - 1]) == kl[kl.len() - 1]);
        assert(kl == k.push(line) ==> strip_cr(line) == line);
        assert(set_fold(ls, group, mime, value) == set_step(st, line, group, mime, value));
        let t = trim(line);
        if let Some(v) = value {
            lemma_entry_line(mime, v);
            lemma_entry_no_cr(mime, v);
        }
        if is_header(t) {
            let closing = inside && !done;
            if closing && value is Some {
                let e = entry_line(mime, value->0);
                lemma_pushed_lines(out, e);
                let o1 = out.push(e);
                assert(set_fold(o1, group, mime, value) == set_step(st2, e, group, mime, value));
                lemma_pushed_lines(o1, line);
                assert(set_fold(o1.push(line), group, mime, value) == set_step(
                    set_fold(o1, group, mime, value),
                    line,
                    group,
                    mime,
                    value,
                ));
            } else {
                lemma_pushed_lines(out, line);
                assert(set_fold(out.push(line), group, mime, value) == set_step(st2, line, group, mime, value));
            }
        } else if inside && starts_with(t, key_prefix(mime)) {
            if !done && value is Some {
                let e = entry_line(mime, value->0);
                lemma_pushed_lines(out, e);
                assert(set_fold(out.push(e), group, mime, value) == set_step(st2, e, group, mime, value));
            }
        } else {
            lemma_pushed_lines(out, line);
            assert(set_fold(out.push(line), group, mime, value) == set_step(st2, line, group, mime, value));
        }
    }
}

/// Setting the same value twice changes nothing: what the first call wrote
/// reads back as it is, and the second finds its line in place (for lists
/// none of whose kept lines, those but the type's own in the group, ends
/// in a carriage return, which reading the list back would drop).
pub proof fn law_set_twice(list: Seq<char>, group: Seq<char>, mime: Seq<char>, value: Option<Seq<char>>)
    requires
        plain_group(group),
        plain_mime(mime),
        value matches Some(v) ==> !has_char(v, '\n'),
        no_cr_end(other_lines(list, group, mime)),
    ensures
        mimeapps_set_of(mimeapps_set_of(list, group, mime, value), group, mime, value) == mimeapps_set_of(
            list,
            group,
            mime,
            value,
        ),
{
    let ls = lines(list);
    lemma_lines_no_newline(list);
    lemma_set_again_fold(ls, group, mime, value);
    lemma_set_fold_invariant(ls, group, mime, value);
    let (out, inside, seen, done) = set_fold(ls, group, mime, value);
    let r = set_lines(list, group, mime, value);
    let text = mimeapps_set_of(list, group, mime, value);
    assert(text == text_of_lines(r));
    if done || value is None {
        assert(r == out);
        if r.len() == 0 {
            assert(join_with(r, '\n') =~= Seq::<char>::empty());
            assert(text =~= seq!['\n']);
            assert(text.drop_last() =~= Seq::<char>::empty());
            assert(line_state(text.drop_last()) == (Seq::<Seq<char>>::empty(), Seq::<char>::empty()));
            assert(strip_cr(Seq::<char>::empty()) =~= Seq::<char>::empty());
            assert(line_state(text).0 =~= seq![Seq::<char>::empty()]);
            assert(line_state(text).1 =~= Seq::<char>::empty());
            assert(lines(text) =~= seq![Seq::<char>::empty()]);
            let one = seq![Seq::<char>::empty()];
            assert(one.drop_last() =~= Seq::<Seq<char>>::empty());
            assert(trim(Seq::<char>::empty()) =~= Seq::<char>::empty());
            assert(set_fold(one, group, mime, value) == (one, false, false, false));
            assert(join_with(one, '\n') == Seq::<char>::empty());
        } else {
            lemma_lines_of_lines(r);
            assert(r.map_values(|l: Seq<char>| strip_cr(l)) =~= r);
        }
    } else {
        let v = value->0;
        let e = entry_line(mime, v);
        lemma_entry_line(mime, v);
        lemma_entry_no_cr(mime, v);
        lemma_pushed_lines(out, e);
        if seen {
            assert(r == out.push(e));
            assert(set_fold(r, group, mime, value) == set_step((out, inside, seen, false), e, group, mime, value));
        } else {
            let spaced = if out.len() > 0 && trim(out.last()).len() > 0 {
                out.push(seq![])
            } else {
                out
            };
            assert(trim(Seq::<char>::empty()) =~= Seq::<char>::empty());
            assert(!has_char(Seq::<char>::empty(), '\n'));
            lemma_pushed_lines(out, seq![]);
            assert(set_fold(spaced, group, mime, value) == (spaced, false, false, false));
            assert(!has_char(group, '\n'));
            assert(strip_cr(group) == group) by {
                let k = lemma_trim_end_take_of(trim_start(group));
                assert(is_ws('\r'));
            }
            lemma_pushed_lines(spaced, group);
            assert(set_fold(spaced.push(group), group, mime, value) == (spaced.push(group), true, true, false));
            lemma_pushed_lines(spaced.push(group), e);
            assert(r == spaced.push(group).push(e));
            assert(set_fold(r, group, mime, value) == set_step(
                (spaced.push(group), true, true, false),
                e,
                group,
                mime,
                value,
            ));
        }
        lemma_lines_of_lines(r);
        assert(r.map_values(|l: Seq<char>| strip_cr(l)) =~= r);
    }
}

/// The "Open with" list of `mime` as `list` gives it: the items of the last
/// line of `mime` in `[Added Associations]`, none if it has none.
pub open spec fn open_with(list: Seq<char>, mime: Seq<char>) -> Seq<Seq<char>> {
    added_fold(lines(list), mime).1
}

proof fn lemma_split_append(s: Seq<char>, c: char, x: Seq<char>)
    requires
        !has_char(x, c),
    ensures
        split(s + seq![c] + x, c) == split(s, c).push(x),
    decreases x.len(),
{
    if x.len() == 0 {
        assert(s + seq![c] + x =~= s.push(c));
        assert((s.push(c)).drop_last() =~= s);
        assert(x =~= Seq::<char>::empty());
        assert(split(s.push(c), c) == split(s, c).push(Seq::<char>::empty()));
    } else {
        let y = x.drop_last();
        assert(!has_char(y, c)) by {
            if has_char(y, c) {
                let i = choose|i: int| 0 <= i < y.len() && y[i] == c;
                assert(x[i] == c);
            }
        }
        assert(x[x.len() - 1] != c);
        lemma_split_append(s, c, y);
        let whole = s + seq![c] + x;
        assert(whole.drop_last() =~= s + seq![c] + y);
        assert(whole.last() == x.last());
        lemma_split_nonempty(s, c);
        assert(y.push(x.last()) =~= x);
        assert(split(whole, c) == split(whole.drop_last(), c).update(
            split(whole.drop_last(), c).len() - 1,
            split(whole.drop_last(), c).last().push(whole.last()),
        ));
        assert(split(s, c).push(y).update(split(s, c).len() as int, y.push(x.last())) =~= split(s, c).push(x));
    }
}

proof fn lemma_split_joined(items: Seq<Seq<char>>, c: char)
    requires
        items.len() >= 1,
        forall|i: int| 0 <= i < items.len() ==> !has_char(#[trigger] items[i], c),
    ensures
        split(join_with(items, c), c) == items,
    decreases items.len(),
{
    if items.len() == 1 {
        assert(!has_char(items[0], c));
        lemma_split_none(items[0], c);
        assert(seq![items[0]] =~= items);
    } else {
        let d = items.drop_last();
        assert forall|i: int| 0 <= i < d.len() implies !has_char(#[trigger] d[i], c) by {
            assert(d[i] == items[i]);
        }
        lemma_split_joined(d, c);
        assert(!has_char(items[items.len() - 1], c));
        lemma_split_append(join_with(d, c), c, items.last());
        assert(d.push(items.last()) =~= items);
    }
}

proof fn lemma_list_items_plain(items: Seq<Seq<char>>)
    requires
        forall|i: int| 0 <= i < items.len() ==> plain_item(#[trigger] items[i]),
    ensures
        list_items(items) == items,
    decreases items.len(),
{
    if items.len() > 0 {
        let d = items.drop_last();
        assert forall|i: int| 0 <= i < d.len() implies plain_item(#[trigger] d[i]) by {
            assert(d[i] == items[i]);
        }
        lemma_list_items_plain(d);
        assert(plain_item(items[items.len() - 1]));
        assert(d.push(items.last()) =~= items);
    }
}

/// A `;`-separated list of plain items, with its closing `;`, reads back as those items.
proof fn lemma_items_of_joined(items: Seq<Seq<char>>)
    requires
        items.len() >= 1,
        forall|i: int| 0 <= i < items.len() ==> plain_item(#[trigger] items[i]),
    ensures
        list_items(split(join_with(items, ';').push(';'), ';')) == items,
        !has_char(join_with(items, ';'), '\n'),
{
    assert forall|i: int| 0 <= i < items.len() implies !has_char(#[trigger] items[i], ';') && !has_char(
        items[i],
        '\n',
    ) by {
        assert(plain_item(items[i]));
    }
    lemma_split_joined(items, ';');
    lemma_join_no_newline(items, ';');
    let j = join_with(items, ';');
    assert(j.push(';') =~= j + seq![';'] + Seq::<char>::empty());
    assert(!has_char(Seq::<char>::empty(), ';'));
    lemma_split_append(j, ';', Seq::<char>::empty());
    assert(trim(Seq::<char>::empty()) =~= Seq::<char>::empty());
    assert(items.push(Seq::<char>::empty()).drop_last() =~= items);
    lemma_list_items_plain(items);
}

/// `without` is the filter that drops `x`.
pub proof fn lemma_without_filter(items: Seq<Seq<char>>, x: Seq<char>)
    ensures
        without(items, x) == items.filter(|d: Seq<char>| d != x),
    decreases items.len(),
{
    reveal(Seq::filter);
    if items.len() > 0 {
        lemma_without_filter(items.drop_last(), x);
    }
}

proof fn lemma_without_items(items: Seq<Seq<char>>, x: Seq<char>)
    requires
        forall|i: int| 0 <= i < items.len() ==> plain_item(#[trigger] items[i]),
    ensures
        forall|i: int| 0 <= i < without(items, x).len() ==> plain_item(#[trigger] without(items, x)[i]),
    decreases items.len(),
{
    if items.len() > 0 {
        let d = items.drop_last();
        assert forall|i: int| 0 <= i < d.len() implies plain_item(#[trigger] d[i]) by {
            assert(d[i] == items[i]);
        }
        lemma_without_items(d, x);
        assert(plain_item(items[items.len() - 1]));
        let w = without(d, x);
        if items.last() != x {
            assert forall|i: int| 0 <= i < without(items, x).len() implies plain_item(#[trigger] without(items, x)[i]) by {
                if i < w.len() {
                    assert(without(items, x)[i] == w[i]);
                }
            }
        }
    }
}

/// The items `added_fold` reads are plain items.
proof fn lemma_added_fold_items(ls: Seq<Seq<char>>, mime: Seq<char>)
    requires
        no_newline(ls),
    ensures
        forall|i: int| 0 <= i < added_fold(ls, mime).1.len() ==> plain_item(#[trigger] added_fold(ls, mime).1[i]),
    decreases ls.len(),
{
    if ls.len() > 0 {
        let d = ls.drop_last();
        assert(no_newline(d)) by {
            assert forall|i: int| 0 <= i < d.len() implies !has_char(#[trigger] d[i], '\n') by {
                assert(d[i] == ls[i]);
            }
        }
        lemma_added_fold_items(d, mime);
        let raw = ls.last();
        assert(!has_char(ls[ls.len() - 1], '\n'));
        let line = trim(raw);
        lemma_trim_props(raw, '\n');
        let st = added_fold(d, mime);
        if !is_header(line) && st.0 && starts_with(line, key_prefix(mime)) {
            let rest = line.skip(mime.len() + 1int);
            if mime.len() + 1 <= line.len() {
                lemma_no_char_skip(line, mime.len() + 1int, '\n');
            } else {
                assert(rest =~= Seq::<char>::empty());
                assert(!has_char(rest, '\n'));
            }
            lemma_split_pieces(rest, ';', '\n');
            lemma_list_items(split(rest, ';'));
        }
    }
}

/// What setting `mime` in `[Added Associations]` leaves for `added_fold` to read.
proof fn lemma_added_after_set(ls: Seq<Seq<char>>, mime: Seq<char>, value: Option<Seq<char>>)
    requires
        no_newline(ls),
        plain_mime(mime),
        value matches Some(v) ==> !has_char(v, '\n'),
    ensures
        ({
            let (out, inside, seen, done) = set_fold(ls, added_header(), mime, value);
            &&& added_fold(out, mime) == (inside, match value {
                Some(v) => if done {
                    list_items(split(v.push(';'), ';'))
                } else {
                    Seq::<Seq<char>>::empty()
                },
                None => Seq::<Seq<char>>::empty(),
            })
            &&& (inside ==> seen)
        }),
    decreases ls.len(),
{
    if ls.len() > 0 {
        let before = ls.drop_last();
        assert(no_newline(before)) by {
            assert forall|i: int| 0 <= i < before.len() implies !has_char(#[trigger] before[i], '\n') by {
                assert(before[i] == ls[i]);
            }
        }
        lemma_added_after_set(before, mime, value);
        let g = added_header();
        let st = set_fold(before, g, mime, value);
        let (out, inside, seen, done) = st;
        let line = ls.last();
        assert(set_fold(ls, g, mime, value) == set_step(st, line, g, mime, value));
        let t = trim(line);
        if let Some(v) = value {
            lemma_entry_line(mime, v);
        }
        let items = match value {
            Some(v) => list_items(split(v.push(';'), ';')),
            None => Seq::<Seq<char>>::empty(),
        };
        if is_header(t) {
            let closing = inside && !done;
            if closing && value is Some {
                let e = entry_line(mime, value->0);
                let o1 = out.push(e);
                assert(o1.drop_last() =~= out);
                assert(o1.last() == e);
                assert(added_fold(o1, mime) == added_step(added_fold(out, mime), e, mime));
                assert(added_fold(o1, mime) == (inside, items));
                assert(o1.push(line).drop_last() =~= o1);
                assert(added_fold(o1.push(line), mime) == added_step(added_fold(o1, mime), line, mime));
            } else {
                assert(out.push(line).drop_last() =~= out);
                assert(added_fold(out.push(line), mime) == added_step(added_fold(out, mime), line, mime));
            }
        } else if inside && starts_with(t, key_prefix(mime)) {
            if !done && value is Some {
                let e = entry_line(mime, value->0);
                assert(out.push(e).drop_last() =~= out);
                assert(added_fold(out.push(e), mime) == added_step(added_fold(out, mime), e, mime));
            }
        } else {
            assert(out.push(line).drop_last() =~= out);
            assert(added_fold(out.push(line), mime) == added_step(added_fold(out, mime), line, mime));
        }
    }
}

proof fn lemma_added_fold_strip_cr(ls: Seq<Seq<char>>, mime: Seq<char>)
    ensures
        added_fold(ls.map_values(|l: Seq<char>| strip_cr(l)), mime) == added_fold(ls, mime),
    decreases ls.len(),
{
    if ls.len() > 0 {
        let d = ls.drop_last();
        lemma_added_fold_strip_cr(d, mime);
        let m = ls.map_values(|l: Seq<char>| strip_cr(l));
        assert(m.drop_last() =~= d.map_values(|l: Seq<char>| strip_cr(l)));
        lemma_trim_strip_cr(ls.last());
    }
}

/// Adding `desktop` to the "Open with" list of `mime` puts it first and keeps
/// the others, in their order; removing it keeps the others. The list reads
/// back as that, and when it is empty no line of `mime` is left in the group.
pub proof fn law_added_open_with(list: Seq<char>, mime: Seq<char>, desktop: Seq<char>, add: bool)
    requires
        plain_mime(mime),
        plain_item(desktop),
    ensures
        open_with(mimeapps_added_of(list, mime, desktop, add), mime) == if add {
            seq![desktop] + open_with(list, mime).filter(|d: Seq<char>| d != desktop)
        } else {
            open_with(list, mime).filter(|d: Seq<char>| d != desktop)
        },
        open_with(mimeapps_added_of(list, mime, desktop, add), mime).len() == 0 ==> mimeapps_get_of(
            mimeapps_added_of(list, mime, desktop, add),
            added_header(),
            mime,
        ) is None,
{
    let ls = lines(list);
    lemma_lines_no_newline(list);
    lemma_headers_plain();
    let cur = added_fold(ls, mime).1;
    lemma_added_fold_items(ls, mime);
    lemma_without_items(cur, desktop);
    lemma_without_filter(cur, desktop);
    let next = added_list(list, mime, desktop, add);
    assert forall|i: int| 0 <= i < next.len() implies plain_item(#[trigger] next[i]) by {
        if add {
            if i > 0 {
                assert(next[i] == without(cur, desktop)[i - 1]);
            }
        }
    }
    let value = if next.len() == 0 {
        None
    } else {
        Some(join_with(next, ';'))
    };
    if next.len() > 0 {
        lemma_items_of_joined(next);
    }
    let g = added_header();
    lemma_set_fold_invariant(ls, g, mime, value);
    lemma_added_after_set(ls, mime, value);
    let (out, inside, seen, done) = set_fold(ls, g, mime, value);
    let r = set_lines(list, g, mime, value);
    let text = mimeapps_added_of(list, mime, desktop, add);
    assert(text == text_of_lines(r));
    // the lines written hold no line feed
    assert(no_newline(r)) by {
        if !done && value is Some {
            let v = value->0;
            lemma_entry_line(mime, v);
            let e = entry_line(mime, v);
            let spaced = if out.len() > 0 && trim(out.last()).len() > 0 {
                out.push(seq![])
            } else {
                out
            };
            assert(!has_char(Seq::<char>::empty(), '\n'));
            assert forall|i: int| 0 <= i < r.len() implies !has_char(#[trigger] r[i], '\n') by {
                if i < out.len() {
                    if seen {
                        assert(r[i] == out[i]);
                    } else {
                        assert(r[i] == spaced[i]);
                        assert(spaced[i] == out[i]);
                    }
                } else if seen {
                    assert(r[i] == e);
                } else if i < spaced.len() {
                    assert(r[i] == spaced[i]);
                } else if i == spaced.len() {
                    assert(r[i] == g);
                } else {
                    assert(r[i] == e);
                }
            }
        }
    }
    // what is read from the lines written
    assert(added_fold(r, mime).1 == next) by {
        if !done && value is Some {
            let v = value->0;
            lemma_entry_line(mime, v);
            let e = entry_line(mime, v);
            assert(added_fold(out, mime) == (inside, Seq::<Seq<char>>::empty()));
            assert(list_items(split(v.push(';'), ';')) == next);
            if seen {
                assert(inside);
                assert(r == out.push(e));
                assert(r.drop_last() =~= out);
                assert(added_fold(r, mime) == added_step(added_fold(out, mime), e, mime));
            } else {
                let spaced = if out.len() > 0 && trim(out.last()).len() > 0 {
                    out.push(seq![])
                } else {
                    out
                };
                assert(trim(Seq::<char>::empty()) =~= Seq::<char>::empty());
                assert(out.push(seq![]).drop_last() =~= out);
                assert(added_fold(spaced, mime) == added_fold(out, mime));
                assert(spaced.push(g).drop_last() =~= spaced);
                assert(r == spaced.push(g).push(e));
                assert(r.drop_last() =~= spaced.push(g));
                assert(!inside);
                assert(added_fold(spaced.push(g), mime) == (true, Seq::<Seq<char>>::empty()));
                assert(added_fold(r, mime) == added_step(added_fold(spaced.push(g), mime), e, mime));
            }
        } else {
            assert(r == out);
            if value is None {
                assert(next =~= Seq::<Seq<char>>::empty());
            }
        }
    }
    if r.len() == 0 {
        assert(join_with(r, '\n') =~= Seq::<char>::empty());
        assert(text =~= seq!['\n']);
        assert(line_state(text.drop_last()) == (Seq::<Seq<char>>::empty(), Seq::<char>::empty()));
        assert(strip_cr(Seq::<char>::empty()) =~= Seq::<char>::empty());
        assert(line_state(text).0 =~= seq![Seq::<char>::empty()]);
        assert(lines(text) =~= seq![Seq::<char>::empty()]);
        let one = seq![Seq::<char>::empty()];
        assert(one.drop_last() =~= Seq::<Seq<char>>::empty());
        assert(trim(Seq::<char>::empty()) =~= Seq::<char>::empty());
        assert(added_fold(one, mime).1 =~= Seq::<Seq<char>>::empty());
    } else {
        lemma_lines_of_lines(r);
        lemma_added_fold_strip_cr(r, mime);
    }
    if next.len() == 0 {
        law_unset_then_get(list, g, mime);
    }
}

/// Reading `ls` and leaving out the lines of `mime` in `group`: whether
/// `group` is the current group, and the lines kept.
pub open spec fn others_fold(ls: Seq<Seq<char>>, group: Seq<char>, mime: Seq<char>) -> (bool, Seq<Seq<char>>)
    decreases ls.len(),
{
    if ls.len() == 0 {
        (false, seq![])
    } else {
        let (inside, kept) = others_fold(ls.drop_last(), group, mime);
        let line = ls.last();
        let t = trim(line);
        if is_header(t) {
            (t == group, kept.push(line))
        } else if inside && starts_with(t, key_prefix(mime)) {
            (inside, kept)
        } else {
            (inside, kept.push(line))
        }
    }
}

/// The lines of `list` but those of `mime` in `group`.
pub open spec fn other_lines(list: Seq<char>, group: Seq<char>, mime: Seq<char>) -> Seq<Seq<char>> {
    others_fold(lines(list), group, mime).1
}

proof fn lemma_others_after_set(ls: Seq<Seq<char>>, group: Seq<char>, mime: Seq<char>, value: Option<Seq<char>>)
    requires
        plain_mime(mime),
        value matches Some(v) ==> !has_char(v, '\n'),
    ensures
        ({
            let (out, inside, seen, done) = set_fold(ls, group, mime, value);
            &&& others_fold(out, group, mime) == others_fold(ls, group, mime)
            &&& others_fold(ls, group, mime).0 == inside
        }),
    decreases ls.len(),
{
    if ls.len() > 0 {
        let before = ls.drop_last();
        lemma_others_after_set(before, group, mime, value);
        let st = set_fold(before, group, mime, value);
        let (out, inside, seen, done) = st;
        let line = ls.last();
        assert(set_fold(ls, group, mime, value) == set_step(st, line, group, mime, value));
        let t = trim(line);
        if let Some(v) = value {
            lemma_entry_line(mime, v);
        }
        if is_header(t) {
            if inside && !done && value is Some {
                let e = entry_line(mime, value->0);
                let o1 = out.push(e);
                assert(o1.drop_last() =~= out);
                assert(others_fold(o1, group, mime) == others_fold(out, group, mime));
                assert(o1.push(line).drop_last() =~= o1);
            } else {
                assert(out.push(line).drop_last() =~= out);
            }
        } else if inside && starts_with(t, key_prefix(mime)) {
            if !done && value is Some {
                let e = entry_line(mime, value->0);
                assert(out.push(e).drop_last() =~= out);
            }
        } else {
            assert(out.push(line).drop_last() =~= out);
        }
    }
}

/// Setting a value keeps every other line of the list, unchanged and in
/// its order; the only lines it may add besides its own are an empty line
/// and the group's header, when the group is missing. Removing a value adds
/// nothing (but the line ending an empty list). This holds for lists none
/// of whose kept lines ends in a carriage return, which reading the list
/// back would drop.
pub proof fn law_set_keeps_lines(list: Seq<char>, group: Seq<char>, mime: Seq<char>, value: Option<Seq<char>>)
    requires
        plain_group(group),
        plain_mime(mime),
        value matches Some(v) ==> !has_char(v, '\n'),
        no_cr_end(other_lines(list, group, mime)),
    ensures
        ({
            let before = other_lines(list, group, mime);
            let after = other_lines(mimeapps_set_of(list, group, mime, value), group, mime);
            &&& after.take(before.len() as int) == before
            &&& forall|i: int| before.len() <= i < after.len() ==> after[i] == Seq::<char>::empty() || after[i] == group
            &&& (value is None && lines(list).len() > 0 ==> after == before)
        }),
{
    let ls = lines(list);
    lemma_lines_no_newline(list);
    lemma_set_again_fold(ls, group, mime, value);
    lemma_set_fold_invariant(ls, group, mime, value);
    lemma_others_after_set(ls, group, mime, value);
    let (out, inside, seen, done) = set_fold(ls, group, mime, value);
    let r = set_lines(list, group, mime, value);
    let text = mimeapps_set_of(list, group, mime, value);
    let before = other_lines(list, group, mime);
    assert(text == text_of_lines(r));
    if done || value is None {
        assert(r == out);
        if r.len() == 0 {
            assert(ls.len() == 0) by {
                if ls.len() > 0 {
                    lemma_out_grows(ls, group, mime, value);
                }
            }
            assert(join_with(r, '\n') =~= Seq::<char>::empty());
            assert(text =~= seq!['\n']);
            assert(line_state(text.drop_last()) == (Seq::<Seq<char>>::empty(), Seq::<char>::empty()));
            assert(strip_cr(Seq::<char>::empty()) =~= Seq::<char>::empty());
            assert(line_state(text).0 =~= seq![Seq::<char>::empty()]);
            assert(lines(text) =~= seq![Seq::<char>::empty()]);
            let one = seq![Seq::<char>::empty()];
            assert(one.drop_last() =~= Seq::<Seq<char>>::empty());
            assert(trim(Seq::<char>::empty()) =~= Seq::<char>::empty());
            assert(before =~= Seq::<Seq<char>>::empty());
        } else {
            lemma_lines_of_lines(r);
            assert(r.map_values(|l: Seq<char>| strip_cr(l)) =~= r);
            assert(other_lines(text, group, mime).take(before.len() as int) =~= before);
        }
    } else {
        let v = value->0;
        let e = entry_line(mime, v);
        lemma_entry_line(mime, v);
        lemma_entry_no_cr(mime, v);
        lemma_pushed_lines(out, e);
        if seen {
            assert(r == out.push(e));
            assert(r.drop_last() =~= out);
            assert(others_fold(r, group, mime) == others_fold(out, group, mime));
        } else {
            let spaced = if out.len() > 0 && trim(out.last()).len() > 0 {
                out.push(seq![])
            } else {
                out
            };
            assert(trim(Seq::<char>::empty()) =~= Seq::<char>::empty());
            assert(!has_char(Seq::<char>::empty(), '\n'));
            lemma_pushed_lines(out, seq![]);
            assert(!has_char(group, '\n'));
            assert(strip_cr(group) == group) by {
                let k = lemma_trim_end_take_of(trim_start(group));
                assert(is_ws('\r'));
            }
            lemma_pushed_lines(spaced, group);
            lemma_pushed_lines(spaced.push(group), e);
            assert(r == spaced.push(group).push(e));
            assert(r.drop_last() =~= spaced.push(group));
            assert(spaced.push(group).drop_last() =~= spaced);
            assert(out.push(seq![]).drop_last() =~= out);
            let kept = others_fold(r, group, mime).1;
            assert(others_fold(spaced.push(group), group, mime).0);
            assert(kept == others_fold(spaced, group, mime).1.push(group));
            assert(kept.take(before.len() as int) =~= before);
        }
        lemma_lines_of_lines(r);
        assert(r.map_values(|l: Seq<char>| strip_cr(l)) =~= r);
    }
}

/// Setting never writes fewer lines than it keeps: a list with lines gives lines.
proof fn lemma_out_grows(ls: Seq<Seq<char>>, group: Seq<char>, mime: Seq<char>, value: Option<Seq<char>>)
    requires
        ls.len() > 0,
    ensures
        set_fold(ls, group, mime, value).0.len() > 0 || set_fold(ls, group, mime, value).3,
    decreases ls.len(),
{
    let before = ls.drop_last();
    if before.len() > 0 {
        lemma_out_grows(before, group, mime, value);
    }
}

/// The headers of the two groups of `mimeapps.list` read back as themselves.
pub proof fn lemma_headers_plain()
    ensures
        plain_group(defaults_header()),
        plain_group(added_header()),
        defaults_header() != added_header(),
{
    reveal_strlit("[Default Applications]");
    reveal_strlit("[Added Associations]");
    let d = defaults_header();
    let a = added_header();
    assert(!is_ws(d[0]) && !is_ws(d.last()));
    assert(!is_ws(a[0]) && !is_ws(a.last()));
    assert(trim_start(d) == d);
    assert(trim_end(d) == d);
    assert(trim_start(a) == a);
    assert(trim_end(a) == a);
    assert(!has_char(d, '\n')) by {
        if has_char(d, '\n') {
            let i = choose|i: int| 0 <= i < d.len() && d[i] == '\n';
        }
    }
    assert(!has_char(a, '\n')) by {
        if has_char(a, '\n') {
            let i = choose|i: int| 0 <= i < a.len() && a[i] == '\n';
        }
    }
    assert(d.len() != a.len());
}

/// Editing the "Open with" list of `mime` changes nothing of what
/// `mimeapps_get` reads for another pair.
pub proof fn law_added_keeps_others(
    list: Seq<char>,
    mime: Seq<char>,
    desktop: Seq<char>,
    add: bool,
    other: Seq<char>,
    om: Seq<char>,
)
    requires
        plain_mime(mime),
        !has_char(desktop, '\n'),
        other_pair(added_header(), mime, other, om),
    ensures
        mimeapps_get_of(mimeapps_added_of(list, mime, desktop, add), other, om) == mimeapps_get_of(list, other, om),
{
    lemma_headers_plain();
    let ls = lines(list);
    lemma_lines_no_newline(list);
    lemma_added_fold_plain(ls, mime);
    let rest = without(added_fold(ls, mime).1, desktop);
    lemma_without_plain(added_fold(ls, mime).1, desktop);
    let next = added_list(list, mime, desktop, add);
    assert forall|i: int| 0 <= i < next.len() implies !has_char(#[trigger] next[i], '\n') by {
        if add {
            if i == 0 {
                assert(next[i] == desktop);
            } else {
                assert(next[i] == rest[i - 1]);
            }
        } else {
            assert(next[i] == rest[i]);
        }
    }
    lemma_join_no_newline(next, ';');
    let value = if next.len() == 0 {
        None
    } else {
        Some(join_with(next, ';'))
    };
    lemma_set_frame(list, added_header(), mime, value, other, om);
}

/// Editing the "Open with" list of `mime` changes nothing of its default.
pub proof fn lemma_added_keeps_default(list: Seq<char>, mime: Seq<char>, desktop: Seq<char>, add: bool)
    requires
        plain_mime(mime),
        !has_char(desktop, '\n'),
    ensures
        mimeapps_get_of(mimeapps_added_of(list, mime, desktop, add), defaults_header(), mime) == mimeapps_get_of(
            list,
            defaults_header(),
            mime,
        ),
{
    lemma_headers_plain();
    law_added_keeps_others(list, mime, desktop, add, defaults_header(), mime);
}

/// What `mimeapps_get` reads is a plain item.
pub proof fn lemma_get_plain(list: Seq<char>, group: Seq<char>, mime: Seq<char>)
    ensures
        mimeapps_get_of(list, group, mime) matches Some(p) ==> plain_item(p) && first_item(p) == Some(p),
{
    lemma_lines_no_newline(list);
    lemma_get_in_plain(lines(list), false, group, mime);
    if let Some(p) = mimeapps_get_of(list, group, mime) {
        lemma_first_item_of_plain(p);
    }
}

/* ------------------------------------------------- reading an entry back */

/// Lines, each ended by a line feed.
pub open spec fn ended(ls: Seq<Seq<char>>) -> Seq<char>
    decreases ls.len(),
{
    if ls.len() == 0 {
        seq![]
    } else {
        ended(ls.drop_last()) + ls.last() + seq!['\n']
    }
}

proof fn lemma_ended_append(a: Seq<Seq<char>>, b: Seq<Seq<char>>)
    ensures
        ended(a + b) == ended(a) + ended(b),
    decreases b.len(),
{
    if b.len() == 0 {
        assert(a + b =~= a);
        assert(ended(a) + ended(b) =~= ended(a));
    } else {
        lemma_ended_append(a, b.drop_last());
        assert((a + b).drop_last() =~= a + b.drop_last());
        assert((a + b).last() == b.last());
        assert(ended(a) + ended(b.drop_last()) + b.last() + seq!['\n'] =~= ended(a) + (ended(b.drop_last())
            + b.last() + seq!['\n']));
    }
}

proof fn lemma_ended_text(ls: Seq<Seq<char>>)
    requires
        ls.len() >= 1,
    ensures
        ended(ls) == text_of_lines(ls),
    decreases ls.len(),
{
    if ls.len() == 1 {
        assert(ls.drop_last() =~= Seq::<Seq<char>>::empty());
        assert(ended(Seq::<Seq<char>>::empty()) == Seq::<char>::empty());
        assert(ended(ls) == ended(ls.drop_last()) + ls.last() + seq!['\n']);
        assert(ended(ls) =~= ls[0].push('\n'));
    } else {
        lemma_ended_text(ls.drop_last());
        assert(join_with(ls, '\n') == join_with(ls.drop_last(), '\n') + seq!['\n'] + ls.last());
        assert(ended(ls) =~= text_of_lines(ls));
    }
}

/// The line of a field.
pub open spec fn field_line(f: (Seq<char>, Seq<char>)) -> Seq<char> {
    f.0 + seq!['='] + f.1
}

/// The lines of `fields`.
pub open spec fn field_lines(fields: Seq<(Seq<char>, Seq<char>)>) -> Seq<Seq<char>> {
    fields.map_values(|f: (Seq<char>, Seq<char>)| field_line(f))
}

proof fn lemma_fields_text(fields: Seq<(Seq<char>, Seq<char>)>)
    ensures
        fields_text(fields) == ended(field_lines(fields)),
    decreases fields.len(),
{
    if fields.len() > 0 {
        let d = fields.drop_last();
        lemma_fields_text(d);
        assert(field_lines(fields).drop_last() =~= field_lines(d));
        assert(field_lines(fields).last() == field_line(fields.last()));
        assert(fields_text(fields) =~= ended(field_lines(fields)));
    } else {
        assert(field_lines(fields) =~= Seq::<Seq<char>>::empty());
    }
}

/// The lines of the group of an action, after the empty line before it.
pub open spec fn action_group(a: (Seq<char>, Seq<char>, Seq<char>)) -> Seq<Seq<char>> {
    seq![seq![], "[Desktop Action "@ + a.0 + "]"@, "Name="@ + a.1, "Exec="@ + a.2]
}

/// The lines of the groups of `actions`.
pub open spec fn action_lines(actions: Seq<(Seq<char>, Seq<char>, Seq<char>)>) -> Seq<Seq<char>>
    decreases actions.len(),
{
    if actions.len() == 0 {
        seq![]
    } else {
        action_lines(actions.drop_last()) + action_group(actions.last())
    }
}

proof fn lemma_actions_text(actions: Seq<(Seq<char>, Seq<char>, Seq<char>)>)
    ensures
        actions_text(actions) == ended(action_lines(actions)),
    decreases actions.len(),
{
    if actions.len() > 0 {
        let d = actions.drop_last();
        lemma_actions_text(d);
        let a = actions.last();
        let g = action_group(a);
        lemma_ended_append(action_lines(d), g);
        reveal_strlit("\n[Desktop Action ");
        reveal_strlit("]\nName=");
        reveal_strlit("\nExec=");
        reveal_strlit("[Desktop Action ");
        reveal_strlit("]");
        reveal_strlit("Name=");
        reveal_strlit("Exec=");
        reveal_with_fuel(ended, 5);
        assert(g.drop_last() =~= seq![g[0], g[1], g[2]]);
        assert(g.drop_last().drop_last() =~= seq![g[0], g[1]]);
        assert(g.drop_last().drop_last().drop_last() =~= seq![g[0]]);
        assert(g.drop_last().drop_last().drop_last().drop_last() =~= Seq::<Seq<char>>::empty());
        assert(ended(g) =~= "\n[Desktop Action "@ + a.0 + "]\nName="@ + a.1 + "\nExec="@ + a.2 + seq!['\n']);
    }
}

proof fn lemma_entry_fold_strip_cr(ls: Seq<Seq<char>>)
    ensures
        entry_fold(ls.map_values(|l: Seq<char>| strip_cr(l))) == entry_fold(ls),
    decreases ls.len(),
{
    if ls.len() > 0 {
        let d = ls.drop_last();
        lemma_entry_fold_strip_cr(d);
        let m = ls.map_values(|l: Seq<char>| strip_cr(l));
        assert(m.drop_last() =~= d.map_values(|l: Seq<char>| strip_cr(l)));
        lemma_trim_strip_cr(ls.last());
    }
}

proof fn lemma_trimmed_ends(s: Seq<char>)
    requires
        trim(s) == s,
        s.len() > 0,
    ensures
        !is_ws(s[0]),
        !is_ws(s.last()),
{
    let a = lemma_trim_start_skip_of(s);
    let t = trim_start(s);
    let b = lemma_trim_end_take_of(t);
    assert(s[0] == t[0]);
}

proof fn lemma_plain_line(s: Seq<char>)
    requires
        s.len() > 0,
        !is_ws(s[0]),
        !is_ws(s.last()),
    ensures
        trim(s) == s,
{
    assert(trim_start(s) == s);
    assert(trim_end(s) == s);
}

/// A line starting with a character that is neither whitespace nor `[` opens no group.
proof fn lemma_no_header(s: Seq<char>)
    requires
        s.len() > 0,
        !is_ws(s[0]),
        s[0] != '[',
    ensures
        !is_header(trim(s)),
{
    assert(trim_start(s) == s);
    let k = lemma_trim_end_take_of(s);
    if k > 0 {
        assert(trim(s)[0] == s[0]);
    }
}

proof fn lemma_no_char_concat(x: Seq<char>, y: Seq<char>, c: char)
    requires
        !has_char(x, c),
        !has_char(y, c),
    ensures
        !has_char(x + y, c),
{
    if has_char(x + y, c) {
        let i = choose|i: int| 0 <= i < (x + y).len() && (x + y)[i] == c;
        if i < x.len() {
            assert(x[i] == c);
        } else {
            assert(y[i - x.len()] == c);
        }
    }
}

proof fn lemma_no_newline_concat(a: Seq<Seq<char>>, b: Seq<Seq<char>>)
    requires
        no_newline(a),
        no_newline(b),
    ensures
        no_newline(a + b),
{
    assert forall|i: int| 0 <= i < (a + b).len() implies !has_char(#[trigger] (a + b)[i], '\n') by {
        if i < a.len() {
            assert((a + b)[i] == a[i]);
        } else {
            assert((a + b)[i] == b[i - a.len()]);
        }
    }
}

/// Reading the line of a field: its key, and its value trimmed, join the
/// `[Desktop Entry]` group being read.
proof fn lemma_field_step(st: (bool, Seq<(Seq<char>, Seq<char>)>), f: (Seq<char>, Seq<char>))
    requires
        st.0,
        f.0.len() > 0,
        trim(f.0) == f.0,
        !is_header(f.0),
        !has_char(f.0, '='),
        f.1.len() > 0 ==> !is_ws(f.1.last()),
        !has_key(st.1, f.0),
    ensures
        entry_step(st, field_line(f)) == (true, st.1.push((f.0, trim(f.1)))),
{
    let line = field_line(f);
    let k = f.0;
    lemma_trimmed_ends(k);
    assert(line[0] == k[0]);
    if f.1.len() > 0 {
        assert(line.last() == f.1.last());
    } else {
        assert(line.last() == '=');
    }
    lemma_plain_line(line);
    assert(line[k.len() as int] == '=');
    lemma_first_index(line, '=');
    match first_index(line, '=') {
        Some(i) => {
            if i < k.len() {
                assert(k[i] == line[i]);
            }
            assert(i == k.len());
        },
        None => {},
    }
    assert(line.take(k.len() as int) =~= k);
    assert(line.skip(k.len() + 1int) =~= f.1);
}

/// Plain fields, with distinct keys, read back as themselves after the header.
proof fn lemma_fields_fold(fields: Seq<(Seq<char>, Seq<char>)>)
    requires
        forall|i: int| 0 <= i < fields.len() ==> plain_field(#[trigger] fields[i]),
        forall|i: int, j: int| 0 <= i < j < fields.len() ==> fields[i].0 != fields[j].0,
    ensures
        entry_fold(seq!["[Desktop Entry]"@] + field_lines(fields)) == (true, fields),
    decreases fields.len(),
{
    let hdr = "[Desktop Entry]"@;
    if fields.len() == 0 {
        reveal_strlit("[Desktop Entry]");
        assert(seq![hdr] + field_lines(fields) =~= seq![hdr]);
        assert(seq![hdr].drop_last() =~= Seq::<Seq<char>>::empty());
        assert(hdr[0] == '[' && hdr.last() == ']');
        lemma_plain_line(hdr);
        assert(entry_fold(Seq::<Seq<char>>::empty()) == (false, Seq::<(Seq<char>, Seq<char>)>::empty()));
        assert(entry_fold(seq![hdr]) == entry_step(entry_fold(Seq::<Seq<char>>::empty()), hdr));
        assert(is_header(hdr));
        assert(entry_fold(seq![hdr]) == (true, Seq::<(Seq<char>, Seq<char>)>::empty()));
        assert(fields =~= Seq::<(Seq<char>, Seq<char>)>::empty());
    } else {
        let d = fields.drop_last();
        let f = fields.last();
        assert forall|i: int| 0 <= i < d.len() implies plain_field(#[trigger] d[i]) by {
            assert(d[i] == fields[i]);
        }
        assert forall|i: int, j: int| 0 <= i < j < d.len() implies d[i].0 != d[j].0 by {
            assert(d[i] == fields[i] && d[j] == fields[j]);
        }
        lemma_fields_fold(d);
        let all = seq![hdr] + field_lines(fields);
        assert(all.drop_last() =~= seq![hdr] + field_lines(d));
        assert(all.last() == field_line(f));
        assert(plain_field(fields[fields.len() - 1]));
        assert(!has_key(d, f.0)) by {
            if has_key(d, f.0) {
                let i = choose|i: int| 0 <= i < d.len() && d[i].0 == f.0;
                assert(fields[i].0 != fields[fields.len() - 1].0);
            }
        }
        if f.1.len() > 0 {
            lemma_trimmed_ends(f.1);
        }
        lemma_field_step((true, d), f);
        assert(entry_fold(all) == entry_step(entry_fold(all.drop_last()), all.last()));
        assert(d.push((f.0, trim(f.1))) =~= fields);
    }
}

/// The groups of actions add no key to `[Desktop Entry]`.
proof fn lemma_actions_fold(a: Seq<Seq<char>>, actions: Seq<(Seq<char>, Seq<char>, Seq<char>)>)
    ensures
        entry_fold(a + action_lines(actions)).1 == entry_fold(a).1,
    decreases actions.len(),
{
    if actions.len() == 0 {
        assert(a + action_lines(actions) =~= a);
    } else {
        let d = actions.drop_last();
        lemma_actions_fold(a, d);
        let b = a + action_lines(d);
        let act = actions.last();
        let g = action_group(act);
        assert(a + action_lines(actions) =~= b + g);
        reveal_strlit("[Desktop Action ");
        reveal_strlit("]");
        reveal_strlit("Name=");
        reveal_strlit("Exec=");
        reveal_strlit("[Desktop Entry]");
        let s0 = entry_fold(b);
        assert((b + g).drop_last() =~= b + seq![g[0], g[1], g[2]]);
        assert((b + seq![g[0], g[1], g[2]]).drop_last() =~= b + seq![g[0], g[1]]);
        assert((b + seq![g[0], g[1]]).drop_last() =~= b.push(g[0]));
        assert(b.push(g[0]).drop_last() =~= b);
        assert(trim(Seq::<char>::empty()) =~= Seq::<char>::empty());
        lemma_first_index(Seq::<char>::empty(), '=');
        let s1 = entry_step(s0, g[0]);
        assert(s1 == s0);
        let h = g[1];
        assert(h[0] == '[' && h.last() == ']');
        lemma_plain_line(h);
        assert(h.len() > "[Desktop Entry]"@.len());
        let s2 = entry_step(s1, h);
        assert(s2 == (false, s0.1));
        lemma_no_header(g[2]);
        lemma_no_header(g[3]);
        let s3 = entry_step(s2, g[2]);
        assert(s3 == s2);
        assert(entry_step(s3, g[3]) == s2);
        assert(entry_fold(b.push(g[0])) == entry_step(s0, g[0]));
        assert(entry_fold(b + seq![g[0], g[1]]) == entry_step(entry_fold(b.push(g[0])), g[1]));
        assert(entry_fold(b + seq![g[0], g[1], g[2]]) == entry_step(entry_fold(b + seq![g[0], g[1]]), g[2]));
        assert(entry_fold(b + g) == entry_step(entry_fold(b + seq![g[0], g[1], g[2]]), g[3]));
    }
}

/// A field whose line reads back as the field: a key on one line, without
/// `=`, not empty, neither opening a group nor with whitespace at its ends,
/// and a value on one line without whitespace at its ends.
pub open spec fn plain_field(f: (Seq<char>, Seq<char>)) -> bool {
    &&& f.0.len() > 0
    &&& trim(f.0) == f.0
    &&& !is_header(f.0)
    &&& !has_char(f.0, '=')
    &&& !has_char(f.0, '\n')
    &&& trim(f.1) == f.1
    &&& !has_char(f.1, '\n')
}

/// Reading a rendered desktop entry back gives its fields in their order,
/// then, when there are actions, the `Actions` key listing their ids; the
/// groups of the actions add nothing to `[Desktop Entry]`. This holds for
/// plain fields with distinct keys, none of them `Actions` when there are
/// actions, and actions whose ids, names and commands are each on one line.
pub proof fn law_render_then_read(
    fields: Seq<(Seq<char>, Seq<char>)>,
    actions: Seq<(Seq<char>, Seq<char>, Seq<char>)>,
)
    requires
        forall|i: int| 0 <= i < fields.len() ==> plain_field(#[trigger] fields[i]),
        forall|i: int, j: int| 0 <= i < j < fields.len() ==> fields[i].0 != fields[j].0,
        actions.len() > 0 ==> !has_key(fields, "Actions"@),
        forall|i: int|
            0 <= i < actions.len() ==> !has_char(#[trigger] actions[i].0, '\n') && !has_char(actions[i].1, '\n')
                && !has_char(actions[i].2, '\n'),
    ensures
        desktop_entry_of(render_entry_of(fields, actions)) == if actions.len() == 0 {
            fields
        } else {
            fields.push(("Actions"@, trim(join_with(action_ids(actions), ';').push(';'))))
        },
{
    let hdr = "[Desktop Entry]"@;
    reveal_strlit("[Desktop Entry]\n");
    reveal_strlit("[Desktop Entry]");
    reveal_strlit("Actions=");
    reveal_strlit("Actions");
    let fl = field_lines(fields);
    let head = seq![hdr] + fl;
    lemma_fields_text(fields);
    lemma_actions_text(actions);
    lemma_ended_append(seq![hdr], fl);
    assert(seq![hdr].drop_last() =~= Seq::<Seq<char>>::empty());
    assert(ended(Seq::<Seq<char>>::empty()) == Seq::<char>::empty());
    assert(ended(seq![hdr]) == ended(seq![hdr].drop_last()) + hdr + seq!['\n']);
    assert(ended(seq![hdr]) =~= "[Desktop Entry]\n"@);
    // no line holds a line feed
    assert(no_newline(seq![hdr])) by {
        assert(!has_char(hdr, '\n'));
    }
    assert(no_newline(fl)) by {
        assert forall|i: int| 0 <= i < fl.len() implies !has_char(#[trigger] fl[i], '\n') by {
            let f = fields[i];
            assert(plain_field(f));
            assert(!has_char(seq!['='], '\n'));
            lemma_no_char_concat(f.0, seq!['='], '\n');
            lemma_no_char_concat(f.0 + seq!['='], f.1, '\n');
        }
    }
    lemma_no_newline_concat(seq![hdr], fl);
    lemma_fields_fold(fields);
    let ids = action_ids(actions);
    let j = join_with(ids, ';');
    let al = "Actions="@ + j + seq![';'];
    let body = if actions.len() == 0 {
        head
    } else {
        head + seq![al] + action_lines(actions)
    };
    if actions.len() == 0 {
        assert(render_entry_of(fields, actions) =~= ended(body));
    } else {
        lemma_ended_append(head, seq![al]);
        lemma_ended_append(head + seq![al], action_lines(actions));
        assert(seq![al].drop_last() =~= Seq::<Seq<char>>::empty());
        assert(ended(seq![al]) == ended(seq![al].drop_last()) + al + seq!['\n']);
        assert(ended(seq![al]) =~= al + seq!['\n']);
        assert(render_entry_of(fields, actions) =~= ended(body));
        // the line of the ids and the groups hold no line feed
        assert forall|i: int| 0 <= i < ids.len() implies !has_char(#[trigger] ids[i], '\n') by {
            assert(ids[i] == actions[i].0);
        }
        lemma_join_no_newline(ids, ';');
        assert(no_newline(seq![al])) by {
            assert(!has_char("Actions="@, '\n'));
            assert(!has_char(seq![';'], '\n'));
            lemma_no_char_concat("Actions="@, j, '\n');
            lemma_no_char_concat("Actions="@ + j, seq![';'], '\n');
        }
        lemma_actions_no_newline(actions);
        lemma_no_newline_concat(head, seq![al]);
        lemma_no_newline_concat(head + seq![al], action_lines(actions));
        // the key of the ids
        let f = ("Actions"@, j.push(';'));
        assert(field_line(f) =~= al);
        lemma_plain_line("Actions"@);
        assert(!has_char("Actions"@, '='));
        assert((head + seq![al]).drop_last() =~= head);
        lemma_field_step((true, fields), f);
        lemma_actions_fold(head + seq![al], actions);
    }
    lemma_ended_text(body);
    lemma_lines_of_lines(body);
    lemma_entry_fold_strip_cr(body);
}

proof fn lemma_actions_no_newline(actions: Seq<(Seq<char>, Seq<char>, Seq<char>)>)
    requires
        forall|i: int|
            0 <= i < actions.len() ==> !has_char(#[trigger] actions[i].0, '\n') && !has_char(actions[i].1, '\n')
                && !has_char(actions[i].2, '\n'),
    ensures
        no_newline(action_lines(actions)),
    decreases actions.len(),
{
    if actions.len() == 0 {
        assert(no_newline(Seq::<Seq<char>>::empty()));
    } else {
        let d = actions.drop_last();
        assert forall|i: int| 0 <= i < d.len() implies !has_char(#[trigger] d[i].0, '\n') && !has_char(d[i].1, '\n')
            && !has_char(d[i].2, '\n') by {
            assert(d[i] == actions[i]);
        }
        lemma_actions_no_newline(d);
        let a = actions.last();
        assert(!has_char(actions[actions.len() - 1].0, '\n'));
        reveal_strlit("[Desktop Action ");
        reveal_strlit("]");
        reveal_strlit("Name=");
        reveal_strlit("Exec=");
        assert(!has_char("[Desktop Action "@, '\n'));
        assert(!has_char("]"@, '\n'));
        assert(!has_char("Name="@, '\n'));
        assert(!has_char("Exec="@, '\n'));
        assert(!has_char(Seq::<char>::empty(), '\n'));
        lemma_no_char_concat("[Desktop Action "@, a.0, '\n');
        lemma_no_char_concat("[Desktop Action "@ + a.0, "]"@, '\n');
        lemma_no_char_concat("Name="@, a.1, '\n');
        lemma_no_char_concat("Exec="@, a.2, '\n');
        let g = action_group(a);
        assert(no_newline(g)) by {
            assert forall|i: int| 0 <= i < g.len() implies !has_char(#[trigger] g[i], '\n') by {
                if i == 0 {
                } else if i == 1 {
                } else if i == 2 {
                } else {
                }
            }
        }
        lemma_no_newline_concat(action_lines(d), g);
    }
}

} // verus!
