//! Text as sequences of characters: the few operations of `str` that the
//! formats of this crate are made of (trim, lines, prefixes, splitting),
//! each stated over `Seq<char>` and implemented over `Vec<char>`.

use vstd::prelude::*;

verus! {

/// Unicode's White_Space property, which `char::is_whitespace` follows.
pub open spec fn is_ws(c: char) -> bool {
    let u = c as u32;
    ||| 0x09 <= u <= 0x0d
    ||| u == 0x20
    ||| u == 0x85
    ||| u == 0xa0
    ||| u == 0x1680
    ||| 0x2000 <= u <= 0x200a
    ||| u == 0x2028
    ||| u == 0x2029
    ||| u == 0x202f
    ||| u == 0x205f
    ||| u == 0x3000
}

/// `char::is_whitespace`.
pub fn is_whitespace(c: char) -> (b: bool)
    ensures
        b == is_ws(c),
{
    let u = c as u32;
    (0x09 <= u && u <= 0x0d) || u == 0x20 || u == 0x85 || u == 0xa0 || u == 0x1680 || (0x2000 <= u
        && u <= 0x200a) || u == 0x2028 || u == 0x2029 || u == 0x202f || u == 0x205f || u == 0x3000
}

/// `s` without its leading whitespace.
pub open spec fn trim_start(s: Seq<char>) -> Seq<char>
    decreases s.len(),
{
    if s.len() > 0 && is_ws(s[0]) {
        trim_start(s.drop_first())
    } else {
        s
    }
}

/// `s` without its trailing whitespace.
pub open spec fn trim_end(s: Seq<char>) -> Seq<char>
    decreases s.len(),
{
    if s.len() > 0 && is_ws(s.last()) {
        trim_end(s.drop_last())
    } else {
        s
    }
}

/// `str::trim`.
pub open spec fn trim(s: Seq<char>) -> Seq<char> {
    trim_end(trim_start(s))
}

/// `s` with one trailing carriage return removed.
pub open spec fn strip_cr(l: Seq<char>) -> Seq<char> {
    if l.len() > 0 && l.last() == '\r' {
        l.drop_last()
    } else {
        l
    }
}

/// The lines finished so far and the one being read, after `s`.
pub open spec fn line_state(s: Seq<char>) -> (Seq<Seq<char>>, Seq<char>)
    decreases s.len(),
{
    if s.len() == 0 {
        (seq![], seq![])
    } else {
        let (done, cur) = line_state(s.drop_last());
        if s.last() == '\n' {
            (done.push(strip_cr(cur)), seq![])
        } else {
            (done, cur.push(s.last()))
        }
    }
}

/// `str::lines`: split at `\n` (a `\r` right before it goes too), the final
/// line ending optional.
pub open spec fn lines(s: Seq<char>) -> Seq<Seq<char>> {
    let (done, cur) = line_state(s);
    if cur.len() > 0 {
        done.push(cur)
    } else {
        done
    }
}

/// `p` is a prefix of `s`.
pub open spec fn starts_with(s: Seq<char>, p: Seq<char>) -> bool {
    p.len() <= s.len() && s.subrange(0, p.len() as int) == p
}

/// `s` holds `c`.
pub open spec fn has_char(s: Seq<char>, c: char) -> bool {
    exists|i: int| 0 <= i < s.len() && s[i] == c
}

/// The index of the first `c` in `s`, if any.
pub open spec fn first_index(s: Seq<char>, c: char) -> Option<int>
    decreases s.len(),
{
    if s.len() == 0 {
        None
    } else if s[0] == c {
        Some(0)
    } else {
        match first_index(s.drop_first(), c) {
            Some(i) => Some(i + 1),
            None => None,
        }
    }
}

/// `str::split_once` on a character.
pub open spec fn split_once(s: Seq<char>, c: char) -> Option<(Seq<char>, Seq<char>)> {
    match first_index(s, c) {
        Some(i) => Some((s.take(i), s.skip(i + 1))),
        None => None,
    }
}

/// The pieces of `s` between the occurrences of `c`, before them and after
/// them (`str::split` on a character): never empty.
pub open spec fn split(s: Seq<char>, c: char) -> Seq<Seq<char>>
    decreases s.len(),
{
    if s.len() == 0 {
        seq![seq![]]
    } else {
        let pieces = split(s.drop_last(), c);
        if s.last() == c {
            pieces.push(seq![])
        } else {
            pieces.update(pieces.len() - 1, pieces.last().push(s.last()))
        }
    }
}

pub proof fn lemma_split_nonempty(s: Seq<char>, c: char)
    ensures
        split(s, c).len() >= 1,
    decreases s.len(),
{
    if s.len() > 0 {
        lemma_split_nonempty(s.drop_last(), c);
    }
}

pub proof fn lemma_first_index(s: Seq<char>, c: char)
    ensures
        match first_index(s, c) {
            Some(i) => 0 <= i < s.len() && s[i] == c && forall|j: int| 0 <= j < i ==> s[j] != c,
            None => forall|j: int| 0 <= j < s.len() ==> s[j] != c,
        },
    decreases s.len(),
{
    if s.len() > 0 {
        lemma_first_index(s.drop_first(), c);
        if s[0] != c {
            match first_index(s.drop_first(), c) {
                Some(i) => {
                    assert forall|j: int| 0 <= j < i + 1 implies s[j] != c by {
                        if j > 0 {
                            assert(s[j] == s.drop_first()[j - 1]);
                        }
                    }
                },
                None => {
                    assert forall|j: int| 0 <= j < s.len() implies s[j] != c by {
                        if j > 0 {
                            assert(s[j] == s.drop_first()[j - 1]);
                        }
                    }
                },
            }
        }
    }
}

/// Characterises `first_index` by its result.
pub proof fn lemma_first_index_is(s: Seq<char>, c: char, i: int)
    requires
        0 <= i <= s.len(),
        forall|j: int| 0 <= j < i ==> s[j] != c,
        i < s.len() ==> s[i] == c,
    ensures
        first_index(s, c) == (if i < s.len() {
            Some(i)
        } else {
            None::<int>
        }),
{
    lemma_first_index(s, c);
    match first_index(s, c) {
        Some(k) => {
            if k < i {
            } else if k > i {
                assert(s[i] == c);
            }
        },
        None => {
            if i < s.len() {
                assert(s[i] == c);
            }
        },
    }
}

/// A vector of characters seen deeply is its plain view.
pub proof fn lemma_chars_deep_view(v: Vec<char>)
    ensures
        v.deep_view() == v@,
{
    assert(v.deep_view() =~= v@);
}

/// Appends `c` to `s` (`String::push`).
#[verifier::external_body]
pub fn push_char(s: &mut String, c: char)
    ensures
        final(s)@ == old(s)@.push(c),
{
    s.push(c)
}

/// The string made of `v`.
pub fn to_string(v: &[char]) -> (s: String)
    ensures
        s@ == v@,
{
    let mut s = String::new();
    let mut i: usize = 0;
    while i < v.len()
        invariant
            i <= v@.len(),
            s@ == v@.take(i as int),
        decreases v@.len() - i,
    {
        push_char(&mut s, v[i]);
        i = i + 1;
        assert(s@ == v@.take(i as int));
    }
    assert(v@.take(i as int) == v@);
    s
}

/// The characters of `s`, in order.
pub fn chars_of(s: &str) -> (v: Vec<char>)
    ensures
        v@ == s@,
{
    let mut v: Vec<char> = Vec::new();
    for c in it: s.chars()
        invariant
            v@ == it.seq().take(it.index() as int),
            it.seq() == s@,
    {
        v.push(c);
    }
    v
}

/// `v[from..to]`, copied.
pub fn slice_chars(v: &[char], from: usize, to: usize) -> (r: Vec<char>)
    requires
        from <= to <= v@.len(),
    ensures
        r@ == v@.subrange(from as int, to as int),
{
    let mut r: Vec<char> = Vec::new();
    let mut i = from;
    while i < to
        invariant
            from <= i <= to <= v@.len(),
            r@ == v@.subrange(from as int, i as int),
        decreases to - i,
    {
        r.push(v[i]);
        i = i + 1;
        assert(r@ == v@.subrange(from as int, i as int));
    }
    r
}

pub proof fn lemma_trim_start_skip(s: Seq<char>, i: int)
    requires
        0 <= i < s.len(),
        is_ws(s[i]),
    ensures
        trim_start(s.skip(i)) == trim_start(s.skip(i + 1)),
{
    assert(s.skip(i).drop_first() == s.skip(i + 1));
}

pub proof fn lemma_trim_end_take(s: Seq<char>, j: int)
    requires
        0 < j <= s.len(),
        is_ws(s[j - 1]),
    ensures
        trim_end(s.take(j)) == trim_end(s.take(j - 1)),
{
    assert(s.take(j).drop_last() == s.take(j - 1));
}

/// `str::trim`.
pub fn trim_chars(v: &[char]) -> (r: Vec<char>)
    ensures
        r@ == trim(v@),
{
    let n = v.len();
    let mut i: usize = 0;
    assert(v@.skip(0) == v@);
    while i < n && is_whitespace(v[i])
        invariant
            i <= n == v@.len(),
            trim_start(v@) == trim_start(v@.skip(i as int)),
        decreases n - i,
    {
        proof {
            lemma_trim_start_skip(v@, i as int);
        }
        i = i + 1;
    }
    let ghost rest = v@.skip(i as int);
    assert(trim_start(v@) == rest);
    let mut j: usize = n;
    assert(rest.take(rest.len() as int) == rest);
    while j > i && is_whitespace(v[j - 1])
        invariant
            i <= j <= n == v@.len(),
            rest == v@.skip(i as int),
            trim_end(rest) == trim_end(rest.take(j - i)),
        decreases j,
    {
        proof {
            lemma_trim_end_take(rest, (j - i) as int);
        }
        j = j - 1;
    }
    assert(rest.take(j - i) == v@.subrange(i as int, j as int));
    slice_chars(v, i, j)
}

/// `p` is a prefix of `s`.
pub fn starts_with_chars(s: &[char], p: &[char]) -> (b: bool)
    ensures
        b == starts_with(s@, p@),
{
    if p.len() > s.len() {
        return false;
    }
    let mut i: usize = 0;
    while i < p.len()
        invariant
            p@.len() <= s@.len(),
            i <= p@.len(),
            forall|k: int| 0 <= k < i ==> s@[k] == p@[k],
        decreases p@.len() - i,
    {
        if s[i] != p[i] {
            assert(s@.subrange(0, p@.len() as int)[i as int] != p@[i as int]);
            return false;
        }
        i = i + 1;
    }
    assert(s@.subrange(0, p@.len() as int) == p@);
    true
}

/// `a == b`.
pub fn eq_chars(a: &[char], b: &[char]) -> (r: bool)
    ensures
        r == (a@ == b@),
{
    if a.len() != b.len() {
        return false;
    }
    let r = starts_with_chars(a, b);
    proof {
        assert(a@.subrange(0, b@.len() as int) == a@);
    }
    r
}

/// The lines of `s` (`str::lines`).
pub fn lines_of(s: &[char]) -> (r: Vec<Vec<char>>)
    ensures
        r.deep_view() == lines(s@),
{
    let mut done: Vec<Vec<char>> = Vec::new();
    let mut cur: Vec<char> = Vec::new();
    let mut i: usize = 0;
    while i < s.len()
        invariant
            i <= s@.len(),
            (done.deep_view(), cur@) == line_state(s@.take(i as int)),
        decreases s@.len() - i,
    {
        let ghost before = s@.take(i as int);
        assert(s@.take(i + 1).drop_last() == before);
        let ghost dv = done.deep_view();
        if s[i] == '\n' {
            let n = cur.len();
            if n > 0 && cur[n - 1] == '\r' {
                cur.pop();
            }
            let line = cur;
            let ghost l = line@;
            assert(line.deep_view() =~= l);
            done.push(line);
            assert(done.deep_view() =~= dv.push(l));
            cur = Vec::new();
        } else {
            cur.push(s[i]);
            assert(done.deep_view() =~= dv);
        }
        i = i + 1;
    }
    assert(s@.take(i as int) == s@);
    if cur.len() > 0 {
        let ghost dv = done.deep_view();
        let ghost l = cur@;
        assert(cur.deep_view() =~= l);
        done.push(cur);
        assert(done.deep_view() =~= dv.push(l));
    }
    done
}

/// The index of the first `c` in `s` (`str::find` on a character).
pub fn find_char(s: &[char], c: char) -> (r: Option<usize>)
    ensures
        match r {
            Some(i) => first_index(s@, c) == Some(i as int),
            None => first_index(s@, c) == None::<int>,
        },
{
    let mut i: usize = 0;
    while i < s.len()
        invariant
            i <= s@.len(),
            forall|j: int| 0 <= j < i ==> s@[j] != c,
        decreases s@.len() - i,
    {
        if s[i] == c {
            proof {
                lemma_first_index_is(s@, c, i as int);
            }
            return Some(i);
        }
        i = i + 1;
    }
    proof {
        lemma_first_index_is(s@, c, i as int);
    }
    None
}

/// `s` cut at its first `c` (`str::split_once` on a character).
pub fn split_once_chars(s: &[char], c: char) -> (r: Option<(Vec<char>, Vec<char>)>)
    ensures
        match r {
            Some((a, b)) => split_once(s@, c) == Some((a@, b@)),
            None => split_once(s@, c) is None,
        },
{
    let f = find_char(s, c);
    proof {
        lemma_first_index(s@, c);
    }
    match f {
        Some(i) => {
            assert(first_index(s@, c) == Some(i as int));
            let n = s.len();
            assert(i < n);
            let a = slice_chars(s, 0, i);
            let b = slice_chars(s, i + 1, n);
            assert(a@ == s@.take(i as int));
            assert(b@ == s@.skip(i + 1));
            Some((a, b))
        },
        None => None,
    }
}

/// The index of the last `c` in `s`, if any.
pub open spec fn last_index(s: Seq<char>, c: char) -> Option<int>
    decreases s.len(),
{
    if s.len() == 0 {
        None
    } else if s.last() == c {
        Some(s.len() - 1)
    } else {
        last_index(s.drop_last(), c)
    }
}

/// What follows the last `c` in `s`, or all of `s` (`s.rsplit(c).next()`).
pub open spec fn after_last(s: Seq<char>, c: char) -> Seq<char> {
    match last_index(s, c) {
        Some(i) => s.skip(i + 1),
        None => s,
    }
}

pub proof fn lemma_last_index(s: Seq<char>, c: char)
    ensures
        match last_index(s, c) {
            Some(i) => 0 <= i < s.len() && s[i] == c && forall|j: int| i < j < s.len() ==> s[j] != c,
            None => forall|j: int| 0 <= j < s.len() ==> s[j] != c,
        },
    decreases s.len(),
{
    if s.len() > 0 && s.last() != c {
        lemma_last_index(s.drop_last(), c);
        assert forall|j: int| 0 <= j < s.len() - 1 implies s[j] == s.drop_last()[j] by {}
    }
}

/// What follows the last `c` in `s`, or all of `s`.
pub fn after_last_chars(s: &[char], c: char) -> (r: Vec<char>)
    ensures
        r@ == after_last(s@, c),
{
    let mut i: usize = s.len();
    assert(s@.take(i as int) == s@);
    while i > 0 && s[i - 1] != c
        invariant
            i <= s@.len(),
            last_index(s@, c) == last_index(s@.take(i as int), c),
        decreases i,
    {
        assert(s@.take(i as int).drop_last() == s@.take(i - 1));
        i = i - 1;
    }
    if i == 0 {
        assert(last_index(s@.take(0), c) is None);
        let n = s.len();
        slice_chars(s, 0, n)
    } else {
        assert(s@.take(i as int).last() == s@[i - 1]);
        let n = s.len();
        slice_chars(s, i, n)
    }
}

/// ASCII letters made lower case, every other character kept.
pub open spec fn lower_char(c: char) -> char {
    if 'A' <= c <= 'Z' {
        ((c as u32) + 32) as char
    } else {
        c
    }
}

/// `str::to_ascii_lowercase`.
pub open spec fn ascii_lower(s: Seq<char>) -> Seq<char> {
    s.map_values(|c: char| lower_char(c))
}

/// `char::to_ascii_lowercase`.
pub fn lower_char_exec(c: char) -> (r: char)
    ensures
        r == lower_char(c),
{
    if 'A' <= c && c <= 'Z' {
        let b = (c as u8) + 32;
        b as char
    } else {
        c
    }
}

/// `str::to_ascii_lowercase`.
pub fn ascii_lower_chars(s: &[char]) -> (r: Vec<char>)
    ensures
        r@ == ascii_lower(s@),
{
    let mut r: Vec<char> = Vec::new();
    let mut i: usize = 0;
    while i < s.len()
        invariant
            i <= s@.len(),
            r@ == ascii_lower(s@.take(i as int)),
        decreases s@.len() - i,
    {
        r.push(lower_char_exec(s[i]));
        i = i + 1;
        assert(r@ =~= ascii_lower(s@.take(i as int)));
    }
    assert(s@.take(i as int) == s@);
    r
}

/// `s` has `c` at position 0.
pub open spec fn first_is(s: Seq<char>, c: char) -> bool {
    s.len() > 0 && s[0] == c
}

/// `s` split at every `c`.
pub fn split_chars(s: &[char], c: char) -> (r: Vec<Vec<char>>)
    ensures
        r.deep_view() == split(s@, c),
        r@.len() >= 1,
{
    let mut pieces: Vec<Vec<char>> = Vec::new();
    let mut cur: Vec<char> = Vec::new();
    let mut i: usize = 0;
    assert(s@.take(0) =~= Seq::<char>::empty());
    while i < s.len()
        invariant
            i <= s@.len(),
            pieces.deep_view().push(cur@) == split(s@.take(i as int), c),
        decreases s@.len() - i,
    {
        assert(s@.take(i + 1).drop_last() == s@.take(i as int));
        let ghost pv = pieces.deep_view();
        proof {
            lemma_split_nonempty(s@.take(i as int), c);
        }
        if s[i] == c {
            let piece = cur;
            let ghost l = piece@;
            assert(piece.deep_view() =~= l);
            pieces.push(piece);
            assert(pieces.deep_view() =~= pv.push(l));
            cur = Vec::new();
            assert(pieces.deep_view().push(cur@) =~= split(s@.take(i + 1), c));
        } else {
            cur.push(s[i]);
            assert(pieces.deep_view() =~= pv);
            assert(pieces.deep_view().push(cur@) =~= split(s@.take(i + 1), c));
        }
        i = i + 1;
    }
    assert(s@.take(i as int) == s@);
    let ghost pv = pieces.deep_view();
    let ghost l = cur@;
    assert(cur.deep_view() =~= l);
    pieces.push(cur);
    assert(pieces.deep_view() =~= pv.push(l));
    pieces
}

/// `items` joined by `sep` (`[T]::join`).
pub open spec fn join_with(items: Seq<Seq<char>>, sep: char) -> Seq<char>
    decreases items.len(),
{
    if items.len() == 0 {
        seq![]
    } else if items.len() == 1 {
        items[0]
    } else {
        join_with(items.drop_last(), sep) + seq![sep] + items.last()
    }
}

/// `items` joined by `sep`.
pub fn join_chars(items: &Vec<Vec<char>>, sep: char) -> (r: Vec<char>)
    ensures
        r@ == join_with(items.deep_view(), sep),
{
    let mut out: Vec<char> = Vec::new();
    let mut i: usize = 0;
    let ghost iv = items.deep_view();
    assert(iv.take(0) =~= Seq::<Seq<char>>::empty());
    while i < items.len()
        invariant
            i <= items@.len(),
            iv == items.deep_view(),
            out@ == join_with(iv.take(i as int), sep),
        decreases items@.len() - i,
    {
        assert(iv.take(i + 1).drop_last() =~= iv.take(i as int));
        assert(iv[i as int] == items@[i as int]@);
        if i > 0 {
            out.push(sep);
        }
        let mut j: usize = 0;
        let ghost start = out@;
        while j < items[i].len()
            invariant
                i < items@.len(),
                j <= items@[i as int]@.len(),
                out@ == start + items@[i as int]@.take(j as int),
            decreases items@[i as int]@.len() - j,
        {
            out.push(items[i][j]);
            j = j + 1;
            assert(out@ =~= start + items@[i as int]@.take(j as int));
        }
        assert(items@[i as int]@.take(j as int) =~= items@[i as int]@);
        i = i + 1;
        proof {
            if i == 1 {
                assert(iv.take(1) =~= seq![iv[0]]);
            }
        }
        assert(out@ =~= join_with(iv.take(i as int), sep));
    }
    assert(iv.take(i as int) =~= iv);
    out
}

/// Appends `tail` to `v`.
pub fn push_all(v: &mut Vec<char>, tail: &[char])
    ensures
        final(v)@ == old(v)@ + tail@,
{
    let mut j: usize = 0;
    let ghost start = v@;
    while j < tail.len()
        invariant
            j <= tail@.len(),
            v@ == start + tail@.take(j as int),
        decreases tail@.len() - j,
    {
        v.push(tail[j]);
        j = j + 1;
        assert(v@ =~= start + tail@.take(j as int));
    }
    assert(tail@.take(j as int) =~= tail@);
}

/// Appends the characters of `tail` to `v`.
pub fn push_str(v: &mut Vec<char>, tail: &str)
    ensures
        final(v)@ == old(v)@ + tail@,
{
    let t = chars_of(tail);
    push_all(v, &t);
}

/// `a` sorts strictly before `b`: the order of `str` (byte-wise UTF-8,
/// which is the order of the code points).
pub open spec fn lex_lt(a: Seq<char>, b: Seq<char>) -> bool
    decreases a.len(),
{
    if a.len() == 0 {
        b.len() > 0
    } else if b.len() == 0 {
        false
    } else if a[0] != b[0] {
        (a[0] as u32) < (b[0] as u32)
    } else {
        lex_lt(a.drop_first(), b.drop_first())
    }
}

/// `a` sorts strictly before `b`.
pub fn lex_lt_chars(a: &[char], b: &[char]) -> (r: bool)
    ensures
        r == lex_lt(a@, b@),
{
    let mut i: usize = 0;
    assert(a@.skip(0) =~= a@);
    assert(b@.skip(0) =~= b@);
    while i < a.len() && i < b.len() && a[i] == b[i]
        invariant
            i <= a@.len(),
            i <= b@.len(),
            lex_lt(a@, b@) == lex_lt(a@.skip(i as int), b@.skip(i as int)),
        decreases a@.len() - i,
    {
        assert(a@.skip(i as int).drop_first() =~= a@.skip(i + 1));
        assert(b@.skip(i as int).drop_first() =~= b@.skip(i + 1));
        i = i + 1;
    }
    if i == a.len() {
        i < b.len()
    } else if i == b.len() {
        false
    } else {
        (a[i] as u32) < (b[i] as u32)
    }
}

/// An ASCII letter or digit.
pub open spec fn ascii_alnum(c: char) -> bool {
    ('a' <= c && c <= 'z') || ('A' <= c && c <= 'Z') || ('0' <= c && c <= '9')
}

/// `s` with every character but ASCII letters and digits made `-`.
pub open spec fn dashed(s: Seq<char>) -> Seq<char> {
    s.map_values(|c: char| if ascii_alnum(c) { c } else { '-' })
}

/// `s` with every character but ASCII letters and digits made `-`.
pub fn dashed_chars(s: &Vec<char>) -> (r: Vec<char>)
    ensures
        r@ == dashed(s@),
{
    let mut out: Vec<char> = Vec::new();
    let mut i: usize = 0;
    while i < s.len()
        invariant
            i <= s@.len(),
            out@ == dashed(s@.take(i as int)),
        decreases s@.len() - i,
    {
        let c = s[i];
        let d = if ('a' <= c && c <= 'z') || ('A' <= c && c <= 'Z') || ('0' <= c && c <= '9') {
            c
        } else {
            '-'
        };
        out.push(d);
        assert(dashed(s@.take(i + 1)) =~= dashed(s@.take(i as int)).push(d));
        i = i + 1;
    }
    assert(s@.take(i as int) =~= s@);
    out
}

/* ------------------------------------------------------------ line lemmas */

/// Characters without a line feed read after `s` extend the line being read.
pub proof fn lemma_line_state_append(s: Seq<char>, w: Seq<char>)
    requires
        !has_char(w, '\n'),
    ensures
        line_state(s + w) == (line_state(s).0, line_state(s).1 + w),
    decreases w.len(),
{
    if w.len() == 0 {
        assert(s + w =~= s);
        assert(line_state(s).1 + w =~= line_state(s).1);
    } else {
        assert((s + w).drop_last() =~= s + w.drop_last());
        assert((s + w).last() == w.last());
        assert(!has_char(w.drop_last(), '\n')) by {
            if has_char(w.drop_last(), '\n') {
                let i = choose|i: int| 0 <= i < w.drop_last().len() && w.drop_last()[i] == '\n';
                assert(w[i] == '\n');
            }
        }
        assert(w.last() != '\n') by {
            if w.last() == '\n' {
                assert(w[w.len() - 1] == '\n');
            }
        }
        lemma_line_state_append(s, w.drop_last());
        assert(line_state(s).1 + w.drop_last() + seq![w.last()] =~= line_state(s).1 + w);
    }
}

/// The text of lines, each ended by a line feed.
pub open spec fn text_of_lines(ls: Seq<Seq<char>>) -> Seq<char> {
    join_with(ls, '\n').push('\n')
}

/// None of `ls` holds a line feed.
pub open spec fn no_newline(ls: Seq<Seq<char>>) -> bool {
    forall|i: int| 0 <= i < ls.len() ==> !has_char(#[trigger] ls[i], '\n')
}

proof fn lemma_line_state_of_lines(ls: Seq<Seq<char>>)
    requires
        ls.len() >= 1,
        no_newline(ls),
    ensures
        line_state(text_of_lines(ls)) == (ls.map_values(|l: Seq<char>| strip_cr(l)), Seq::<char>::empty()),
    decreases ls.len(),
{
    let last = ls.last();
    assert(!has_char(ls[ls.len() - 1], '\n'));
    if ls.len() == 1 {
        assert(join_with(ls, '\n') == ls[0]);
        let t = text_of_lines(ls);
        assert(t.drop_last() =~= Seq::<char>::empty() + ls[0]);
        lemma_line_state_append(Seq::<char>::empty(), ls[0]);
        assert(line_state(Seq::<char>::empty()) == (Seq::<Seq<char>>::empty(), Seq::<char>::empty()));
        assert(Seq::<char>::empty() + ls[0] =~= ls[0]);
        assert(ls.map_values(|l: Seq<char>| strip_cr(l)) =~= seq![strip_cr(ls[0])]);
    } else {
        let before = ls.drop_last();
        assert(no_newline(before)) by {
            assert forall|i: int| 0 <= i < before.len() implies !has_char(#[trigger] before[i], '\n') by {
                assert(before[i] == ls[i]);
            }
        }
        lemma_line_state_of_lines(before);
        let pre = text_of_lines(before);
        let t = text_of_lines(ls);
        assert(join_with(ls, '\n') == join_with(before, '\n') + seq!['\n'] + last);
        assert(t.drop_last() =~= pre + last);
        lemma_line_state_append(pre, last);
        assert(Seq::<char>::empty() + last =~= last);
        assert(ls.map_values(|l: Seq<char>| strip_cr(l)) =~= before.map_values(|l: Seq<char>| strip_cr(l)).push(
            strip_cr(last),
        ));
    }
}

/// Lines written one per line feed read back as they were, less the
/// carriage return one of them may end with.
pub proof fn lemma_lines_of_lines(ls: Seq<Seq<char>>)
    requires
        ls.len() >= 1,
        no_newline(ls),
    ensures
        lines(text_of_lines(ls)) == ls.map_values(|l: Seq<char>| strip_cr(l)),
{
    lemma_line_state_of_lines(ls);
}

/// The lines of any text hold no line feed.
pub proof fn lemma_lines_no_newline(s: Seq<char>)
    ensures
        no_newline(lines(s)),
        no_newline(line_state(s).0),
        !has_char(line_state(s).1, '\n'),
    decreases s.len(),
{
    if s.len() > 0 {
        lemma_lines_no_newline(s.drop_last());
        let (done, cur) = line_state(s.drop_last());
        if s.last() == '\n' {
            assert(!has_char(strip_cr(cur), '\n')) by {
                if has_char(strip_cr(cur), '\n') {
                    let i = choose|i: int| 0 <= i < strip_cr(cur).len() && strip_cr(cur)[i] == '\n';
                    assert(cur[i] == '\n');
                }
            }
            assert forall|i: int| 0 <= i < done.push(strip_cr(cur)).len() implies !has_char(
                #[trigger] done.push(strip_cr(cur))[i],
                '\n',
            ) by {
                if i < done.len() {
                    assert(done.push(strip_cr(cur))[i] == done[i]);
                }
            }
            assert(!has_char(Seq::<char>::empty(), '\n'));
        } else {
            assert(!has_char(cur.push(s.last()), '\n')) by {
                if has_char(cur.push(s.last()), '\n') {
                    let i = choose|i: int| 0 <= i < cur.push(s.last()).len() && cur.push(s.last())[i] == '\n';
                    if i < cur.len() {
                        assert(cur[i] == '\n');
                    }
                }
            }
        }
    }
    let (done, cur) = line_state(s);
    if cur.len() > 0 {
        assert forall|i: int| 0 <= i < done.push(cur).len() implies !has_char(#[trigger] done.push(cur)[i], '\n') by {
            if i < done.len() {
                assert(done.push(cur)[i] == done[i]);
            }
        }
    }
}

/// A trailing whitespace character changes nothing to what `trim` keeps.
pub proof fn lemma_trim_push_ws(s: Seq<char>, c: char)
    requires
        is_ws(c),
    ensures
        trim(s.push(c)) == trim(s),
    decreases s.len(),
{
    if s.len() == 0 {
        assert(s.push(c).drop_first() =~= Seq::<char>::empty());
        assert(trim_start(s.push(c)) == trim_start(Seq::<char>::empty()));
    } else if is_ws(s[0]) {
        assert(s.push(c).drop_first() =~= s.drop_first().push(c));
        lemma_trim_push_ws(s.drop_first(), c);
    } else {
        assert(s.push(c).drop_last() =~= s);
        assert(trim_start(s.push(c)) == s.push(c));
        assert(trim_start(s) == s);
    }
}

/// A carriage return at the end of a line changes nothing to what `trim` keeps.
pub proof fn lemma_trim_strip_cr(l: Seq<char>)
    ensures
        trim(strip_cr(l)) == trim(l),
{
    if l.len() > 0 && l.last() == '\r' {
        assert(l.drop_last().push('\r') =~= l);
        lemma_trim_push_ws(l.drop_last(), '\r');
    }
}

} // verus!
