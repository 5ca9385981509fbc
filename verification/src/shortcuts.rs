//! Shortcuts to the apps: a folder per app holding the app and its listed
//! facades. Every shortcut runs the launcher (`launch <app>[/<facade>]`),
//! never the browser, so changing browsers never rewrites a shortcut. Icons
//! come from the apps' own web manifests and are turned into .ico files.

use vstd::prelude::*;
use crate::text::{trim, trim_chars, chars_of, to_string, push_all, push_str, starts_with, starts_with_chars,
    is_ws, is_whitespace, slice_chars, first_index, find_char, lemma_first_index, last_index, after_last,
    after_last_chars, lemma_chars_deep_view};
use crate::launcher::{origin_end, origin_end_exec, trim_slashes, trim_slashes_chars};
use crate::settings::{opt_view, app_url, select, Settings, Artefact, ArtefactModel, Inventory};
use crate::catalogue::{App, AppModel, FacadeModel, localized, localized_name};
use crate::browsers::join_path;
use image::ImageEncoder;

verus! {

/* ------------------------------------------------------------- file names */

/// A character no file system of the three takes in a name.
pub open spec fn forbidden(c: char) -> bool {
    c == '<' || c == '>' || c == ':' || c == '"' || c == '/' || c == '\\' || c == '|' || c == '?' || c == '*'
}

/// `char::is_control`: the C0 and C1 control characters.
pub open spec fn is_control(c: char) -> bool {
    let u = c as u32;
    u <= 0x1f || (0x7f <= u && u <= 0x9f)
}

/// A character as it stands in a file name: a space for a forbidden or a
/// control character.
pub open spec fn clean_char(c: char) -> char {
    if forbidden(c) || is_control(c) {
        ' '
    } else {
        c
    }
}

/// `s` without its trailing dots and whitespace, until neither ends it.
pub open spec fn trim_dots(s: Seq<char>) -> Seq<char>
    decreases s.len(),
{
    if s.len() > 0 && (s.last() == '.' || is_ws(s.last())) {
        trim_dots(s.drop_last())
    } else {
        s
    }
}

/// A file name Windows, macOS and Linux all accept: forbidden and control
/// characters become spaces, the ends are trimmed of whitespace and the
/// trailing dots and blanks go until neither ends the name; what is left
/// empty is `Kynoko`.
pub open spec fn file_name_of(name: Seq<char>) -> Seq<char> {
    let t = trim_dots(trim(name.map_values(|c: char| clean_char(c))));
    if t.len() == 0 {
        "Kynoko"@
    } else {
        t
    }
}

/// Every character of `s` is one a file name may hold.
pub open spec fn all_clean(s: Seq<char>) -> bool {
    forall|i: int| 0 <= i < s.len() ==> !forbidden(#[trigger] s[i]) && !is_control(s[i])
}

proof fn lemma_clean_drop_first(s: Seq<char>)
    requires
        all_clean(s),
        s.len() > 0,
    ensures
        all_clean(s.drop_first()),
{
    assert forall|i: int| 0 <= i < s.drop_first().len() implies !forbidden(#[trigger] s.drop_first()[i])
        && !is_control(s.drop_first()[i]) by {
        assert(s.drop_first()[i] == s[i + 1]);
    }
}

proof fn lemma_clean_drop_last(s: Seq<char>)
    requires
        all_clean(s),
        s.len() > 0,
    ensures
        all_clean(s.drop_last()),
{
    assert forall|i: int| 0 <= i < s.drop_last().len() implies !forbidden(#[trigger] s.drop_last()[i])
        && !is_control(s.drop_last()[i]) by {
        assert(s.drop_last()[i] == s[i]);
    }
}

proof fn lemma_clean_trim(s: Seq<char>)
    requires
        all_clean(s),
    ensures
        all_clean(crate::text::trim_start(s)),
        all_clean(crate::text::trim_end(s)),
        all_clean(trim_dots(s)),
        trim_dots(s).len() > 0 ==> trim_dots(s).last() != '.' && !is_ws(trim_dots(s).last()),
        trim_dots(s).len() <= s.len(),
        trim_dots(s) == s.take(trim_dots(s).len() as int),
    decreases s.len(),
{
    if s.len() > 0 {
        lemma_clean_drop_first(s);
        lemma_clean_drop_last(s);
        lemma_clean_trim(s.drop_first());
        lemma_clean_trim(s.drop_last());
        let d = trim_dots(s.drop_last());
        assert(s.drop_last().take(d.len() as int) =~= s.take(d.len() as int));
    } else {
        assert(s.take(0) =~= s);
    }
    if !(s.len() > 0 && (s.last() == '.' || is_ws(s.last()))) {
        assert(s.take(s.len() as int) =~= s);
    }
}

proof fn lemma_trim_start_first(s: Seq<char>)
    ensures
        crate::text::trim_start(s).len() > 0 ==> !is_ws(crate::text::trim_start(s)[0]),
    decreases s.len(),
{
    if s.len() > 0 && is_ws(s[0]) {
        lemma_trim_start_first(s.drop_first());
    }
}

proof fn lemma_trim_end_prefix(s: Seq<char>)
    ensures
        crate::text::trim_end(s).len() <= s.len(),
        crate::text::trim_end(s) == s.take(crate::text::trim_end(s).len() as int),
    decreases s.len(),
{
    if s.len() > 0 && is_ws(s.last()) {
        lemma_trim_end_prefix(s.drop_last());
        let d = crate::text::trim_end(s.drop_last());
        assert(s.drop_last().take(d.len() as int) =~= s.take(d.len() as int));
    } else {
        assert(s.take(s.len() as int) =~= s);
    }
}

/// Whatever name an app or facade has, its file name is one every system
/// takes: not empty, no forbidden or control character, neither starting
/// with whitespace nor ending with a dot or whitespace.
pub proof fn law_file_name(name: Seq<char>)
    ensures
        file_name_of(name).len() > 0,
        all_clean(file_name_of(name)),
        file_name_of(name).last() != '.',
        !is_ws(file_name_of(name).last()),
        !is_ws(file_name_of(name)[0]),
{
    let cleaned = name.map_values(|c: char| clean_char(c));
    assert(all_clean(cleaned)) by {
        assert forall|i: int| 0 <= i < cleaned.len() implies !forbidden(#[trigger] cleaned[i]) && !is_control(
            cleaned[i],
        ) by {
            assert(cleaned[i] == clean_char(name[i]));
        }
    }
    lemma_clean_trim(cleaned);
    lemma_clean_trim(crate::text::trim_start(cleaned));
    lemma_clean_trim(trim(cleaned));
    let t = trim_dots(trim(cleaned));
    lemma_trim_start_first(cleaned);
    lemma_trim_end_prefix(crate::text::trim_start(cleaned));
    if t.len() > 0 {
        assert(t[0] == trim(cleaned)[0]);
        assert(trim(cleaned)[0] == crate::text::trim_start(cleaned)[0]);
    }
    if t.len() == 0 {
        reveal_strlit("Kynoko");
        let k = "Kynoko"@;
        assert(all_clean(k)) by {
            assert forall|i: int| 0 <= i < k.len() implies !forbidden(#[trigger] k[i]) && !is_control(k[i]) by {
                assert(k == seq!['K', 'y', 'n', 'o', 'k', 'o']);
            }
        }
        assert(k.last() == 'o');
        assert(k[0] == 'K');
    }
}

fn clean_char_exec(c: char) -> (r: char)
    ensures
        r == clean_char(c),
{
    let u = c as u32;
    if c == '<' || c == '>' || c == ':' || c == '"' || c == '/' || c == '\\' || c == '|' || c == '?' || c == '*'
        || u <= 0x1f || (0x7f <= u && u <= 0x9f) {
        ' '
    } else {
        c
    }
}

/// A file name Windows, macOS and Linux all accept.
pub fn file_name(name: &str) -> (r: String)
    ensures
        r@ == file_name_of(name@),
{
    let chars = chars_of(name);
    let mut cleaned: Vec<char> = Vec::new();
    let mut i: usize = 0;
    while i < chars.len()
        invariant
            i <= chars@.len(),
            chars@ == name@,
            cleaned@ == name@.take(i as int).map_values(|c: char| clean_char(c)),
        decreases chars@.len() - i,
    {
        cleaned.push(clean_char_exec(chars[i]));
        assert(name@.take(i + 1).map_values(|c: char| clean_char(c)) =~= name@.take(i as int).map_values(
            |c: char| clean_char(c),
        ).push(clean_char(chars@[i as int])));
        i = i + 1;
    }
    assert(name@.take(i as int) =~= name@);
    let t = trim_chars(&cleaned);
    let mut j: usize = t.len();
    assert(t@.take(j as int) =~= t@);
    while j > 0 && (t[j - 1] == '.' || is_whitespace(t[j - 1]))
        invariant
            j <= t@.len(),
            trim_dots(t@) == trim_dots(t@.take(j as int)),
        decreases j,
    {
        assert(t@.take(j as int).drop_last() =~= t@.take(j - 1));
        j = j - 1;
    }
    if j == 0 {
        proof {
            reveal_strlit("Kynoko");
        }
        "Kynoko".to_owned()
    } else {
        to_string(&slice_chars(&t, 0, j))
    }
}

/* ------------------------------------------------------------ manifest icons */

/// A `src` of a manifest icon, made absolute against the manifest's
/// address as a reference is resolved against a base URL: an absolute URL
/// stays; a scheme-relative one (`//host/...`) takes the manifest's scheme;
/// a path from the root goes after the manifest's origin; anything else
/// after the manifest's directory, which is `/` when its address has no
/// path.
pub open spec fn resolve_of(manifest_url: Seq<char>, src: Seq<char>) -> Seq<char> {
    if starts_with(src, "http://"@) || starts_with(src, "https://"@) {
        src
    } else if starts_with(src, "//"@) {
        match first_index(manifest_url, ':') {
            Some(i) => manifest_url.take(i + 1) + src,
            None => src,
        }
    } else if starts_with(src, "/"@) {
        manifest_url.take(origin_end(manifest_url)) + src
    } else if origin_end(manifest_url) == manifest_url.len() {
        manifest_url + seq!['/'] + src
    } else {
        let dir_end = match last_index(manifest_url, '/') {
            Some(i) => i + 1,
            None => manifest_url.len() as int,
        };
        manifest_url.take(dir_end) + src
    }
}

/// `src` of a manifest icon, made absolute against the manifest's address.
pub fn resolve(manifest_url: &str, src: &str) -> (r: String)
    ensures
        r@ == resolve_of(manifest_url@, src@),
{
    let s = chars_of(src);
    if starts_with_chars(&s, &chars_of("http://")) || starts_with_chars(&s, &chars_of("https://")) {
        return src.to_owned();
    }
    let u = chars_of(manifest_url);
    let mut out: Vec<char>;
    if starts_with_chars(&s, &chars_of("//")) {
        match find_char(&u, ':') {
            Some(i) => {
                proof {
                    lemma_first_index(u@, ':');
                }
                out = slice_chars(&u, 0, i + 1);
            },
            None => {
                return src.to_owned();
            },
        }
    } else if starts_with_chars(&s, &chars_of("/")) {
        let end = origin_end_exec(&u);
        out = slice_chars(&u, 0, end);
    } else if origin_end_exec(&u) == u.len() {
        out = u.clone();
        out.push('/');
    } else {
        let mut i: usize = u.len();
        assert(u@.take(i as int) =~= u@);
        while i > 0 && u[i - 1] != '/'
            invariant
                i <= u@.len(),
                last_index(u@, '/') == last_index(u@.take(i as int), '/'),
            decreases i,
        {
            assert(u@.take(i as int).drop_last() =~= u@.take(i - 1));
            i = i - 1;
        }
        if i == 0 {
            assert(last_index(u@.take(0), '/') is None);
            let n = u.len();
            out = slice_chars(&u, 0, n);
        } else {
            assert(u@.take(i as int).last() == u@[i - 1]);
            out = slice_chars(&u, 0, i);
        }
    }
    push_all(&mut out, &s);
    to_string(&out)
}

/// What a web manifest says of one of its icons; `None` where the field is
/// missing or not a string.
#[derive(Debug)]
pub struct ManifestIcon {
    pub src: Option<String>,
    pub sizes: Option<String>,
    /// The `type` field.
    pub kind: Option<String>,
    pub purpose: Option<String>,
}

/// A manifest icon, as a value.
pub struct IconModel {
    pub src: Option<Seq<char>>,
    pub sizes: Option<Seq<char>>,
    pub kind: Option<Seq<char>>,
    pub purpose: Option<Seq<char>>,
}

impl View for ManifestIcon {
    type V = IconModel;

    open spec fn view(&self) -> IconModel {
        IconModel {
            src: opt_view(self.src),
            sizes: opt_view(self.sizes),
            kind: opt_view(self.kind),
            purpose: opt_view(self.purpose),
        }
    }
}

/// Every character of `s` is an ASCII digit.
pub open spec fn all_digits(s: Seq<char>) -> bool {
    forall|i: int| 0 <= i < s.len() ==> '0' <= #[trigger] s[i] && s[i] <= '9'
}

/// The number the decimal digits `s` write.
pub open spec fn digits_value(s: Seq<char>) -> nat
    decreases s.len(),
{
    if s.len() == 0 {
        0
    } else {
        digits_value(s.drop_last()) * 10 + ((s.last() as u32) - ('0' as u32)) as nat
    }
}

/// `str::parse::<u32>`: an optional `+`, then one or more ASCII digits
/// whose value fits in a `u32`.
pub open spec fn parse_u32_of(s: Seq<char>) -> Option<u32> {
    let d = if s.len() > 0 && s[0] == '+' {
        s.drop_first()
    } else {
        s
    };
    if d.len() > 0 && all_digits(d) && digits_value(d) <= u32::MAX {
        Some(digits_value(d) as u32)
    } else {
        None
    }
}

/// `s` up to its first `x` (`s.split('x').next()`).
pub open spec fn before_x(s: Seq<char>) -> Seq<char> {
    match first_index(s, 'x') {
        Some(i) => s.take(i),
        None => s,
    }
}

/// What an icon is ranked by: the width its `sizes` gives first, else 0.
pub open spec fn icon_key(i: IconModel) -> u32 {
    match i.sizes {
        Some(s) => match parse_u32_of(before_x(s)) {
            Some(n) => n,
            None => 0,
        },
        None => 0,
    }
}

/// `w` stands in `p` at `i` as a whole word: whitespace, or an end, on both sides.
pub open spec fn word_at(p: Seq<char>, i: int, w: Seq<char>) -> bool {
    &&& 0 <= i
    &&& i + w.len() <= p.len()
    &&& p.subrange(i, i + w.len()) == w
    &&& (i == 0 || is_ws(p[i - 1]))
    &&& (i + w.len() == p.len() || is_ws(p[i + w.len()]))
}

/// One of the whitespace-separated words of `p` is `w`
/// (`p.split_whitespace().any(|x| x == w)`, for a `w` without whitespace).
pub open spec fn has_word(p: Seq<char>, w: Seq<char>) -> bool {
    exists|i: int| word_at(p, i, w)
}

/// An icon the launcher can use: for any purpose, and a PNG (a missing
/// field does not rule it out).
pub open spec fn usable(i: IconModel) -> bool {
    &&& match i.purpose {
        Some(p) => has_word(p, "any"@),
        None => true,
    }
    &&& match i.kind {
        Some(t) => t == "image/png"@,
        None => true,
    }
}

/// The usable icon of the largest rank, the last one among equals
/// (`Iterator::max_by_key`).
pub open spec fn best_icon_of(icons: Seq<IconModel>) -> Option<IconModel>
    decreases icons.len(),
{
    if icons.len() == 0 {
        None
    } else {
        let before = best_icon_of(icons.drop_last());
        let i = icons.last();
        if !usable(i) {
            before
        } else {
            match before {
                Some(b) => if icon_key(i) >= icon_key(b) {
                    Some(i)
                } else {
                    Some(b)
                },
                None => Some(i),
            }
        }
    }
}

/// The `src` of the icon to download, if the manifest has one.
pub open spec fn best_src_of(icons: Seq<IconModel>) -> Option<Seq<char>> {
    match best_icon_of(icons) {
        Some(i) => i.src,
        None => None,
    }
}

/// `str::parse::<u32>`.
pub fn parse_u32(s: &[char]) -> (r: Option<u32>)
    ensures
        r == parse_u32_of(s@),
{
    let start: usize = if s.len() > 0 && s[0] == '+' {
        1
    } else {
        0
    };
    let ghost d = if s@.len() > 0 && s@[0] == '+' {
        s@.drop_first()
    } else {
        s@
    };
    assert(d =~= s@.skip(start as int));
    if start == s.len() {
        return None;
    }
    let mut value: u64 = 0;
    let mut over = false;
    let mut i: usize = start;
    while i < s.len()
        invariant
            start <= i <= s@.len(),
            d == s@.skip(start as int),
            d == (if s@.len() > 0 && s@[0] == '+' {
                s@.drop_first()
            } else {
                s@
            }),
            all_digits(s@.subrange(start as int, i as int)),
            !over ==> value == digits_value(s@.subrange(start as int, i as int)) && value <= u32::MAX,
            over ==> digits_value(s@.subrange(start as int, i as int)) > u32::MAX,
        decreases s@.len() - i,
    {
        let c = s[i];
        if !('0' <= c && c <= '9') {
            assert(d[i - start] == c);
            assert(!all_digits(d));
            return None;
        }
        let ghost prev = s@.subrange(start as int, i as int);
        assert(s@.subrange(start as int, i + 1).drop_last() =~= prev);
        assert(s@.subrange(start as int, i + 1).last() == c);
        let digit = (c as u32 - '0' as u32) as u64;
        if !over {
            value = value * 10 + digit;
            if value > 0xffff_ffff {
                over = true;
            }
        }
        i = i + 1;
    }
    assert(s@.subrange(start as int, i as int) =~= d);
    if over {
        None
    } else {
        Some(value as u32)
    }
}

fn key_of(i: &ManifestIcon) -> (r: u32)
    ensures
        r == icon_key(i@),
{
    match &i.sizes {
        Some(s) => {
            let c = chars_of(s.as_str());
            let f = find_char(&c, 'x');
            proof {
                lemma_first_index(c@, 'x');
            }
            let head = match f {
                Some(k) => slice_chars(&c, 0, k),
                None => {
                    let n = c.len();
                    slice_chars(&c, 0, n)
                },
            };
            assert(head@ == before_x(s@));
            match parse_u32(&head) {
                Some(n) => n,
                None => 0,
            }
        },
        None => 0,
    }
}

fn word_at_exec(p: &[char], i: usize, w: &[char]) -> (r: bool)
    requires
        i + w.len() <= p.len(),
    ensures
        r == word_at(p@, i as int, w@),
{
    let end = i + w.len();
    let piece = slice_chars(p, i, end);
    if !crate::text::eq_chars(&piece, w) {
        return false;
    }
    let left = i == 0 || is_whitespace(p[i - 1]);
    let right = end == p.len() || is_whitespace(p[end]);
    left && right
}

/// `p.split_whitespace().any(|x| x == w)`, for a `w` without whitespace.
fn has_word_exec(p: &[char], w: &[char]) -> (r: bool)
    requires
        w@.len() > 0,
    ensures
        r == has_word(p@, w@),
{
    if w.len() > p.len() {
        assert forall|k: int| !word_at(p@, k, w@) by {}
        return false;
    }
    let last = p.len() - w.len();
    let mut i: usize = 0;
    while i <= last
        invariant
            last + w.len() == p.len(),
            w@.len() > 0,
            i <= last + 1,
            forall|k: int| 0 <= k < i ==> !word_at(p@, k, w@),
        decreases last + 1 - i,
    {
        if word_at_exec(p, i, w) {
            return true;
        }
        i = i + 1;
    }
    assert forall|k: int| !word_at(p@, k, w@) by {
        if 0 <= k < i {
        }
    }
    false
}

fn usable_exec(i: &ManifestIcon) -> (r: bool)
    ensures
        r == usable(i@),
{
    let purpose_ok = match &i.purpose {
        Some(p) => {
            let any = chars_of("any");
            proof {
                reveal_strlit("any");
            }
            has_word_exec(&chars_of(p.as_str()), &any)
        },
        None => true,
    };
    let kind_ok = match &i.kind {
        Some(t) => crate::text::eq_chars(&chars_of(t.as_str()), &chars_of("image/png")),
        None => true,
    };
    purpose_ok && kind_ok
}

/// The `src` of the largest usable icon a web manifest declares (the last
/// one among equals), if it has one.
pub fn best_icon(icons: &[ManifestIcon]) -> (r: Option<String>)
    ensures
        opt_view(r) == best_src_of(icons@.map_values(|i: ManifestIcon| i@)),
{
    let ghost all = icons@.map_values(|i: ManifestIcon| i@);
    let mut best: Option<usize> = None;
    let mut best_key: u32 = 0;
    let mut i: usize = 0;
    assert(all.take(0) =~= Seq::<IconModel>::empty());
    while i < icons.len()
        invariant
            i <= icons@.len(),
            all == icons@.map_values(|i: ManifestIcon| i@),
            match best {
                Some(b) => b < i && best_icon_of(all.take(i as int)) == Some(all[b as int]) && best_key
                    == icon_key(all[b as int]),
                None => best_icon_of(all.take(i as int)) is None,
            },
        decreases icons@.len() - i,
    {
        assert(all.take(i + 1).drop_last() =~= all.take(i as int));
        assert(all.take(i + 1).last() == all[i as int]);
        if usable_exec(&icons[i]) {
            let k = key_of(&icons[i]);
            match best {
                Some(_) => {
                    if k >= best_key {
                        best = Some(i);
                        best_key = k;
                    }
                },
                None => {
                    best = Some(i);
                    best_key = k;
                },
            }
        }
        i = i + 1;
    }
    assert(all.take(i as int) =~= all);
    match best {
        Some(b) => match &icons[b].src {
            Some(s) => Some(s.clone()),
            None => None,
        },
        None => None,
    }
}

/* --------------------------------------------------------------- icon files */

/// What `image` makes of the PNG `png` resized to `size` x `size` pixels
/// (Lanczos3, as 8-bit RGBA) and encoded as PNG again, or its error message.
/// It names the result of a chain of three calls (decode, `resize_exact`
/// with `to_rgba8`, `PngEncoder::write_image`): the decoded image between
/// them is no plain value, so it gets no name of its own. `png_to_ico`
/// runs the chain once per frame size, so the same bytes are decoded four
/// times.
pub uninterp spec fn png_resized(png: Seq<u8>, size: u32) -> Result<Seq<u8>, Seq<char>>;

/// The PNG `png`, decoded (`image::load_from_memory_with_format`), resized
/// (`DynamicImage::resize_exact`, Lanczos3, then `to_rgba8`) and encoded
/// again (`PngEncoder::write_image`). Claimed: the result, or the error's
/// message, is `png_resized(png, size)`, a function of the bytes and size.
#[verifier::external_body]
fn resized_png(png: &[u8], size: u32) -> (r: Result<Vec<u8>, String>)
    requires
        0 < size <= 256,
    ensures
        match r {
            Ok(v) => png_resized(png@, size) == Ok::<Seq<u8>, Seq<char>>(v@),
            Err(e) => png_resized(png@, size) == Err::<Seq<u8>, Seq<char>>(e@),
        },
{
    let source = image::load_from_memory_with_format(png, image::ImageFormat::Png).map_err(|e| e.to_string())?;
    let resized = source.resize_exact(size, size, image::imageops::FilterType::Lanczos3).to_rgba8();
    let mut out = Vec::new();
    image::codecs::png::PngEncoder::new(&mut out)
        .write_image(resized.as_raw(), size, size, image::ExtendedColorType::Rgba8)
        .map_err(|e| e.to_string())?;
    Ok(out)
}

/// The frame sizes of an .ico, largest first.
pub open spec fn ico_sizes() -> Seq<u32> {
    seq![256u32, 48u32, 32u32, 16u32]
}

/// `n` as two little-endian bytes.
pub open spec fn le16(n: nat) -> Seq<u8> {
    seq![(n % 256) as u8, ((n / 256) % 256) as u8]
}

/// `n` as four little-endian bytes.
pub open spec fn le32(n: nat) -> Seq<u8> {
    seq![(n % 256) as u8, ((n / 256) % 256) as u8, ((n / 65536) % 256) as u8, ((n / 16777216) % 256) as u8]
}

/// The width or height byte of an .ico entry: 0 stands for 256.
pub open spec fn dim_byte(size: u32) -> u8 {
    if size >= 256 {
        0
    } else {
        size as u8
    }
}

/// The directory entry of a frame: its size, one colour plane, 32 bits per
/// pixel, its length and where it starts.
pub open spec fn ico_entry(size: u32, len: nat, offset: nat) -> Seq<u8> {
    seq![dim_byte(size), dim_byte(size), 0u8, 0u8] + le16(1) + le16(32) + le32(len) + le32(offset)
}

/// The frames, one after the other.
pub open spec fn concat(frames: Seq<Seq<u8>>) -> Seq<u8>
    decreases frames.len(),
{
    if frames.len() == 0 {
        seq![]
    } else {
        concat(frames.drop_last()) + frames.last()
    }
}

/// The directory of an .ico whose frames start at `base`.
pub open spec fn ico_directory(frames: Seq<Seq<u8>>, base: nat) -> Seq<u8>
    decreases frames.len(),
{
    if frames.len() == 0 {
        seq![]
    } else {
        let before = frames.drop_last();
        ico_directory(before, base) + ico_entry(ico_sizes()[before.len() as int], frames.last().len(), base
            + concat(before).len())
    }
}

/// An .ico file holding `frames` (each a PNG, which Windows reads since Vista).
pub open spec fn ico_file(frames: Seq<Seq<u8>>) -> Seq<u8> {
    seq![0u8, 0u8, 1u8, 0u8] + le16(frames.len()) + ico_directory(frames, 6 + 16 * frames.len()) + concat(frames)
}

/// Every offset and length of an .ico of `frames` fits its 32 bits.
pub open spec fn ico_fits(frames: Seq<Seq<u8>>) -> bool {
    6 + 16 * frames.len() + concat(frames).len() <= u32::MAX
}

/// The frames of `png` at `sizes`, or the first error.
pub open spec fn frames_of(png: Seq<u8>, sizes: Seq<u32>) -> Result<Seq<Seq<u8>>, Seq<char>>
    decreases sizes.len(),
{
    if sizes.len() == 0 {
        Ok(seq![])
    } else {
        match frames_of(png, sizes.drop_last()) {
            Ok(fs) => match png_resized(png, sizes.last()) {
                Ok(f) => Ok(fs.push(f)),
                Err(e) => Err(e),
            },
            Err(e) => Err(e),
        }
    }
}

/// The .ico of a PNG: its frames at 256, 48, 32 and 16 pixels, or the first
/// error met making them.
pub open spec fn ico_of(png: Seq<u8>) -> Result<Seq<u8>, Seq<char>> {
    match frames_of(png, ico_sizes()) {
        Ok(frames) => if ico_fits(frames) {
            Ok(ico_file(frames))
        } else {
            Err("icon too large"@)
        },
        Err(e) => Err(e),
    }
}

/// The number four little-endian bytes stand for.
pub open spec fn le32_value(b: Seq<u8>) -> nat {
    (b[0] as nat) + (b[1] as nat) * 256 + (b[2] as nat) * 65536 + (b[3] as nat) * 16777216
}

proof fn lemma_le32(n: u32)
    ensures
        le32(n as nat).len() == 4,
        le32_value(le32(n as nat)) == n,
{
    assert(n % 256 + ((n / 256) % 256) * 256 + ((n / 65536) % 256) * 65536 + ((n / 16777216) % 256) * 16777216
        == n) by (bit_vector);
}

proof fn lemma_concat_append(a: Seq<Seq<u8>>, b: Seq<Seq<u8>>)
    ensures
        concat(a + b) == concat(a) + concat(b),
    decreases b.len(),
{
    if b.len() == 0 {
        assert(a + b =~= a);
        assert(concat(a) + concat(b) =~= concat(a));
    } else {
        assert((a + b).drop_last() =~= a + b.drop_last());
        assert((a + b).last() == b.last());
        lemma_concat_append(a, b.drop_last());
        assert(concat(a) + concat(b.drop_last()) + b.last() =~= concat(a) + (concat(b.drop_last()) + b.last()));
    }
}

proof fn lemma_directory(frames: Seq<Seq<u8>>, base: nat, k: int)
    requires
        0 <= k < frames.len() <= 4,
    ensures
        ico_directory(frames, base).len() == 16 * frames.len(),
        ico_directory(frames, base).subrange(16 * k, 16 * k + 16) == ico_entry(
            ico_sizes()[k],
            frames[k].len(),
            base + concat(frames.take(k)).len(),
        ),
    decreases frames.len(),
{
    let before = frames.drop_last();
    let n = frames.len() - 1;
    let last = ico_entry(ico_sizes()[n], frames.last().len(), base + concat(before).len());
    assert(last.len() == 16);
    if k < n {
        lemma_directory(before, base, k);
        assert(before.take(k) =~= frames.take(k));
        assert(before[k] == frames[k]);
        let d = ico_directory(before, base);
        assert((d + last).subrange(16 * k, 16 * k + 16) =~= d.subrange(16 * k, 16 * k + 16));
    } else {
        if n > 0 {
            lemma_directory(before, base, 0);
        } else {
            assert(ico_directory(before, base) =~= Seq::<u8>::empty());
        }
        assert(frames.take(k) =~= before);
        let d = ico_directory(before, base);
        assert((d + last).subrange(16 * k, 16 * k + 16) =~= last);
    }
}

proof fn lemma_subrange_right(x: Seq<u8>, y: Seq<u8>, i: int, j: int)
    requires
        0 <= i <= j <= y.len(),
    ensures
        (x + y).subrange(x.len() + i, x.len() + j) == y.subrange(i, j),
{
    assert((x + y).subrange(x.len() + i, x.len() + j) =~= y.subrange(i, j));
}

proof fn lemma_subrange_left(x: Seq<u8>, y: Seq<u8>, i: int, j: int)
    requires
        0 <= i <= j <= x.len(),
    ensures
        (x + y).subrange(i, j) == x.subrange(i, j),
{
    assert((x + y).subrange(i, j) =~= x.subrange(i, j));
}

proof fn lemma_concat_split(frames: Seq<Seq<u8>>, k: int)
    requires
        0 <= k < frames.len(),
    ensures
        concat(frames) == concat(frames.take(k)) + frames[k] + concat(frames.skip(k + 1)),
{
    let before = frames.take(k);
    let rest = frames.skip(k + 1);
    assert(frames =~= before + seq![frames[k]] + rest);
    lemma_concat_append(before + seq![frames[k]], rest);
    lemma_concat_append(before, seq![frames[k]]);
    let one = seq![frames[k]];
    assert(one.drop_last() =~= Seq::<Seq<u8>>::empty());
    assert(one.last() == frames[k]);
    assert(concat(Seq::<Seq<u8>>::empty()) == Seq::<u8>::empty());
    assert(concat(one) == concat(one.drop_last()) + one.last());
    assert(concat(one) =~= frames[k]);
}

/// An .ico reads back whole: its header counts the frames, and the
/// directory entry of each frame gives its length and where it starts, where
/// the frame is, as it was (`frames` as `png_to_ico` makes them: four, their
/// offsets within 32 bits).
#[verifier::spinoff_prover]
#[verifier::rlimit(40)]
pub proof fn law_ico_layout(frames: Seq<Seq<u8>>, k: int)
    requires
        frames.len() == 4,
        ico_fits(frames),
        0 <= k < 4,
    ensures
        ico_file(frames).subrange(0, 6) == seq![0u8, 0u8, 1u8, 0u8, 4u8, 0u8],
        le32_value(ico_file(frames).subrange(6 + 16 * k + 8, 6 + 16 * k + 12)) == frames[k].len(),
        ({
            let offset = le32_value(ico_file(frames).subrange(6 + 16 * k + 12, 6 + 16 * k + 16));
            ico_file(frames).subrange(offset as int, (offset + frames[k].len()) as int) == frames[k]
        }),
{
    let ico = ico_file(frames);
    lemma_directory(frames, 70, k);
    let d = ico_directory(frames, 70);
    let head = seq![0u8, 0u8, 1u8, 0u8] + le16(4);
    assert(head =~= seq![0u8, 0u8, 1u8, 0u8, 4u8, 0u8]);
    let hd = head + d;
    assert(hd.len() == 70);
    let c = concat(frames);
    assert(ico == hd + c);
    lemma_subrange_left(hd, c, 0, 6);
    lemma_subrange_left(head, d, 0, 6);
    lemma_concat_split(frames, k);
    let before = concat(frames.take(k));
    let len = frames[k].len();
    let off = 70 + before.len();
    lemma_le32(len as u32);
    lemma_le32(off as u32);
    let entry = ico_entry(ico_sizes()[k], len, off);
    assert(entry.subrange(8, 12) =~= le32(len));
    assert(entry.subrange(12, 16) =~= le32(off));
    lemma_subrange_left(hd, c, 6 + 16 * k + 8, 6 + 16 * k + 12);
    lemma_subrange_right(head, d, 16 * k + 8, 16 * k + 12);
    assert(d.subrange(16 * k + 8, 16 * k + 12) =~= d.subrange(16 * k, 16 * k + 16).subrange(8, 12));
    lemma_subrange_left(hd, c, 6 + 16 * k + 12, 6 + 16 * k + 16);
    lemma_subrange_right(head, d, 16 * k + 12, 16 * k + 16);
    assert(d.subrange(16 * k + 12, 16 * k + 16) =~= d.subrange(16 * k, 16 * k + 16).subrange(12, 16));
    lemma_subrange_right(hd, c, before.len() as int, (before.len() + len) as int);
    assert(c.subrange(before.len() as int, (before.len() + len) as int) =~= frames[k]);
}

fn push_le16(out: &mut Vec<u8>, n: u16)
    ensures
        final(out)@ == old(out)@ + le16(n as nat),
{
    out.push((n % 256) as u8);
    out.push(((n / 256) % 256) as u8);
    assert(final(out)@ =~= old(out)@ + le16(n as nat));
}

fn push_le32(out: &mut Vec<u8>, n: u32)
    ensures
        final(out)@ == old(out)@ + le32(n as nat),
{
    out.push((n % 256) as u8);
    out.push(((n / 256) % 256) as u8);
    out.push(((n / 65536) % 256) as u8);
    out.push(((n / 16777216) % 256) as u8);
    assert(final(out)@ =~= old(out)@ + le32(n as nat));
}

proof fn lemma_concat_len_mono(frames: Seq<Seq<u8>>, i: int)
    requires
        0 <= i <= frames.len(),
    ensures
        concat(frames.take(i)).len() <= concat(frames).len(),
    decreases frames.len(),
{
    if i < frames.len() {
        assert(frames.drop_last().take(i) =~= frames.take(i));
        lemma_concat_len_mono(frames.drop_last(), i);
    } else {
        assert(frames.take(i) =~= frames);
    }
}

proof fn lemma_frames_err(png: Seq<u8>, sizes: Seq<u32>, k: int, e: Seq<char>)
    requires
        0 <= k <= sizes.len(),
        frames_of(png, sizes.take(k)) == Err::<Seq<Seq<u8>>, Seq<char>>(e),
    ensures
        frames_of(png, sizes) == Err::<Seq<Seq<u8>>, Seq<char>>(e),
    decreases sizes.len() - k,
{
    if k < sizes.len() {
        assert(sizes.take(k + 1).drop_last() =~= sizes.take(k));
        lemma_frames_err(png, sizes, k + 1, e);
    } else {
        assert(sizes.take(k) =~= sizes);
    }
}

fn push_entry(ico: &mut Vec<u8>, size: u32, len: u32, offset: u32)
    ensures
        final(ico)@ == old(ico)@ + ico_entry(size, len as nat, offset as nat),
{
    let dim: u8 = if size >= 256 {
        0
    } else {
        size as u8
    };
    ico.push(dim);
    ico.push(dim);
    ico.push(0u8);
    ico.push(0u8);
    let ghost mid = ico@;
    push_le16(ico, 1u16);
    push_le16(ico, 32u16);
    push_le32(ico, len);
    push_le32(ico, offset);
    assert(mid =~= old(ico)@ + seq![dim_byte(size), dim_byte(size), 0u8, 0u8]);
    assert(final(ico)@ =~= old(ico)@ + ico_entry(size, len as nat, offset as nat));
}

fn push_bytes(out: &mut Vec<u8>, tail: &Vec<u8>)
    ensures
        final(out)@ == old(out)@ + tail@,
{
    let mut n: usize = 0;
    while n < tail.len()
        invariant
            n <= tail@.len(),
            out@ == old(out)@ + tail@.take(n as int),
        decreases tail@.len() - n,
    {
        out.push(tail[n]);
        assert(tail@.take(n + 1) =~= tail@.take(n as int).push(tail@[n as int]));
        assert(out@ =~= old(out)@ + tail@.take(n + 1));
        n = n + 1;
    }
    assert(tail@.take(n as int) =~= tail@);
}

/// A PNG turned into an .ico holding 256, 48, 32 and 16 pixel frames (each
/// stored as PNG).
pub fn png_to_ico(png: &[u8]) -> (r: Result<Vec<u8>, String>)
    ensures
        match r {
            Ok(v) => ico_of(png@) == Ok::<Seq<u8>, Seq<char>>(v@),
            Err(e) => ico_of(png@) == Err::<Seq<u8>, Seq<char>>(e@),
        },
{
    let sizes: Vec<u32> = vec![256u32, 48u32, 32u32, 16u32];
    assert(sizes@ =~= ico_sizes());
    let mut frames: Vec<Vec<u8>> = Vec::new();
    let mut i: usize = 0;
    assert(sizes@.take(0) =~= Seq::<u32>::empty());
    assert(frames@.map_values(|f: Vec<u8>| f@) =~= Seq::<Seq<u8>>::empty());
    while i < sizes.len()
        invariant
            i <= sizes@.len() == 4,
            sizes@ == ico_sizes(),
            frames@.len() == i,
            frames_of(png@, sizes@.take(i as int)) == Ok::<Seq<Seq<u8>>, Seq<char>>(
                frames@.map_values(|f: Vec<u8>| f@),
            ),
        decreases sizes@.len() - i,
    {
        assert(sizes@.take(i + 1).drop_last() =~= sizes@.take(i as int));
        assert(sizes@.take(i + 1).last() == sizes@[i as int]);
        match resized_png(png, sizes[i]) {
            Ok(f) => {
                let ghost fv = frames@.map_values(|f: Vec<u8>| f@);
                let ghost l = f@;
                frames.push(f);
                assert(frames@.map_values(|f: Vec<u8>| f@) =~= fv.push(l));
            },
            Err(e) => {
                proof {
                    lemma_frames_err(png@, sizes@, i + 1, e@);
                }
                return Err(e);
            },
        }
        i = i + 1;
    }
    assert(sizes@.take(4) =~= sizes@);
    let ghost fv = frames@.map_values(|f: Vec<u8>| f@);
    assert(frames_of(png@, ico_sizes()) == Ok::<Seq<Seq<u8>>, Seq<char>>(fv));
    // Every offset and length must fit in 32 bits.
    let mut total: u64 = 70;
    let mut j: usize = 0;
    assert(fv.take(0) =~= Seq::<Seq<u8>>::empty());
    while j < frames.len()
        invariant
            j <= frames@.len() == 4,
            fv == frames@.map_values(|f: Vec<u8>| f@),
            frames_of(png@, ico_sizes()) == Ok::<Seq<Seq<u8>>, Seq<char>>(fv),
            total == 70 + concat(fv.take(j as int)).len(),
            total <= u32::MAX,
        decreases frames@.len() - j,
    {
        assert(fv.take(j + 1).drop_last() =~= fv.take(j as int));
        assert(fv[j as int] == frames@[j as int]@);
        let len = frames[j].len() as u64;
        if len > 0xffff_ffff - total {
            proof {
                lemma_concat_len_mono(fv, j + 1);
                reveal_strlit("icon too large");
            }
            assert(!ico_fits(fv));
            return Err("icon too large".to_owned());
        }
        total = total + len;
        j = j + 1;
    }
    assert(fv.take(4) =~= fv);
    assert(ico_fits(fv));
    let mut ico: Vec<u8> = Vec::new();
    ico.push(0u8);
    ico.push(0u8);
    ico.push(1u8);
    ico.push(0u8);
    push_le16(&mut ico, 4u16);
    let ghost head = seq![0u8, 0u8, 1u8, 0u8] + le16(4);
    assert(ico@ =~= head + ico_directory(fv.take(0), 70));
    let mut offset: u32 = 70;
    let mut k: usize = 0;
    while k < frames.len()
        invariant
            k <= frames@.len() == 4,
            sizes@ == ico_sizes(),
            fv == frames@.map_values(|f: Vec<u8>| f@),
            70 + concat(fv).len() <= u32::MAX,
            offset == 70 + concat(fv.take(k as int)).len(),
            ico@ == head + ico_directory(fv.take(k as int), 70),
        decreases frames@.len() - k,
    {
        assert(fv.take(k + 1).drop_last() =~= fv.take(k as int));
        assert(fv[k as int] == frames@[k as int]@);
        proof {
            lemma_concat_len_mono(fv, k + 1);
        }
        let len = frames[k].len() as u32;
        push_entry(&mut ico, sizes[k], len, offset);
        assert(ico@ =~= head + ico_directory(fv.take(k + 1), 70));
        offset = offset + len;
        k = k + 1;
    }
    assert(fv.take(4) =~= fv);
    let ghost dir = ico@;
    let mut m: usize = 0;
    assert(fv.take(0) =~= Seq::<Seq<u8>>::empty());
    while m < frames.len()
        invariant
            m <= frames@.len() == 4,
            fv == frames@.map_values(|f: Vec<u8>| f@),
            ico@ == dir + concat(fv.take(m as int)),
        decreases frames@.len() - m,
    {
        assert(fv.take(m + 1).drop_last() =~= fv.take(m as int));
        assert(fv[m as int] == frames@[m as int]@);
        push_bytes(&mut ico, &frames[m]);
        assert(ico@ =~= dir + concat(fv.take(m + 1)));
        m = m + 1;
    }
    assert(fv.take(4) =~= fv);
    assert(ico@ =~= ico_file(fv));
    Ok(ico)
}

/* -------------------------------------------------------------- the shortcuts */

/// One shortcut: the file it is written to, what it runs the launcher with
/// (`launch <target>`), the web manifest its icon comes from, and the name
/// of that icon's file.
#[derive(Debug)]
pub struct Link {
    pub path: String,
    pub target: String,
    pub manifest: String,
    pub icon: String,
}

/// A shortcut, as a value.
pub struct LinkModel {
    pub path: Seq<char>,
    pub target: Seq<char>,
    pub manifest: Seq<char>,
    pub icon: Seq<char>,
}

impl View for Link {
    type V = LinkModel;

    open spec fn view(&self) -> LinkModel {
        LinkModel { path: self.path@, target: self.target@, manifest: self.manifest@, icon: self.icon@ }
    }
}

/// An app's shortcuts: their folder, then the app's and its listed facades'.
#[derive(Debug)]
pub struct Shortcuts {
    pub folder: String,
    pub links: Vec<Link>,
}

/// The last part of a facade's path (`str::rsplit('/').next()`).
pub open spec fn slug_of(path: Seq<char>) -> Seq<char> {
    after_last(path, '/')
}

/// The folder of an app's shortcuts, named after the app in `lang`.
pub open spec fn folder_of(root: Seq<char>, app: AppModel, lang: Seq<char>) -> Seq<char> {
    join_path(root, file_name_of(localized(app.names, lang, app.code)))
}

/// The app's own shortcut.
pub open spec fn app_link(app: AppModel, base: Seq<char>, folder: Seq<char>, lang: Seq<char>) -> LinkModel {
    LinkModel {
        path: join_path(folder, file_name_of(localized(app.names, lang, app.code)) + ".lnk"@),
        target: app.code,
        manifest: base + "/manifest.webmanifest"@,
        icon: app.code,
    }
}

/// A facade's shortcut: named in `lang` (else English, else its path).
pub open spec fn facade_link(
    app: AppModel,
    f: FacadeModel,
    base: Seq<char>,
    folder: Seq<char>,
    lang: Seq<char>,
) -> LinkModel {
    LinkModel {
        path: join_path(folder, file_name_of(localized(f.names, lang, f.path)) + ".lnk"@),
        target: app.code + "/"@ + f.path,
        manifest: base + "/assets/manifests/"@ + slug_of(f.path) + ".webmanifest"@,
        icon: app.code + "-"@ + slug_of(f.path),
    }
}

/// The shortcuts of the listed facades among `fs`, in order.
pub open spec fn facade_links(
    app: AppModel,
    fs: Seq<FacadeModel>,
    base: Seq<char>,
    folder: Seq<char>,
    lang: Seq<char>,
) -> Seq<LinkModel>
    decreases fs.len(),
{
    if fs.len() == 0 {
        seq![]
    } else {
        let before = facade_links(app, fs.drop_last(), base, folder, lang);
        if fs.last().listed {
            before.push(facade_link(app, fs.last(), base, folder, lang))
        } else {
            before
        }
    }
}

/// All of an app's shortcuts: the app first, then its listed facades.
pub open spec fn links_of(app: AppModel, base: Seq<char>, folder: Seq<char>, lang: Seq<char>) -> Seq<LinkModel> {
    seq![app_link(app, base, folder, lang)] + facade_links(app, app.facades, base, folder, lang)
}

/// The web manifest of an app, at the address it is opened at.
pub open spec fn app_manifest_of(urls: Map<Seq<char>, Seq<char>>, app: AppModel) -> Seq<char> {
    trim_slashes(app_url(urls, app)) + "/manifest.webmanifest"@
}

/// The web manifest of an app (its icon's source).
pub fn app_manifest(app: &App, settings: &Settings) -> (r: String)
    ensures
        r@ == app_manifest_of(settings.app_urls@, app@),
{
    let url = settings.url_of(app);
    let mut v = trim_slashes_chars(&chars_of(url.as_str()));
    push_str(&mut v, "/manifest.webmanifest");
    to_string(&v)
}

fn join_path_string(dir: &str, name: &Vec<char>) -> (r: String)
    ensures
        r@ == join_path(dir@, name@),
{
    let mut d = chars_of(dir);
    let n = d.len();
    if n > 0 && !(d[n - 1] == '\\' || d[n - 1] == '/') {
        d.push('/');
    }
    push_all(&mut d, name);
    to_string(&d)
}

/// An app's shortcuts in the folder named after it under `root` (the Start
/// menu's programs): the app, then each listed facade, each running the
/// launcher with its target and wearing the icon of its web manifest.
pub fn create(app: &App, settings: &Settings, lang: &str, root: &str) -> (r: Shortcuts)
    ensures
        r.folder@ == folder_of(root@, app@, lang@),
        r.links@.map_values(|l: Link| l@) == links_of(
            app@,
            trim_slashes(app_url(settings.app_urls@, app@)),
            folder_of(root@, app@, lang@),
            lang@,
        ),
{
    let url = settings.url_of(app);
    let base = trim_slashes_chars(&chars_of(url.as_str()));
    let ghost b = base@;
    let name = file_name(app.name(lang).as_str());
    let folder = join_path_string(root, &chars_of(name.as_str()));
    let ghost fd = folder@;
    let mut links: Vec<Link> = Vec::new();
    let mut lnk = chars_of(name.as_str());
    push_str(&mut lnk, ".lnk");
    let mut manifest = base.clone();
    push_str(&mut manifest, "/manifest.webmanifest");
    links.push(
        Link {
            path: join_path_string(folder.as_str(), &lnk),
            target: app.code.clone(),
            manifest: to_string(&manifest),
            icon: app.code.clone(),
        },
    );
    let ghost fs = app@.facades;
    let mut i: usize = 0;
    assert(fs.take(0) =~= Seq::<FacadeModel>::empty());
    assert(links@.map_values(|l: Link| l@) =~= seq![app_link(app@, b, fd, lang@)]);
    while i < app.facades.len()
        invariant
            i <= app.facades@.len(),
            fs == app@.facades,
            b == trim_slashes(app_url(settings.app_urls@, app@)),
            base@ == b,
            folder@ == fd,
            links@.map_values(|l: Link| l@) == seq![app_link(app@, b, fd, lang@)] + facade_links(
                app@,
                fs.take(i as int),
                b,
                fd,
                lang@,
            ),
        decreases app.facades@.len() - i,
    {
        assert(fs.take(i + 1).drop_last() =~= fs.take(i as int));
        let f = &app.facades[i];
        assert(fs.take(i + 1).last() == f@);
        let ghost before = links@.map_values(|l: Link| l@);
        if f.listed {
            let fname = file_name(localized_name(&f.names, lang, &f.path).as_str());
            let mut flnk = chars_of(fname.as_str());
            push_str(&mut flnk, ".lnk");
            let p = chars_of(f.path.as_str());
            let slug = after_last_chars(&p, '/');
            let mut target = chars_of(app.code.as_str());
            target.push('/');
            proof {
                reveal_strlit("/");
                reveal_strlit("-");
            }
            push_all(&mut target, &p);
            let mut fmanifest = base.clone();
            push_str(&mut fmanifest, "/assets/manifests/");
            push_all(&mut fmanifest, &slug);
            push_str(&mut fmanifest, ".webmanifest");
            let mut icon = chars_of(app.code.as_str());
            icon.push('-');
            push_all(&mut icon, &slug);
            let link = Link {
                path: join_path_string(folder.as_str(), &flnk),
                target: to_string(&target),
                manifest: to_string(&fmanifest),
                icon: to_string(&icon),
            };
            assert(link.path@ == facade_link(app@, f@, b, fd, lang@).path);
            assert(link.target@ == facade_link(app@, f@, b, fd, lang@).target);
            assert(link.manifest@ == facade_link(app@, f@, b, fd, lang@).manifest);
            assert(link.icon@ == facade_link(app@, f@, b, fd, lang@).icon);
            assert(link@ == facade_link(app@, f@, b, fd, lang@));
            links.push(link);
            assert(links@.map_values(|l: Link| l@) =~= before.push(facade_link(app@, f@, b, fd, lang@)));
        }
        i = i + 1;
    }
    assert(fs.take(i as int) =~= fs);
    Shortcuts { folder, links }
}

/* ------------------------------------------------------------------- removal */

/// `path` is inside the folder `d`: `d`, a path separator, then more.
pub open spec fn in_folder(path: Seq<char>, d: Seq<char>) -> bool {
    starts_with(path, d) && d.len() < path.len() && crate::browsers::is_sep(path[d.len() as int])
}

/// `path` is the icon file `stem` with an extension: `stem`, a dot, then
/// neither a dot nor a path separator.
pub open spec fn icon_of(path: Seq<char>, stem: Seq<char>) -> bool {
    &&& starts_with(path, stem)
    &&& stem.len() < path.len()
    &&& path[stem.len() as int] == '.'
    &&& forall|i: int| stem.len() < i < path.len() ==> path[i] != '.' && !crate::browsers::is_sep(#[trigger] path[i])
}

/// The icons of an app's shortcuts, without their extension, in `dir`: the
/// app's own, named after its code, and each facade's, named after the code
/// and the last part of the facade's path.
pub open spec fn icon_stems(dir: Seq<char>, app: AppModel) -> Seq<Seq<char>> {
    seq![join_path(dir, app.code)] + app.facades.map_values(
        |f: FacadeModel| join_path(dir, app.code + "-"@ + slug_of(f.path)),
    )
}

/// `path` is one of the icons named in `stems`.
pub open spec fn own_icon(path: Seq<char>, stems: Seq<Seq<char>>) -> bool {
    exists|i: int| 0 <= i < stems.len() && icon_of(path, #[trigger] stems[i])
}

/// A file of the app's shortcuts: in its own folder (where there is one)
/// or one of its icons; or a shortcut bundle in its folder.
pub open spec fn shortcut_file(a: ArtefactModel, folder: Option<Seq<char>>, icons: Seq<Seq<char>>) -> bool {
    match a {
        ArtefactModel::File { path } => (match folder {
            Some(d) => in_folder(path, d),
            None => false,
        }) || own_icon(path, icons),
        ArtefactModel::Tree { path } => match folder {
            Some(d) => in_folder(path, d),
            None => false,
        },
        _ => false,
    }
}

/// The folder of the app's shortcuts.
pub open spec fn shortcut_dir(a: ArtefactModel, folder: Option<Seq<char>>) -> bool {
    match a {
        ArtefactModel::Dir { path } => folder == Some(path),
        _ => false,
    }
}

/// What removing an app's shortcuts takes away, in this order: its files,
/// then its folder (only removed once empty).
pub open spec fn shortcut_removals(s: Seq<ArtefactModel>, folder: Option<Seq<char>>, icons: Seq<Seq<char>>) -> Seq<
    ArtefactModel,
> {
    select(s, |a: ArtefactModel| shortcut_file(a, folder, icons)) + select(
        s,
        |a: ArtefactModel| shortcut_dir(a, folder),
    )
}

/// What the inventory keeps when an app's shortcuts go.
pub open spec fn shortcut_kept(s: Seq<ArtefactModel>, folder: Option<Seq<char>>, icons: Seq<Seq<char>>) -> Seq<
    ArtefactModel,
> {
    select(s, |a: ArtefactModel| !shortcut_file(a, folder, icons) && !shortcut_dir(a, folder))
}

fn opt_in_folder(path: &Vec<char>, folder: &Option<Vec<char>>) -> (r: bool)
    ensures
        r == match folder {
            Some(d) => in_folder(path@, d@),
            None => false,
        },
{
    match folder {
        Some(d) => starts_with_chars(path, d) && d.len() < path.len() && (path[d.len()] == '/' || path[d.len()]
            == '\\'),
        None => false,
    }
}

fn is_icon_of(path: &Vec<char>, stem: &Vec<char>) -> (r: bool)
    ensures
        r == icon_of(path@, stem@),
{
    let n = stem.len();
    if !(starts_with_chars(path, stem) && n < path.len() && path[n] == '.') {
        return false;
    }
    let mut i: usize = n + 1;
    while i < path.len()
        invariant
            n < i <= path@.len(),
            n == stem@.len(),
            forall|j: int| n < j < i ==> path@[j] != '.' && !crate::browsers::is_sep(#[trigger] path@[j]),
        decreases path@.len() - i,
    {
        let c = path[i];
        if c == '.' || c == '/' || c == '\\' {
            assert(!(path@[i as int] != '.' && !crate::browsers::is_sep(path@[i as int])));
            return false;
        }
        i = i + 1;
    }
    true
}

fn is_own_icon(path: &Vec<char>, stems: &Vec<Vec<char>>) -> (r: bool)
    ensures
        r == own_icon(path@, stems.deep_view()),
{
    let ghost sv = stems.deep_view();
    let mut i: usize = 0;
    while i < stems.len()
        invariant
            i <= stems@.len(),
            sv == stems.deep_view(),
            forall|j: int| 0 <= j < i ==> !icon_of(path@, #[trigger] sv[j]),
        decreases stems@.len() - i,
    {
        assert(sv[i as int] == stems@[i as int]@);
        if is_icon_of(path, &stems[i]) {
            return true;
        }
        i = i + 1;
    }
    false
}

/// The icons of an app's shortcuts, without their extension, in `icons_dir`.
fn icon_stems_of(app: &App, icons_dir: &str) -> (r: Vec<Vec<char>>)
    ensures
        r.deep_view() == icon_stems(icons_dir@, app@),
{
    proof {
        reveal_strlit("-");
    }
    let code = chars_of(app.code.as_str());
    let mut stems: Vec<Vec<char>> = Vec::new();
    let first = chars_of(join_path_string(icons_dir, &code).as_str());
    proof {
        lemma_chars_deep_view(first);
    }
    stems.push(first);
    let ghost fs = app@.facades;
    let ghost d = icons_dir@;
    let ghost c = app@.code;
    let ghost stem_of = |f: FacadeModel| join_path(d, c + "-"@ + slug_of(f.path));
    assert(fs.take(0).map_values(stem_of) =~= Seq::<Seq<char>>::empty());
    assert(stems.deep_view() =~= seq![join_path(d, c)] + fs.take(0).map_values(stem_of));
    let mut i: usize = 0;
    while i < app.facades.len()
        invariant
            i <= fs.len(),
            fs == app@.facades,
            fs.len() == app.facades@.len(),
            d == icons_dir@,
            c == app@.code,
            code@ == c,
            stem_of == (|f: FacadeModel| join_path(d, c + "-"@ + slug_of(f.path))),
            stems.deep_view() == seq![join_path(d, c)] + fs.take(i as int).map_values(stem_of),
        decreases fs.len() - i,
    {
        let f = &app.facades[i];
        assert(fs[i as int] == f@);
        let p = chars_of(f.path.as_str());
        let slug = after_last_chars(&p, '/');
        let mut name = chars_of(app.code.as_str());
        proof {
            reveal_strlit("-");
        }
        name.push('-');
        push_all(&mut name, &slug);
        assert(name@ =~= c + "-"@ + slug_of(f@.path));
        let stem = chars_of(join_path_string(icons_dir, &name).as_str());
        let ghost before = stems.deep_view();
        proof {
            lemma_chars_deep_view(stem);
        }
        stems.push(stem);
        assert(fs.take(i + 1).map_values(stem_of) =~= fs.take(i as int).map_values(stem_of).push(stem_of(fs[i as int])));
        assert(stems.deep_view() =~= before.push(stem_of(fs[i as int])));
        i = i + 1;
    }
    assert(fs.take(i as int) =~= fs);
    stems
}

fn is_shortcut_file(a: &Artefact, folder: &Option<Vec<char>>, icons: &Vec<Vec<char>>) -> (r: bool)
    ensures
        r == shortcut_file(a@, match folder {
            Some(d) => Some(d@),
            None => None,
        }, icons.deep_view()),
{
    match a {
        Artefact::File { path } => {
            let p = chars_of(path.as_str());
            opt_in_folder(&p, folder) || is_own_icon(&p, icons)
        },
        Artefact::Tree { path } => opt_in_folder(&chars_of(path.as_str()), folder),
        _ => false,
    }
}

fn is_shortcut_dir(a: &Artefact, folder: &Option<Vec<char>>) -> (r: bool)
    ensures
        r == shortcut_dir(a@, match folder {
            Some(d) => Some(d@),
            None => None,
        }),
{
    match a {
        Artefact::Dir { path } => match folder {
            Some(d) => crate::text::eq_chars(&chars_of(path.as_str()), d),
            None => false,
        },
        _ => false,
    }
}

/// Takes an app's shortcuts out of the inventory: every file or bundle in
/// its own folder (`folder`, where the system has one) and its icons (in
/// `icons_dir`, named after the app's code, or the code and a facade's
/// name, with an extension), then the folder itself. Returns them in the
/// order they are to be deleted; the inventory keeps the rest.
pub fn remove(app: &App, folder: Option<&str>, icons_dir: &str, inventory: &mut Inventory) -> (r: Vec<Artefact>)
    ensures
        r@.map_values(|a: Artefact| a@) == shortcut_removals(
            old(inventory)@,
            match folder {
                Some(d) => Some(d@),
                None => None,
            },
            icon_stems(icons_dir@, app@),
        ),
        final(inventory)@ == shortcut_kept(
            old(inventory)@,
            match folder {
                Some(d) => Some(d@),
                None => None,
            },
            icon_stems(icons_dir@, app@),
        ),
{
    let fd: Option<Vec<char>> = match folder {
        Some(d) => Some(chars_of(d)),
        None => None,
    };
    let ghost fv: Option<Seq<char>> = match folder {
        Some(d) => Some(d@),
        None => None,
    };
    assert(fv == match fd {
        Some(d) => Some(d@),
        None => None::<Seq<char>>,
    });
    let prefix = icon_stems_of(app, icons_dir);
    let ghost px = prefix.deep_view();
    let ghost all = inventory@;
    let ghost is_file = |a: ArtefactModel| shortcut_file(a, fv, px);
    let ghost is_dir = |a: ArtefactModel| shortcut_dir(a, fv);
    let ghost is_kept = |a: ArtefactModel| !shortcut_file(a, fv, px) && !shortcut_dir(a, fv);
    let mut rest: Vec<Artefact> = Vec::new();
    std::mem::swap(&mut rest, &mut inventory.artefacts);
    let mut files: Vec<Artefact> = Vec::new();
    let mut dirs: Vec<Artefact> = Vec::new();
    let mut kept: Vec<Artefact> = Vec::new();
    let n = rest.len();
    let mut i: usize = 0;
    assert(all.take(0) =~= Seq::<ArtefactModel>::empty());
    assert(rest@.map_values(|a: Artefact| a@) =~= all);
    while rest.len() > 0
        invariant
            i <= n == all.len(),
            i + rest@.len() == n,
            rest@.map_values(|a: Artefact| a@) == all.skip(i as int),
            fv == match fd {
                Some(d) => Some(d@),
                None => None::<Seq<char>>,
            },
            px == prefix.deep_view(),
            is_file == (|a: ArtefactModel| shortcut_file(a, fv, px)),
            is_dir == (|a: ArtefactModel| shortcut_dir(a, fv)),
            is_kept == (|a: ArtefactModel| !shortcut_file(a, fv, px) && !shortcut_dir(a, fv)),
            files@.map_values(|a: Artefact| a@) == select(all.take(i as int), is_file),
            dirs@.map_values(|a: Artefact| a@) == select(all.take(i as int), is_dir),
            kept@.map_values(|a: Artefact| a@) == select(all.take(i as int), is_kept),
        decreases rest@.len(),
    {
        let ghost rv = rest@;
        let a = rest.remove(0);
        assert(rv.map_values(|a: Artefact| a@)[0] == a@);
        assert(all.take(i + 1).drop_last() =~= all.take(i as int));
        assert(all.take(i + 1).last() == a@);
        let ghost av = a@;
        let ghost f0 = files@.map_values(|a: Artefact| a@);
        let ghost d0 = dirs@.map_values(|a: Artefact| a@);
        let ghost k0 = kept@.map_values(|a: Artefact| a@);
        if is_shortcut_file(&a, &fd, &prefix) {
            assert(is_file(av));
            assert(!is_dir(av));
            assert(!is_kept(av));
            files.push(a);
            assert(files@.map_values(|a: Artefact| a@) =~= f0.push(av));
        } else if is_shortcut_dir(&a, &fd) {
            assert(!is_file(av));
            assert(is_dir(av));
            assert(!is_kept(av));
            dirs.push(a);
            assert(dirs@.map_values(|a: Artefact| a@) =~= d0.push(av));
        } else {
            assert(!is_file(av));
            assert(!is_dir(av));
            assert(is_kept(av));
            kept.push(a);
            assert(kept@.map_values(|a: Artefact| a@) =~= k0.push(av));
        }
        assert(rest@ =~= rv.drop_first());
        assert(all.skip(i + 1) =~= all.skip(i as int).drop_first());
        assert(rest@.map_values(|a: Artefact| a@) =~= rv.map_values(|a: Artefact| a@).drop_first());
        i = i + 1;
    }
    assert(all.take(i as int) =~= all);
    inventory.artefacts = kept;
    let ghost fs = files@.map_values(|a: Artefact| a@);
    let ghost ds = dirs@.map_values(|a: Artefact| a@);
    files.append(&mut dirs);
    assert(files@.map_values(|a: Artefact| a@) =~= fs + ds);
    files
}

} // verus!
