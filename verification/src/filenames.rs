//! Which names may be written to disk: rendered output files, uploaded fonts,
//! and the templates found in the template directory.
use vstd::prelude::*;
use crate::error::CoverError;
use crate::names::unicode_lowercase;
use crate::order::{chars_lt, lemma_str_lt_asymmetric, lemma_str_lt_total, lemma_str_lt_transitive, str_lt};
use crate::paths::{extension, file_name, file_stem, path_extension, path_file_name, path_file_stem};
use crate::text::{
    ascii_alnum, ascii_lowercase, chars_equal, chars_of, is_ascii_alnum, lower_ascii_chars,
    string_of,
};

verus! {

/// Characters allowed in an output file name.
pub open spec fn is_output_name_char(c: char) -> bool {
    is_ascii_alnum(c) || c == '-' || c == '_' || c == '.'
}

/// The extension of a path, or the empty string when it has none.
pub open spec fn extension_or_empty(p: Seq<char>) -> Seq<char> {
    match path_extension(p) {
        Some(e) => e,
        None => Seq::empty(),
    }
}

/// The verdict on a requested output file name: its final component, when that
/// is a non-empty name of `[A-Za-z0-9._-]` whose extension is `png`, `jpg` or
/// `jpeg` in any ASCII case.
pub open spec fn output_name_check(raw: Seq<char>) -> Result<Seq<char>, CoverError> {
    match path_file_name(raw) {
        None => Err(CoverError::InvalidOutputFilename),
        Some(name) => {
            if name.len() == 0 || !(forall|i: int| 0 <= i < name.len() ==> is_output_name_char(#[trigger] name[i])) {
                Err(CoverError::InvalidOutputFilename)
            } else {
                let ext = ascii_lowercase(extension_or_empty(name));
                if ext == "png"@ || ext == "jpg"@ || ext == "jpeg"@ {
                    Ok(name)
                } else {
                    Err(CoverError::UnsupportedOutputExtension)
                }
            }
        }
    }
}

fn output_name_char(c: char) -> (r: bool)
    ensures
        r == is_output_name_char(c),
{
    ascii_alnum(c) || c == '-' || c == '_' || c == '.'
}

/// The lowercased extension of `p`, empty when it has none.
fn lower_extension(p: &str) -> (r: Vec<char>)
    ensures
        r@ == ascii_lowercase(extension_or_empty(p@)),
{
    match extension(p) {
        Some(e) => lower_ascii_chars(&chars_of(e.as_str())),
        None => {
            let v: Vec<char> = Vec::new();
            assert(ascii_lowercase(Seq::<char>::empty()) =~= Seq::<char>::empty());
            v
        }
    }
}

fn is_one_of(v: &Vec<char>, a: &str, b: &str, c: &str) -> (r: bool)
    ensures
        r == (v@ == a@ || v@ == b@ || v@ == c@),
{
    chars_equal(v, &chars_of(a)) || chars_equal(v, &chars_of(b)) || chars_equal(v, &chars_of(c))
}

/// Checks a requested output file name: keeps only its final component, which
/// must be made of `[A-Za-z0-9._-]` and end in `.png`, `.jpg` or `.jpeg`.
pub fn safe_output_filename(raw: &str) -> (r: Result<String, CoverError>)
    ensures
        match r {
            Ok(n) => output_name_check(raw@) == Ok::<Seq<char>, CoverError>(n@),
            Err(e) => output_name_check(raw@) == Err::<Seq<char>, CoverError>(e),
        },
{
    let name = match file_name(raw) {
        Some(n) => n,
        None => return Err(CoverError::InvalidOutputFilename),
    };
    let cs = chars_of(name.as_str());
    let mut i: usize = 0;
    while i < cs.len()
        invariant
            i <= cs.len(),
            cs@ == name@,
            path_file_name(raw@) == Some(name@),
            forall|j: int| 0 <= j < i ==> is_output_name_char(#[trigger] cs@[j]),
        decreases cs.len() - i,
    {
        if !output_name_char(cs[i]) {
            assert(!is_output_name_char(name@[i as int]));
            return Err(CoverError::InvalidOutputFilename);
        }
        i += 1;
    }
    if cs.len() == 0 {
        return Err(CoverError::InvalidOutputFilename);
    }
    let ext = lower_extension(name.as_str());
    if is_one_of(&ext, "png", "jpg", "jpeg") {
        Ok(name)
    } else {
        Err(CoverError::UnsupportedOutputExtension)
    }
}

/// Whether a file name whose extension, lowercased, is `jpg` or `jpeg`
/// (no extension counts as `png`).
pub open spec fn spec_is_jpeg_output(path: Seq<char>) -> bool {
    let e = match path_extension(path) {
        Some(e) => unicode_lowercase(e),
        None => unicode_lowercase("png"@),
    };
    e == "jpg"@ || e == "jpeg"@
}

/// Whether an output path is written as JPEG: its extension, lowercased, is
/// `jpg` or `jpeg`; every other output, and one without extension, is PNG.
pub fn is_jpeg_output(path: &str) -> (r: bool)
    ensures
        r == spec_is_jpeg_output(path@),
        path_extension(path@) is None ==> !r,
        path_extension(path@) is Some && crate::text::is_ascii_chars(path_extension(path@)->0) ==> (r <==> (
            ascii_lowercase(path_extension(path@)->0) == "jpg"@ || ascii_lowercase(path_extension(path@)->0) == "jpeg"@)),
{
    let e = match extension(path) {
        Some(e) => e,
        None => "png".to_owned(),
    };
    proof {
        reveal_strlit("png");
        reveal_strlit("jpg");
        reveal_strlit("jpeg");
        if path_extension(path@) is None {
            assert(crate::text::is_ascii_chars(e@));
            assert(ascii_lowercase(e@) =~= e@);
        }
    }
    let lowered = crate::names::lowercase(e.as_str());
    proof {
        if path_extension(path@) is None {
            assert(lowered@ == "png"@);
            assert("png"@[0] != "jpg"@[0]);
            assert("png"@.len() != "jpeg"@.len());
        }
    }
    let l = chars_of(lowered.as_str());
    chars_equal(&l, &chars_of("jpg")) || chars_equal(&l, &chars_of("jpeg"))
}

// ---------------------------------------------------------------------------
// Font files
// ---------------------------------------------------------------------------

/// Characters kept as they are in a font file name.
pub open spec fn is_font_name_char(c: char) -> bool {
    is_ascii_alnum(c) || c == '.' || c == '-' || c == '_'
}

/// The character a font file name gets for `c`.
pub open spec fn font_char(c: char) -> char {
    if is_font_name_char(c) {
        c
    } else {
        '_'
    }
}

/// The verdict on a font file name: its final component must have the
/// extension `ttf`, `otf`, `ttc` or `otc` (any ASCII case); every character
/// outside `[A-Za-z0-9._-]` becomes `_`, and the result may not start with `.`.
pub open spec fn font_name_check(raw: Seq<char>) -> Result<Seq<char>, CoverError> {
    match path_file_name(raw) {
        None => Err(CoverError::InvalidFontFilename),
        Some(file) => {
            let ext = ascii_lowercase(extension_or_empty(file));
            if !(ext == "ttf"@ || ext == "otf"@ || ext == "ttc"@ || ext == "otc"@) {
                Err(CoverError::UnsupportedFontExtension)
            } else {
                let safe = file.map_values(|c: char| font_char(c));
                if safe.len() == 0 || safe[0] == '.' {
                    Err(CoverError::InvalidFontFilename)
                } else {
                    Ok(safe)
                }
            }
        }
    }
}

fn font_name_char(c: char) -> (r: bool)
    ensures
        r == is_font_name_char(c),
{
    ascii_alnum(c) || c == '.' || c == '-' || c == '_'
}

/// Checks and sanitises the name of a font file to store or delete.
pub fn safe_font_filename(raw: &str) -> (r: Result<String, CoverError>)
    ensures
        match r {
            Ok(n) => font_name_check(raw@) == Ok::<Seq<char>, CoverError>(n@),
            Err(e) => font_name_check(raw@) == Err::<Seq<char>, CoverError>(e),
        },
{
    let file = match file_name(raw) {
        Some(f) => f,
        None => return Err(CoverError::InvalidFontFilename),
    };
    let ext = lower_extension(file.as_str());
    if !(is_one_of(&ext, "ttf", "otf", "ttc") || chars_equal(&ext, &chars_of("otc"))) {
        return Err(CoverError::UnsupportedFontExtension);
    }
    let cs = chars_of(file.as_str());
    let mut safe: Vec<char> = Vec::new();
    let mut i: usize = 0;
    while i < cs.len()
        invariant
            i <= cs.len(),
            cs@ == file@,
            safe@ == file@.take(i as int).map_values(|c: char| font_char(c)),
        decreases cs.len() - i,
    {
        let c = cs[i];
        if font_name_char(c) {
            safe.push(c);
        } else {
            safe.push('_');
        }
        assert(file@.take(i + 1).map_values(|c: char| font_char(c)) =~= file@.take(i as int).map_values(|c: char| font_char(c)).push(font_char(c)));
        i += 1;
    }
    assert(file@.take(cs.len() as int) =~= file@);
    if safe.len() == 0 || safe[0] == '.' {
        return Err(CoverError::InvalidFontFilename);
    }
    Ok(string_of(safe.as_slice()))
}

/// Whether a file in the custom font folder has a font extension
/// (`ttf`, `otf`, `ttc`, `otc`, any ASCII case).
pub fn has_font_extension(path: &str) -> (r: bool)
    ensures
        r == ({
            let e = ascii_lowercase(extension_or_empty(path@));
            e == "ttf"@ || e == "otf"@ || e == "ttc"@ || e == "otc"@
        }),
{
    let ext = lower_extension(path);
    is_one_of(&ext, "ttf", "otf", "ttc") || chars_equal(&ext, &chars_of("otc"))
}

// ---------------------------------------------------------------------------
// Laws of the name checks
// ---------------------------------------------------------------------------

/// A name without `/` that is neither empty, `.` nor `..` is its own file name.
pub proof fn lemma_plain_name_is_file_name(n: Seq<char>)
    requires
        n.len() > 0,
        forall|i: int| 0 <= i < n.len() ==> n[i] != '/',
        n != crate::paths::dot(),
        n != crate::paths::dot_dot(),
    ensures
        path_file_name(n) == Some(n),
{
    crate::paths::lemma_split_without_sep(n, '/');
    let segs = crate::paths::split_at_char(n, '/');
    assert(segs.drop_last() =~= Seq::<Seq<char>>::empty());
    assert(crate::paths::kept_segments(Seq::<Seq<char>>::empty()) == Seq::<Seq<char>>::empty());
    assert(segs.last() == n);
    assert(crate::paths::kept_segments(segs) =~= seq![n]);
    assert(crate::paths::components(n) =~= seq![n]);
    if n == crate::paths::root_component() {
        assert(n[0] == '/');
    }
}

/// An accepted output file name is accepted again, unchanged: checking is idempotent.
pub proof fn lemma_output_name_idempotent(raw: Seq<char>, n: Seq<char>)
    requires
        output_name_check(raw) == Ok::<Seq<char>, CoverError>(n),
    ensures
        output_name_check(n) == Ok::<Seq<char>, CoverError>(n),
{
    assert(path_file_name(raw) == Some(n));
    assert forall|i: int| 0 <= i < n.len() implies n[i] != '/' by {
        assert(is_output_name_char(n[i]));
    }
    lemma_plain_name_is_file_name(n);
}

proof fn lemma_last_dot_map(f: Seq<char>)
    ensures
        crate::paths::last_dot(f.map_values(|c: char| font_char(c))) == crate::paths::last_dot(f),
    decreases f.len(),
{
    if f.len() > 0 {
        let g = f.map_values(|c: char| font_char(c));
        assert(g.drop_last() =~= f.drop_last().map_values(|c: char| font_char(c)));
        lemma_last_dot_map(f.drop_last());
    }
}

proof fn lemma_lower_letter_is_alnum(c: char)
    requires
        'a' <= crate::text::ascii_lower(c) && crate::text::ascii_lower(c) <= 'z',
    ensures
        is_ascii_alnum(c),
{
}

/// The verdict on an output file name, in terms of its final component: the
/// name is accepted, as it is, exactly when it is non-empty, every character
/// is an ASCII letter or digit, `-`, `_` or `.`, and its extension in ASCII
/// lowercase is `png`, `jpg` or `jpeg`. A name of such characters with another
/// extension is refused as unsupported; anything else is invalid.
pub proof fn lemma_output_name_verdict(raw: Seq<char>)
    ensures
        path_file_name(raw) is None ==> output_name_check(raw) == Err::<Seq<char>, CoverError>(CoverError::InvalidOutputFilename),
        path_file_name(raw) is Some ==> ({
            let name = path_file_name(raw)->0;
            let plain = name.len() > 0 && forall|i: int| 0 <= i < name.len() ==> ('a' <= #[trigger] name[i] && name[i] <= 'z')
                || ('A' <= name[i] && name[i] <= 'Z') || ('0' <= name[i] && name[i] <= '9') || name[i] == '-'
                || name[i] == '_' || name[i] == '.';
            let e = ascii_lowercase(extension_or_empty(name));
            let known = e == "png"@ || e == "jpg"@ || e == "jpeg"@;
            &&& plain && known ==> output_name_check(raw) == Ok::<Seq<char>, CoverError>(name)
            &&& plain && !known ==> output_name_check(raw) == Err::<Seq<char>, CoverError>(CoverError::UnsupportedOutputExtension)
            &&& !plain ==> output_name_check(raw) == Err::<Seq<char>, CoverError>(CoverError::InvalidOutputFilename)
        }),
{
    if path_file_name(raw) is Some {
        let name = path_file_name(raw)->0;
        let plain = name.len() > 0 && forall|i: int| 0 <= i < name.len() ==> ('a' <= #[trigger] name[i] && name[i] <= 'z')
            || ('A' <= name[i] && name[i] <= 'Z') || ('0' <= name[i] && name[i] <= '9') || name[i] == '-'
            || name[i] == '_' || name[i] == '.';
        if !plain && name.len() > 0 {
            let i = choose|i: int| 0 <= i < name.len() && !(('a' <= #[trigger] name[i] && name[i] <= 'z')
                || ('A' <= name[i] && name[i] <= 'Z') || ('0' <= name[i] && name[i] <= '9') || name[i] == '-'
                || name[i] == '_' || name[i] == '.');
            assert(!is_output_name_char(name[i]));
        }
    }
}

/// The verdict on a font file name, in terms of its final component: a name
/// without one is invalid; otherwise it is accepted exactly when its
/// extension, in ASCII lowercase, is `ttf`, `otf`, `ttc` or `otc` and it does
/// not start with `.`; another extension is refused as unsupported; and the
/// accepted name keeps every letter, digit, `.`, `-` and `_` at its place,
/// with `_` for every other character.
pub proof fn lemma_font_name_verdict(raw: Seq<char>)
    ensures
        path_file_name(raw) is None ==> font_name_check(raw) == Err::<Seq<char>, CoverError>(CoverError::InvalidFontFilename),
        path_file_name(raw) is Some ==> ({
            let file = path_file_name(raw)->0;
            let e = ascii_lowercase(extension_or_empty(file));
            let known = e == "ttf"@ || e == "otf"@ || e == "ttc"@ || e == "otc"@;
            &&& (font_name_check(raw) is Ok <==> known && file[0] != '.')
            &&& !known ==> font_name_check(raw) == Err::<Seq<char>, CoverError>(CoverError::UnsupportedFontExtension)
            &&& known && file[0] == '.' ==> font_name_check(raw) == Err::<Seq<char>, CoverError>(CoverError::InvalidFontFilename)
            &&& font_name_check(raw) is Ok ==> ({
                let n = font_name_check(raw)->Ok_0;
                &&& n.len() == file.len()
                &&& forall|i: int| 0 <= i < file.len() ==> #[trigger] n[i] == (if ('a' <= file[i] && file[i] <= 'z')
                    || ('A' <= file[i] && file[i] <= 'Z') || ('0' <= file[i] && file[i] <= '9') || file[i] == '.'
                    || file[i] == '-' || file[i] == '_' {
                    file[i]
                } else {
                    '_'
                })
            })
        }),
{
    if path_file_name(raw) is Some {
        crate::paths::lemma_file_name_is_plain(raw);
        let file = path_file_name(raw)->0;
        let safe = file.map_values(|c: char| font_char(c));
        assert(safe[0] == font_char(file[0]));
    }
}

/// An accepted font file name is accepted again, unchanged: sanitising is idempotent.
pub proof fn lemma_font_name_idempotent(raw: Seq<char>, s: Seq<char>)
    requires
        font_name_check(raw) == Ok::<Seq<char>, CoverError>(s),
    ensures
        font_name_check(s) == Ok::<Seq<char>, CoverError>(s),
{
    reveal_strlit("ttf");
    reveal_strlit("otf");
    reveal_strlit("ttc");
    reveal_strlit("otc");
    let file = path_file_name(raw)->0;
    assert(path_file_name(raw) == Some(file));
    crate::paths::lemma_file_name_is_plain(raw);
    lemma_plain_name_is_file_name(file);
    assert(s == file.map_values(|c: char| font_char(c)));
    // The sanitised name is a plain name.
    assert forall|i: int| 0 <= i < s.len() implies s[i] != '/' by {
        assert(s[i] == font_char(file[i]));
    }
    assert(s != crate::paths::dot() && s != crate::paths::dot_dot()) by {
        if s == crate::paths::dot() || s == crate::paths::dot_dot() {
            assert(s[0] == '.');
        }
    }
    lemma_plain_name_is_file_name(s);
    // Its extension is the extension of the file name.
    lemma_last_dot_map(file);
    crate::paths::lemma_last_dot(file);
    let k = crate::paths::last_dot(file);
    let e = ascii_lowercase(extension_or_empty(file));
    assert(file != crate::paths::dot_dot());
    assert(k > 0) by {
        if k <= 0 {
            assert(extension_or_empty(file) =~= Seq::<char>::empty());
            assert(e.len() == 0);
        }
    }
    let fe = file.skip(k + 1);
    assert(extension_or_empty(file) == fe);
    assert(e.len() == 3);
    assert forall|i: int| 0 <= i < fe.len() implies is_ascii_alnum(#[trigger] fe[i]) by {
        assert(e[i] == crate::text::ascii_lower(fe[i]));
        lemma_lower_letter_is_alnum(fe[i]);
    }
    assert(s.skip(k + 1) =~= fe) by {
        assert forall|i: int| 0 <= i < fe.len() implies s.skip(k + 1)[i] == fe[i] by {
            assert(s[k + 1 + i] == font_char(file[k + 1 + i]));
        }
    }
    assert(extension_or_empty(s) == fe);
    // Sanitising again changes nothing.
    assert(s.map_values(|c: char| font_char(c)) =~= s);
}

// ---------------------------------------------------------------------------
// Template listing
// ---------------------------------------------------------------------------

/// `s` is in non-decreasing order.
pub open spec fn sorted_strs(s: Seq<Seq<char>>) -> bool {
    forall|i: int, j: int| 0 <= i < j < s.len() ==> !str_lt(#[trigger] s[j], #[trigger] s[i])
}

/// The stems of the entries whose extension is exactly `json`, in entry order.
pub open spec fn json_stems(entries: Seq<Seq<char>>) -> Seq<Seq<char>>
    decreases entries.len(),
{
    if entries.len() == 0 {
        Seq::empty()
    } else {
        let rest = json_stems(entries.drop_last());
        let e = entries.last();
        if path_extension(e) == Some("json"@) && path_file_stem(e) is Some {
            rest.push(path_file_stem(e)->0)
        } else {
            rest
        }
    }
}

/// Sorts strings into non-decreasing order.
pub fn sort_strings(v: Vec<String>) -> (r: Vec<String>)
    ensures
        r@.len() == v@.len(),
        sorted_strs(r@.map_values(|s: String| s@)),
        r@.map_values(|s: String| s@).to_multiset() == v@.map_values(|s: String| s@).to_multiset(),
{
    let ghost input = v@.map_values(|s: String| s@);
    let mut out: Vec<String> = Vec::new();
    let mut i: usize = 0;
    assert(input.take(0) =~= Seq::<Seq<char>>::empty());
    assert(out@.map_values(|s: String| s@) =~= Seq::<Seq<char>>::empty());
    while i < v.len()
        invariant
            i <= v.len(),
            input == v@.map_values(|s: String| s@),
            out@.len() == i,
            sorted_strs(out@.map_values(|s: String| s@)),
            out@.map_values(|s: String| s@).to_multiset() == input.take(i as int).to_multiset(),
        decreases v.len() - i,
    {
        let x = v[i].clone();
        let xc = chars_of(x.as_str());
        let ghost cur = out@.map_values(|s: String| s@);
        let mut p: usize = 0;
        while p < out.len() && !chars_lt(&xc, &chars_of(out[p].as_str()))
            invariant
                p <= out@.len(),
                cur == out@.map_values(|s: String| s@),
                xc@ == x@,
                forall|q: int| 0 <= q < p ==> !str_lt(x@, #[trigger] cur[q]),
            decreases out@.len() - p,
        {
            p += 1;
        }
        proof {
            // Everything from p on comes after x.
            assert forall|q: int| p <= q < cur.len() implies str_lt(x@, #[trigger] cur[q]) by {
                assert(str_lt(x@, cur[p as int]));
                if q > p {
                    assert(!str_lt(cur[q], cur[p as int]));
                    if cur[q] != cur[p as int] {
                        lemma_str_lt_total(cur[q], cur[p as int]);
                        lemma_str_lt_transitive(x@, cur[p as int], cur[q]);
                    }
                }
            }
        }
        out.insert(p, x);
        proof {
            let nxt = out@.map_values(|s: String| s@);
            assert(nxt =~= cur.insert(p as int, x@));
            assert forall|a: int, b: int| 0 <= a < b < nxt.len() implies !str_lt(#[trigger] nxt[b], #[trigger] nxt[a]) by {
                if a < p && b == p {
                } else if a == p && b > p {
                    assert(nxt[b] == cur[b - 1]);
                    lemma_str_lt_asymmetric(x@, cur[b - 1]);
                } else if a < p && b > p {
                    assert(nxt[b] == cur[b - 1]);
                    assert(nxt[a] == cur[a]);
                    if str_lt(cur[b - 1], cur[a]) {
                        lemma_str_lt_transitive(x@, cur[b - 1], cur[a]);
                        lemma_str_lt_asymmetric(x@, cur[a]);
                    }
                } else if b < p {
                } else {
                    assert(nxt[a] == cur[a - 1]);
                    assert(nxt[b] == cur[b - 1]);
                }
            }
            assert(input.take(i + 1) =~= input.take(i as int).push(x@));
            assert(input.take(i as int).push(x@) =~= input.take(i as int).insert(i as int, x@));
            vstd::seq_lib::to_multiset_insert(cur, p as int, x@);
            vstd::seq_lib::to_multiset_insert(input.take(i as int), i as int, x@);
        }
        i += 1;
    }
    assert(input.take(v.len() as int) =~= input);
    out
}

/// The ids of the templates among the entries of the template directory: the
/// stems of the `.json` files, sorted.
pub fn template_ids(entries: &Vec<String>) -> (r: Vec<String>)
    ensures
        sorted_strs(r@.map_values(|s: String| s@)),
        r@.map_values(|s: String| s@).to_multiset() == json_stems(entries@.map_values(|s: String| s@)).to_multiset(),
{
    let ghost es = entries@.map_values(|s: String| s@);
    let mut out: Vec<String> = Vec::new();
    let mut i: usize = 0;
    while i < entries.len()
        invariant
            i <= entries.len(),
            es == entries@.map_values(|s: String| s@),
            out@.map_values(|s: String| s@) == json_stems(es.take(i as int)),
        decreases entries.len() - i,
    {
        let e = &entries[i];
        assert(es.take(i + 1).drop_last() =~= es.take(i as int));
        assert(es[i as int] == e@);
        let ghost prev = out@.map_values(|s: String| s@);
        let is_json = match extension(e.as_str()) {
            Some(x) => chars_equal(&chars_of(x.as_str()), &chars_of("json")),
            None => false,
        };
        if is_json {
            match file_stem(e.as_str()) {
                Some(stem) => {
                    out.push(stem);
                    assert(out@.map_values(|s: String| s@) =~= prev.push(path_file_stem(e@)->0));
                },
                None => {},
            }
        }
        i += 1;
    }
    assert(es.take(entries.len() as int) =~= es);
    sort_strings(out)
}

} // verus!
