//! Naming rules: template ids, sanitised output names, and the legacy
//! "SHOW - FORMAT" template names of older automations.
use vstd::prelude::*;
use crate::error::CoverError;
use crate::text::{
    ascii_alnum, ascii_lowercase, chars_end_with, chars_of, ends_with, is_ascii_alnum,
    is_ascii_chars, no_ascii_capital, push_char, string_of_range,
};

verus! {

/// Characters allowed in template ids and kept by [`safe_name`].
pub open spec fn is_id_char(c: char) -> bool {
    is_ascii_alnum(c) || c == '-' || c == '_'
}

/// The character that [`safe_name`] writes for `c`.
pub open spec fn safe_char(c: char) -> char {
    if is_id_char(c) {
        c
    } else {
        '_'
    }
}

/// `s` with every character outside `[A-Za-z0-9_-]` replaced by `_`.
pub open spec fn spec_safe_name(s: Seq<char>) -> Seq<char> {
    s.map_values(|c: char| safe_char(c))
}

/// Every character of `s` is allowed in a template id.
pub open spec fn all_id_chars(s: Seq<char>) -> bool {
    forall|i: int| 0 <= i < s.len() ==> is_id_char(#[trigger] s[i])
}

/// A template id that may be saved: non-empty, only `[A-Za-z0-9_-]`.
pub open spec fn spec_valid_template_id(s: Seq<char>) -> bool {
    s.len() > 0 && all_id_chars(s)
}

fn id_char(c: char) -> (r: bool)
    ensures
        r == is_id_char(c),
{
    ascii_alnum(c) || c == '-' || c == '_'
}

/// Sanitises a name for use in a file name: every character outside
/// `[A-Za-z0-9_-]` becomes `_`, so the result has as many characters as `v`.
pub fn safe_name(v: &str) -> (r: String)
    ensures
        r@ == spec_safe_name(v@),
{
    let cs = chars_of(v);
    let mut out = String::new();
    let mut i: usize = 0;
    while i < cs.len()
        invariant
            i <= cs.len(),
            cs@ == v@,
            out@ == spec_safe_name(v@.take(i as int)),
        decreases cs.len() - i,
    {
        let c = cs[i];
        if id_char(c) {
            push_char(&mut out, c);
        } else {
            push_char(&mut out, '_');
        }
        assert(spec_safe_name(v@.take(i + 1)) =~= spec_safe_name(v@.take(i as int)).push(safe_char(c)));
        i += 1;
    }
    assert(v@.take(cs.len() as int) =~= v@);
    out
}

/// Whether every character of `cs` is allowed in a template id.
pub fn id_chars_only(cs: &Vec<char>) -> (r: bool)
    ensures
        r == all_id_chars(cs@),
{
    let mut i: usize = 0;
    while i < cs.len()
        invariant
            i <= cs.len(),
            forall|j: int| 0 <= j < i ==> is_id_char(#[trigger] cs@[j]),
        decreases cs.len() - i,
    {
        if !id_char(cs[i]) {
            return false;
        }
        i += 1;
    }
    true
}

/// Whether `id` may name a saved template: non-empty and only `[A-Za-z0-9_-]`.
pub fn valid_template_id(id: &str) -> (r: bool)
    ensures
        r == spec_valid_template_id(id@),
{
    let cs = chars_of(id);
    cs.len() > 0 && id_chars_only(&cs)
}

/// `safe_name` keeps the number of characters.
pub proof fn lemma_safe_name_len(s: Seq<char>)
    ensures
        spec_safe_name(s).len() == s.len(),
{
}

/// Every character of a sanitised name is allowed in a template id.
pub proof fn lemma_safe_name_is_safe(s: Seq<char>)
    ensures
        all_id_chars(spec_safe_name(s)),
{
}

/// Sanitising twice gives what sanitising once gives.
pub proof fn lemma_safe_name_idempotent(s: Seq<char>)
    ensures
        spec_safe_name(spec_safe_name(s)) == spec_safe_name(s),
{
    assert(spec_safe_name(spec_safe_name(s)) =~= spec_safe_name(s));
}

/// A name made only of allowed characters (every valid template id among
/// them) is left unchanged by `safe_name`.
pub proof fn lemma_safe_name_keeps_valid_ids(s: Seq<char>)
    requires
        all_id_chars(s),
    ensures
        spec_safe_name(s) == s,
{
    assert(spec_safe_name(s) =~= s);
}

// ---------------------------------------------------------------------------
// Slugs and legacy template names
// ---------------------------------------------------------------------------

/// The Unicode lowercase mapping of a string (`str::to_lowercase`).
pub uninterp spec fn unicode_lowercase(s: Seq<char>) -> Seq<char>;

/// Calls `str::to_lowercase`. The contract claims that the result is the
/// Unicode lowercase mapping of the argument, a function of the argument
/// alone; that on ASCII text it lowers exactly the capitals `A`-`Z` (as
/// `str::to_ascii_lowercase` does); and that no capital `A`-`Z` is left in
/// the result (each of them has a lowercase mapping, and no character maps
/// to one). What the mapping does to other characters is not stated.
#[verifier::external_body]
pub(crate) fn lowercase(s: &str) -> (r: String)
    ensures
        r@ == unicode_lowercase(s@),
        is_ascii_chars(s@) ==> r@ == ascii_lowercase(s@),
        no_ascii_capital(r@),
{
    s.to_lowercase()
}

/// One left-to-right pass of the slug rule over `s`: ASCII letters and digits
/// are kept, and each run of other characters after the first kept one
/// becomes a single `-`. The flag tells whether the output ends in such a dash.
pub open spec fn slug_scan(s: Seq<char>) -> (Seq<char>, bool)
    decreases s.len(),
{
    if s.len() == 0 {
        (Seq::empty(), false)
    } else {
        let (out, dash) = slug_scan(s.drop_last());
        let ch = s.last();
        if is_ascii_alnum(ch) {
            (out.push(ch), false)
        } else if !dash && out.len() > 0 {
            (out.push('-'), true)
        } else {
            (out, dash)
        }
    }
}

/// `s` without its leading dashes.
pub open spec fn trim_leading_dashes(s: Seq<char>) -> Seq<char>
    decreases s.len(),
{
    if s.len() > 0 && s[0] == '-' {
        trim_leading_dashes(s.drop_first())
    } else {
        s
    }
}

/// `s` without its trailing dashes.
pub open spec fn trim_trailing_dashes(s: Seq<char>) -> Seq<char>
    decreases s.len(),
{
    if s.len() > 0 && s.last() == '-' {
        trim_trailing_dashes(s.drop_last())
    } else {
        s
    }
}

/// The slug of an already lowercased name: ASCII alphanumeric runs joined by
/// single dashes, with no dash at either end.
pub open spec fn spec_slug(lowered: Seq<char>) -> Seq<char> {
    trim_leading_dashes(trim_trailing_dashes(slug_scan(lowered).0))
}

/// `s` is a well-formed slug: only ASCII letters, digits and `-`, no dash at
/// either end and never two dashes in a row.
pub open spec fn is_slug(s: Seq<char>) -> bool {
    &&& forall|i: int| 0 <= i < s.len() ==> is_ascii_alnum(#[trigger] s[i]) || s[i] == '-'
    &&& s.len() > 0 ==> s[0] != '-' && s.last() != '-'
    &&& forall|i: int| 0 <= i < s.len() - 1 ==> !(#[trigger] s[i] == '-' && s[i + 1] == '-')
}

proof fn lemma_slug_scan_shape(s: Seq<char>)
    ensures
        ({
            let (out, dash) = slug_scan(s);
            &&& forall|i: int| 0 <= i < out.len() ==> is_ascii_alnum(#[trigger] out[i]) || out[i] == '-'
            &&& out.len() > 0 ==> out[0] != '-'
            &&& forall|i: int| 0 <= i < out.len() - 1 ==> !(#[trigger] out[i] == '-' && out[i + 1] == '-')
            &&& dash == (out.len() > 0 && out.last() == '-')
        }),
    decreases s.len(),
{
    if s.len() > 0 {
        lemma_slug_scan_shape(s.drop_last());
    }
}

/// Every slug is well formed.
pub proof fn lemma_slug_is_well_formed(lowered: Seq<char>)
    ensures
        is_slug(spec_slug(lowered)),
{
    let out = slug_scan(lowered).0;
    lemma_slug_scan_shape(lowered);
    let t = trim_trailing_dashes(out);
    // At most one trailing dash exists, and removing it keeps the shape.
    if out.len() > 0 && out.last() == '-' {
        let d = out.drop_last();
        if d.len() > 0 {
            assert(d.last() == out[out.len() - 2]);
            assert(d.last() != '-');
        }
        assert(trim_trailing_dashes(d) == d);
        assert(t == d);
    } else {
        assert(t == out);
    }
    assert(t.len() > 0 ==> t[0] != '-');
    assert(trim_leading_dashes(t) == t);
}

/// A well-formed slug is its own scan: every prefix scans to itself, with the
/// flag telling whether it ends in a dash.
proof fn lemma_scan_of_slug_prefix(s: Seq<char>)
    requires
        forall|i: int| 0 <= i < s.len() ==> is_ascii_alnum(#[trigger] s[i]) || s[i] == '-',
        s.len() > 0 ==> s[0] != '-',
        forall|i: int| 0 <= i < s.len() - 1 ==> !(#[trigger] s[i] == '-' && s[i + 1] == '-'),
    ensures
        slug_scan(s) == (s, s.len() > 0 && s.last() == '-'),
    decreases s.len(),
{
    if s.len() > 0 {
        let d = s.drop_last();
        assert forall|i: int| 0 <= i < d.len() - 1 implies !(#[trigger] d[i] == '-' && d[i + 1] == '-') by {
            assert(d[i] == s[i] && d[i + 1] == s[i + 1]);
        }
        lemma_scan_of_slug_prefix(d);
        if s.len() >= 2 {
            assert(d.last() == s[s.len() - 2]);
        }
        assert(d.push(s.last()) =~= s);
    }
}

/// A slug without capitals is its own slug.
pub proof fn lemma_lower_slug_is_fixed(t: Seq<char>)
    requires
        is_slug(t),
        no_ascii_capital(t),
    ensures
        ascii_lowercase(t) == t,
        spec_slug(t) == t,
{
    assert(ascii_lowercase(t) =~= t);
    lemma_scan_of_slug_prefix(t);
    assert(trim_trailing_dashes(t) == t);
    assert(trim_leading_dashes(t) == t);
}

/// Scanning text without capitals gives a result without capitals.
proof fn lemma_slug_scan_keeps_no_capital(s: Seq<char>)
    requires
        no_ascii_capital(s),
    ensures
        no_ascii_capital(slug_scan(s).0),
    decreases s.len(),
{
    if s.len() > 0 {
        let d = s.drop_last();
        assert(no_ascii_capital(d)) by {
            assert forall|i: int| 0 <= i < d.len() implies !('A' <= #[trigger] d[i] && d[i] <= 'Z') by {
                assert(d[i] == s[i]);
            }
        }
        lemma_slug_scan_keeps_no_capital(d);
        let out = slug_scan(d).0;
        let ch = s.last();
        assert(!('A' <= s[s.len() - 1] && s[s.len() - 1] <= 'Z'));
        if is_ascii_alnum(ch) {
            let o = out.push(ch);
            assert forall|i: int| 0 <= i < o.len() implies !('A' <= #[trigger] o[i] && o[i] <= 'Z') by {
                if i < out.len() {
                    assert(o[i] == out[i]);
                }
            }
        } else {
            let o = out.push('-');
            assert forall|i: int| 0 <= i < o.len() implies !('A' <= #[trigger] o[i] && o[i] <= 'Z') by {
                if i < out.len() {
                    assert(o[i] == out[i]);
                }
            }
        }
    }
}

/// Slugging text without capitals gives a slug without capitals.
pub proof fn lemma_slug_keeps_no_capital(lowered: Seq<char>)
    requires
        no_ascii_capital(lowered),
    ensures
        no_ascii_capital(spec_slug(lowered)),
{
    let out = slug_scan(lowered).0;
    let s = spec_slug(lowered);
    lemma_slug_scan_keeps_no_capital(lowered);
    lemma_slug_scan_shape(lowered);
    // The slug is the scan, less at most one trailing dash.
    let t = trim_trailing_dashes(out);
    if out.len() > 0 && out.last() == '-' {
        let d = out.drop_last();
        if d.len() > 0 {
            assert(d.last() == out[out.len() - 2]);
        }
        assert(trim_trailing_dashes(d) == d);
        assert(t == d);
    } else {
        assert(t == out);
    }
    assert(t.len() > 0 ==> t[0] != '-');
    assert(trim_leading_dashes(t) == t);
    assert(s == t);
    assert forall|i: int| 0 <= i < s.len() implies !('A' <= #[trigger] s[i] && s[i] <= 'Z') by {
        assert(s[i] == out[i]);
    }
}

/// The slug of a slug is the slug itself: a well-formed slug without capitals
/// (which is what [`template_slug`] returns, whatever its input) is ASCII, and
/// slugging it again gives it back.
pub proof fn lemma_slug_of_slug(t: Seq<char>)
    requires
        is_slug(t),
        no_ascii_capital(t),
    ensures
        is_ascii_chars(t),
        spec_slug(ascii_lowercase(t)) == t,
{
    assert forall|i: int| 0 <= i < t.len() implies (#[trigger] t[i] as u32) < 128 by {
        assert(is_ascii_alnum(t[i]) || t[i] == '-');
    }
    lemma_lower_slug_is_fixed(t);
}

/// Builds the slug of an already lowercased name (see [`spec_slug`]).
pub fn slug_from_lowercase(lowered: &str) -> (r: String)
    ensures
        r@ == spec_slug(lowered@),
{
    let cs = chars_of(lowered);
    let mut out: Vec<char> = Vec::new();
    let mut dash = false;
    let mut i: usize = 0;
    while i < cs.len()
        invariant
            i <= cs.len(),
            cs@ == lowered@,
            (out@, dash) == slug_scan(lowered@.take(i as int)),
        decreases cs.len() - i,
    {
        let ch = cs[i];
        assert(lowered@.take(i + 1).drop_last() =~= lowered@.take(i as int));
        if ascii_alnum(ch) {
            out.push(ch);
            dash = false;
        } else if !dash && out.len() > 0 {
            out.push('-');
            dash = true;
        }
        i += 1;
    }
    assert(lowered@.take(cs.len() as int) =~= lowered@);
    // Trim trailing, then leading dashes.
    let mut hi: usize = out.len();
    assert(out@.take(hi as int) =~= out@);
    while hi > 0 && out[hi - 1] == '-'
        invariant
            hi <= out.len(),
            trim_trailing_dashes(out@) == trim_trailing_dashes(out@.take(hi as int)),
        decreases hi,
    {
        assert(out@.take(hi as int).drop_last() =~= out@.take(hi - 1));
        hi -= 1;
    }
    let ghost t = out@.take(hi as int);
    assert(trim_trailing_dashes(t) == t);
    let mut lo: usize = 0;
    while lo < hi && out[lo] == '-'
        invariant
            lo <= hi <= out.len(),
            t == out@.take(hi as int),
            trim_leading_dashes(t) == trim_leading_dashes(out@.subrange(lo as int, hi as int)),
        decreases hi - lo,
    {
        assert(out@.subrange(lo as int, hi as int).drop_first() =~= out@.subrange(lo + 1, hi as int));
        lo += 1;
    }
    assert(t =~= out@.subrange(0, hi as int));
    string_of_range(&out, lo, hi)
}

/// The slug of a template name: lowercased, then reduced to ASCII
/// alphanumeric runs joined by single dashes.
pub fn template_slug(value: &str) -> (r: String)
    ensures
        r@ == spec_slug(unicode_lowercase(value@)),
        is_ascii_chars(value@) ==> r@ == spec_slug(ascii_lowercase(value@)),
        is_slug(r@),
        no_ascii_capital(r@),
{
    let lowered = lowercase(value);
    proof {
        lemma_slug_is_well_formed(lowered@);
        lemma_slug_keeps_no_capital(lowered@);
    }
    slug_from_lowercase(lowered.as_str())
}

/// The known legacy suffixes of a slug and the format each one selects,
/// tried in this order.
pub open spec fn legacy_suffixes() -> Seq<(Seq<char>, Seq<char>)> {
    seq![
        ("-tiktok"@, "vertical"@),
        ("-portrait"@, "feed"@),
        ("-square"@, "square"@),
        ("-acast"@, "acast"@),
        ("-ig"@, "feed"@),
        ("-yt"@, "youtube"@),
    ]
}

/// The (show, format) pair that the first matching suffix from index `i` on
/// gives, where a suffix matches when the slug ends with it and something
/// is left before it.
pub open spec fn legacy_parts_from(slug: Seq<char>, i: int) -> Option<(Seq<char>, Seq<char>)>
    decreases 6 - i,
{
    if i < 0 || i >= 6 {
        None
    } else {
        let (suffix, format) = legacy_suffixes()[i];
        if ends_with(slug, suffix) && slug.len() > suffix.len() {
            Some((slug.take(slug.len() - suffix.len()), format))
        } else {
            legacy_parts_from(slug, i + 1)
        }
    }
}

/// The (show, format) pair a slug stands for, if any suffix matches.
pub open spec fn spec_legacy_parts(slug: Seq<char>) -> Option<(Seq<char>, Seq<char>)> {
    legacy_parts_from(slug, 0)
}

fn legacy_suffix(i: usize) -> (r: (&'static str, &'static str))
    requires
        i < 6,
    ensures
        (r.0@, r.1@) == legacy_suffixes()[i as int],
{
    if i == 0 {
        ("-tiktok", "vertical")
    } else if i == 1 {
        ("-portrait", "feed")
    } else if i == 2 {
        ("-square", "square")
    } else if i == 3 {
        ("-acast", "acast")
    } else if i == 4 {
        ("-ig", "feed")
    } else {
        ("-yt", "youtube")
    }
}

/// Splits a slug into show and format by its legacy suffix.
pub fn legacy_parts_of_slug(slug: &str) -> (r: Option<(String, String)>)
    ensures
        match r {
            Some((show, format)) => spec_legacy_parts(slug@) == Some((show@, format@)),
            None => spec_legacy_parts(slug@) is None,
        },
{
    let cs = chars_of(slug);
    let mut i: usize = 0;
    while i < 6
        invariant
            i <= 6,
            cs@ == slug@,
            spec_legacy_parts(slug@) == legacy_parts_from(slug@, i as int),
        decreases 6 - i,
    {
        let (suffix, format) = legacy_suffix(i);
        let suf = chars_of(suffix);
        if chars_end_with(&cs, &suf) && cs.len() > suf.len() {
            let show = string_of_range(&cs, 0, cs.len() - suf.len());
            assert(cs@.subrange(0, cs.len() - suf.len()) =~= slug@.take(slug@.len() - suf@.len()));
            return Some((show, format.to_owned()));
        }
        i += 1;
    }
    None
}

proof fn lemma_legacy_parts_shape(slug: Seq<char>, i: int)
    requires
        is_slug(slug),
        legacy_parts_from(slug, i) is Some,
    ensures
        ({
            let (show, format) = legacy_parts_from(slug, i)->0;
            &&& spec_valid_template_id(show)
            &&& is_slug(show)
            &&& exists|j: int| 0 <= j < 6 && format == #[trigger] legacy_suffixes()[j].1
        }),
    decreases 6 - i,
{
    reveal_strlit("-tiktok");
    reveal_strlit("-portrait");
    reveal_strlit("-square");
    reveal_strlit("-acast");
    reveal_strlit("-ig");
    reveal_strlit("-yt");
    let (suffix, format) = legacy_suffixes()[i];
    if ends_with(slug, suffix) && slug.len() > suffix.len() {
        let n = slug.len() - suffix.len();
        let show = slug.take(n);
        assert(suffix[0] == '-');
        assert(slug[n] == slug.subrange(n, slug.len() as int)[0]);
        assert(slug[n] == '-');
        assert(show.last() == slug[n - 1]);
        assert(slug[n - 1] != '-');
        assert forall|k: int| 0 <= k < show.len() implies is_id_char(#[trigger] show[k]) by {
            assert(show[k] == slug[k]);
        }
        assert forall|k: int| 0 <= k < show.len() - 1 implies !(#[trigger] show[k] == '-' && show[k + 1] == '-') by {
            assert(show[k] == slug[k] && show[k + 1] == slug[k + 1]);
        }
        assert(format == legacy_suffixes()[i].1);
    } else {
        lemma_legacy_parts_shape(slug, i + 1);
    }
}

/// A legacy template name always names a show whose id is a valid template id
/// (a well-formed slug) and one of the five known formats.
pub proof fn lemma_legacy_show_is_template_id(value: Seq<char>)
    requires
        spec_legacy_parts(spec_slug(unicode_lowercase(value))) is Some,
    ensures
        ({
            let (show, format) = spec_legacy_parts(spec_slug(unicode_lowercase(value)))->0;
            &&& spec_valid_template_id(show)
            &&& is_slug(show)
            &&& exists|j: int| 0 <= j < 6 && format == #[trigger] legacy_suffixes()[j].1
        }),
{
    lemma_slug_is_well_formed(unicode_lowercase(value));
    lemma_legacy_parts_shape(spec_slug(unicode_lowercase(value)), 0);
}

/// Resolves a legacy template name such as `DPAFM - YT` to its show and
/// format (`dpafm`, `youtube`).
pub fn legacy_template_parts(value: &str) -> (r: Result<(String, String), CoverError>)
    ensures
        is_ascii_chars(value@) ==> match r {
            Ok((show, format)) => spec_legacy_parts(spec_slug(ascii_lowercase(value@))) == Some((show@, format@)),
            Err(_) => spec_legacy_parts(spec_slug(ascii_lowercase(value@))) is None,
        },
        match r {
            Ok((show, format)) => spec_legacy_parts(spec_slug(unicode_lowercase(value@)))
                == Some((show@, format@)),
            Err(e) => spec_legacy_parts(spec_slug(unicode_lowercase(value@))) is None
                && (e matches CoverError::UnknownLegacyTemplate(name) && name@ == value@),
        },
{
    let slug = template_slug(value);
    match legacy_parts_of_slug(slug.as_str()) {
        Some(parts) => Ok(parts),
        None => Err(CoverError::UnknownLegacyTemplate(value.to_owned())),
    }
}

proof fn lemma_ends_with_chars(s: Seq<char>, suffix: Seq<char>)
    requires
        ends_with(s, suffix),
    ensures
        forall|k: int| 0 <= k < suffix.len() ==> s[s.len() - suffix.len() + k] == #[trigger] suffix[k],
{
    assert forall|k: int| 0 <= k < suffix.len() implies s[s.len() - suffix.len() + k] == #[trigger] suffix[k] by {
        assert(s.subrange(s.len() - suffix.len(), s.len() as int)[k] == s[s.len() - suffix.len() + k]);
    }
}

/// Each legacy suffix selects its own format: a slug that ends in `-tiktok`,
/// `-portrait`, `-square`, `-acast`, `-ig` or `-yt` with something before it
/// names the show before the suffix and the format `vertical`, `feed`,
/// `square`, `acast`, `feed` or `youtube`; a slug with none of them names
/// nothing.
pub proof fn lemma_legacy_suffix_formats(slug: Seq<char>)
    ensures
        ends_with(slug, "-tiktok"@) && slug.len() > 7 ==> spec_legacy_parts(slug) == Some((slug.take(slug.len() - 7), "vertical"@)),
        ends_with(slug, "-portrait"@) && slug.len() > 9 ==> spec_legacy_parts(slug) == Some((slug.take(slug.len() - 9), "feed"@)),
        ends_with(slug, "-square"@) && slug.len() > 7 ==> spec_legacy_parts(slug) == Some((slug.take(slug.len() - 7), "square"@)),
        ends_with(slug, "-acast"@) && slug.len() > 6 ==> spec_legacy_parts(slug) == Some((slug.take(slug.len() - 6), "acast"@)),
        ends_with(slug, "-ig"@) && slug.len() > 3 ==> spec_legacy_parts(slug) == Some((slug.take(slug.len() - 3), "feed"@)),
        ends_with(slug, "-yt"@) && slug.len() > 3 ==> spec_legacy_parts(slug) == Some((slug.take(slug.len() - 3), "youtube"@)),
        !(ends_with(slug, "-tiktok"@) && slug.len() > 7) && !(ends_with(slug, "-portrait"@) && slug.len() > 9)
            && !(ends_with(slug, "-square"@) && slug.len() > 7) && !(ends_with(slug, "-acast"@) && slug.len() > 6)
            && !(ends_with(slug, "-ig"@) && slug.len() > 3) && !(ends_with(slug, "-yt"@) && slug.len() > 3)
            ==> spec_legacy_parts(slug) is None,
{
    reveal_strlit("-tiktok");
    reveal_strlit("-portrait");
    reveal_strlit("-square");
    reveal_strlit("-acast");
    reveal_strlit("-ig");
    reveal_strlit("-yt");
    reveal_strlit("vertical");
    reveal_strlit("feed");
    reveal_strlit("square");
    reveal_strlit("acast");
    reveal_strlit("youtube");
    reveal_with_fuel(legacy_parts_from, 7);
    let n = slug.len();
    // The last two characters tell the suffixes apart.
    if ends_with(slug, "-tiktok"@) {
        lemma_ends_with_chars(slug, "-tiktok"@);
        assert(slug[n - 1] == "-tiktok"@[6]);
    }
    if ends_with(slug, "-portrait"@) {
        lemma_ends_with_chars(slug, "-portrait"@);
        assert(slug[n - 1] == "-portrait"@[8]);
        assert(slug[n - 2] == "-portrait"@[7]);
    }
    if ends_with(slug, "-square"@) {
        lemma_ends_with_chars(slug, "-square"@);
        assert(slug[n - 1] == "-square"@[6]);
    }
    if ends_with(slug, "-acast"@) {
        lemma_ends_with_chars(slug, "-acast"@);
        assert(slug[n - 1] == "-acast"@[5]);
        assert(slug[n - 2] == "-acast"@[4]);
    }
    if ends_with(slug, "-ig"@) {
        lemma_ends_with_chars(slug, "-ig"@);
        assert(slug[n - 1] == "-ig"@[2]);
    }
    if ends_with(slug, "-yt"@) {
        lemma_ends_with_chars(slug, "-yt"@);
        assert(slug[n - 1] == "-yt"@[2]);
        assert(slug[n - 2] == "-yt"@[1]);
    }
}

/// A sanitised name keeps every letter, digit, `-` and `_` of the name at its
/// place and puts `_` for every other character.
pub proof fn lemma_safe_name_chars(s: Seq<char>)
    ensures
        spec_safe_name(s).len() == s.len(),
        forall|i: int| 0 <= i < s.len() ==> #[trigger] spec_safe_name(s)[i] == (if ('a' <= s[i] && s[i] <= 'z')
            || ('A' <= s[i] && s[i] <= 'Z') || ('0' <= s[i] && s[i] <= '9') || s[i] == '-' || s[i] == '_' {
            s[i]
        } else {
            '_'
        }),
{
}

} // verus!
