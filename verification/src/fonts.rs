//! The font catalogue: fonts reported by fontconfig and fonts dropped into
//! the custom folder, each listed once, sorted by family and style; and the
//! rules for font uploads.
use vstd::prelude::*;
use crate::error::CoverError;
use crate::order::{chars_lt, lemma_str_lt_asymmetric, lemma_str_lt_irreflexive, lemma_str_lt_total, lemma_str_lt_transitive, str_lt};
use crate::paths::{
    components, dot, drop_components, is_filler, path_file_name, path_starts_with, rest_pieces,
    split_at_char, trim_back_fillers, trim_front_fillers,
};
use crate::strmap::{has_key, StrMap};
use crate::text::{chars_equal, chars_of, is_white_space, string_of, string_of_range, white_space};

verus! {

/// `s` without leading white space.
pub open spec fn trim_start_ws(s: Seq<char>) -> Seq<char>
    decreases s.len(),
{
    if s.len() > 0 && is_white_space(s[0]) {
        trim_start_ws(s.drop_first())
    } else {
        s
    }
}

/// `s` without trailing white space.
pub open spec fn trim_end_ws(s: Seq<char>) -> Seq<char>
    decreases s.len(),
{
    if s.len() > 0 && is_white_space(s.last()) {
        trim_end_ws(s.drop_last())
    } else {
        s
    }
}

/// `s` without leading and trailing white space (`str::trim`).
pub open spec fn trim_ws(s: Seq<char>) -> Seq<char> {
    trim_end_ws(trim_start_ws(s))
}

/// Removes leading and trailing white space.
pub fn trim(s: &Vec<char>) -> (r: Vec<char>)
    ensures
        r@ == trim_ws(s@),
{
    let mut lo: usize = 0;
    assert(s@.subrange(0, s@.len() as int) =~= s@);
    while lo < s.len() && white_space(s[lo])
        invariant
            lo <= s.len(),
            trim_start_ws(s@) == trim_start_ws(s@.subrange(lo as int, s@.len() as int)),
        decreases s.len() - lo,
    {
        assert(s@.subrange(lo as int, s@.len() as int).drop_first() =~= s@.subrange(lo + 1, s@.len() as int));
        lo += 1;
    }
    let ghost t = s@.subrange(lo as int, s@.len() as int);
    assert(trim_start_ws(t) == t);
    let mut hi: usize = s.len();
    assert(t =~= s@.subrange(lo as int, hi as int));
    while hi > lo && white_space(s[hi - 1])
        invariant
            lo <= hi <= s.len(),
            trim_end_ws(t) == trim_end_ws(s@.subrange(lo as int, hi as int)),
        decreases hi - lo,
    {
        assert(s@.subrange(lo as int, hi as int).drop_last() =~= s@.subrange(lo as int, hi - 1));
        hi -= 1;
    }
    let mut out: Vec<char> = Vec::new();
    let mut i = lo;
    while i < hi
        invariant
            lo <= i <= hi <= s.len(),
            out@ == s@.subrange(lo as int, i as int),
        decreases hi - i,
    {
        out.push(s[i]);
        assert(s@.subrange(lo as int, i + 1) == s@.subrange(lo as int, i as int).push(s@[i as int]));
        i += 1;
    }
    out
}

/// Number of characters of `s` before its first tab (all of them if none).
pub open spec fn tab_index(s: Seq<char>) -> nat
    decreases s.len(),
{
    if s.len() == 0 || s[0] == '\t' {
        0
    } else {
        1 + tab_index(s.drop_first())
    }
}

/// The text of `s` before its first tab.
pub open spec fn before_tab(s: Seq<char>) -> Seq<char> {
    s.take(tab_index(s) as int)
}

/// The text of `s` after its first tab, empty when it has none.
pub open spec fn after_tab(s: Seq<char>) -> Seq<char> {
    if tab_index(s) < s.len() {
        s.skip(tab_index(s) + 1 as int)
    } else {
        Seq::empty()
    }
}

proof fn lemma_tab_index(s: Seq<char>)
    ensures
        tab_index(s) <= s.len(),
        tab_index(s) < s.len() ==> s[tab_index(s) as int] == '\t',
        forall|i: int| 0 <= i < tab_index(s) ==> s[i] != '\t',
    decreases s.len(),
{
    if s.len() > 0 && s[0] != '\t' {
        lemma_tab_index(s.drop_first());
        assert forall|i: int| 0 <= i < tab_index(s) implies s[i] != '\t' by {
            if i > 0 {
                assert(s[i] == s.drop_first()[i - 1]);
            }
        }
    }
}

/// Splits `s` at its first tab: the text before it and the text after it
/// (empty when there is no tab).
fn split_tab(s: &Vec<char>) -> (r: (Vec<char>, Vec<char>))
    ensures
        r.0@ == before_tab(s@),
        r.1@ == after_tab(s@),
{
    proof {
        lemma_tab_index(s@);
    }
    let mut e: usize = 0;
    while e < s.len() && s[e] != '\t'
        invariant
            e <= s.len(),
            forall|i: int| 0 <= i < e ==> s@[i] != '\t',
        decreases s.len() - e,
    {
        e += 1;
    }
    proof {
        let n = tab_index(s@);
        if n < e {
            assert(s@[n as int] == '\t');
        }
        if e < s.len() && n > e {
            assert(s@[e as int] != '\t');
        }
    }
    let mut head: Vec<char> = Vec::new();
    let mut i: usize = 0;
    while i < e
        invariant
            i <= e <= s.len(),
            head@ == s@.take(i as int),
        decreases e - i,
    {
        head.push(s[i]);
        assert(s@.take(i + 1) == s@.take(i as int).push(s@[i as int]));
        i += 1;
    }
    let mut tail: Vec<char> = Vec::new();
    if e < s.len() {
        let mut j = e + 1;
        while j < s.len()
            invariant
                e + 1 <= j <= s.len(),
                tail@ == s@.subrange(e + 1, j as int),
            decreases s.len() - j,
        {
            tail.push(s[j]);
            assert(s@.subrange(e + 1, j + 1) == s@.subrange(e + 1, j as int).push(s@[j as int]));
            j += 1;
        }
        assert(tail@ =~= s@.skip(e + 1));
    }
    (head, tail)
}

/// The fields of one line of the font listing, trimmed: family, style and
/// file (`splitn(3, '\t')`, a missing field being empty).
pub open spec fn listing_fields(line: Seq<char>) -> (Seq<char>, Seq<char>, Seq<char>) {
    let r1 = after_tab(line);
    (trim_ws(before_tab(line)), trim_ws(before_tab(r1)), trim_ws(after_tab(r1)))
}

/// `s` holds no tab.
pub open spec fn tab_free(s: Seq<char>) -> bool {
    forall|i: int| 0 <= i < s.len() ==> s[i] != '\t'
}

proof fn lemma_trim_keeps_tab_free(s: Seq<char>)
    requires
        tab_free(s),
    ensures
        tab_free(trim_start_ws(s)),
        tab_free(trim_end_ws(s)),
    decreases s.len(),
{
    if s.len() > 0 {
        let a = s.drop_first();
        let b = s.drop_last();
        assert(tab_free(a)) by {
            assert forall|i: int| 0 <= i < a.len() implies a[i] != '\t' by {
                assert(a[i] == s[i + 1]);
            }
        }
        assert(tab_free(b)) by {
            assert forall|i: int| 0 <= i < b.len() implies b[i] != '\t' by {
                assert(b[i] == s[i]);
            }
        }
        lemma_trim_keeps_tab_free(a);
        lemma_trim_keeps_tab_free(b);
    }
}

proof fn lemma_field_is_tab_free(s: Seq<char>)
    ensures
        tab_free(trim_ws(before_tab(s))),
{
    lemma_tab_index(s);
    let b = before_tab(s);
    assert forall|i: int| 0 <= i < b.len() implies b[i] != '\t' by {
        assert(b[i] == s[i]);
    }
    lemma_trim_keeps_tab_free(b);
    lemma_trim_keeps_tab_free(trim_start_ws(b));
}

/// One font of the fontconfig listing.
pub struct ListedFont {
    pub family: String,
    pub style: String,
    pub file: String,
}

/// Reads one line of `fc-list --format=%{family[0]}\t%{style[0]}\t%{file}`:
/// the trimmed family, style and file, or nothing when the family or the file
/// is empty.
pub fn parse_listing_line(line: &str) -> (r: Option<ListedFont>)
    ensures
        ({
            let (f, s, p) = listing_fields(line@);
            match r {
                Some(l) => f.len() > 0 && p.len() > 0 && l.family@ == f && l.style@ == s && l.file@ == p,
                None => f.len() == 0 || p.len() == 0,
            }
        }),
        r matches Some(l) ==> tab_free(l.family@) && tab_free(l.style@),
{
    proof {
        lemma_field_is_tab_free(line@);
        lemma_field_is_tab_free(after_tab(line@));
    }
    let cs = chars_of(line);
    let (a, rest) = split_tab(&cs);
    let (b, c) = split_tab(&rest);
    let family = trim(&a);
    let style = trim(&b);
    let file = trim(&c);
    if family.len() == 0 || file.len() == 0 {
        return None;
    }
    Some(ListedFont {
        family: string_of(family.as_slice()),
        style: string_of(style.as_slice()),
        file: string_of(file.as_slice()),
    })
}

/// The family and style fontconfig reports for a scanned font file
/// (`fc-scan --format=%{family[0]}\t%{style[0]}`), each trimmed.
pub open spec fn scan_fields(meta: Seq<char>) -> (Seq<char>, Seq<char>) {
    (trim_ws(before_tab(meta)), trim_ws(after_tab(meta)))
}

/// Reads the family and style of a scanned font file.
pub fn parse_font_scan(meta: &str) -> (r: (String, String))
    ensures
        (r.0@, r.1@) == scan_fields(meta@),
{
    let cs = chars_of(meta);
    let (a, b) = split_tab(&cs);
    let family = trim(&a);
    let style = trim(&b);
    (string_of(family.as_slice()), string_of(style.as_slice()))
}

/// The largest font file an upload may carry: 20 MiB.
pub const MAX_FONT_BYTES: usize = 20971520;

/// Accepts an uploaded font of `len` bytes when it holds between one byte
/// and [`MAX_FONT_BYTES`].
pub fn check_font_upload_size(len: usize) -> (r: Result<(), CoverError>)
    ensures
        r is Ok <==> 1 <= len <= MAX_FONT_BYTES,
        r matches Err(e) ==> e == CoverError::FontSizeOutOfRange,
{
    if len == 0 || len > MAX_FONT_BYTES {
        Err(CoverError::FontSizeOutOfRange)
    } else {
        Ok(())
    }
}

// ---------------------------------------------------------------------------
// Catalogue entries
// ---------------------------------------------------------------------------

/// One font of the catalogue.
pub struct FontEntry {
    pub family: String,
    pub style: String,
    pub filename: String,
    pub source: String,
    pub url: String,
}

/// `s` without leading `/` characters.
pub open spec fn trim_leading_slashes(s: Seq<char>) -> Seq<char>
    decreases s.len(),
{
    if s.len() > 0 && s[0] == '/' {
        trim_leading_slashes(s.drop_first())
    } else {
        s
    }
}

/// Path components joined by `/`.
pub open spec fn join_components(cs: Seq<Seq<char>>) -> Seq<char>
    decreases cs.len(),
{
    if cs.len() == 0 {
        Seq::empty()
    } else if cs.len() == 1 {
        cs[0]
    } else {
        join_components(cs.drop_last()) + seq!['/'] + cs.last()
    }
}

/// Where the packaged fonts live.
pub open spec fn system_font_root() -> Seq<char> {
    "/usr/share/fonts"@
}

/// The path of a packaged font relative to the packaged font root, as
/// `strip_prefix` leaves it and with leading `/` trimmed: the raw rest of the
/// path after the root's components.
pub open spec fn system_relative(canonical: Seq<char>) -> Seq<char> {
    trim_leading_slashes(join_components(rest_pieces(canonical, (components(system_font_root()).len() - 1) as nat)))
}

/// The final component of a path, or the empty string.
pub open spec fn file_name_or_empty(p: Seq<char>) -> Seq<char> {
    match path_file_name(p) {
        Some(f) => f,
        None => Seq::empty(),
    }
}

/// The catalogue key of a listed font.
pub open spec fn listed_key(family: Seq<char>, style: Seq<char>, file: Seq<char>) -> Seq<char> {
    family + seq!['\t'] + style + seq!['\t'] + file
}

proof fn lemma_tab_prefix_equal(a: Seq<char>, ra: Seq<char>, b: Seq<char>, rb: Seq<char>)
    requires
        tab_free(a),
        tab_free(b),
        a + seq!['\t'] + ra == b + seq!['\t'] + rb,
    ensures
        a == b,
        ra == rb,
{
    let x = a + seq!['\t'] + ra;
    let y = b + seq!['\t'] + rb;
    if a.len() < b.len() {
        assert(x[a.len() as int] == '\t');
        assert(y[a.len() as int] == b[a.len() as int]);
        assert(false);
    }
    if b.len() < a.len() {
        assert(y[b.len() as int] == '\t');
        assert(x[b.len() as int] == a[b.len() as int]);
        assert(false);
    }
    assert forall|i: int| 0 <= i < a.len() implies a[i] == b[i] by {
        assert(x[i] == a[i] && y[i] == b[i]);
    }
    assert(a =~= b);
    assert(x.len() == y.len());
    assert(ra.len() == rb.len());
    assert forall|i: int| 0 <= i < ra.len() implies ra[i] == rb[i] by {
        assert(x[a.len() + 1 + i] == ra[i]);
        assert(y[b.len() + 1 + i] == rb[i]);
    }
    assert(ra =~= rb);
}

/// Listed fonts are told apart by family, style and file together: two fonts
/// of the listing (whose family and style, read between tabs, hold no tab)
/// count as the same font exactly when all three agree. So a font listed
/// again from another file is kept, and only a repeat of the same family,
/// style and file is skipped.
pub proof fn lemma_listed_fonts_told_apart(
    f1: Seq<char>,
    s1: Seq<char>,
    x1: Seq<char>,
    f2: Seq<char>,
    s2: Seq<char>,
    x2: Seq<char>,
)
    requires
        tab_free(f1),
        tab_free(s1),
        tab_free(f2),
        tab_free(s2),
    ensures
        listed_key(f1, s1, x1) == listed_key(f2, s2, x2) <==> (f1 == f2 && s1 == s2 && x1 == x2),
{
    if listed_key(f1, s1, x1) == listed_key(f2, s2, x2) {
        assert(listed_key(f1, s1, x1) =~= f1 + seq!['\t'] + (s1 + seq!['\t'] + x1));
        assert(listed_key(f2, s2, x2) =~= f2 + seq!['\t'] + (s2 + seq!['\t'] + x2));
        lemma_tab_prefix_equal(f1, s1 + seq!['\t'] + x1, f2, s2 + seq!['\t'] + x2);
        lemma_tab_prefix_equal(s1, x1, s2, x2);
    }
}

/// The catalogue key of a custom font.
pub open spec fn custom_key(family: Seq<char>, style: Seq<char>, filename: Seq<char>) -> Seq<char> {
    "custom"@ + seq!['\t'] + family + seq!['\t'] + style + seq!['\t'] + filename
}

/// Fonts gathered so far, each key at most once.
pub struct FontCatalog {
    seen: StrMap<()>,
    fonts: Vec<FontEntry>,
}

fn concat(a: &str, b: &str) -> (r: String)
    ensures
        r@ == a@ + b@,
{
    let mut s = a.to_owned();
    s.append(b);
    s
}

fn push_tab(a: &str, b: &str) -> (r: String)
    ensures
        r@ == a@ + seq!['\t'] + b@,
{
    let mut s = a.to_owned();
    crate::text::push_char(&mut s, '\t');
    s.append(b);
    s
}

fn join_parts(parts: &Vec<Vec<char>>, from: usize, to: usize) -> (r: Vec<char>)
    requires
        from <= to <= parts.len(),
    ensures
        r@ == join_components(parts@.map_values(|v: Vec<char>| v@).subrange(from as int, to as int)),
{
    let ghost all = parts@.map_values(|v: Vec<char>| v@);
    let mut out: Vec<char> = Vec::new();
    let mut i = from;
    assert(all.subrange(from as int, from as int) =~= Seq::<Seq<char>>::empty());
    while i < to
        invariant
            from <= i <= to <= parts.len(),
            all == parts@.map_values(|v: Vec<char>| v@),
            out@ == join_components(all.subrange(from as int, i as int)),
        decreases to - i,
    {
        let ghost prev = out@;
        let ghost t = all.subrange(from as int, i + 1);
        assert(t.drop_last() =~= all.subrange(from as int, i as int));
        assert(t.last() == parts@[i as int]@);
        if i > from {
            out.push('/');
        }
        let p = &parts[i];
        let mut j: usize = 0;
        let ghost mid = out@;
        while j < p.len()
            invariant
                j <= p.len(),
                out@ == mid + p@.take(j as int),
            decreases p.len() - j,
        {
            out.push(p[j]);
            assert(p@.take(j + 1) == p@.take(j as int).push(p@[j as int]));
            j += 1;
        }
        assert(p@.take(p.len() as int) =~= p@);
        if i == from {
            assert(t.len() == 1);
            assert(out@ =~= t[0]);
        } else {
            assert(out@ =~= prev + seq!['/'] + t.last());
        }
        i += 1;
    }
    out
}

fn filler(x: &Vec<char>) -> (r: bool)
    ensures
        r == is_filler(x@),
{
    if x.len() == 0 {
        true
    } else if x.len() == 1 && x[0] == '.' {
        assert(x@ =~= dot());
        true
    } else {
        assert(x@ != dot()) by {
            if x@ == dot() {
                assert(x@.len() == 1);
            }
        }
        false
    }
}

/// The path of a packaged font relative to the packaged font root.
fn relative_to_system_root(canonical: &str) -> (r: String)
    ensures
        r@ == system_relative(canonical@),
{
    let cs = chars_of(canonical);
    let segs = crate::paths::split_on(&cs, '/');
    let root = crate::paths::path_components(&chars_of("/usr/share/fonts"));
    proof {
        reveal_strlit("/usr/share/fonts");
        assert("/usr/share/fonts"@ == system_font_root());
        assert(system_font_root()[0] == '/');
    }
    let ghost all = segs@.map_values(|v: Vec<char>| v@);
    proof {
        assert(all =~= split_at_char(canonical@, '/'));
    }
    let m = root.len() - 1;
    let ghost target = drop_components(all, m as nat, true);
    // Read the first `m` components.
    let mut i: usize = 0;
    let mut left: usize = m;
    assert(all.skip(0) =~= all);
    while left > 0 && i < segs.len()
        invariant
            i <= segs.len(),
            all == segs@.map_values(|v: Vec<char>| v@),
            target == drop_components(all.skip(i as int), left as nat, i == 0),
        decreases segs.len() - i,
    {
        let x = &segs[i];
        assert(all.skip(i as int)[0] == x@);
        assert(all.skip(i as int).drop_first() =~= all.skip(i + 1));
        let is_dot = x.len() == 1 && x[0] == '.';
        if is_dot {
            assert(x@ =~= dot());
        } else {
            assert(x@ != dot()) by {
                if x@ == dot() {
                    assert(x@.len() == 1);
                }
            }
        }
        if x.len() > 0 && !(is_dot && i != 0) {
            left -= 1;
        }
        i += 1;
    }
    assert(target == all.skip(i as int));
    // Skip filler pieces at the front, then at the back.
    let mut lo = i;
    while lo < segs.len() && filler(&segs[lo])
        invariant
            i <= lo <= segs.len(),
            all == segs@.map_values(|v: Vec<char>| v@),
            trim_front_fillers(target) == trim_front_fillers(all.skip(lo as int)),
        decreases segs.len() - lo,
    {
        assert(all.skip(lo as int)[0] == segs@[lo as int]@);
        assert(all.skip(lo as int).drop_first() =~= all.skip(lo + 1));
        lo += 1;
    }
    assert(trim_front_fillers(target) == all.skip(lo as int)) by {
        if lo < segs.len() {
            assert(all.skip(lo as int)[0] == segs@[lo as int]@);
        }
    }
    let mut hi = segs.len();
    assert(all.skip(lo as int) =~= all.subrange(lo as int, hi as int));
    while hi > lo && filler(&segs[hi - 1])
        invariant
            lo <= hi <= segs.len(),
            all == segs@.map_values(|v: Vec<char>| v@),
            trim_back_fillers(all.skip(lo as int)) == trim_back_fillers(all.subrange(lo as int, hi as int)),
        decreases hi,
    {
        assert(all.subrange(lo as int, hi as int).last() == segs@[hi - 1]@);
        assert(all.subrange(lo as int, hi as int).drop_last() =~= all.subrange(lo as int, hi - 1));
        hi -= 1;
    }
    assert(trim_back_fillers(all.subrange(lo as int, hi as int)) == all.subrange(lo as int, hi as int)) by {
        if hi > lo {
            assert(all.subrange(lo as int, hi as int).last() == segs@[hi - 1]@);
        }
    }
    assert(rest_pieces(canonical@, m as nat) == all.subrange(lo as int, hi as int));
    let joined = join_parts(&segs, lo, hi);
    let mut lo: usize = 0;
    assert(joined@.skip(0) =~= joined@);
    while lo < joined.len() && joined[lo] == '/'
        invariant
            lo <= joined.len(),
            trim_leading_slashes(joined@) == trim_leading_slashes(joined@.skip(lo as int)),
        decreases joined.len() - lo,
    {
        assert(joined@.skip(lo as int).drop_first() =~= joined@.skip(lo + 1));
        lo += 1;
    }
    assert(joined@.skip(lo as int) =~= joined@.subrange(lo as int, joined@.len() as int));
    string_of_range(&joined, lo, joined.len())
}

fn name_or_empty(p: &str) -> (r: String)
    ensures
        r@ == file_name_or_empty(p@),
{
    match crate::paths::file_name(p) {
        Some(f) => f,
        None => String::new(),
    }
}

impl FontCatalog {
    /// The keys listed so far.
    pub closed spec fn seen_view(&self) -> Seq<(Seq<char>, ())> {
        self.seen@
    }

    /// The fonts listed so far, in the order they were added.
    pub closed spec fn entries(&self) -> Seq<FontEntry> {
        self.fonts@
    }

    /// An empty catalogue.
    pub fn new() -> (c: Self)
        ensures
            c.entries().len() == 0,
            c.seen_view().len() == 0,
    {
        FontCatalog { seen: StrMap::new(), fonts: Vec::new() }
    }

    fn add(&mut self, key: String, entry: FontEntry)
        ensures
            has_key(old(self).seen_view(), key@) ==> final(self).entries() == old(self).entries()
                && final(self).seen_view() == old(self).seen_view(),
            !has_key(old(self).seen_view(), key@) ==> final(self).entries() == old(self).entries().push(entry)
                && has_key(final(self).seen_view(), key@)
                && forall|k: Seq<char>| k != key@ ==> has_key(final(self).seen_view(), k) == has_key(old(self).seen_view(), k),
    {
        if self.seen.contains_key(key.as_str()) {
            return;
        }
        let ghost before = self.seen@;
        self.seen.insert(key, ());
        proof {
            assert forall|k: Seq<char>| k != key@ implies has_key(self.seen@, k) == has_key(before, k) by {
                assert(crate::strmap::lookup(self.seen@, k) == crate::strmap::lookup(before, k));
            }
        }
        self.fonts.push(entry);
    }

    /// Adds a font of the fontconfig listing, given its canonical path (or its
    /// listed path when that cannot be resolved). Fonts under the custom
    /// folder are skipped (the folder is scanned on its own); fonts under
    /// `/usr/share/fonts` are `bundled` and get a URL below
    /// `/font-files/system/`; others are `system` with no URL. A font whose
    /// family, style and file were already listed is skipped.
    pub fn add_listed(&mut self, font: &ListedFont, canonical: &str, font_dir: &str)
        ensures
            ({
                let key = listed_key(font.family@, font.style@, font.file@);
                if path_starts_with(canonical@, font_dir@) || has_key(old(self).seen_view(), key) {
                    final(self).entries() == old(self).entries() && final(self).seen_view() == old(self).seen_view()
                } else {
                    &&& final(self).entries().len() == old(self).entries().len() + 1
                    &&& final(self).entries().drop_last() == old(self).entries()
                    &&& final(self).entries().last().family@ == font.family@
                    &&& final(self).entries().last().style@ == font.style@
                    &&& final(self).entries().last().filename@ == file_name_or_empty(canonical@)
                    &&& if path_starts_with(canonical@, system_font_root()) {
                        final(self).entries().last().source@ == "bundled"@
                            && final(self).entries().last().url@ == "/font-files/system/"@ + system_relative(canonical@)
                    } else {
                        final(self).entries().last().source@ == "system"@
                            && final(self).entries().last().url@ == Seq::<char>::empty()
                    }
                    &&& has_key(final(self).seen_view(), key)
                    &&& forall|k: Seq<char>| k != key ==> has_key(final(self).seen_view(), k) == has_key(old(self).seen_view(), k)
                }
            }),
    {
        if crate::paths::starts_with_path(canonical, font_dir) {
            return;
        }
        let (source, url) = if crate::paths::starts_with_path(canonical, "/usr/share/fonts") {
            let rel = relative_to_system_root(canonical);
            ("bundled".to_owned(), concat("/font-files/system/", rel.as_str()))
        } else {
            ("system".to_owned(), String::new())
        };
        let filename = name_or_empty(canonical);
        let k1 = push_tab(font.family.as_str(), font.style.as_str());
        let key = push_tab(k1.as_str(), font.file.as_str());
        let entry = FontEntry {
            family: font.family.clone(),
            style: font.style.clone(),
            filename,
            source,
            url,
        };
        self.add(key, entry);
    }

    /// Adds a font found in the custom folder, given what fontconfig reports
    /// of it. A font without a family is skipped, and so is one whose family,
    /// style and file name were already listed from the folder. Custom fonts
    /// get a URL below `/font-files/custom/`.
    pub fn add_custom(&mut self, meta: &str, path: &str)
        ensures
            ({
                let (family, style) = scan_fields(meta@);
                let filename = file_name_or_empty(path@);
                let key = custom_key(family, style, filename);
                if family.len() == 0 || has_key(old(self).seen_view(), key) {
                    final(self).entries() == old(self).entries() && final(self).seen_view() == old(self).seen_view()
                } else {
                    &&& final(self).entries().len() == old(self).entries().len() + 1
                    &&& final(self).entries().drop_last() == old(self).entries()
                    &&& final(self).entries().last().family@ == family
                    &&& final(self).entries().last().style@ == style
                    &&& final(self).entries().last().filename@ == filename
                    &&& final(self).entries().last().source@ == "custom"@
                    &&& final(self).entries().last().url@ == "/font-files/custom/"@ + filename
                    &&& has_key(final(self).seen_view(), key)
                    &&& forall|k: Seq<char>| k != key ==> has_key(final(self).seen_view(), k) == has_key(old(self).seen_view(), k)
                }
            }),
    {
        let (family, style) = parse_font_scan(meta);
        if family.as_str().is_empty() {
            return;
        }
        let filename = name_or_empty(path);
        let k1 = push_tab("custom", family.as_str());
        let k2 = push_tab(k1.as_str(), style.as_str());
        let key = push_tab(k2.as_str(), filename.as_str());
        let url = concat("/font-files/custom/", filename.as_str());
        let entry = FontEntry { family, style, filename, source: "custom".to_owned(), url };
        self.add(key, entry);
    }
}

// ---------------------------------------------------------------------------
// Ordering the catalogue
// ---------------------------------------------------------------------------

/// `a` sorts before `b`: by family, then by style.
pub open spec fn font_before(a: FontEntry, b: FontEntry) -> bool {
    str_lt(a.family@, b.family@) || (a.family@ == b.family@ && str_lt(a.style@, b.style@))
}

/// How many leading entries of `t` do not sort after `x`.
pub open spec fn count_not_after(t: Seq<FontEntry>, x: FontEntry) -> nat
    decreases t.len(),
{
    if t.len() == 0 || font_before(x, t[0]) {
        0
    } else {
        1 + count_not_after(t.drop_first(), x)
    }
}

/// `x` inserted into `t` after every entry that does not sort after it.
pub open spec fn insert_after_equals(t: Seq<FontEntry>, x: FontEntry) -> Seq<FontEntry> {
    t.insert(count_not_after(t, x) as int, x)
}

/// The entries of `s` sorted by family and style, entries with the same
/// family and style keeping their order (a stable sort).
pub open spec fn stable_font_sort(s: Seq<FontEntry>) -> Seq<FontEntry>
    decreases s.len(),
{
    if s.len() == 0 {
        s
    } else {
        insert_after_equals(stable_font_sort(s.drop_last()), s.last())
    }
}

/// No entry of `s` sorts before an earlier one.
pub open spec fn fonts_sorted(s: Seq<FontEntry>) -> bool {
    forall|i: int, j: int| 0 <= i < j < s.len() ==> !font_before(#[trigger] s[j], #[trigger] s[i])
}

fn entry_before(a: &FontEntry, b: &FontEntry) -> (r: bool)
    ensures
        r == font_before(*a, *b),
{
    let af = chars_of(a.family.as_str());
    let bf = chars_of(b.family.as_str());
    if chars_lt(&af, &bf) {
        return true;
    }
    if !chars_equal(&af, &bf) {
        return false;
    }
    chars_lt(&chars_of(a.style.as_str()), &chars_of(b.style.as_str()))
}

proof fn lemma_count_not_after(t: Seq<FontEntry>, x: FontEntry)
    ensures
        count_not_after(t, x) <= t.len(),
        forall|i: int| 0 <= i < count_not_after(t, x) ==> !font_before(x, #[trigger] t[i]),
        count_not_after(t, x) < t.len() ==> font_before(x, t[count_not_after(t, x) as int]),
    decreases t.len(),
{
    if t.len() > 0 && !font_before(x, t[0]) {
        lemma_count_not_after(t.drop_first(), x);
        assert forall|i: int| 0 <= i < count_not_after(t, x) implies !font_before(x, #[trigger] t[i]) by {
            if i > 0 {
                assert(t[i] == t.drop_first()[i - 1]);
            }
        }
    }
}

proof fn lemma_before_transitive(a: FontEntry, b: FontEntry, c: FontEntry)
    requires
        font_before(a, b),
        font_before(b, c),
    ensures
        font_before(a, c),
{
    if str_lt(a.family@, b.family@) && str_lt(b.family@, c.family@) {
        lemma_str_lt_transitive(a.family@, b.family@, c.family@);
    } else if str_lt(a.style@, b.style@) && str_lt(b.style@, c.style@) && a.family@ == b.family@ && b.family@ == c.family@ {
        lemma_str_lt_transitive(a.style@, b.style@, c.style@);
    }
}

proof fn lemma_before_asymmetric(a: FontEntry, b: FontEntry)
    requires
        font_before(a, b),
    ensures
        !font_before(b, a),
{
    if str_lt(a.family@, b.family@) {
        lemma_str_lt_asymmetric(a.family@, b.family@);
        if b.family@ == a.family@ {
            lemma_str_lt_irreflexive(a.family@);
        }
    } else {
        lemma_str_lt_asymmetric(a.style@, b.style@);
        lemma_str_lt_irreflexive(a.family@);
    }
}

/// If `a` sorts before `b` and `c` does not sort before `b`, then `a` sorts before `c`.
proof fn lemma_before_then_not_after(a: FontEntry, b: FontEntry, c: FontEntry)
    requires
        font_before(a, b),
        !font_before(c, b),
    ensures
        font_before(a, c),
{
    if b.family@ != c.family@ {
        lemma_str_lt_total(b.family@, c.family@);
        lemma_before_transitive(a, b, c);
    } else if b.style@ != c.style@ {
        lemma_str_lt_total(b.style@, c.style@);
        lemma_before_transitive(a, b, c);
    }
}

/// The stable sort of the catalogue is sorted by family and style.
pub proof fn lemma_stable_font_sort_sorted(s: Seq<FontEntry>)
    ensures
        fonts_sorted(stable_font_sort(s)),
    decreases s.len(),
{
    if s.len() > 0 {
        lemma_stable_font_sort_sorted(s.drop_last());
        let t = stable_font_sort(s.drop_last());
        let x = s.last();
        let p = count_not_after(t, x) as int;
        lemma_count_not_after(t, x);
        let u = insert_after_equals(t, x);
        assert forall|i: int, j: int| 0 <= i < j < u.len() implies !font_before(#[trigger] u[j], #[trigger] u[i]) by {
            if j < p {
                assert(u[i] == t[i] && u[j] == t[j]);
            } else if j == p {
                assert(u[i] == t[i]);
                assert(!font_before(x, t[i]));
            } else if i == p {
                assert(u[j] == t[j - 1]);
                assert(u[i] == x);
                if j - 1 > p {
                    lemma_before_then_not_after(x, t[p], t[j - 1]);
                }
                lemma_before_asymmetric(x, t[j - 1]);
            } else if i < p {
                assert(u[i] == t[i] && u[j] == t[j - 1]);
            } else {
                assert(u[i] == t[i - 1] && u[j] == t[j - 1]);
            }
        }
    }
}

/// The stable sort only reorders: it keeps every entry, as often as it occurs.
pub proof fn lemma_stable_font_sort_permutes(s: Seq<FontEntry>)
    ensures
        stable_font_sort(s).to_multiset() == s.to_multiset(),
    decreases s.len(),
{
    if s.len() > 0 {
        lemma_stable_font_sort_permutes(s.drop_last());
        let t = stable_font_sort(s.drop_last());
        lemma_count_not_after(t, s.last());
        vstd::seq_lib::to_multiset_insert(t, count_not_after(t, s.last()) as int, s.last());
        let d = s.drop_last();
        assert(d.insert(d.len() as int, s.last()) =~= s);
        vstd::seq_lib::to_multiset_insert(d, d.len() as int, s.last());
    }
}

impl FontCatalog {
    /// The catalogue, sorted by family and style; fonts with the same family
    /// and style keep the order they were added in.
    pub fn into_sorted(self) -> (r: Vec<FontEntry>)
        ensures
            r@ == stable_font_sort(self.entries()),
    {
        let mut input = self.fonts;
        let ghost all = input@;
        let mut out: Vec<FontEntry> = Vec::new();
        let mut i: usize = 0;
        let n = input.len();
        while input.len() > 0
            invariant
                i + input@.len() == n,
                n == all.len(),
                input@ == all.skip(i as int),
                out@ == stable_font_sort(all.take(i as int)),
            decreases input@.len(),
        {
            let x = input.remove(0);
            assert(x == all[i as int]);
            let mut p: usize = 0;
            let ghost cur = out@;
            assert(cur.skip(0) =~= cur);
            while p < out.len() && !entry_before(&x, &out[p])
                invariant
                    p <= out@.len(),
                    cur == out@,
                    count_not_after(cur, x) == p + count_not_after(cur.skip(p as int), x),
                decreases out@.len() - p,
            {
                assert(cur.skip(p as int)[0] == cur[p as int]);
                assert(cur.skip(p as int).drop_first() =~= cur.skip(p + 1));
                p += 1;
            }
            if p < out.len() {
                assert(cur.skip(p as int)[0] == cur[p as int]);
            }
            out.insert(p, x);
            assert(all.take(i + 1).drop_last() =~= all.take(i as int));
            assert(all.skip(i as int).drop_first() =~= all.skip(i + 1));
            assert(input@ =~= all.skip(i + 1));
            i += 1;
        }
        assert(all.take(i as int) =~= all);
        out
    }
}

} // verus!
