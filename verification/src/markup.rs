//! Text filled into templates: `{{name}}` variable substitution, escaping for
//! SVG markup, and the anchor a text alignment maps to.
use vstd::prelude::*;
use crate::strmap::StrMap;
use crate::text::{
    ascii_uppercase, chars_match_at, chars_of, is_ascii_chars, push_char, starts_with, string_of,
};

verus! {

/// `s` with every occurrence of `pat` replaced by `rep`, scanning from the
/// left and never letting two replaced occurrences overlap (`str::replace`).
/// An empty pattern matches before every character and at the end.
pub open spec fn replace_all(s: Seq<char>, pat: Seq<char>, rep: Seq<char>) -> Seq<char>
    decreases s.len(),
{
    if pat.len() == 0 {
        if s.len() == 0 {
            rep
        } else {
            rep + seq![s[0]] + replace_all(s.drop_first(), pat, rep)
        }
    } else if s.len() == 0 {
        s
    } else if starts_with(s, pat) {
        rep + replace_all(s.skip(pat.len() as int), pat, rep)
    } else {
        seq![s[0]] + replace_all(s.drop_first(), pat, rep)
    }
}

/// The placeholder that names variable `k`: `{{k}}`.
pub open spec fn placeholder(k: Seq<char>) -> Seq<char> {
    seq!['{', '{'] + k + seq!['}', '}']
}

/// `s` after replacing the placeholder of each variable with its value, one
/// variable after the other in the order of `vars` (key order), so a value
/// may itself hold a placeholder of a later variable.
pub open spec fn spec_substitute(s: Seq<char>, vars: Seq<(Seq<char>, String)>) -> Seq<char>
    decreases vars.len(),
{
    if vars.len() == 0 {
        s
    } else {
        let last = vars.last();
        replace_all(spec_substitute(s, vars.drop_last()), placeholder(last.0), last.1@)
    }
}

/// Replaces every occurrence of a non-empty pattern.
fn replace_chars(s: &Vec<char>, pat: &Vec<char>, rep: &Vec<char>) -> (r: Vec<char>)
    requires
        pat@.len() > 0,
    ensures
        r@ == replace_all(s@, pat@, rep@),
{
    let mut out: Vec<char> = Vec::new();
    let mut i: usize = 0;
    assert(s@.skip(0) =~= s@);
    while i < s.len()
        invariant
            i <= s.len(),
            pat@.len() > 0,
            replace_all(s@, pat@, rep@) == out@ + replace_all(s@.skip(i as int), pat@, rep@),
        decreases s.len() - i,
    {
        let ghost rest = s@.skip(i as int);
        if chars_match_at(s, i, pat) {
            let ghost before = out@;
            let mut j: usize = 0;
            while j < rep.len()
                invariant
                    j <= rep.len(),
                    out@ == before + rep@.take(j as int),
                decreases rep.len() - j,
            {
                out.push(rep[j]);
                assert(rep@.take(j + 1) == rep@.take(j as int).push(rep@[j as int]));
                j += 1;
            }
            assert(rep@.take(rep.len() as int) =~= rep@);
            assert(rest.skip(pat@.len() as int) =~= s@.skip(i + pat.len()));
            assert(before + (rep@ + replace_all(rest.skip(pat@.len() as int), pat@, rep@)) =~= out@
                + replace_all(s@.skip(i + pat.len()), pat@, rep@));
            i = i + pat.len();
        } else {
            out.push(s[i]);
            assert(rest.drop_first() =~= s@.skip(i + 1));
            assert(rest[0] == s@[i as int]);
            assert(out@.drop_last() + (seq![s@[i as int]] + replace_all(rest.drop_first(), pat@, rep@))
                =~= out@ + replace_all(s@.skip(i + 1), pat@, rep@));
            i += 1;
        }
    }
    assert(s@.skip(i as int).len() == 0);
    assert(out@ + Seq::<char>::empty() =~= out@);
    out
}

/// Fills `{{name}}` placeholders in `s` with the values of `vars`, going
/// through the variables in key order; placeholders of unknown names stay.
pub fn substitute(s: &str, vars: &StrMap<String>) -> (r: String)
    ensures
        r@ == spec_substitute(s@, vars@),
{
    let mut cur = chars_of(s);
    let n = vars.len();
    let mut i: usize = 0;
    while i < n
        invariant
            i <= n,
            n == vars@.len(),
            cur@ == spec_substitute(s@, vars@.take(i as int)),
        decreases n - i,
    {
        let (k, v) = vars.entry(i);
        let mut pat: Vec<char> = Vec::new();
        pat.push('{');
        pat.push('{');
        let kc = chars_of(k.as_str());
        let mut j: usize = 0;
        while j < kc.len()
            invariant
                j <= kc.len(),
                pat@ == seq!['{', '{'] + kc@.take(j as int),
            decreases kc.len() - j,
        {
            pat.push(kc[j]);
            assert(kc@.take(j + 1) == kc@.take(j as int).push(kc@[j as int]));
            j += 1;
        }
        pat.push('}');
        pat.push('}');
        assert(kc@.take(kc.len() as int) =~= kc@);
        assert(pat@ =~= placeholder(k@));
        let rep = chars_of(v.as_str());
        cur = replace_chars(&cur, &pat, &rep);
        assert(vars@.take(i + 1).drop_last() =~= vars@.take(i as int));
        i += 1;
    }
    assert(vars@.take(n as int) =~= vars@);
    string_of(cur.as_slice())
}

/// `s` holds `{{` somewhere.
pub open spec fn has_open_braces(s: Seq<char>) -> bool {
    exists|i: int| 0 <= i < s.len() - 1 && #[trigger] s[i] == '{' && s[i + 1] == '{'
}

proof fn lemma_replace_absent(s: Seq<char>, pat: Seq<char>, rep: Seq<char>)
    requires
        pat.len() >= 2,
        pat[0] == '{',
        pat[1] == '{',
        !has_open_braces(s),
    ensures
        replace_all(s, pat, rep) == s,
    decreases s.len(),
{
    if s.len() > 0 {
        if starts_with(s, pat) {
            assert(s[0] == pat[0] && s[1] == pat[1]);
            assert(false);
        }
        let t = s.drop_first();
        assert(!has_open_braces(t)) by {
            if has_open_braces(t) {
                let i = choose|i: int| 0 <= i < t.len() - 1 && #[trigger] t[i] == '{' && t[i + 1] == '{';
                assert(s[i + 1] == '{' && s[i + 2] == '{');
            }
        }
        lemma_replace_absent(t, pat, rep);
        assert(seq![s[0]] + t =~= s);
    }
}

/// A text with no `{{` holds no placeholder, so substitution leaves it as it is,
/// whatever the variables are.
pub proof fn lemma_substitute_without_placeholders(s: Seq<char>, vars: Seq<(Seq<char>, String)>)
    requires
        !has_open_braces(s),
    ensures
        spec_substitute(s, vars) == s,
    decreases vars.len(),
{
    if vars.len() > 0 {
        lemma_substitute_without_placeholders(s, vars.drop_last());
        lemma_replace_absent(s, placeholder(vars.last().0), vars.last().1@);
    }
}

/// `pat` occurs somewhere in `s`.
pub open spec fn occurs(s: Seq<char>, pat: Seq<char>) -> bool {
    exists|i: int| 0 <= i && i + pat.len() <= s.len() && #[trigger] s.subrange(i, i + pat.len()) == pat
}

proof fn lemma_replace_not_occurring(s: Seq<char>, pat: Seq<char>, rep: Seq<char>)
    requires
        pat.len() > 0,
        !occurs(s, pat),
    ensures
        replace_all(s, pat, rep) == s,
    decreases s.len(),
{
    if s.len() > 0 {
        if starts_with(s, pat) {
            let k: int = 0;
            assert(s.subrange(k, k + pat.len()) =~= s.take(pat.len() as int));
            assert(occurs(s, pat));
            assert(false);
        }
        let t = s.drop_first();
        assert(!occurs(t, pat)) by {
            if occurs(t, pat) {
                let i = choose|i: int| 0 <= i && i + pat.len() <= t.len() && #[trigger] t.subrange(i, i + pat.len()) == pat;
                let k = i + 1;
                assert(s.subrange(k, k + pat.len()) =~= t.subrange(i, i + pat.len()));
                assert(occurs(s, pat));
            }
        }
        lemma_replace_not_occurring(t, pat, rep);
        assert(seq![s[0]] + t =~= s);
    }
}

/// Substitution leaves a text unchanged when no placeholder of any of the
/// variables occurs in it (placeholders of unknown names stay as they are).
pub proof fn lemma_substitute_without_known_placeholders(s: Seq<char>, vars: Seq<(Seq<char>, String)>)
    requires
        forall|j: int| 0 <= j < vars.len() ==> !occurs(s, placeholder(#[trigger] vars[j].0)),
    ensures
        spec_substitute(s, vars) == s,
    decreases vars.len(),
{
    if vars.len() > 0 {
        let d = vars.drop_last();
        assert forall|j: int| 0 <= j < d.len() implies !occurs(s, placeholder(#[trigger] d[j].0)) by {
            assert(d[j] == vars[j]);
        }
        lemma_substitute_without_known_placeholders(s, d);
        assert(!occurs(s, placeholder(vars[vars.len() - 1].0)));
        lemma_replace_not_occurring(s, placeholder(vars.last().0), vars.last().1@);
    }
}

/// With no variables, substitution gives the text back unchanged.
pub proof fn lemma_substitute_no_vars(s: Seq<char>)
    ensures
        spec_substitute(s, Seq::<(Seq<char>, String)>::empty()) == s,
{
}

// ---------------------------------------------------------------------------
// Markup escaping
// ---------------------------------------------------------------------------

/// What the escaping writes for one character.
pub open spec fn escape_char(c: char) -> Seq<char> {
    if c == '&' {
        seq!['&', 'a', 'm', 'p', ';']
    } else if c == '<' {
        seq!['&', 'l', 't', ';']
    } else if c == '>' {
        seq!['&', 'g', 't', ';']
    } else if c == '"' {
        seq!['&', 'q', 'u', 'o', 't', ';']
    } else {
        seq![c]
    }
}

/// `s` escaped for SVG text and attribute values: `&`, `<`, `>` and `"`
/// become entity references, everything else stays.
pub open spec fn spec_xml(s: Seq<char>) -> Seq<char>
    decreases s.len(),
{
    if s.len() == 0 {
        s
    } else {
        spec_xml(s.drop_last()) + escape_char(s.last())
    }
}

/// Escapes `&`, `<`, `>` and `"` for use in SVG markup.
pub fn xml(s: &str) -> (r: String)
    ensures
        r@ == spec_xml(s@),
{
    let cs = chars_of(s);
    let mut out = String::new();
    let mut i: usize = 0;
    while i < cs.len()
        invariant
            i <= cs.len(),
            cs@ == s@,
            out@ == spec_xml(s@.take(i as int)),
        decreases cs.len() - i,
    {
        let c = cs[i];
        let ghost before = out@;
        if c == '&' {
            push_char(&mut out, '&');
            push_char(&mut out, 'a');
            push_char(&mut out, 'm');
            push_char(&mut out, 'p');
            push_char(&mut out, ';');
        } else if c == '<' {
            push_char(&mut out, '&');
            push_char(&mut out, 'l');
            push_char(&mut out, 't');
            push_char(&mut out, ';');
        } else if c == '>' {
            push_char(&mut out, '&');
            push_char(&mut out, 'g');
            push_char(&mut out, 't');
            push_char(&mut out, ';');
        } else if c == '"' {
            push_char(&mut out, '&');
            push_char(&mut out, 'q');
            push_char(&mut out, 'u');
            push_char(&mut out, 'o');
            push_char(&mut out, 't');
            push_char(&mut out, ';');
        } else {
            push_char(&mut out, c);
        }
        assert(out@ =~= before + escape_char(c));
        assert(s@.take(i + 1).drop_last() =~= s@.take(i as int));
        i += 1;
    }
    assert(s@.take(cs.len() as int) =~= s@);
    out
}

/// Escaped text holds no `<`, `>` or `"`, so it cannot open or close markup
/// or end an attribute value.
pub proof fn lemma_xml_has_no_markup(s: Seq<char>)
    ensures
        forall|i: int| 0 <= i < spec_xml(s).len() ==> #[trigger] spec_xml(s)[i] != '<'
            && spec_xml(s)[i] != '>' && spec_xml(s)[i] != '"',
    decreases s.len(),
{
    if s.len() > 0 {
        lemma_xml_has_no_markup(s.drop_last());
        let p = spec_xml(s.drop_last());
        let e = escape_char(s.last());
        assert forall|i: int| 0 <= i < spec_xml(s).len() implies #[trigger] spec_xml(s)[i] != '<'
            && spec_xml(s)[i] != '>' && spec_xml(s)[i] != '"' by {
            if i < p.len() {
                assert(spec_xml(s)[i] == p[i]);
            } else {
                assert(spec_xml(s)[i] == e[i - p.len()]);
            }
        }
    }
}

/// Text that holds none of `&`, `<`, `>`, `"` is left unchanged.
pub proof fn lemma_xml_plain_text(s: Seq<char>)
    requires
        forall|i: int| 0 <= i < s.len() ==> #[trigger] s[i] != '&' && s[i] != '<' && s[i] != '>' && s[i] != '"',
    ensures
        spec_xml(s) == s,
    decreases s.len(),
{
    if s.len() > 0 {
        lemma_xml_plain_text(s.drop_last());
        assert(s.drop_last().push(s.last()) =~= s);
    }
}

/// `s` with every `c` replaced by `rep`.
pub open spec fn map_char(s: Seq<char>, c: char, rep: Seq<char>) -> Seq<char>
    decreases s.len(),
{
    if s.len() == 0 {
        s
    } else {
        (if s[0] == c { rep } else { seq![s[0]] }) + map_char(s.drop_first(), c, rep)
    }
}

proof fn lemma_replace_one_char(s: Seq<char>, c: char, rep: Seq<char>)
    ensures
        replace_all(s, seq![c], rep) == map_char(s, c, rep),
    decreases s.len(),
{
    if s.len() > 0 {
        lemma_replace_one_char(s.drop_first(), c, rep);
        assert(s.skip(1) =~= s.drop_first());
        if s[0] == c {
            assert(starts_with(s, seq![c])) by {
                assert(s.take(1) =~= seq![c]);
            }
        } else {
            assert(!starts_with(s, seq![c])) by {
                if starts_with(s, seq![c]) {
                    assert(s.take(1)[0] == s[0]);
                }
            }
        }
    }
}

proof fn lemma_map_char_concat(a: Seq<char>, b: Seq<char>, c: char, rep: Seq<char>)
    ensures
        map_char(a + b, c, rep) == map_char(a, c, rep) + map_char(b, c, rep),
    decreases a.len(),
{
    if a.len() == 0 {
        assert(a + b =~= b);
        assert(map_char(a, c, rep) + map_char(b, c, rep) =~= map_char(b, c, rep));
    } else {
        lemma_map_char_concat(a.drop_first(), b, c, rep);
        assert((a + b).drop_first() =~= a.drop_first() + b);
        assert((a + b)[0] == a[0]);
        let h: Seq<char> = if a[0] == c { rep } else { seq![a[0]] };
        assert(h + (map_char(a.drop_first(), c, rep) + map_char(b, c, rep))
            =~= (h + map_char(a.drop_first(), c, rep)) + map_char(b, c, rep));
    }
}

/// The four replacements of the escaping, one after the other.
pub open spec fn chained_escape(s: Seq<char>) -> Seq<char> {
    map_char(
        map_char(
            map_char(map_char(s, '&', escape_char('&')), '<', escape_char('<')),
            '>',
            escape_char('>'),
        ),
        '"',
        escape_char('"'),
    )
}

proof fn lemma_chained_escape_concat(a: Seq<char>, b: Seq<char>)
    ensures
        chained_escape(a + b) == chained_escape(a) + chained_escape(b),
{
    let m1a = map_char(a, '&', escape_char('&'));
    let m1b = map_char(b, '&', escape_char('&'));
    lemma_map_char_concat(a, b, '&', escape_char('&'));
    let m2a = map_char(m1a, '<', escape_char('<'));
    let m2b = map_char(m1b, '<', escape_char('<'));
    lemma_map_char_concat(m1a, m1b, '<', escape_char('<'));
    let m3a = map_char(m2a, '>', escape_char('>'));
    let m3b = map_char(m2b, '>', escape_char('>'));
    lemma_map_char_concat(m2a, m2b, '>', escape_char('>'));
    lemma_map_char_concat(m3a, m3b, '"', escape_char('"'));
}

proof fn lemma_chained_escape_char(x: char)
    ensures
        chained_escape(seq![x]) == escape_char(x),
{
    reveal_with_fuel(map_char, 8);
    let s = seq![x];
    assert(s.drop_first() =~= Seq::<char>::empty());
    if x == '&' {
        assert(chained_escape(s) =~= escape_char(x));
    } else if x == '<' {
        assert(chained_escape(s) =~= escape_char(x));
    } else if x == '>' {
        assert(chained_escape(s) =~= escape_char(x));
    } else if x == '"' {
        assert(chained_escape(s) =~= escape_char(x));
    } else {
        assert(chained_escape(s) =~= escape_char(x));
    }
}

/// Escaping is the same as replacing `&`, then `<`, then `>`, then `"` by
/// their entity references, each over the whole text (`str::replace`), in
/// that order: the `&` of an entity is never escaped twice.
pub proof fn lemma_xml_is_chained_replace(s: Seq<char>)
    ensures
        spec_xml(s) == replace_all(
            replace_all(
                replace_all(replace_all(s, seq!['&'], escape_char('&')), seq!['<'], escape_char('<')),
                seq!['>'],
                escape_char('>'),
            ),
            seq!['"'],
            escape_char('"'),
        ),
    decreases s.len(),
{
    let r1 = replace_all(s, seq!['&'], escape_char('&'));
    lemma_replace_one_char(s, '&', escape_char('&'));
    let r2 = replace_all(r1, seq!['<'], escape_char('<'));
    lemma_replace_one_char(r1, '<', escape_char('<'));
    let r3 = replace_all(r2, seq!['>'], escape_char('>'));
    lemma_replace_one_char(r2, '>', escape_char('>'));
    lemma_replace_one_char(r3, '"', escape_char('"'));
    lemma_xml_chained(s);
}

proof fn lemma_xml_chained(s: Seq<char>)
    ensures
        spec_xml(s) == chained_escape(s),
    decreases s.len(),
{
    if s.len() == 0 {
        assert(chained_escape(s) =~= s);
    } else {
        lemma_xml_chained(s.drop_last());
        assert(s =~= s.drop_last() + seq![s.last()]);
        lemma_chained_escape_concat(s.drop_last(), seq![s.last()]);
        lemma_chained_escape_char(s.last());
    }
}

/// The Unicode uppercase mapping of a string (`str::to_uppercase`).
pub uninterp spec fn unicode_uppercase(s: Seq<char>) -> Seq<char>;

/// Calls `str::to_uppercase`. The contract claims that the result is the
/// Unicode uppercase mapping of the argument, a function of the argument
/// alone, and that on ASCII text it raises exactly the letters `a`-`z` (as
/// `str::to_ascii_uppercase` does). What the mapping does to other characters
/// is not stated.
#[verifier::external_body]
fn uppercase(s: &str) -> (r: String)
    ensures
        r@ == unicode_uppercase(s@),
        is_ascii_chars(s@) ==> r@ == ascii_uppercase(s@),
{
    s.to_uppercase()
}

/// The text a text layer shows: its text with the variables filled in,
/// uppercased when the layer asks for it; nothing when that is empty.
pub open spec fn spec_layer_text(text: Seq<char>, vars: Seq<(Seq<char>, String)>, upper: bool) -> Option<Seq<char>> {
    let v = spec_substitute(text, vars);
    let shown = if upper { unicode_uppercase(v) } else { v };
    if shown.len() == 0 {
        None
    } else {
        Some(shown)
    }
}

/// The text a text layer shows, or nothing when the layer is to be skipped.
pub fn layer_text(text: &str, vars: &StrMap<String>, upper: bool) -> (r: Option<String>)
    ensures
        match r {
            Some(t) => spec_layer_text(text@, vars@, upper) == Some(t@),
            None => spec_layer_text(text@, vars@, upper) is None,
        },
        upper && is_ascii_chars(spec_substitute(text@, vars@)) && spec_substitute(text@, vars@).len() > 0
            ==> (r matches Some(t) && t@ == ascii_uppercase(spec_substitute(text@, vars@))),
{
    let mut value = substitute(text, vars);
    if upper {
        value = uppercase(value.as_str());
    }
    if value.as_str().is_empty() {
        None
    } else {
        Some(value)
    }
}

/// The source of an image layer with the variables filled in, or nothing
/// when that is empty and the layer is to be skipped.
pub fn image_source(source: &str, vars: &StrMap<String>) -> (r: Option<String>)
    ensures
        match r {
            Some(t) => t@ == spec_substitute(source@, vars@) && t@.len() > 0,
            None => spec_substitute(source@, vars@).len() == 0,
        },
{
    let resolved = substitute(source, vars);
    if resolved.as_str().is_empty() {
        None
    } else {
        Some(resolved)
    }
}

/// The SVG `text-anchor` that a template alignment selects.
pub open spec fn spec_text_anchor(align: Seq<char>) -> Seq<char> {
    if align == "center"@ {
        "middle"@
    } else if align == "right"@ {
        "end"@
    } else {
        "start"@
    }
}

/// Maps a template alignment (`center`, `right`, anything else) to the SVG
/// anchor `middle`, `end` or `start`.
pub fn text_anchor(align: &str) -> (r: &'static str)
    ensures
        r@ == spec_text_anchor(align@),
{
    let a = chars_of(align);
    let center = chars_of("center");
    let right = chars_of("right");
    if crate::text::chars_equal(&a, &center) {
        "middle"
    } else if crate::text::chars_equal(&a, &right) {
        "end"
    } else {
        "start"
    }
}

} // verus!
