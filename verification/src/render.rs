//! The rendering rules: where templates and outputs live, which canvas and
//! layers a requested format uses, what the rendered files are called, and
//! where an asset may be read from.
use vstd::prelude::*;
use crate::error::CoverError;
use crate::model::{Canvas, RenderedAsset, Template};
use crate::names::{all_id_chars, id_chars_only, safe_name, spec_safe_name, spec_valid_template_id, valid_template_id};
use crate::paths::{join, path_join};
use crate::strmap::{has_key, lookup};
use crate::text::{chars_equal, chars_of};

verus! {

/// `c` is a lowercase hexadecimal digit.
pub open spec fn is_lower_hex(c: char) -> bool {
    ('0' <= c && c <= '9') || ('a' <= c && c <= 'f')
}

/// `t` is a fresh-name token: 32 lowercase hexadecimal digits.
pub open spec fn is_token(t: Seq<char>) -> bool {
    t.len() == 32 && forall|i: int| 0 <= i < t.len() ==> is_lower_hex(#[trigger] t[i])
}

/// Calls `uuid::Uuid::new_v4` and formats it with `simple()`. The contract
/// claims only what holds of every outcome: 32 lowercase hexadecimal digits.
/// Which digits come out is random and not stated.
#[verifier::external_body]
fn fresh_token() -> (t: String)
    ensures
        is_token(t@),
{
    uuid::Uuid::new_v4().simple().to_string()
}

/// The non-empty pieces of `segs`, in order.
pub open spec fn nonempty_pieces(segs: Seq<Seq<char>>) -> Seq<Seq<char>>
    decreases segs.len(),
{
    if segs.len() == 0 {
        Seq::empty()
    } else {
        let rest = nonempty_pieces(segs.drop_last());
        if segs.last().len() > 0 {
            rest.push(segs.last())
        } else {
            rest
        }
    }
}

/// `a` followed by `b`, as a new string.
fn concat(a: &str, b: &str) -> (r: String)
    ensures
        r@ == a@ + b@,
{
    let mut s = a.to_owned();
    s.append(b);
    s
}

/// Where templates are read and written, where outputs go, which directories
/// assets may come from, and where extra fonts are.
pub struct Renderer {
    template_dir: String,
    output_dir: String,
    asset_roots: Vec<String>,
    font_dir: Option<String>,
}

impl Renderer {
    /// The template directory.
    pub closed spec fn template_dir_view(&self) -> Seq<char> {
        self.template_dir@
    }

    /// The output directory.
    pub closed spec fn output_dir_view(&self) -> Seq<char> {
        self.output_dir@
    }

    /// The allowed asset roots, in order.
    pub closed spec fn roots_view(&self) -> Seq<Seq<char>> {
        self.asset_roots@.map_values(|s: String| s@)
    }

    /// The extra font directory, if any.
    pub closed spec fn font_dir_view(&self) -> Option<Seq<char>> {
        match self.font_dir {
            Some(d) => Some(d@),
            None => None,
        }
    }

    /// A renderer over the given directories. `asset_roots` lists the allowed
    /// asset roots separated by `;`; empty entries are skipped.
    pub fn new(template_dir: String, output_dir: String, asset_roots: &str, font_dir: Option<String>) -> (r: Self)
        ensures
            r.template_dir_view() == template_dir@,
            r.output_dir_view() == output_dir@,
            r.roots_view() == nonempty_pieces(crate::paths::split_at_char(asset_roots@, ';')),
            r.font_dir_view() == (match font_dir {
                Some(d) => Some(d@),
                None => None::<Seq<char>>,
            }),
    {
        let pieces = crate::paths::split_on(&chars_of(asset_roots), ';');
        let ghost segs = crate::paths::split_at_char(asset_roots@, ';');
        let mut roots: Vec<String> = Vec::new();
        let mut i: usize = 0;
        assert(segs.take(0) =~= Seq::<Seq<char>>::empty());
        assert(roots@.map_values(|s: String| s@) =~= Seq::<Seq<char>>::empty());
        while i < pieces.len()
            invariant
                i <= pieces.len(),
                pieces@.len() == segs.len(),
                forall|j: int| 0 <= j < pieces@.len() ==> #[trigger] pieces@[j]@ == segs[j],
                roots@.map_values(|s: String| s@) == nonempty_pieces(segs.take(i as int)),
            decreases pieces.len() - i,
        {
            assert(segs.take(i + 1).drop_last() =~= segs.take(i as int));
            let ghost prev = roots@.map_values(|s: String| s@);
            if pieces[i].len() > 0 {
                roots.push(crate::text::string_of(pieces[i].as_slice()));
                assert(roots@.map_values(|s: String| s@) =~= prev.push(segs[i as int]));
            }
            i += 1;
        }
        assert(segs.take(pieces.len() as int) =~= segs);
        Renderer { template_dir, output_dir, asset_roots: roots, font_dir }
    }

    /// The directory rendered files are written to.
    pub fn output_dir(&self) -> (r: &str)
        ensures
            r@ == self.output_dir_view(),
    {
        self.output_dir.as_str()
    }

    /// The directory templates are read from and saved to.
    pub fn template_dir(&self) -> (r: &str)
        ensures
            r@ == self.template_dir_view(),
    {
        self.template_dir.as_str()
    }

    /// The extra font directory, if one was given.
    pub fn font_dir(&self) -> (r: Option<&str>)
        ensures
            match r {
                Some(d) => self.font_dir_view() == Some(d@),
                None => self.font_dir_view() is None,
            },
    {
        match &self.font_dir {
            Some(d) => Some(d.as_str()),
            None => None,
        }
    }

    /// The allowed asset roots.
    pub fn asset_roots(&self) -> (r: &Vec<String>)
        ensures
            r@.map_values(|s: String| s@) == self.roots_view(),
    {
        &self.asset_roots
    }

    /// The file a template id is read from: `{template_dir}/{id}.json`, for an
    /// id made only of `[A-Za-z0-9_-]` (the empty id included).
    pub fn template_path(&self, id: &str) -> (r: Result<String, CoverError>)
        ensures
            match r {
                Ok(p) => all_id_chars(id@) && p@ == path_join(self.template_dir_view(), id@ + ".json"@),
                Err(e) => !all_id_chars(id@) && e == CoverError::InvalidTemplateId,
            },
    {
        if !id_chars_only(&chars_of(id)) {
            return Err(CoverError::InvalidTemplateId);
        }
        let name = concat(id, ".json");
        Ok(join(self.template_dir.as_str(), name.as_str()))
    }

    /// The file a template is saved to, for a valid id that matches the id in
    /// the template body.
    pub fn save_target(&self, id: &str, body_id: &str) -> (r: Result<String, CoverError>)
        ensures
            match r {
                Ok(p) => spec_valid_template_id(id@) && id@ == body_id@
                    && p@ == path_join(self.template_dir_view(), id@ + ".json"@),
                Err(e) => if !spec_valid_template_id(id@) {
                    e == CoverError::InvalidTemplateId
                } else {
                    id@ != body_id@ && (e matches CoverError::TemplateIdMismatch { path, body }
                        && path@ == id@ && body@ == body_id@)
                },
            },
    {
        if !valid_template_id(id) {
            return Err(CoverError::InvalidTemplateId);
        }
        if !chars_equal(&chars_of(id), &chars_of(body_id)) {
            return Err(CoverError::TemplateIdMismatch { path: id.to_owned(), body: body_id.to_owned() });
        }
        let name = concat(id, ".json");
        Ok(join(self.template_dir.as_str(), name.as_str()))
    }

    /// The scratch file a template is first written to before it replaces the
    /// saved one: `{template_dir}/.{id}.json.tmp-{token}`.
    pub fn temp_template_path(&self, id: &str, token: &str) -> (r: String)
        ensures
            r@ == path_join(self.template_dir_view(), "."@ + id@ + ".json.tmp-"@ + token@),
    {
        let a = concat(".", id);
        let b = concat(a.as_str(), ".json.tmp-");
        let c = concat(b.as_str(), token);
        join(self.template_dir.as_str(), c.as_str())
    }

    /// The saved file of a template and a fresh scratch file beside it, for a
    /// valid id that matches the id in the body.
    pub fn save_paths(&self, id: &str, body_id: &str) -> (r: Result<(String, String), CoverError>)
        ensures
            match r {
                Ok((target, tmp)) => spec_valid_template_id(id@) && id@ == body_id@
                    && target@ == path_join(self.template_dir_view(), id@ + ".json"@)
                    && exists|t: Seq<char>| is_token(t)
                        && tmp@ == path_join(self.template_dir_view(), "."@ + id@ + ".json.tmp-"@ + t),
                Err(e) => if !spec_valid_template_id(id@) {
                    e == CoverError::InvalidTemplateId
                } else {
                    id@ != body_id@ && (e matches CoverError::TemplateIdMismatch { path, body }
                        && path@ == id@ && body@ == body_id@)
                },
            },
    {
        let target = self.save_target(id, body_id)?;
        let token = fresh_token();
        let tmp = self.temp_template_path(id, token.as_str());
        Ok((target, tmp))
    }
}

// ---------------------------------------------------------------------------
// Formats
// ---------------------------------------------------------------------------

/// The canvas and layers a template gives a requested format name: a named
/// format wins; a template with named formats knows no other name; otherwise
/// `default` is the base canvas and a variant name picks a canvas for the
/// base layers.
pub fn resolve_format<'a, L>(template: &'a Template<L>, variant: &str) -> (r: Result<(&'a Canvas, &'a Vec<L>), CoverError>)
    ensures
        match r {
            Ok((canvas, layers)) => {
                if has_key(template.formats@, variant@) {
                    lookup(template.formats@, variant@)->0.canvas == *canvas
                        && lookup(template.formats@, variant@)->0.layers == *layers
                } else {
                    template.formats@.len() == 0 && *layers == template.layers && if variant@ == "default"@ {
                        *canvas == template.canvas
                    } else {
                        lookup(template.variants@, variant@) == Some(*canvas)
                    }
                }
            },
            Err(e) => !has_key(template.formats@, variant@) && if template.formats@.len() > 0 {
                e matches CoverError::UnknownFormat(v) && v@ == variant@
            } else {
                variant@ != "default"@ && !has_key(template.variants@, variant@)
                    && (e matches CoverError::UnknownVariant(v) && v@ == variant@)
            },
        },
{
    if let Some(format) = template.formats.get(variant) {
        return Ok((&format.canvas, &format.layers));
    }
    if !template.formats.is_empty() {
        return Err(CoverError::UnknownFormat(variant.to_owned()));
    }
    if chars_equal(&chars_of(variant), &chars_of("default")) {
        return Ok((&template.canvas, &template.layers));
    }
    match template.variants.get(variant) {
        Some(canvas) => Ok((canvas, &template.layers)),
        None => Err(CoverError::UnknownVariant(variant.to_owned())),
    }
}

/// The formats a render request asks for: the requested ones, or when it
/// names none, every named format of the template, else `default` when the
/// template has no variants, else every variant.
pub open spec fn spec_render_variants<L>(requested: Seq<Seq<char>>, template: Template<L>) -> Seq<Seq<char>> {
    if requested.len() > 0 {
        requested
    } else if template.formats@.len() > 0 {
        template.formats@.map_values(|e: (Seq<char>, crate::model::FormatTemplate<L>)| e.0)
    } else if template.variants@.len() == 0 {
        seq!["default"@]
    } else {
        template.variants@.map_values(|e: (Seq<char>, Canvas)| e.0)
    }
}

/// Whether a format name resolves in a template (see [`resolve_format`]).
pub open spec fn resolves<L>(template: Template<L>, variant: Seq<char>) -> bool {
    has_key(template.formats@, variant)
        || (template.formats@.len() == 0 && (variant == "default"@ || has_key(template.variants@, variant)))
}

/// Lists the formats to render for a request (see [`spec_render_variants`]).
pub fn render_variants<L>(requested: &Vec<String>, template: &Template<L>) -> (r: Vec<String>)
    ensures
        r@.map_values(|s: String| s@) == spec_render_variants(requested@.map_values(|s: String| s@), *template),
{
    if requested.len() > 0 {
        let out = crate::text::copy_strings(requested);
        assert(out@.map_values(|s: String| s@) == crate::text::string_views(out@));
        assert(requested@.map_values(|s: String| s@) == crate::text::string_views(requested@));
        out
    } else if !template.formats.is_empty() {
        let keys = template.formats.keys();
        assert(keys@.map_values(|s: String| s@) =~= template.formats@.map_values(|e: (Seq<char>, crate::model::FormatTemplate<L>)| e.0));
        keys
    } else if template.variants.is_empty() {
        let mut out: Vec<String> = Vec::new();
        out.push("default".to_owned());
        assert(out@.map_values(|s: String| s@) =~= seq!["default"@]);
        out
    } else {
        let keys = template.variants.keys();
        assert(keys@.map_values(|s: String| s@) =~= template.variants@.map_values(|e: (Seq<char>, Canvas)| e.0));
        keys
    }
}

/// When a request names no format, every format chosen for it resolves: a
/// default render of a template never asks for a format the template lacks.
pub proof fn lemma_default_variants_resolve<L>(template: Template<L>, i: int)
    requires
        0 <= i < spec_render_variants(Seq::<Seq<char>>::empty(), template).len(),
    ensures
        resolves(template, spec_render_variants(Seq::<Seq<char>>::empty(), template)[i]),
{
    let vs = spec_render_variants(Seq::<Seq<char>>::empty(), template);
    if template.formats@.len() > 0 {
        assert(vs[i] == template.formats@[i].0);
    } else if template.variants@.len() > 0 {
        assert(vs[i] == template.variants@[i].0);
    }
}

// ---------------------------------------------------------------------------
// Output names
// ---------------------------------------------------------------------------

/// The stem of a request's output files from a fresh token: the requested
/// stem sanitised, or the sanitised template id, a dash and the token.
pub open spec fn spec_render_stem(output_stem: Option<Seq<char>>, template_id: Seq<char>, token: Seq<char>) -> Seq<char> {
    match output_stem {
        Some(s) => spec_safe_name(s),
        None => spec_safe_name(template_id) + "-"@ + token,
    }
}

/// The stem of a request's output files, given the token to use when the
/// request names no stem.
pub fn render_stem(output_stem: Option<&str>, template_id: &str, token: &str) -> (r: String)
    ensures
        r@ == spec_render_stem(
            match output_stem {
                Some(s) => Some(s@),
                None => None,
            },
            template_id@,
            token@,
        ),
{
    match output_stem {
        Some(s) => safe_name(s),
        None => {
            let a = safe_name(template_id);
            let b = concat(a.as_str(), "-");
            concat(b.as_str(), token)
        },
    }
}

/// The stem of a request's output files: the requested stem sanitised, or
/// the sanitised template id followed by a dash and a fresh random token.
pub fn choose_stem(output_stem: Option<&str>, template_id: &str) -> (r: String)
    ensures
        match output_stem {
            Some(s) => r@ == spec_safe_name(s@),
            None => exists|t: Seq<char>| is_token(t) && r@ == spec_safe_name(template_id@) + "-"@ + t,
        },
{
    match output_stem {
        Some(s) => render_stem(Some(s), template_id, ""),
        None => {
            let token = fresh_token();
            render_stem(None, template_id, token.as_str())
        },
    }
}

/// The file name of one rendered format: `{stem}-{safe variant}.png`.
pub open spec fn variant_filename(stem: Seq<char>, variant: Seq<char>) -> Seq<char> {
    stem + "-"@ + spec_safe_name(variant) + ".png"@
}

impl Renderer {
    /// The record of a file rendered under `filename` for `variant` on `canvas`:
    /// its path in the output directory and its URL under `/outputs/`.
    pub fn asset_record(&self, variant: String, canvas: &Canvas, filename: String) -> (r: RenderedAsset)
        ensures
            r.variant == variant,
            r.width == canvas.width,
            r.height == canvas.height,
            r.filename@ == filename@,
            r.path@ == path_join(self.output_dir_view(), filename@),
            r.url@ == "/outputs/"@ + filename@,
    {
        let path = join(self.output_dir.as_str(), filename.as_str());
        let url = concat("/outputs/", filename.as_str());
        RenderedAsset { variant, width: canvas.width, height: canvas.height, filename, path, url }
    }

    /// The record of one format of a render request: the file
    /// `{stem}-{safe variant}.png` in the output directory.
    pub fn variant_asset(&self, stem: &str, variant: String, canvas: &Canvas) -> (r: RenderedAsset)
        ensures
            r.variant == variant,
            r.width == canvas.width,
            r.height == canvas.height,
            r.filename@ == variant_filename(stem@, variant@),
            r.path@ == path_join(self.output_dir_view(), variant_filename(stem@, variant@)),
            r.url@ == "/outputs/"@ + variant_filename(stem@, variant@),
    {
        let a = concat(stem, "-");
        let sv = safe_name(variant.as_str());
        let b = concat(a.as_str(), sv.as_str());
        let filename = concat(b.as_str(), ".png");
        self.asset_record(variant, canvas, filename)
    }

    /// The scratch PNG a JPEG output is rasterised to first, for a given token:
    /// `{output_dir}/.{token}.png`.
    pub fn scratch_png_path(&self, token: &str) -> (r: String)
        ensures
            r@ == path_join(self.output_dir_view(), "."@ + token@ + ".png"@),
    {
        let a = concat(".", token);
        let b = concat(a.as_str(), ".png");
        join(self.output_dir.as_str(), b.as_str())
    }

    /// A fresh scratch PNG path in the output directory.
    pub fn fresh_scratch_png_path(&self) -> (r: String)
        ensures
            exists|t: Seq<char>| is_token(t) && r@ == path_join(self.output_dir_view(), "."@ + t + ".png"@),
    {
        let token = fresh_token();
        self.scratch_png_path(token.as_str())
    }
}

// ---------------------------------------------------------------------------
// Assets
// ---------------------------------------------------------------------------

/// Asset paths as an automation host sees them (`/host/srv/storage/...`) are
/// read under `/srv/storage/...`; any other path is kept.
pub open spec fn spec_translate_host_path(raw: Seq<char>) -> Seq<char> {
    let p = "/host/srv/storage/"@;
    if crate::text::starts_with(raw, p) {
        "/srv/storage/"@ + raw.skip(p.len() as int)
    } else {
        raw
    }
}

/// Rewrites an automation host's `/host/srv/storage/` path to `/srv/storage/`.
pub fn translate_host_path(raw: &str) -> (r: String)
    ensures
        r@ == spec_translate_host_path(raw@),
{
    let cs = chars_of(raw);
    let p = chars_of("/host/srv/storage/");
    assert(cs@.skip(0) =~= cs@);
    if crate::text::chars_match_at(&cs, 0, &p) {
        let tail = crate::text::string_of_range(&cs, p.len(), cs.len());
        assert(cs@.subrange(p.len() as int, cs.len() as int) =~= raw@.skip(p@.len() as int));
        concat("/srv/storage/", tail.as_str())
    } else {
        raw.to_owned()
    }
}

/// The places an asset is looked for: its translated path when absolute,
/// otherwise that path under each allowed root, in order.
pub open spec fn spec_asset_candidates(roots: Seq<Seq<char>>, raw: Seq<char>) -> Seq<Seq<char>> {
    let t = spec_translate_host_path(raw);
    if t.len() > 0 && t[0] == '/' {
        seq![t]
    } else {
        roots.map_values(|r: Seq<char>| path_join(r, t))
    }
}

/// `c` lies under one of the roots, component by component.
pub open spec fn within_some_root(c: Seq<char>, roots: Seq<Seq<char>>) -> bool {
    exists|j: int| 0 <= j < roots.len() && crate::paths::path_starts_with(c, #[trigger] roots[j])
}

/// The first existing candidate (given by its canonical path) that lies under
/// an allowed root.
pub open spec fn first_allowed(probes: Seq<Option<Seq<char>>>, roots: Seq<Seq<char>>) -> Option<Seq<char>>
    decreases probes.len(),
{
    if probes.len() == 0 {
        None
    } else {
        match probes[0] {
            Some(c) => if within_some_root(c, roots) {
                Some(c)
            } else {
                first_allowed(probes.drop_first(), roots)
            },
            None => first_allowed(probes.drop_first(), roots),
        }
    }
}

/// The canonical paths held by a list of probes.
pub open spec fn probe_views(probes: Seq<Option<String>>) -> Seq<Option<Seq<char>>> {
    probes.map_values(|p: Option<String>| match p {
        Some(c) => Some(c@),
        None => None::<Seq<char>>,
    })
}

/// Whether a canonical path lies under one of the given (canonical) roots.
pub fn within_roots(canonical: &str, roots: &Vec<String>) -> (r: bool)
    ensures
        r == within_some_root(canonical@, crate::text::string_views(roots@)),
{
    let ghost rs = crate::text::string_views(roots@);
    let mut j: usize = 0;
    while j < roots.len()
        invariant
            j <= roots.len(),
            rs == crate::text::string_views(roots@),
            forall|q: int| 0 <= q < j ==> !crate::paths::path_starts_with(canonical@, #[trigger] rs[q]),
        decreases roots.len() - j,
    {
        if crate::paths::starts_with_path(canonical, roots[j].as_str()) {
            assert(rs[j as int] == roots@[j as int]@);
            return true;
        }
        j += 1;
    }
    false
}

impl Renderer {
    /// Where an asset named `raw` is looked for (see [`spec_asset_candidates`]).
    pub fn asset_candidates(&self, raw: &str) -> (r: Vec<String>)
        ensures
            crate::text::string_views(r@) == spec_asset_candidates(self.roots_view(), raw@),
    {
        let t = translate_host_path(raw);
        let tc = chars_of(t.as_str());
        let mut out: Vec<String> = Vec::new();
        if tc.len() > 0 && tc[0] == '/' {
            out.push(t);
            assert(crate::text::string_views(out@) =~= seq![t@]);
            return out;
        }
        let ghost rv = self.roots_view();
        let mut i: usize = 0;
        while i < self.asset_roots.len()
            invariant
                i <= self.asset_roots@.len(),
                rv == self.roots_view(),
                rv == self.asset_roots@.map_values(|s: String| s@),
                out@.len() == i,
                forall|j: int| 0 <= j < i ==> #[trigger] out@[j]@ == path_join(rv[j], t@),
            decreases self.asset_roots@.len() - i,
        {
            out.push(join(self.asset_roots[i].as_str(), t.as_str()));
            i += 1;
        }
        assert(crate::text::string_views(out@) =~= rv.map_values(|r: Seq<char>| path_join(r, t@)));
        out
    }

    /// The file an asset is read from. `probes` gives, for each candidate of
    /// [`Renderer::asset_candidates`] in order, its canonical path when it
    /// exists; `canonical_roots` are the allowed roots in canonical form. The
    /// first existing candidate under an allowed root wins.
    pub fn resolve_asset(&self, raw: &str, probes: &Vec<Option<String>>, canonical_roots: &Vec<String>) -> (r: Result<String, CoverError>)
        ensures
            match r {
                Ok(c) => first_allowed(probe_views(probes@), crate::text::string_views(canonical_roots@)) == Some(c@),
                Err(e) => first_allowed(probe_views(probes@), crate::text::string_views(canonical_roots@)) is None
                    && (e matches CoverError::AssetNotFound(x) && x@ == raw@),
            },
    {
        let ghost ps = probe_views(probes@);
        let ghost rs = crate::text::string_views(canonical_roots@);
        let mut i: usize = 0;
        assert(ps.skip(0) =~= ps);
        while i < probes.len()
            invariant
                i <= probes.len(),
                ps == probe_views(probes@),
                ps.len() == probes@.len(),
                forall|j: int| 0 <= j < ps.len() ==> #[trigger] ps[j] == match probes@[j] {
                    Some(c) => Some(c@),
                    None => None::<Seq<char>>,
                },
                rs == crate::text::string_views(canonical_roots@),
                first_allowed(ps, rs) == first_allowed(ps.skip(i as int), rs),
            decreases probes.len() - i,
        {
            assert(ps.skip(i as int)[0] == ps[i as int]);
            assert(ps.skip(i as int).drop_first() =~= ps.skip(i + 1));
            match &probes[i] {
                Some(c) => {
                    if within_roots(c.as_str(), canonical_roots) {
                        assert(ps[i as int] == Some(c@));
                        assert(first_allowed(ps.skip(i as int), rs) == Some(c@));
                        return Ok(c.clone());
                    }
                },
                None => {},
            }
            i += 1;
        }
        assert(ps.skip(i as int).len() == 0);
        Err(CoverError::AssetNotFound(raw.to_owned()))
    }
}

// ---------------------------------------------------------------------------
// Laws
// ---------------------------------------------------------------------------

proof fn lemma_join_prefix(d: Seq<char>, x: Seq<char>)
    requires
        x.len() == 0 || x[0] != '/',
    ensures
        path_join(d, x) == (if d.len() == 0 || d.last() == '/' { d } else { d + seq!['/'] }) + x,
{
    if !(d.len() == 0 || d.last() == '/') {
        assert(d + seq!['/'] + x =~= (d + seq!['/']) + x);
    }
}

proof fn lemma_join_injective(d: Seq<char>, x: Seq<char>, y: Seq<char>)
    requires
        x.len() == 0 || x[0] != '/',
        y.len() == 0 || y[0] != '/',
        path_join(d, x) == path_join(d, y),
    ensures
        x == y,
{
    lemma_join_prefix(d, x);
    lemma_join_prefix(d, y);
    let pre = if d.len() == 0 || d.last() == '/' { d } else { d + seq!['/'] };
    assert((pre + x).skip(pre.len() as int) =~= x);
    assert((pre + y).skip(pre.len() as int) =~= y);
}

/// Different template ids are stored in different files: one show, one file.
pub proof fn lemma_one_file_per_template(template_dir: Seq<char>, a: Seq<char>, b: Seq<char>)
    requires
        all_id_chars(a),
        all_id_chars(b),
        a != b,
    ensures
        path_join(template_dir, a + ".json"@) != path_join(template_dir, b + ".json"@),
{
    reveal_strlit(".json");
    let x = a + ".json"@;
    let y = b + ".json"@;
    assert(x[0] != '/') by {
        if a.len() > 0 {
            assert(x[0] == a[0]);
        }
    }
    assert(y[0] != '/') by {
        if b.len() > 0 {
            assert(y[0] == b[0]);
        }
    }
    if path_join(template_dir, x) == path_join(template_dir, y) {
        lemma_join_injective(template_dir, x, y);
        assert(x.take(a.len() as int) =~= a);
        assert(y.take(b.len() as int) =~= b);
    }
}

/// A template is saved through a scratch file that is never the saved file
/// itself, so a save replaces the template in one step.
pub proof fn lemma_scratch_is_not_target(template_dir: Seq<char>, id: Seq<char>, token: Seq<char>)
    requires
        spec_valid_template_id(id),
        is_token(token),
    ensures
        path_join(template_dir, "."@ + id + ".json.tmp-"@ + token) != path_join(template_dir, id + ".json"@),
{
    reveal_strlit(".");
    reveal_strlit(".json");
    reveal_strlit(".json.tmp-");
    let x = "."@ + id + ".json.tmp-"@ + token;
    let y = id + ".json"@;
    assert(x[0] == '.');
    assert(y[0] == id[0]);
    if path_join(template_dir, x) == path_join(template_dir, y) {
        lemma_join_injective(template_dir, x, y);
        assert(x.len() != y.len());
    }
}

/// An asset is only ever read from under an allowed root.
pub proof fn lemma_resolved_asset_within_roots(probes: Seq<Option<Seq<char>>>, roots: Seq<Seq<char>>, c: Seq<char>)
    requires
        first_allowed(probes, roots) == Some(c),
    ensures
        within_some_root(c, roots),
    decreases probes.len(),
{
    if probes.len() > 0 {
        match probes[0] {
            Some(p) => {
                if !within_some_root(p, roots) {
                    lemma_resolved_asset_within_roots(probes.drop_first(), roots, c);
                }
            },
            None => {
                lemma_resolved_asset_within_roots(probes.drop_first(), roots, c);
            },
        }
    }
}

/// The stem of a request's files holds only `[A-Za-z0-9_-]`.
pub proof fn lemma_stem_is_safe(output_stem: Option<Seq<char>>, template_id: Seq<char>, token: Seq<char>)
    requires
        is_token(token),
    ensures
        all_id_chars(spec_render_stem(output_stem, template_id, token)),
{
    reveal_strlit("-");
    crate::names::lemma_safe_name_is_safe(template_id);
    if let Some(s) = output_stem {
        crate::names::lemma_safe_name_is_safe(s);
    } else {
        let a = spec_safe_name(template_id);
        let r = a + "-"@ + token;
        assert forall|i: int| 0 <= i < r.len() implies crate::names::is_id_char(#[trigger] r[i]) by {
            if i < a.len() {
                assert(r[i] == a[i]);
            } else if i == a.len() {
                assert(r[i] == '-');
            } else {
                assert(r[i] == token[i - a.len() - 1]);
            }
        }
    }
}

/// Every file name a render gives a format from a safe stem is one that the
/// output file name check accepts as it is.
pub proof fn lemma_variant_filename_is_safe(stem: Seq<char>, variant: Seq<char>)
    requires
        all_id_chars(stem),
    ensures
        crate::filenames::output_name_check(variant_filename(stem, variant))
            == Ok::<Seq<char>, CoverError>(variant_filename(stem, variant)),
{
    reveal_strlit("-");
    reveal_strlit(".png");
    reveal_strlit("png");
    let sv = spec_safe_name(variant);
    crate::names::lemma_safe_name_is_safe(variant);
    let head = stem + "-"@ + sv;
    let n = head + ".png"@;
    assert(n == variant_filename(stem, variant));
    assert forall|i: int| 0 <= i < n.len() implies crate::filenames::is_output_name_char(#[trigger] n[i]) by {
        if i < stem.len() {
            assert(n[i] == stem[i]);
            assert(crate::names::is_id_char(stem[i]));
        } else if i == stem.len() {
            assert(n[i] == '-');
        } else if i < head.len() {
            assert(n[i] == sv[i - stem.len() - 1]);
            assert(crate::names::is_id_char(sv[i - stem.len() - 1]));
        } else {
            assert(n[i] == ".png"@[i - head.len()]);
        }
    }
    assert forall|i: int| 0 <= i < n.len() implies n[i] != '/' by {
        assert(crate::filenames::is_output_name_char(n[i]));
    }
    assert(n != crate::paths::dot() && n != crate::paths::dot_dot()) by {
        assert(n.len() >= 5);
    }
    crate::filenames::lemma_plain_name_is_file_name(n);
    // The extension is `png`: the last `.` is the one before it.
    let k = head.len() as int;
    let n1 = n.drop_last();
    let n2 = n1.drop_last();
    let n3 = n2.drop_last();
    assert(n3 =~= head + seq!['.']);
    assert(n.last() == 'g' && n1.last() == 'n' && n2.last() == 'p');
    assert(crate::paths::last_dot(n3) == k);
    assert(crate::paths::last_dot(n2) == k);
    assert(crate::paths::last_dot(n1) == k);
    assert(crate::paths::last_dot(n) == k);
    assert(n.skip(k + 1) =~= "png"@);
    assert(crate::text::ascii_lowercase("png"@) =~= "png"@);
}

} // verus!
