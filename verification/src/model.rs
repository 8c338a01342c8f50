//! The data of a show style and of render requests and their results.
//!
//! A template is generic over its layer type `L`: layers carry fractional
//! geometry that the composition code reads, while the rules here only
//! choose which list of layers and which canvas a format uses.
use vstd::prelude::*;
use crate::strmap::StrMap;
use crate::text::{chars_equal, chars_of};

verus! {

/// The pixel size and background colour of one output.
pub struct Canvas {
    pub width: u32,
    pub height: u32,
    pub background: String,
}

/// The visual identity of a show: name, summary, palette, fonts, notes.
pub struct BrandStyle {
    pub display_name: String,
    pub visual_summary: String,
    pub palette: StrMap<String>,
    pub fonts: StrMap<String>,
    pub notes: Vec<String>,
}

impl Default for BrandStyle {
    fn default() -> (b: Self)
        ensures
            b.display_name@ == Seq::<char>::empty(),
            b.visual_summary@ == Seq::<char>::empty(),
            b.palette@.len() == 0,
            b.fonts@.len() == 0,
            b.notes@.len() == 0,
    {
        BrandStyle {
            display_name: String::new(),
            visual_summary: String::new(),
            palette: StrMap::new(),
            fonts: StrMap::new(),
            notes: Vec::new(),
        }
    }
}

/// One named output layout: its canvas and its layers.
pub struct FormatTemplate<L> {
    pub canvas: Canvas,
    pub layers: Vec<L>,
}

/// A show style: a base canvas and layers, optional canvas-only variants of
/// the base, the brand, and named formats that each carry their own layers.
pub struct Template<L> {
    pub version: u32,
    pub id: String,
    pub canvas: Canvas,
    pub variants: StrMap<Canvas>,
    pub layers: Vec<L>,
    pub brand: BrandStyle,
    pub formats: StrMap<FormatTemplate<L>>,
}

/// A request to render some formats of a template.
pub struct RenderRequest {
    pub template: String,
    pub variables: StrMap<String>,
    pub variants: Vec<String>,
    pub output_stem: Option<String>,
}

/// A field value of a legacy automation request: a string, null, or any
/// other JSON value, held as its compact JSON text.
pub enum FieldValue {
    Text(String),
    Null,
    Json(String),
}

/// A request of the legacy `/api/generate` adapter.
pub struct LegacyGenerateRequest {
    pub template_name: String,
    pub output_filename: String,
    pub bg_image: String,
    pub fields: StrMap<FieldValue>,
}

/// One rendered file.
pub struct RenderedAsset {
    pub variant: String,
    pub width: u32,
    pub height: u32,
    pub filename: String,
    pub path: String,
    pub url: String,
}

/// The answer to a render request.
pub struct RenderResponse {
    pub ok: bool,
    pub template: String,
    pub assets: Vec<RenderedAsset>,
}

/// The background of a canvas that names none.
pub fn default_background() -> (r: String)
    ensures
        r@ == "#000000"@,
{
    "#000000".to_owned()
}

/// How an image layer that names no fit fills its frame: the whole image is
/// shown inside the frame (`"contain"`). An image is cropped only when its
/// layer asks for `"cover"`.
pub fn default_fit() -> (r: String)
    ensures
        r@ == "contain"@,
        !spec_crops(r@),
{
    proof {
        reveal_strlit("contain");
        reveal_strlit("cover");
        assert("contain"@.len() != "cover"@.len());
    }
    "contain".to_owned()
}

/// Whether an image layer with this fit is cropped to fill its frame: only
/// `"cover"` crops; every other fit shows the whole image.
pub open spec fn spec_crops(fit: Seq<char>) -> bool {
    fit == "cover"@
}

/// Decides [`spec_crops`] for a fit read from a template.
pub fn crops_image(fit: &str) -> (r: bool)
    ensures
        r == spec_crops(fit@),
{
    let cover = chars_of("cover");
    let f = chars_of(fit);
    proof {
        reveal_strlit("cover");
    }
    chars_equal(&f, &cover)
}

/// The font family of a text layer that names none.
pub fn default_font_family() -> (r: String)
    ensures
        r@ == "League Spartan"@,
{
    "League Spartan".to_owned()
}

/// The font weight of a text layer that names none.
pub fn default_font_weight() -> (r: u16)
    ensures
        r == 700,
{
    700
}

/// The colour of a text layer that names none.
pub fn default_text_color() -> (r: String)
    ensures
        r@ == "#ffffff"@,
{
    "#ffffff".to_owned()
}

/// The alignment of a text layer that names none.
pub fn default_align() -> (r: String)
    ensures
        r@ == "left"@,
{
    "left".to_owned()
}

} // verus!
