//! CoverForge: deterministic composition rules for podcast covers and social
//! thumbnails. This crate holds the verified core: naming and filename rules,
//! template and format resolution, variable substitution, markup escaping,
//! text wrapping, font catalogue assembly and the JPEG size budget search.
pub mod error;
pub mod filenames;
pub mod fonts;
pub mod legacy;
pub mod markup;
pub mod media;
pub mod model;
pub mod names;
pub mod order;
pub mod paths;
pub mod render;
pub mod strmap;
pub mod svg;
pub mod text;
pub mod wrap;

pub use error::CoverError;
pub use filenames::{safe_font_filename, safe_output_filename, template_ids};
pub use legacy::{legacy_variables, n8n_path, value_to_string};
pub use markup::{substitute, text_anchor, xml};
pub use model::{
    BrandStyle, Canvas, FieldValue, FormatTemplate, LegacyGenerateRequest, RenderRequest,
    RenderResponse, RenderedAsset, Template,
};
pub use names::{legacy_template_parts, safe_name, template_slug, valid_template_id};
pub use render::{resolve_format, Renderer};
pub use strmap::StrMap;
pub use wrap::wrap_lines;
