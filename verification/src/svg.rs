//! The SVG elements of a composed cover. Numbers arrive already formatted
//! (their layout is computed in floating point by the caller); every text that
//! comes from a template or a request goes through [`xml`] before it enters
//! the markup.
use vstd::prelude::*;
use crate::markup::{spec_text_anchor, spec_xml, text_anchor, xml};
use crate::text::push_char;

verus! {

/// ` name="value"`.
pub open spec fn spec_attr(name: Seq<char>, value: Seq<char>) -> Seq<char> {
    seq![' '] + name + seq!['=', '"'] + value + seq!['"']
}

fn push_attr(s: &mut String, name: &str, value: &str)
    ensures
        final(s)@ == old(s)@ + spec_attr(name@, value@),
{
    push_char(s, ' ');
    s.append(name);
    push_char(s, '=');
    push_char(s, '"');
    s.append(value);
    push_char(s, '"');
}

/// The background: a rectangle over the whole canvas in the escaped colour.
pub open spec fn spec_background(fill: Seq<char>) -> Seq<char> {
    "<rect"@ + spec_attr("width"@, "100%"@) + spec_attr("height"@, "100%"@) + spec_attr("fill"@, spec_xml(fill))
        + "/>"@
}

/// Builds [`spec_background`].
pub fn svg_background(fill: &str) -> (r: String)
    ensures
        r@ == spec_background(fill@),
{
    let mut s = "<rect".to_owned();
    push_attr(&mut s, "width", "100%");
    push_attr(&mut s, "height", "100%");
    let f = xml(fill);
    push_attr(&mut s, "fill", f.as_str());
    s.append("/>");
    s
}

/// A rectangle layer: position, size and corner radius as given, the fill
/// colour escaped.
pub open spec fn spec_rect(
    x: Seq<char>,
    y: Seq<char>,
    w: Seq<char>,
    h: Seq<char>,
    radius: Seq<char>,
    fill: Seq<char>,
    opacity: Seq<char>,
) -> Seq<char> {
    "<rect"@ + spec_attr("x"@, x) + spec_attr("y"@, y) + spec_attr("width"@, w) + spec_attr("height"@, h)
        + spec_attr("rx"@, radius) + spec_attr("fill"@, spec_xml(fill)) + spec_attr("opacity"@, opacity) + "/>"@
}

/// Builds [`spec_rect`].
pub fn svg_rect(x: &str, y: &str, w: &str, h: &str, radius: &str, fill: &str, opacity: &str) -> (r: String)
    ensures
        r@ == spec_rect(x@, y@, w@, h@, radius@, fill@, opacity@),
{
    let mut s = "<rect".to_owned();
    push_attr(&mut s, "x", x);
    push_attr(&mut s, "y", y);
    push_attr(&mut s, "width", w);
    push_attr(&mut s, "height", h);
    push_attr(&mut s, "rx", radius);
    let f = xml(fill);
    push_attr(&mut s, "fill", f.as_str());
    push_attr(&mut s, "opacity", opacity);
    s.append("/>");
    s
}

/// An image layer: position, size and opacity as given, and the picture as a
/// data URI (Base64 text, which holds no markup character).
pub open spec fn spec_image(
    x: Seq<char>,
    y: Seq<char>,
    w: Seq<char>,
    h: Seq<char>,
    opacity: Seq<char>,
    href: Seq<char>,
) -> Seq<char> {
    "<image"@ + spec_attr("x"@, x) + spec_attr("y"@, y) + spec_attr("width"@, w) + spec_attr("height"@, h)
        + spec_attr("opacity"@, opacity) + spec_attr("href"@, href) + "/>"@
}

/// Builds [`spec_image`].
pub fn svg_image(x: &str, y: &str, w: &str, h: &str, opacity: &str, href: &str) -> (r: String)
    ensures
        r@ == spec_image(x@, y@, w@, h@, opacity@, href@),
{
    let mut s = "<image".to_owned();
    push_attr(&mut s, "x", x);
    push_attr(&mut s, "y", y);
    push_attr(&mut s, "width", w);
    push_attr(&mut s, "height", h);
    push_attr(&mut s, "opacity", opacity);
    push_attr(&mut s, "href", href);
    s.append("/>");
    s
}

/// The outline attributes of a text layer that has a stroke colour.
pub open spec fn spec_stroke(color: Seq<char>, width: Seq<char>) -> Seq<char> {
    spec_attr("stroke"@, spec_xml(color)) + spec_attr("stroke-width"@, width) + spec_attr("paint-order"@, "stroke fill"@)
}

/// The opening tag of a text layer: anchor point, escaped colour and font
/// family, weight and size as given, the anchor from the alignment, then the
/// outline when there is a stroke colour and the rotation (`angle cx cy`)
/// when there is one.
pub open spec fn spec_text_open(
    x: Seq<char>,
    y: Seq<char>,
    color: Seq<char>,
    family: Seq<char>,
    weight: Seq<char>,
    size: Seq<char>,
    align: Seq<char>,
    stroke: Option<(Seq<char>, Seq<char>)>,
    rotation: Option<Seq<char>>,
) -> Seq<char> {
    "<text"@ + spec_attr("x"@, x) + spec_attr("y"@, y) + spec_attr("fill"@, spec_xml(color))
        + spec_attr("font-family"@, spec_xml(family)) + spec_attr("font-weight"@, weight)
        + spec_attr("font-size"@, size) + spec_attr("text-anchor"@, spec_text_anchor(align))
        + match stroke {
        Some((c, w)) => spec_stroke(c, w),
        None => Seq::empty(),
    } + match rotation {
        Some(r) => spec_attr("transform"@, "rotate("@ + r + seq![')']),
        None => Seq::empty(),
    } + seq!['>']
}

/// Builds [`spec_text_open`].
pub fn svg_text_open(
    x: &str,
    y: &str,
    color: &str,
    family: &str,
    weight: &str,
    size: &str,
    align: &str,
    stroke: Option<(&str, &str)>,
    rotation: Option<&str>,
) -> (r: String)
    ensures
        r@ == spec_text_open(
            x@,
            y@,
            color@,
            family@,
            weight@,
            size@,
            align@,
            match stroke {
                Some((c, w)) => Some((c@, w@)),
                None => None,
            },
            match rotation {
                Some(t) => Some(t@),
                None => None,
            },
        ),
{
    let mut s = "<text".to_owned();
    push_attr(&mut s, "x", x);
    push_attr(&mut s, "y", y);
    let c = xml(color);
    push_attr(&mut s, "fill", c.as_str());
    let f = xml(family);
    push_attr(&mut s, "font-family", f.as_str());
    push_attr(&mut s, "font-weight", weight);
    push_attr(&mut s, "font-size", size);
    push_attr(&mut s, "text-anchor", text_anchor(align));
    let ghost head = s@;
    match stroke {
        Some((sc, sw)) => {
            let e = xml(sc);
            push_attr(&mut s, "stroke", e.as_str());
            push_attr(&mut s, "stroke-width", sw);
            push_attr(&mut s, "paint-order", "stroke fill");
            assert(s@ =~= head + spec_stroke(sc@, sw@));
        },
        None => {
            assert(s@ =~= head + Seq::<char>::empty());
        },
    }
    let ghost mid = s@;
    match rotation {
        Some(t) => {
            let mut v = "rotate(".to_owned();
            v.append(t);
            push_char(&mut v, ')');
            push_attr(&mut s, "transform", v.as_str());
        },
        None => {
            assert(s@ =~= mid + Seq::<char>::empty());
        },
    }
    push_char(&mut s, '>');
    s
}

/// One line of a text layer: a `tspan` at the line's anchor and offset, its
/// text escaped.
pub open spec fn spec_tspan(x: Seq<char>, dy: Seq<char>, line: Seq<char>) -> Seq<char> {
    "<tspan"@ + spec_attr("x"@, x) + spec_attr("dy"@, dy) + seq!['>'] + spec_xml(line) + "</tspan>"@
}

/// Builds [`spec_tspan`].
pub fn svg_tspan(x: &str, dy: &str, line: &str) -> (r: String)
    ensures
        r@ == spec_tspan(x@, dy@, line@),
{
    let mut s = "<tspan".to_owned();
    push_attr(&mut s, "x", x);
    push_attr(&mut s, "dy", dy);
    push_char(&mut s, '>');
    let t = xml(line);
    s.append(t.as_str());
    s.append("</tspan>");
    s
}

/// The document: an SVG root of the canvas size around the elements.
pub open spec fn spec_document(width: Seq<char>, height: Seq<char>, body: Seq<char>) -> Seq<char> {
    "<svg"@ + spec_attr("xmlns"@, "http://www.w3.org/2000/svg"@) + spec_attr("width"@, width)
        + spec_attr("height"@, height) + spec_attr("viewBox"@, "0 0 "@ + width + seq![' '] + height) + seq!['>']
        + body + "</svg>"@
}

/// Builds [`spec_document`].
pub fn svg_document(width: &str, height: &str, body: &str) -> (r: String)
    ensures
        r@ == spec_document(width@, height@, body@),
{
    let mut s = "<svg".to_owned();
    push_attr(&mut s, "xmlns", "http://www.w3.org/2000/svg");
    push_attr(&mut s, "width", width);
    push_attr(&mut s, "height", height);
    let mut v = "0 0 ".to_owned();
    v.append(width);
    push_char(&mut v, ' ');
    v.append(height);
    push_attr(&mut s, "viewBox", v.as_str());
    push_char(&mut s, '>');
    s.append(body);
    s.append("</svg>");
    s
}

} // verus!
