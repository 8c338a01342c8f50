use coverforge::svg::{svg_background, svg_document, svg_image, svg_rect, svg_text_open, svg_tspan};
use coverforge::error::CoverError;
use coverforge::filenames::{has_font_extension, is_jpeg_output, sort_strings, template_ids};
use coverforge::fonts::{check_font_upload_size, parse_font_scan, parse_listing_line, FontCatalog, ListedFont};
use coverforge::legacy::{check_batch_size, legacy_variables, n8n_path, value_to_string};
use coverforge::markup::{image_source, layer_text, substitute, text_anchor, xml};
use coverforge::media::{encode_jpeg_limited, jpeg_quality, jpeg_step, png_data_uri, JpegStep};
use coverforge::model::{
    default_align, default_background, default_fit, default_font_family, default_font_weight,
    default_text_color, BrandStyle, Canvas, FieldValue, FormatTemplate, Template,
};
use coverforge::names::{legacy_template_parts, slug_from_lowercase, template_slug, valid_template_id};
use coverforge::paths::{extension, file_name, file_stem, join, starts_with_path};
use coverforge::render::{
    choose_stem, render_stem, render_variants, resolve_format, translate_host_path, within_roots,
    Renderer,
};
use coverforge::{safe_font_filename, safe_name, safe_output_filename, wrap_lines, StrMap};

fn canvas(w: u32, h: u32) -> Canvas {
    Canvas { width: w, height: h, background: "#000000".to_string() }
}

fn strings(v: &[&str]) -> Vec<String> {
    v.iter().map(|s| s.to_string()).collect()
}

fn template(formats: &[&str], variants: &[&str]) -> Template<u8> {
    let mut fm = StrMap::new();
    for (i, f) in formats.iter().enumerate() {
        fm.insert(f.to_string(), FormatTemplate { canvas: canvas(100 + i as u32, 50), layers: vec![i as u8] });
    }
    let mut vm = StrMap::new();
    for (i, v) in variants.iter().enumerate() {
        vm.insert(v.to_string(), canvas(10 + i as u32, 10));
    }
    Template {
        version: 1,
        id: "cf".to_string(),
        canvas: canvas(1, 1),
        variants: vm,
        layers: vec![200],
        brand: BrandStyle::default(),
        formats: fm,
    }
}

#[test]
fn map_reads_back_what_was_written() {
    let mut m = StrMap::new();
    m.insert("b".to_string(), 2);
    m.insert("a".to_string(), 1);
    m.insert("b".to_string(), 3);
    assert_eq!(m.len(), 2);
    assert_eq!(m.get("a"), Some(&1));
    assert_eq!(m.get("b"), Some(&3));
    assert_eq!(m.get("c"), None);
    assert!(m.contains_key("a"));
    assert_eq!(m.keys(), strings(&["a", "b"]));
    assert_eq!(*m.entry(0).1, 1);
}

#[test]
fn template_ids_are_validated() {
    assert!(valid_template_id("my-new_show2"));
    assert!(!valid_template_id(""));
    assert!(!valid_template_id("a b"));
    assert!(!valid_template_id("../etc"));
}

#[test]
fn slug_collapses_separators() {
    assert_eq!(template_slug("  DPAFM -- YT!! "), "dpafm-yt");
    assert_eq!(slug_from_lowercase("--a..b--"), "a-b");
    assert_eq!(template_slug(""), "");
}

#[test]
fn slug_uses_unicode_lowercase() {
    // The Kelvin sign lowercases to an ASCII `k`.
    assert_eq!(legacy_template_parts("\u{212A}F - YT").unwrap(), ("kf".into(), "youtube".into()));
}

#[test]
fn legacy_names_without_suffix_are_refused() {
    assert_eq!(legacy_template_parts("CF"), Err(CoverError::UnknownLegacyTemplate("CF".into())));
    assert_eq!(legacy_template_parts("YT"), Err(CoverError::UnknownLegacyTemplate("YT".into())));
    assert_eq!(legacy_template_parts("Show - TikTok").unwrap(), ("show".into(), "vertical".into()));
    assert_eq!(legacy_template_parts("Show portrait").unwrap(), ("show".into(), "feed".into()));
}

#[test]
fn safe_name_keeps_length_and_valid_ids() {
    assert_eq!(safe_name("été"), "_t_");
    assert_eq!(safe_name("cf-1_x"), "cf-1_x");
    assert_eq!(safe_name(&safe_name("a/b c")), safe_name("a/b c"));
}

#[test]
fn output_filenames() {
    assert_eq!(safe_output_filename("a/b/cover.JPG"), Ok("cover.JPG".to_string()));
    assert_eq!(safe_output_filename("../x.png"), Ok("x.png".to_string()));
    assert_eq!(safe_output_filename("x.jpeg/"), Ok("x.jpeg".to_string()));
    assert_eq!(safe_output_filename("bad name.png"), Err(CoverError::InvalidOutputFilename));
    assert_eq!(safe_output_filename("x.gif"), Err(CoverError::UnsupportedOutputExtension));
    assert_eq!(safe_output_filename("png"), Err(CoverError::UnsupportedOutputExtension));
    assert_eq!(safe_output_filename("dir/.."), Err(CoverError::InvalidOutputFilename));
    assert_eq!(safe_output_filename(""), Err(CoverError::InvalidOutputFilename));
    assert_eq!(safe_output_filename("/"), Err(CoverError::InvalidOutputFilename));
}

#[test]
fn font_filenames() {
    assert_eq!(safe_font_filename("uploads/My Font.TTF"), Ok("My_Font.TTF".to_string()));
    assert_eq!(safe_font_filename(&safe_font_filename("My Font.otc").unwrap()), Ok("My_Font.otc".to_string()));
    assert_eq!(safe_font_filename("/tmp/x.woff"), Err(CoverError::UnsupportedFontExtension));
    assert_eq!(safe_font_filename(".ttf"), Err(CoverError::UnsupportedFontExtension));
    assert_eq!(safe_font_filename(".hidden.ttf"), Err(CoverError::InvalidFontFilename));
    assert_eq!(safe_font_filename("a/.."), Err(CoverError::InvalidFontFilename));
    assert!(has_font_extension("/srv/fonts/A.OTF"));
    assert!(!has_font_extension("/srv/fonts/readme.txt"));
}

#[test]
fn jpeg_outputs_are_told_by_extension() {
    assert!(is_jpeg_output("out/x.JPG"));
    assert!(is_jpeg_output("out/x.jpeg"));
    assert!(!is_jpeg_output("out/x.png"));
    assert!(!is_jpeg_output("out/x"));
}

#[test]
fn paths_follow_std() {
    assert_eq!(file_name("a/b.txt/."), Some("b.txt".to_string()));
    assert_eq!(file_name("a/.."), None);
    assert_eq!(file_name("./"), None);
    assert_eq!(extension("a/b.tar.gz"), Some("gz".to_string()));
    assert_eq!(extension("a/.bashrc"), None);
    assert_eq!(extension("a/x."), Some("".to_string()));
    assert_eq!(file_stem("a/b.tar.gz"), Some("b.tar".to_string()));
    assert_eq!(file_stem("a/.bashrc"), Some(".bashrc".to_string()));
    assert_eq!(join("a", "b"), "a/b");
    assert_eq!(join("a/", "b"), "a/b");
    assert_eq!(join("", "b"), "b");
    assert_eq!(join("a", "/b"), "/b");
    assert!(starts_with_path("/srv/a/b", "/srv/a"));
    assert!(starts_with_path("/srv//a/./b", "/srv/a/"));
    assert!(!starts_with_path("/srv/ab", "/srv/a"));
    assert!(!starts_with_path("srv/a", "/srv"));
}

#[test]
fn template_listing_keeps_json_stems_sorted() {
    let entries = strings(&["b.json", "a.json", "x.txt", ".json", "c.JSON", "d.json"]);
    assert_eq!(template_ids(&entries), strings(&["a", "b", "d"]));
    assert_eq!(sort_strings(strings(&["b", "a", "b", "A"])), strings(&["A", "a", "b", "b"]));
}

#[test]
fn markup_is_escaped() {
    assert_eq!(xml("a<b>&\"c\""), "a&lt;b&gt;&amp;&quot;c&quot;");
    assert_eq!(xml("plain"), "plain");
    assert_eq!(text_anchor("center"), "middle");
    assert_eq!(text_anchor("right"), "end");
    assert_eq!(text_anchor("left"), "start");
    assert_eq!(text_anchor("justify"), "start");
}

#[test]
fn substitution_goes_in_key_order() {
    let mut vars = StrMap::new();
    vars.insert("a".to_string(), "{{b}}".to_string());
    vars.insert("b".to_string(), "x".to_string());
    assert_eq!(substitute("{{a}}", &vars), "x");
    let mut vars2 = StrMap::new();
    vars2.insert("b".to_string(), "{{a}}".to_string());
    vars2.insert("a".to_string(), "x".to_string());
    assert_eq!(substitute("{{b}}", &vars2), "{{a}}");
    assert_eq!(substitute("no braces", &vars), "no braces");
    assert_eq!(substitute("{{a}}{{a}}", &vars), "xx");
}

#[test]
fn wrapping_keeps_word_order_and_is_greedy() {
    assert_eq!(wrap_lines("a b", 1, 5), strings(&["a", "b"]));
    let text = "the quick brown fox jumps over the lazy dog";
    let out = wrap_lines(text, 10, 10);
    assert_eq!(out.join(" "), text);
    for pair in out.windows(2) {
        let first_next = pair[1].split_whitespace().next().unwrap();
        assert!(pair[0].chars().count() + 1 + first_next.chars().count() > 10);
    }
    let capped = wrap_lines(text, 10, 2);
    assert_eq!(capped.len(), 2);
    assert!(text.starts_with(&capped.join(" ")));
}

#[test]
fn slug_of_a_slug_is_itself() {
    for name in ["DPAFM - YT", "  Café  Noir -- IG ", "a__b", "CF 73 / Rebut!"] {
        let once = template_slug(name);
        assert_eq!(template_slug(&once), once);
    }
}

#[test]
fn wrapping() {
    assert_eq!(wrap_lines("hello world foo", 11, 3), strings(&["hello world", "foo"]));
    assert_eq!(wrap_lines("supercalifragilistic a", 5, 3), strings(&["supercalifragilistic", "a"]));
    assert_eq!(wrap_lines("a\r\nb\n\nc", 10, 6), strings(&["a", "b", "c"]));
    assert_eq!(wrap_lines("one two", 10, 0), Vec::<String>::new());
    assert_eq!(wrap_lines("a\u{3000}b", 1, 6), strings(&["a", "b"]));
    assert_eq!(wrap_lines("   ", 4, 6), Vec::<String>::new());
    assert_eq!(wrap_lines("one two three four five six seven eight", 8, 2), strings(&["one two", "three"]));
}

#[test]
fn renderer_paths() {
    let r = Renderer::new("t".to_string(), "o".to_string(), "a;;b;", None);
    assert_eq!(r.output_dir(), "o");
    assert_eq!(r.template_dir(), "t");
    assert_eq!(r.asset_roots(), &strings(&["a", "b"]));
    assert_eq!(r.font_dir(), None);
    assert_eq!(r.template_path("cf"), Ok("t/cf.json".to_string()));
    assert_eq!(r.template_path(""), Ok("t/.json".to_string()));
    assert_eq!(r.template_path("a b"), Err(CoverError::InvalidTemplateId));
    assert_eq!(r.save_target("cf", "cf"), Ok("t/cf.json".to_string()));
    assert_eq!(r.save_target("", ""), Err(CoverError::InvalidTemplateId));
    assert_eq!(
        r.save_target("cf", "dp"),
        Err(CoverError::TemplateIdMismatch { path: "cf".into(), body: "dp".into() })
    );
    assert_eq!(r.temp_template_path("cf", "tok"), "t/.cf.json.tmp-tok");
    let (target, tmp) = r.save_paths("cf", "cf").unwrap();
    assert_eq!(target, "t/cf.json");
    assert!(tmp.starts_with("t/.cf.json.tmp-"));
    assert_eq!(tmp.len(), "t/.cf.json.tmp-".len() + 32);
    let scratch = r.fresh_scratch_png_path();
    assert!(scratch.starts_with("o/.") && scratch.ends_with(".png"));
    assert_eq!(r.scratch_png_path("abc"), "o/.abc.png");
}

#[test]
fn formats_resolve() {
    let t = template(&["youtube", "square"], &["wide"]);
    let (c, l) = resolve_format(&t, "youtube").unwrap();
    assert_eq!((c.width, l.clone()), (100, vec![0]));
    assert_eq!(resolve_format(&t, "feed").err(), Some(CoverError::UnknownFormat("feed".into())));
    assert_eq!(resolve_format(&t, "default").err(), Some(CoverError::UnknownFormat("default".into())));
    let t2 = template(&[], &["wide"]);
    let (c, l) = resolve_format(&t2, "default").unwrap();
    assert_eq!((c.width, l.clone()), (1, vec![200]));
    let (c, l) = resolve_format(&t2, "wide").unwrap();
    assert_eq!((c.width, l.clone()), (10, vec![200]));
    assert_eq!(resolve_format(&t2, "tall").err(), Some(CoverError::UnknownVariant("tall".into())));
}

#[test]
fn variants_default_to_the_template() {
    let t = template(&["youtube", "square"], &["wide"]);
    assert_eq!(render_variants(&vec![], &t), strings(&["square", "youtube"]));
    assert_eq!(render_variants(&strings(&["x"]), &t), strings(&["x"]));
    assert_eq!(render_variants(&vec![], &template(&[], &[])), strings(&["default"]));
    assert_eq!(render_variants(&vec![], &template(&[], &["w2", "w1"])), strings(&["w1", "w2"]));
    for v in render_variants(&vec![], &t) {
        assert!(resolve_format(&t, &v).is_ok());
    }
}

#[test]
fn stems_and_assets() {
    assert_eq!(render_stem(Some("CF 73"), "cf", "tok"), "CF_73");
    assert_eq!(render_stem(None, "c f", "tok"), "c_f-tok");
    assert_eq!(choose_stem(Some("CF 73"), "cf"), "CF_73");
    let s = choose_stem(None, "cf");
    assert!(s.starts_with("cf-"));
    assert_eq!(s.len(), 35);
    assert!(s[3..].chars().all(|c| c.is_ascii_digit() || ('a'..='f').contains(&c)));
    let r = Renderer::new("t".to_string(), "/out".to_string(), "", None);
    let a = r.variant_asset("s", "you tube".to_string(), &canvas(3, 4));
    assert_eq!(a.filename, "s-you_tube.png");
    assert_eq!(a.path, "/out/s-you_tube.png");
    assert_eq!(a.url, "/outputs/s-you_tube.png");
    assert_eq!((a.width, a.height, a.variant.as_str()), (3, 4, "you tube"));
    let b = r.asset_record("feed".to_string(), &canvas(5, 6), "x.jpg".to_string());
    assert_eq!((b.path.as_str(), b.url.as_str()), ("/out/x.jpg", "/outputs/x.jpg"));
}

#[test]
fn assets_stay_inside_roots() {
    assert_eq!(translate_host_path("/host/srv/storage/a.png"), "/srv/storage/a.png");
    assert_eq!(translate_host_path("/host/srv/other.png"), "/host/srv/other.png");
    let r = Renderer::new("t".to_string(), "o".to_string(), "/srv/a;/srv/b", None);
    assert_eq!(r.asset_candidates("x.png"), strings(&["/srv/a/x.png", "/srv/b/x.png"]));
    assert_eq!(r.asset_candidates("/host/srv/storage/x.png"), strings(&["/srv/storage/x.png"]));
    let roots = strings(&["/srv/a", "/srv/b"]);
    assert!(within_roots("/srv/b/x.png", &roots));
    assert!(!within_roots("/srv/c/x.png", &roots));
    let probes = vec![None, Some("/etc/passwd".to_string()), Some("/srv/b/x.png".to_string())];
    assert_eq!(r.resolve_asset("x.png", &probes, &roots), Ok("/srv/b/x.png".to_string()));
    let outside = vec![Some("/etc/passwd".to_string())];
    assert_eq!(
        r.resolve_asset("../../etc/passwd", &outside, &roots),
        Err(CoverError::AssetNotFound("../../etc/passwd".into()))
    );
}

#[test]
fn legacy_fields_become_variables() {
    let mut fields = StrMap::new();
    fields.insert("PodLogo".to_string(), FieldValue::Text("logo.png".to_string()));
    fields.insert("title".to_string(), FieldValue::Text("T".to_string()));
    fields.insert("title_copy".to_string(), FieldValue::Text("TC".to_string()));
    fields.insert("n".to_string(), FieldValue::Json("3".to_string()));
    fields.insert("z".to_string(), FieldValue::Null);
    let vars = legacy_variables("bg.png", &fields);
    assert_eq!(vars.get("background"), Some(&"bg.png".to_string()));
    assert_eq!(vars.get("logo"), Some(&"logo.png".to_string()));
    assert_eq!(vars.get("title"), Some(&"TC".to_string()));
    assert_eq!(vars.get("n"), Some(&"3".to_string()));
    assert_eq!(vars.get("z"), Some(&"".to_string()));
    let mut f2 = StrMap::new();
    f2.insert("background".to_string(), FieldValue::Text("other.png".to_string()));
    f2.insert("title".to_string(), FieldValue::Text("T".to_string()));
    let v2 = legacy_variables("bg.png", &f2);
    assert_eq!(v2.get("background"), Some(&"other.png".to_string()));
    assert_eq!(v2.get("title"), Some(&"T".to_string()));
    assert_eq!(v2.get("logo"), None);
    assert_eq!(value_to_string(&FieldValue::Json("true".into())), "true");
    assert_eq!(n8n_path("/srv/storage/x.png"), "/host/srv/storage/x.png");
    assert_eq!(n8n_path("/tmp/x.png"), "/tmp/x.png");
}

#[test]
fn limits() {
    assert_eq!(check_batch_size(100), Ok(()));
    assert_eq!(check_batch_size(101), Err(CoverError::BatchTooLarge));
    assert_eq!(check_font_upload_size(0), Err(CoverError::FontSizeOutOfRange));
    assert_eq!(check_font_upload_size(1), Ok(()));
    assert_eq!(check_font_upload_size(20 * 1024 * 1024), Ok(()));
    assert_eq!(check_font_upload_size(20 * 1024 * 1024 + 1), Err(CoverError::FontSizeOutOfRange));
}

#[test]
fn system_font_paths_keep_their_raw_rest() {
    let raw = "/usr/share/fonts//truetype/./dejavu/D.ttf";
    let l = ListedFont { family: "DejaVu".into(), style: "Book".into(), file: raw.into() };
    let mut c = FontCatalog::new();
    c.add_listed(&l, raw, "/srv/custom");
    let t = ListedFont { family: "Tail".into(), style: "Book".into(), file: "/usr/share/fonts/x/T.ttf/.".into() };
    c.add_listed(&t, "/usr/share/fonts/x/T.ttf/.", "/srv/custom");
    let fonts = c.into_sorted();
    assert_eq!(fonts[0].url, "/font-files/system/truetype/./dejavu/D.ttf");
    assert_eq!(fonts[0].filename, "D.ttf");
    assert_eq!(fonts[1].url, "/font-files/system/x/T.ttf");
}

#[test]
fn font_listing_is_parsed_and_deduplicated() {
    let l = parse_listing_line(" Roboto \tBold\t/usr/share/fonts/truetype/roboto/R.ttf ").unwrap();
    assert_eq!((l.family.as_str(), l.style.as_str(), l.file.as_str()), ("Roboto", "Bold", "/usr/share/fonts/truetype/roboto/R.ttf"));
    assert!(parse_listing_line("Roboto\tBold").is_none());
    assert!(parse_listing_line("\tBold\t/x.ttf").is_none());
    assert_eq!(parse_font_scan("Lobster\tRegular\n"), ("Lobster".to_string(), "Regular".to_string()));
    assert_eq!(parse_font_scan("Lobster"), ("Lobster".to_string(), "".to_string()));

    let mut c = FontCatalog::new();
    c.add_listed(&l, "/usr/share/fonts/truetype/roboto/R.ttf", "/srv/custom");
    c.add_listed(&l, "/usr/share/fonts/truetype/roboto/R.ttf", "/srv/custom");
    let a = ListedFont { family: "Arial".into(), style: "Regular".into(), file: "/opt/a.ttf".into() };
    c.add_listed(&a, "/opt/a.ttf", "/srv/custom");
    let inside = ListedFont { family: "Mine".into(), style: "Regular".into(), file: "/srv/custom/m.ttf".into() };
    c.add_listed(&inside, "/srv/custom/m.ttf", "/srv/custom");
    c.add_custom("Mine\tRegular", "/srv/custom/m.ttf");
    c.add_custom("Mine\tRegular", "/srv/custom/m.ttf");
    c.add_custom("\tRegular", "/srv/custom/n.ttf");
    c.add_custom("Arial\tRegular", "/srv/custom/a2.ttf");
    let fonts = c.into_sorted();
    let got: Vec<(&str, &str, &str, &str, &str)> = fonts
        .iter()
        .map(|f| (f.family.as_str(), f.style.as_str(), f.filename.as_str(), f.source.as_str(), f.url.as_str()))
        .collect();
    assert_eq!(
        got,
        vec![
            ("Arial", "Regular", "a.ttf", "system", ""),
            ("Arial", "Regular", "a2.ttf", "custom", "/font-files/custom/a2.ttf"),
            ("Mine", "Regular", "m.ttf", "custom", "/font-files/custom/m.ttf"),
            ("Roboto", "Bold", "R.ttf", "bundled", "/font-files/system/truetype/roboto/R.ttf"),
        ]
    );
}

#[test]
fn jpeg_budget_search() {
    let pixels = vec![128u8; 16 * 16 * 3];
    let (bytes, q) = encode_jpeg_limited(&pixels, 16, 16, 1 << 20).unwrap();
    assert_eq!(q, 90);
    assert!(!bytes.is_empty() && bytes[0] == 0xFF && bytes[1] == 0xD8);
    match encode_jpeg_limited(&pixels, 16, 16, 0) {
        Err(CoverError::JpegSizeLimitUnreachable { best_len, max_bytes }) => {
            assert!(best_len > 0);
            assert_eq!(max_bytes, 0);
        }
        other => panic!("unexpected {:?}", other.map(|(_, q)| q)),
    }
    assert!(matches!(encode_jpeg_limited(&[], 0, 16, 1000), Err(CoverError::JpegEncoding(_))));
    assert!(matches!(jpeg_step(0, 10, 10), JpegStep::Accept));
    assert!(matches!(jpeg_step(0, 11, 10), JpegStep::Next(1)));
    assert!(matches!(jpeg_step(14, 11, 10), JpegStep::GiveUp));
    assert_eq!(jpeg_quality(0), 90);
    assert_eq!(jpeg_quality(14), 20);
}

#[test]
fn png_bytes_become_a_data_uri() {
    assert_eq!(png_data_uri(b"abc"), "data:image/png;base64,YWJj");
    assert_eq!(png_data_uri(b""), "data:image/png;base64,");
    assert_eq!(png_data_uri(b"a"), "data:image/png;base64,YQ==");
    assert_eq!(png_data_uri(b"ab"), "data:image/png;base64,YWI=");
    assert_eq!(png_data_uri(&[255, 254, 253]), "data:image/png;base64,//79");
}

#[test]
fn defaults() {
    assert_eq!(default_background(), "#000000");
    assert_eq!(default_fit(), "contain");
    assert!(!coverforge::model::crops_image(&default_fit()));
    assert!(coverforge::model::crops_image("cover"));
    assert!(!coverforge::model::crops_image("fill"));
    assert_eq!(default_font_family(), "League Spartan");
    assert_eq!(default_font_weight(), 700);
    assert_eq!(default_text_color(), "#ffffff");
    assert_eq!(default_align(), "left");
    let b = BrandStyle::default();
    assert!(b.display_name.is_empty() && b.palette.is_empty() && b.notes.is_empty());
}

#[test]
fn layer_text_and_sources() {
    let mut vars = StrMap::new();
    vars.insert("title".to_string(), "straße".to_string());
    vars.insert("empty".to_string(), "".to_string());
    assert_eq!(layer_text("{{title}}", &vars, true), Some("STRASSE".to_string()));
    assert_eq!(layer_text("{{title}}", &vars, false), Some("straße".to_string()));
    assert_eq!(layer_text("{{empty}}", &vars, true), None);
    assert_eq!(image_source("{{empty}}", &vars), None);
    assert_eq!(image_source("bg-{{title}}.png", &vars), Some("bg-straße.png".to_string()));
}

#[test]
fn svg_elements_escape_their_text() {
    assert_eq!(svg_background("a&b"), r#"<rect width="100%" height="100%" fill="a&amp;b"/>"#);
    assert_eq!(
        svg_rect("1", "2", "3", "4", "0.5", "red", "1"),
        r#"<rect x="1" y="2" width="3" height="4" rx="0.5" fill="red" opacity="1"/>"#
    );
    assert_eq!(
        svg_image("1", "2", "3", "4", "0.8", "data:image/png;base64,YQ=="),
        r#"<image x="1" y="2" width="3" height="4" opacity="0.8" href="data:image/png;base64,YQ=="/>"#
    );
    assert_eq!(
        svg_text_open("10", "20", "white", "A<B", "700", "30", "center", Some(("black", "2")), Some("5 1 2")),
        r#"<text x="10" y="20" fill="white" font-family="A&lt;B" font-weight="700" font-size="30" text-anchor="middle" stroke="black" stroke-width="2" paint-order="stroke fill" transform="rotate(5 1 2)">"#
    );
    assert_eq!(
        svg_text_open("0", "0", "x", "F", "400", "9", "left", None, None),
        r#"<text x="0" y="0" fill="x" font-family="F" font-weight="400" font-size="9" text-anchor="start">"#
    );
    assert_eq!(svg_tspan("10", "0", "a<b & c"), r#"<tspan x="10" dy="0">a&lt;b &amp; c</tspan>"#);
    assert_eq!(
        svg_document("3", "4", "<g/>"),
        r#"<svg xmlns="http://www.w3.org/2000/svg" width="3" height="4" viewBox="0 0 3 4"><g/></svg>"#
    );
}
