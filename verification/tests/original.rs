use coverforge::{legacy_template_parts, safe_name, substitute, wrap_lines, StrMap};

#[test]
fn legacy_template_name_maps_to_show_and_format() {
    assert_eq!(
        legacy_template_parts("DPAFM - YT").unwrap(),
        ("dpafm".into(), "youtube".into())
    );
    assert_eq!(
        legacy_template_parts("DPAFM - Acast").unwrap(),
        ("dpafm".into(), "acast".into())
    );
    assert_eq!(
        legacy_template_parts("CF - IG").unwrap(),
        ("cf".into(), "feed".into())
    );
}

#[test]
fn safe_filename_is_deterministic() {
    assert_eq!(safe_name("CF 73 / Rebut!"), "CF_73___Rebut_");
}

#[test]
fn variables_are_substituted_without_touching_unknowns() {
    let mut vars = StrMap::new();
    vars.insert("title".into(), "Hello".to_string());
    assert_eq!(
        substitute("{{title}} — {{guest}}", &vars),
        "Hello — {{guest}}"
    );
}

#[test]
fn wrapping_respects_line_cap() {
    // A 130 px wide frame at a 30 px font size holds 8 characters per line
    // (30 * 0.54 = 16.2 px per character).
    let lines = wrap_lines("one two three four five six seven eight", 8, 2);
    assert!(lines.len() <= 2);
    assert!(!lines.is_empty());
}
