use sevenmark_editor::element::Element;
use sevenmark_editor::offset::to_utf16_offset;
use sevenmark_editor::path::decimal_string;
use sevenmark_editor::render::{render_document, render_section_tree};
use sevenmark_editor::section::build_section_tree;

#[test]
fn utf16_offset_equals_char_offset_for_ascii() {
    let raw = "hello world";
    for k in 0..=11 {
        assert_eq!(to_utf16_offset(raw, k), k);
    }
}

#[test]
fn utf16_offset_counts_surrogate_pairs() {
    let raw = "a\u{1F600}b\u{1F601}c";
    assert_eq!(to_utf16_offset(raw, 0), 0);
    assert_eq!(to_utf16_offset(raw, 1), 1);
    assert_eq!(to_utf16_offset(raw, 2), 3);
    assert_eq!(to_utf16_offset(raw, 3), 4);
    assert_eq!(to_utf16_offset(raw, 4), 6);
    assert_eq!(to_utf16_offset(raw, 5), 7);
}

#[test]
fn utf16_offset_of_bmp_multibyte_chars() {
    let raw = "가나다";
    assert_eq!(to_utf16_offset(raw, 2), 2);
    assert_eq!(to_utf16_offset(raw, 3), 3);
}

#[test]
fn utf16_offset_past_end_is_zero() {
    assert_eq!(to_utf16_offset("abc", 4), 0);
    assert_eq!(to_utf16_offset("abc", 3), 3);
    assert_eq!(to_utf16_offset("", 1), 0);
    assert_eq!(to_utf16_offset("\u{1F600}", 2), 0);
}

#[test]
fn decimal_text() {
    assert_eq!(decimal_string(0), "0");
    assert_eq!(decimal_string(7), "7");
    assert_eq!(decimal_string(10), "10");
    assert_eq!(decimal_string(4096), "4096");
    assert_eq!(decimal_string(usize::MAX), usize::MAX.to_string());
}

fn block(s: usize, e: usize, inner: &str) -> String {
    format!("<span class=\"sm-render-block\" data-start=\"{}\" data-end=\"{}\">{}</span>", s, e, inner)
}

#[test]
fn renders_preamble_and_sections_with_spans() {
    // "x\n= T =\ny\u{1F600}z"
    let raw = "x\n= T =\ny\u{1F600}z";
    let els = vec![
        Element::content(0, 2, "<p>x</p>".to_string()),
        Element::header(2, 8, 1, false, 4, "T".to_string()),
        Element::content(8, 11, "<p>y</p>".to_string()),
    ];
    let tree = build_section_tree(&els);
    let html = render_section_tree(&tree, &els, raw);
    let heading = "<h1 id=\"sm-section-1\" class=\"sm-h1\"><span class=\"sm-section-path\">1.</span><span class=\"sm-header-content\">T</span></h1>";
    let expected = format!(
        "{}<details class=\"sm-section\" data-section=\"4\" open=\"\"><summary>{}</summary><div class=\"sm-section-content\">{}</div></details>",
        block(0, 2, "<p>x</p>"),
        block(2, 8, heading),
        block(8, 12, "<p>y</p>"),
    );
    assert_eq!(html, expected);
    assert_eq!(render_document(&els, raw), expected);
}

#[test]
fn folded_section_renders_closed() {
    let raw = "= A =\n== B ==";
    let els = vec![
        Element::header(0, 5, 1, true, 1, "A".to_string()),
        Element::header(6, 13, 2, false, 2, "B".to_string()),
    ];
    let html = render_document(&els, raw);
    assert!(html.starts_with("<details class=\"sm-section sm-section-folded\" data-section=\"1\"><summary>"));
    assert!(html.contains("<details class=\"sm-section\" data-section=\"2\" open=\"\"><summary>"));
    assert_eq!(html.matches("open=\"\"").count(), 1);
}

#[test]
fn deep_levels_use_the_last_heading_tag() {
    let raw = "======= D =======";
    let els = vec![Element::header(0, 17, 7, false, 0, "D".to_string())];
    let html = render_document(&els, raw);
    assert!(html.contains("<h6 id=\"sm-section-1\" class=\"sm-h6\">"));
    assert!(html.ends_with("</h6></span></summary><div class=\"sm-section-content\"></div></details>"));
}

#[test]
fn out_of_range_span_renders_zero_offsets() {
    let raw = "ab";
    let els = vec![Element::content(5, 9, "<p>?</p>".to_string())];
    assert_eq!(render_document(&els, raw), block(0, 0, "<p>?</p>"));
}

#[test]
fn nested_section_renders_inside_parent_content() {
    let raw = "abcdef";
    let els = vec![
        Element::header(0, 1, 1, false, 0, "A".to_string()),
        Element::content(1, 2, "a".to_string()),
        Element::header(2, 3, 3, true, 1, "B".to_string()),
        Element::content(3, 4, "b".to_string()),
    ];
    let html = render_document(&els, raw);
    let inner_start = html.find("<details class=\"sm-section sm-section-folded\" data-section=\"1\">").unwrap();
    let content_a = html.find(&block(1, 2, "a")).unwrap();
    assert!(content_a < inner_start);
    assert!(html.contains("<h3 id=\"sm-section-1.1\" class=\"sm-h3\"><span class=\"sm-section-path\">1.1.</span>"));
    assert!(html.ends_with(&format!("{}</div></details></div></details>", block(3, 4, "b"))));
}
