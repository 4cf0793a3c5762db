use sevenmark_editor::element::Element;
use sevenmark_editor::section::{build_section_tree, Section, SectionTree};

fn header(level: usize, idx: usize, fold: bool, at: usize) -> Element {
    Element::header(at, at + 1, level, fold, idx, format!("H{}", idx))
}

fn content(name: &str, at: usize) -> Element {
    Element::content(at, at + 1, name.to_string())
}

fn section_order(s: &Section, out: &mut Vec<usize>) {
    out.push(s.header);
    out.extend(s.content.iter().copied());
    for sub in &s.sub_sections {
        section_order(sub, out);
    }
}

fn tree_order(t: &SectionTree) -> Vec<usize> {
    let mut out = t.preamble.clone();
    for s in &t.sections {
        section_order(s, &mut out);
    }
    out
}

fn all_paths(s: &Section, out: &mut Vec<String>) {
    out.push(s.section_path.clone());
    for sub in &s.sub_sections {
        all_paths(sub, out);
    }
}

#[test]
fn two_top_level_sections_with_one_folded_child() {
    let els = vec![
        header(1, 10, false, 0),
        content("A", 1),
        header(2, 11, true, 2),
        content("B", 3),
        header(1, 12, false, 4),
        content("C", 5),
    ];
    let t = build_section_tree(&els);
    assert!(t.preamble.is_empty());
    assert_eq!(t.sections.len(), 2);

    let first = &t.sections[0];
    assert_eq!(first.section_path, "1");
    assert_eq!(first.level, 1);
    assert_eq!(first.section_index, 10);
    assert!(!first.is_folded);
    assert_eq!(first.content, vec![1]);
    assert_eq!(first.sub_sections.len(), 1);

    let child = &first.sub_sections[0];
    assert_eq!(child.section_path, "1.1");
    assert_eq!(child.level, 2);
    assert_eq!(child.section_index, 11);
    assert!(child.is_folded);
    assert_eq!(child.content, vec![3]);
    assert!(child.sub_sections.is_empty());

    let second = &t.sections[1];
    assert_eq!(second.section_path, "2");
    assert_eq!(second.section_index, 12);
    assert_eq!(second.content, vec![5]);
    assert!(second.sub_sections.is_empty());
}

#[test]
fn no_headers_gives_all_preamble() {
    let els = vec![content("a", 0), content("b", 1), content("c", 2)];
    let t = build_section_tree(&els);
    assert_eq!(t.preamble, vec![0, 1, 2]);
    assert!(t.sections.is_empty());
}

#[test]
fn empty_input_gives_empty_tree() {
    let t = build_section_tree(&Vec::new());
    assert!(t.preamble.is_empty());
    assert!(t.sections.is_empty());
}

#[test]
fn shallower_header_closes_skipped_level_section() {
    let els = vec![header(3, 0, false, 0), header(5, 1, false, 1), header(2, 2, false, 2)];
    let t = build_section_tree(&els);
    assert_eq!(t.sections.len(), 2);
    assert_eq!(t.sections[0].level, 3);
    assert_eq!(t.sections[0].section_path, "1");
    assert_eq!(t.sections[0].sub_sections.len(), 1);
    assert_eq!(t.sections[0].sub_sections[0].level, 5);
    assert_eq!(t.sections[0].sub_sections[0].section_path, "1.1");
    assert_eq!(t.sections[1].level, 2);
    assert_eq!(t.sections[1].section_path, "2");
    assert!(t.sections[1].sub_sections.is_empty());
}

#[test]
fn preamble_before_first_header() {
    let els = vec![content("p", 0), content("q", 1), header(2, 7, false, 2), content("r", 3)];
    let t = build_section_tree(&els);
    assert_eq!(t.preamble, vec![0, 1]);
    assert_eq!(t.sections.len(), 1);
    assert_eq!(t.sections[0].header, 2);
    assert_eq!(t.sections[0].header_span, (2, 3));
    assert_eq!(t.sections[0].content, vec![3]);
}

#[test]
fn equal_levels_become_siblings() {
    let els = vec![
        header(2, 0, false, 0),
        header(3, 1, false, 1),
        header(3, 2, false, 2),
        header(2, 3, false, 3),
    ];
    let t = build_section_tree(&els);
    assert_eq!(t.sections.len(), 2);
    let subs: Vec<&str> = t.sections[0].sub_sections.iter().map(|s| s.section_path.as_str()).collect();
    assert_eq!(subs, vec!["1.1", "1.2"]);
    assert_eq!(t.sections[1].section_path, "2");
}

fn mixed_document() -> Vec<Element> {
    vec![
        content("intro", 0),
        header(1, 0, false, 1),
        content("a", 2),
        header(2, 1, false, 3),
        content("b", 4),
        header(4, 2, true, 5),
        content("c", 6),
        header(3, 3, false, 7),
        header(2, 4, false, 8),
        content("d", 9),
        header(1, 5, false, 10),
        header(6, 6, false, 11),
        header(6, 7, false, 12),
        content("e", 13),
    ]
}

#[test]
fn tree_lists_every_element_once_in_order() {
    let els = mixed_document();
    let t = build_section_tree(&els);
    let expected: Vec<usize> = (0..els.len()).collect();
    assert_eq!(tree_order(&t), expected);
}

#[test]
fn paths_are_unique() {
    let els = mixed_document();
    let t = build_section_tree(&els);
    let mut paths = Vec::new();
    for s in &t.sections {
        all_paths(s, &mut paths);
    }
    assert_eq!(paths, vec!["1", "1.1", "1.1.1", "1.1.2", "1.2", "2", "2.1", "2.2"]);
    let mut sorted = paths.clone();
    sorted.sort();
    sorted.dedup();
    assert_eq!(sorted.len(), paths.len());
}

fn check_levels(s: &Section) {
    for sub in &s.sub_sections {
        assert!(sub.level > s.level);
        check_levels(sub);
    }
}

#[test]
fn sub_section_levels_exceed_parent() {
    let els = mixed_document();
    let t = build_section_tree(&els);
    for s in &t.sections {
        check_levels(s);
    }
    assert_eq!(t.sections[0].sub_sections[0].sub_sections[0].level, 4);
    assert_eq!(t.sections[0].sub_sections[0].sub_sections[1].level, 3);
}

#[test]
fn many_siblings_get_multi_digit_ordinals() {
    let mut els = vec![header(1, 0, false, 0)];
    for k in 1..=12 {
        els.push(header(2, k, false, k));
    }
    let t = build_section_tree(&els);
    assert_eq!(t.sections.len(), 1);
    assert_eq!(t.sections[0].sub_sections.len(), 12);
    assert_eq!(t.sections[0].sub_sections[9].section_path, "1.10");
    assert_eq!(t.sections[0].sub_sections[11].section_path, "1.12");
}

#[test]
fn element_accessors() {
    let h = header(3, 9, true, 4);
    let info = h.as_header().unwrap();
    assert_eq!(info.level, 3);
    assert!(info.is_folded);
    assert_eq!(info.section_index, 9);
    assert_eq!(h.span(), (4, 5));
    assert!(content("x", 0).as_header().is_none());
}
