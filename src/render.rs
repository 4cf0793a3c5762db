use vstd::prelude::*;
use crate::element::Element;
use crate::offset::{saturate, to_utf16_offset, utf16_offset};
use crate::path::{decimal, push_decimal};
use crate::element::HeaderInfo;
use crate::section::{
    build_section_tree, lemma_ok_parts, lemma_section_at, levels_positive, section_at, section_ok,
    section_order, sections_order, tree_ok, index_range, sibling_end, Section, SectionTree,
};

verus! {

/// Every element index that `s` and its sub-sections hold is below `n`.
pub open spec fn section_within(s: Section, n: int) -> bool
    decreases s,
{
    &&& s.header < n
    &&& forall|k: int| 0 <= k < s.content.len() ==> #[trigger] s.content@[k] < n
    &&& forall|j: int| 0 <= j < s.sub_sections.len() ==> section_within(#[trigger] s.sub_sections@[j], n)
}

/// Every element index that `t` holds is below `n`.
pub open spec fn tree_within(t: SectionTree, n: int) -> bool {
    &&& forall|k: int| 0 <= k < t.preamble.len() ==> #[trigger] t.preamble@[k] < n
    &&& forall|j: int| 0 <= j < t.sections.len() ==> section_within(#[trigger] t.sections@[j], n)
}

/// The heading tag number for a section level: levels past 5 use 6.
pub open spec fn heading_number(level: usize) -> nat {
    if 1 <= level <= 5 {
        level as nat
    } else {
        6
    }
}

/// A block of markup annotated with its source span in UTF-16 code units.
pub open spec fn span_block(start16: nat, end16: nat, inner: Seq<char>) -> Seq<char> {
    "<span class=\"sm-render-block\" data-start=\""@ + decimal(start16) + "\" data-end=\""@ + decimal(
        end16,
    ) + "\">"@ + inner + "</span>"@
}

/// An element of `els` rendered alone, annotated with its span.
pub open spec fn element_markup(els: Seq<Element>, src: Seq<char>, i: int) -> Seq<char> {
    span_block(
        saturate(utf16_offset(src, els[i].start as int)),
        saturate(utf16_offset(src, els[i].end as int)),
        els[i].markup@,
    )
}

/// The elements at indices `c`, each rendered alone, one after another.
pub open spec fn elements_markup(els: Seq<Element>, src: Seq<char>, c: Seq<usize>) -> Seq<char>
    decreases c.len(),
{
    if c.len() == 0 {
        Seq::empty()
    } else {
        elements_markup(els, src, c.drop_last()) + element_markup(els, src, c.last() as int)
    }
}

/// The heading of a section: a heading tag of the clamped level, identified
/// by the section's path, holding the path label and the header's markup.
pub open spec fn heading_markup(s: Section, label: Seq<char>) -> Seq<char> {
    let d = decimal(heading_number(s.level));
    "<h"@ + d + " id=\"sm-section-"@ + s.section_path@ + "\" class=\"sm-h"@ + d + "\">"@
        + "<span class=\"sm-section-path\">"@ + s.section_path@ + ".</span>"@
        + "<span class=\"sm-header-content\">"@ + label + "</span>"@ + "</h"@ + d + ">"@
}

/// The opening tag of a section's collapsible container: tagged with the
/// section index, and open unless the section is folded.
pub open spec fn details_tag(is_folded: bool, section_index: usize) -> Seq<char> {
    if is_folded {
        "<details class=\"sm-section sm-section-folded\" data-section=\""@ + decimal(
            section_index as nat,
        ) + "\">"@
    } else {
        "<details class=\"sm-section\" data-section=\""@ + decimal(section_index as nat)
            + "\" open=\"\">"@
    }
}

/// A section rendered with its content and, recursively, its sub-sections:
/// its container tag, then the rest.
pub open spec fn section_markup(els: Seq<Element>, src: Seq<char>, s: Section) -> Seq<char>
    decreases s, 1nat,
{
    details_tag(s.is_folded, s.section_index) + section_body(els, src, s)
}

/// What follows a section's container tag: the summary holding its
/// span-annotated heading, the content block with its elements and
/// sub-sections, and the closing tags.
pub open spec fn section_body(els: Seq<Element>, src: Seq<char>, s: Section) -> Seq<char>
    decreases s, 0nat,
{
    "<summary>"@ + span_block(
        saturate(utf16_offset(src, s.header_span.0 as int)),
        saturate(utf16_offset(src, s.header_span.1 as int)),
        heading_markup(s, els[s.header as int].markup@),
    ) + "</summary>"@ + "<div class=\"sm-section-content\">"@ + elements_markup(els, src, s.content@)
        + sections_markup(els, src, s.sub_sections@) + "</div>"@ + "</details>"@
}

/// Consecutive sections rendered one after another.
pub open spec fn sections_markup(els: Seq<Element>, src: Seq<char>, ss: Seq<Section>) -> Seq<char>
    decreases ss,
{
    if ss.len() == 0 {
        Seq::empty()
    } else {
        sections_markup(els, src, ss.drop_last()) + section_markup(els, src, ss.last())
    }
}

/// A whole tree rendered: the preamble elements, then the top-level sections.
pub open spec fn tree_markup(els: Seq<Element>, src: Seq<char>, t: SectionTree) -> Seq<char> {
    elements_markup(els, src, t.preamble@) + sections_markup(els, src, t.sections@)
}

/// Appends `inner` wrapped in a block annotated with the UTF-16 offsets of
/// the character span `start .. end` of `raw`.
fn push_span_block(out: &mut String, raw: &str, start: usize, end: usize, inner: &str)
    ensures
        final(out)@ == old(out)@ + span_block(
            saturate(utf16_offset(raw@, start as int)),
            saturate(utf16_offset(raw@, end as int)),
            inner@,
        ),
{
    let s16 = to_utf16_offset(raw, start);
    let e16 = to_utf16_offset(raw, end);
    out.append("<span class=\"sm-render-block\" data-start=\"");
    push_decimal(out, s16);
    out.append("\" data-end=\"");
    push_decimal(out, e16);
    out.append("\">");
    out.append(inner);
    out.append("</span>");
    assert(final(out)@ =~= old(out)@ + span_block(s16 as nat, e16 as nat, inner@));
}

/// Appends each element at the indices `c`, rendered alone.
fn push_elements(out: &mut String, els: &Vec<Element>, raw: &str, c: &Vec<usize>)
    requires
        forall|k: int| 0 <= k < c.len() ==> #[trigger] c@[k] < els.len(),
    ensures
        final(out)@ == old(out)@ + elements_markup(els@, raw@, c@),
{
    let mut k: usize = 0;
    while k < c.len()
        invariant
            k <= c.len(),
                forall|m: int| 0 <= m < c.len() ==> #[trigger] c@[m] < els.len(),
            out@ == old(out)@ + elements_markup(els@, raw@, c@.take(k as int)),
        decreases c.len() - k,
    {
        let i = c[k];
        let el = &els[i];
        push_span_block(out, raw, el.start, el.end, el.markup.as_str());
        proof {
            assert(c@.take(k + 1).drop_last() =~= c@.take(k as int));
            assert(out@ =~= old(out)@ + elements_markup(els@, raw@, c@.take(k + 1)));
        }
        k = k + 1;
    }
    assert(c@.take(c.len() as int) =~= c@);
}

/// Appends the heading of `s`, with `label` as the header's markup.
fn push_heading(out: &mut String, s: &Section, label: &str)
    ensures
        final(out)@ == old(out)@ + heading_markup(*s, label@),
{
    let d: usize = if 1 <= s.level && s.level <= 5 {
        s.level
    } else {
        6
    };
    out.append("<h");
    push_decimal(out, d);
    out.append(" id=\"sm-section-");
    out.append(s.section_path.as_str());
    out.append("\" class=\"sm-h");
    push_decimal(out, d);
    out.append("\">");
    out.append("<span class=\"sm-section-path\">");
    out.append(s.section_path.as_str());
    out.append(".</span>");
    out.append("<span class=\"sm-header-content\">");
    out.append(label);
    out.append("</span>");
    out.append("</h");
    push_decimal(out, d);
    out.append(">");
    assert(final(out)@ =~= old(out)@ + heading_markup(*s, label@));
}

/// Appends the opening tag of a section's collapsible container.
fn push_details_tag(out: &mut String, is_folded: bool, section_index: usize)
    ensures
        final(out)@ == old(out)@ + details_tag(is_folded, section_index),
{
    if is_folded {
        out.append("<details class=\"sm-section sm-section-folded\" data-section=\"");
        push_decimal(out, section_index);
        out.append("\">");
    } else {
        out.append("<details class=\"sm-section\" data-section=\"");
        push_decimal(out, section_index);
        out.append("\" open=\"\">");
    }
    assert(final(out)@ =~= old(out)@ + details_tag(is_folded, section_index));
}

/// Appends the markup of section `s`.
#[verifier::rlimit(40)]
fn push_section(out: &mut String, els: &Vec<Element>, raw: &str, s: &Section)
    requires
        section_within(*s, els.len() as int),
    ensures
        final(out)@ == old(out)@ + section_markup(els@, raw@, *s),
    decreases *s,
{
    push_details_tag(out, s.is_folded, s.section_index);
    out.append("<summary>");
    let mut heading = String::new();
    push_heading(&mut heading, s, els[s.header].markup.as_str());
    push_span_block(out, raw, s.header_span.0, s.header_span.1, heading.as_str());
    out.append("</summary>");
    out.append("<div class=\"sm-section-content\">");
    push_elements(out, els, raw, &s.content);
    let ghost mid = out@;
    let mut j: usize = 0;
    while j < s.sub_sections.len()
        invariant
            j <= s.sub_sections.len(),
                section_within(*s, els.len() as int),
            out@ == mid + sections_markup(els@, raw@, s.sub_sections@.take(j as int)),
        decreases s.sub_sections.len() - j,
    {
        assert(section_within(s.sub_sections@[j as int], els.len() as int));
        assert(decreases_to!(*s => s.sub_sections@[j as int]));
        push_section(out, els, raw, &s.sub_sections[j]);
        proof {
            assert(s.sub_sections@.take(j + 1).drop_last() =~= s.sub_sections@.take(j as int));
            assert(out@ =~= mid + sections_markup(els@, raw@, s.sub_sections@.take(j + 1)));
        }
        j = j + 1;
    }
    out.append("</div>");
    out.append("</details>");
    proof {
        assert(s.sub_sections@.take(s.sub_sections.len() as int) =~= s.sub_sections@);
        assert(final(out)@ =~= old(out)@ + details_tag(s.is_folded, s.section_index) + section_body(els@, raw@, *s));
    }
}

/// Renders a section tree: each preamble element and each section content
/// element in its own span-annotated block, each section as a collapsible
/// container (open unless folded) whose heading carries the section's path.
pub fn render_section_tree(tree: &SectionTree, els: &Vec<Element>, raw: &str) -> (r: String)
    requires
        tree_within(*tree, els.len() as int),
    ensures
        r@ == tree_markup(els@, raw@, *tree),
{
    let mut out = String::new();
    push_elements(&mut out, els, raw, &tree.preamble);
    let ghost mid = out@;
    let mut j: usize = 0;
    while j < tree.sections.len()
        invariant
            j <= tree.sections.len(),
                tree_within(*tree, els.len() as int),
            out@ == mid + sections_markup(els@, raw@, tree.sections@.take(j as int)),
        decreases tree.sections.len() - j,
    {
        push_section(&mut out, els, raw, &tree.sections[j]);
        proof {
            assert(tree.sections@.take(j + 1).drop_last() =~= tree.sections@.take(j as int));
            assert(out@ =~= mid + sections_markup(els@, raw@, tree.sections@.take(j + 1)));
        }
        j = j + 1;
    }
    proof {
        assert(tree.sections@.take(tree.sections.len() as int) =~= tree.sections@);
        assert(out@ =~= tree_markup(els@, raw@, *tree));
    }
    out
}

proof fn lemma_section_within(els: Seq<Element>, s: Section, next: int, p: Seq<nat>)
    requires
        section_ok(els, s, next, p),
        els.len() <= usize::MAX,
    ensures
        section_within(s, els.len() as int),
    decreases s,
{
    lemma_ok_parts(els, s, next, p);
    let whole = seq![s.header] + s.content@ + sections_order(s.sub_sections@);
    assert(section_order(s) == whole);
    assert(whole.len() == next - s.header);
    assert forall|k: int| 0 <= k < s.content.len() implies #[trigger] s.content@[k] < els.len() by {
        assert(whole[k + 1] == s.content@[k]);
        assert(k + 1 < whole.len());
        assert(index_range(s.header as int, next)[k + 1] == s.header + k + 1);
    }
    assert forall|j: int| 0 <= j < s.sub_sections.len() implies section_within(
        #[trigger] s.sub_sections@[j],
        els.len() as int,
    ) by {
        lemma_section_within(els, s.sub_sections@[j], sibling_end(s.sub_sections@, j, next), p.push((j + 1) as nat));
    }
}

/// A section tree of `els` refers to elements of `els` only.
pub proof fn lemma_tree_within(els: Seq<Element>, t: SectionTree)
    requires
        tree_ok(els, t),
        els.len() <= usize::MAX,
    ensures
        tree_within(t, els.len() as int),
{
    assert forall|j: int| 0 <= j < t.sections.len() implies section_within(#[trigger] t.sections@[j], els.len() as int) by {
        lemma_section_within(els, t.sections@[j], sibling_end(t.sections@, j, els.len() as int), seq![(j + 1) as nat]);
    }
}

/// A section renders collapsed exactly when its header asked to be folded:
/// its markup opens with the container tag for the header's fold flag.
pub proof fn lemma_fold_pass_through(els: Seq<Element>, src: Seq<char>, t: SectionTree, a: Seq<int>)
    requires
        tree_ok(els, t),
        section_at(t, a) is Some,
    ensures
        ({
            let s = section_at(t, a)->0;
            let tag = details_tag(els[s.header as int].header->0.is_folded, s.section_index);
            section_markup(els, src, s).subrange(0, tag.len() as int) == tag
        }),
{
    lemma_section_at(els, t, a);
    let s = section_at(t, a)->0;
    let tag = details_tag(s.is_folded, s.section_index);
    let body = section_body(els, src, s);
    assert(section_markup(els, src, s) == tag + body);
    assert((tag + body).subrange(0, tag.len() as int) =~= tag);
}

/// Arranges `els` into sections and renders the tree, mapping each span onto
/// UTF-16 offsets of `raw`.
pub fn render_document(els: &Vec<Element>, raw: &str) -> (r: String)
    requires
        levels_positive(els@),
    ensures
        exists|t: SectionTree| tree_ok(els@, t) && r@ == tree_markup(els@, raw@, t),
{
    let n = els.len();
    let tree = build_section_tree(els);
    proof {
        lemma_tree_within(els@, tree);
    }
    render_section_tree(&tree, els, raw)
}

} // verus!
