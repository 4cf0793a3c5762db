use vstd::prelude::*;
use crate::element::{Element, HeaderInfo};
use crate::path::{
    child_path, decimal, decimal_string, lemma_path_text_injective, ordinals, path_text,
};

verus! {

/// A header together with its direct content and its sub-sections.
///
/// Elements are referred to by their index in the element sequence the
/// tree was built from.
pub struct Section {
    /// Level of the header that opened the section.
    pub level: usize,
    /// Whether the section renders collapsed.
    pub is_folded: bool,
    /// Identifier carried over from the header.
    pub section_index: usize,
    /// Dotted 1-based ordinals of the section among its siblings at each depth.
    pub section_path: String,
    /// Index of the header element.
    pub header: usize,
    /// Span of the header element.
    pub header_span: (usize, usize),
    /// Indices of the non-header elements directly inside the section.
    pub content: Vec<usize>,
    /// Nested sections, in document order.
    pub sub_sections: Vec<Section>,
}

/// Elements before the first header, then the top-level sections.
pub struct SectionTree {
    /// Indices of the elements before the first header.
    pub preamble: Vec<usize>,
    /// Top-level sections, in document order.
    pub sections: Vec<Section>,
}

/// Index `i` holds a header element.
pub open spec fn is_header_at(els: Seq<Element>, i: int) -> bool {
    0 <= i < els.len() && els[i].header is Some
}

/// The level of the header at index `i`.
pub open spec fn level_at(els: Seq<Element>, i: int) -> int {
    els[i].header->0.level as int
}

/// Every header has a positive level.
pub open spec fn levels_positive(els: Seq<Element>) -> bool {
    forall|i: int| is_header_at(els, i) ==> level_at(els, i) >= 1
}

/// The indices `lo, lo + 1, ..., hi - 1`.
pub open spec fn index_range(lo: int, hi: int) -> Seq<usize> {
    Seq::new((hi - lo) as nat, |k: int| (lo + k) as usize)
}

/// The element indices of a section in document order: its header, its
/// content, then its sub-sections.
pub open spec fn section_order(s: Section) -> Seq<usize>
    decreases s,
{
    seq![s.header] + s.content@ + sections_order(s.sub_sections@)
}

/// The element indices of consecutive sections in document order.
pub open spec fn sections_order(ss: Seq<Section>) -> Seq<usize>
    decreases ss,
{
    if ss.len() == 0 {
        Seq::empty()
    } else {
        sections_order(ss.drop_last()) + section_order(ss.last())
    }
}

/// The element indices of a whole tree in traversal order.
pub open spec fn tree_order(t: SectionTree) -> Seq<usize> {
    t.preamble@ + sections_order(t.sections@)
}

/// Where sibling `j` ends: at the header of the next sibling, or at `next`
/// for the last one.
pub open spec fn sibling_end(ss: Seq<Section>, j: int, next: int) -> int {
    if j + 1 < ss.len() {
        ss[j + 1].header as int
    } else {
        next
    }
}

/// `s` is the section that the header at `s.header` opens, covering the
/// elements up to (not including) `next`, at ordinal path `p`:
/// - its fields come from its header;
/// - its header, content and sub-sections cover exactly `s.header .. next`,
///   in that order, and its content holds no header;
/// - each sub-section has a greater level, and is itself such a section, at
///   the path extended by its 1-based position;
/// - it is as long as it can be: `next` is the end, or a header whose level
///   does not exceed the section's.
#[verifier::opaque]
pub open spec fn section_ok(els: Seq<Element>, s: Section, next: int, p: Seq<nat>) -> bool
    decreases s,
{
    let start = s.header as int;
    &&& 0 <= start < next <= els.len()
    &&& els[start].header == Some(
        HeaderInfo { level: s.level, is_folded: s.is_folded, section_index: s.section_index },
    )
    &&& s.header_span == (els[start].start, els[start].end)
    &&& s.section_path@ == path_text(p)
    &&& section_order(s) == index_range(start, next)
    &&& forall|k: int| 0 <= k < s.content.len() ==> !is_header_at(els, #[trigger] s.content@[k] as int)
    &&& forall|j: int|
        0 <= j < s.sub_sections.len() ==> {
            &&& (#[trigger] s.sub_sections@[j]).level > s.level
            &&& section_ok(els, s.sub_sections@[j], sibling_end(s.sub_sections@, j, next), p.push((j + 1) as nat))
        }
    &&& next == els.len() || (is_header_at(els, next) && level_at(els, next) <= s.level)
}

/// `t` is the section tree of `els`: the preamble is the run of non-header
/// elements at the start, and the top-level sections follow one another to
/// the end, the `j`-th at path `j + 1`.
pub open spec fn tree_ok(els: Seq<Element>, t: SectionTree) -> bool {
    let p = t.preamble.len() as int;
    &&& t.preamble@ == index_range(0, p)
    &&& forall|k: int| 0 <= k < p ==> !is_header_at(els, k)
    &&& if t.sections.len() == 0 {
        p == els.len()
    } else {
        t.sections@[0].header == p
    }
    &&& forall|j: int|
        0 <= j < t.sections.len() ==> section_ok(
            els,
            #[trigger] t.sections@[j],
            sibling_end(t.sections@, j, els.len() as int),
            seq![(j + 1) as nat],
        )
}

/// What `section_ok` states of a section, one fact at a time.
pub proof fn lemma_ok_parts(els: Seq<Element>, s: Section, next: int, p: Seq<nat>)
    requires
        section_ok(els, s, next, p),
    ensures
        s.header < next <= els.len(),
        els[s.header as int].header == Some(
            HeaderInfo { level: s.level, is_folded: s.is_folded, section_index: s.section_index },
        ),
        s.header_span == (els[s.header as int].start, els[s.header as int].end),
        s.section_path@ == path_text(p),
        section_order(s) == index_range(s.header as int, next),
        next == els.len() || (is_header_at(els, next) && level_at(els, next) <= s.level),
        forall|k: int| 0 <= k < s.content.len() ==> !is_header_at(els, #[trigger] s.content@[k] as int),
        forall|j: int|
            0 <= j < s.sub_sections.len() ==> {
                &&& (#[trigger] s.sub_sections@[j]).level > s.level
                &&& section_ok(els, s.sub_sections@[j], sibling_end(s.sub_sections@, j, next), p.push((j + 1) as nat))
            },
{
    reveal(section_ok);
}

proof fn lemma_range_concat(a: int, b: int, c: int)
    requires
        a <= b <= c,
    ensures
        index_range(a, b) + index_range(b, c) == index_range(a, c),
{
    assert(index_range(a, b) + index_range(b, c) =~= index_range(a, c));
}

/// Extracts the section opened by the header at `start`, provided its level
/// exceeds `min_level`; also returns the index just past the section.
fn build_section(
    els: &Vec<Element>,
    start: usize,
    min_level: usize,
    path: String,
    Ghost(p): Ghost<Seq<nat>>,
) -> (r: Option<(Section, usize)>)
    requires
        p.len() >= 1,
        path@ == path_text(p),
    ensures
        r is None <==> !(is_header_at(els@, start as int) && level_at(els@, start as int) > min_level),
        r matches Some((s, next)) ==> s.header == start && section_ok(els@, s, next as int, p),
    decreases els.len() - start,
{
    if start >= els.len() {
        return None;
    }
    let info = match els[start].as_header() {
        Some(h) => h,
        None => {
            return None;
        },
    };
    if info.level <= min_level {
        return None;
    }
    let level = info.level;
    let ghost n = els.len() as int;
    let mut content: Vec<usize> = Vec::new();
    let mut subs: Vec<Section> = Vec::new();
    let mut i: usize = start + 1;
    let mut child_counter: usize = 0;
    proof {
        assert(seq![start] + content@ + sections_order(subs@) =~= index_range(start as int, i as int));
    }
    while i < els.len()
        invariant
            start < i <= els.len() == n,
            level == els@[start as int].header->0.level,
            p.len() >= 1,
            path@ == path_text(p),
            child_counter == subs.len(),
            child_counter <= i,
            seq![start] + content@ + sections_order(subs@) == index_range(start as int, i as int),
            forall|k: int| 0 <= k < content.len() ==> !is_header_at(els@, #[trigger] content@[k] as int),
            forall|j: int|
                0 <= j < subs.len() ==> {
                    &&& (#[trigger] subs@[j]).level > level
                    &&& section_ok(els@, subs@[j], sibling_end(subs@, j, i as int), p.push((j + 1) as nat))
                },
            subs.len() > 0 ==> i == n || is_header_at(els@, i as int),
            subs.len() > 0 ==> subs@[0].header as int == start + 1 + content.len(),
        ensures
            i == els.len() || (is_header_at(els@, i as int) && level_at(els@, i as int) <= level),
        decreases els.len() - i,
    {
        match els[i].as_header() {
            Some(h) => {
                if h.level <= level {
                    break;
                }
                child_counter = child_counter + 1;
                let cpath = child_path(&path, child_counter, Ghost(p));
                match build_section(els, i, level, cpath, Ghost(p.push(child_counter as nat))) {
                    Some((child, next)) => {
                        let ghost old_subs = subs@;
                        proof {
                            lemma_ok_parts(els@, child, next as int, p.push(child_counter as nat));
                            lemma_range_concat(start as int, i as int, next as int);
                        }
                        subs.push(child);
                        proof {
                            assert(subs@.drop_last() =~= old_subs);
                            assert(seq![start] + content@ + sections_order(subs@) =~= index_range(
                                start as int,
                                next as int,
                            ));
                            assert forall|j: int| 0 <= j < subs.len() implies {
                                &&& (#[trigger] subs@[j]).level > level
                                &&& section_ok(els@, subs@[j], sibling_end(subs@, j, next as int), p.push((j + 1) as nat))
                            } by {
                                if j < old_subs.len() {
                                    assert(subs@[j] == old_subs[j]);
                                    assert(sibling_end(subs@, j, next as int) == sibling_end(old_subs, j, i as int));
                                }
                            }
                            if old_subs.len() == 0 {
                                assert(section_order(child) == index_range(i as int, next as int));
                                assert(content@.len() + 1 == i - start) by {
                                    assert(sections_order(old_subs) =~= Seq::<usize>::empty());
                                    assert((seq![start] + content@ + sections_order(old_subs)).len() == i - start);
                                }
                            }
                        }
                        i = next;
                    },
                    None => {
                        break;
                    },
                }
            },
            None => {
                proof {
                    lemma_range_concat(start as int, i as int, i + 1);
                    assert(subs.len() == 0);
                    assert(sections_order(subs@) =~= Seq::<usize>::empty());
                }
                content.push(i);
                proof {
                    assert(seq![start] + content@ + sections_order(subs@) =~= index_range(
                        start as int,
                        i + 1,
                    ));
                }
                i = i + 1;
            },
        }
    }
    let s = Section {
        level,
        is_folded: info.is_folded,
        section_index: info.section_index,
        section_path: path,
        header: start,
        header_span: els[start].span(),
        content,
        sub_sections: subs,
    };
    proof {
        reveal(section_ok);
        assert(section_order(s) == seq![start] + content@ + sections_order(subs@));
    }
    Some((s, i))
}

/// Arranges `els` into a section tree: the leading non-header elements form
/// the preamble, and each header opens a section that holds the elements up to
/// the next header of the same or a more significant level.
pub fn build_section_tree(els: &Vec<Element>) -> (t: SectionTree)
    requires
        levels_positive(els@),
    ensures
        tree_ok(els@, t),
{
    let ghost n = els.len() as int;
    let mut preamble: Vec<usize> = Vec::new();
    let mut i: usize = 0;
    while i < els.len() && els[i].as_header().is_none()
        invariant
            i <= els.len(),
            preamble@ == index_range(0, i as int),
            forall|k: int| 0 <= k < i ==> !is_header_at(els@, k),
        ensures
            i == els.len() || is_header_at(els@, i as int),
        decreases els.len() - i,
    {
        preamble.push(i);
        proof {
            assert(preamble@ =~= index_range(0, i + 1));
        }
        i = i + 1;
    }
    let ghost p = i as int;
    let mut sections: Vec<Section> = Vec::new();
    let mut counter: usize = 0;
    proof {
        assert(sections_order(sections@) =~= index_range(p, p));
    }
    while i < els.len()
        invariant
            p <= i <= els.len() == n,
            levels_positive(els@),
            preamble@ == index_range(0, p),
            preamble.len() == p,
            forall|k: int| 0 <= k < p ==> !is_header_at(els@, k),
            i == els.len() || is_header_at(els@, i as int),
            counter == sections.len(),
            counter <= i,
            sections_order(sections@) == index_range(p, i as int),
            sections.len() == 0 ==> i == p,
            sections.len() > 0 ==> sections@[0].header == p,
            forall|j: int|
                0 <= j < sections.len() ==> section_ok(
                    els@,
                    #[trigger] sections@[j],
                    sibling_end(sections@, j, i as int),
                    seq![(j + 1) as nat],
                ),
        ensures
            i == els.len(),
        decreases els.len() - i,
    {
        counter = counter + 1;
        let path = decimal_string(counter);
        let ghost top = seq![counter as nat];
        proof {
            assert(path_text(top) == decimal(counter as nat));
        }
        match build_section(els, i, 0, path, Ghost(top)) {
            Some((s, next)) => {
                let ghost old_sections = sections@;
                proof {
                    lemma_ok_parts(els@, s, next as int, top);
                    lemma_range_concat(p, i as int, next as int);
                }
                sections.push(s);
                proof {
                    assert(sections@.drop_last() =~= old_sections);
                    assert forall|j: int| 0 <= j < sections.len() implies section_ok(
                        els@,
                        #[trigger] sections@[j],
                        sibling_end(sections@, j, next as int),
                        seq![(j + 1) as nat],
                    ) by {
                        if j < old_sections.len() {
                            assert(sections@[j] == old_sections[j]);
                            assert(sibling_end(sections@, j, next as int) == sibling_end(old_sections, j, i as int));
                        }
                    }
                }
                i = next;
            },
            None => {
                break;
            },
        }
    }
    SectionTree { preamble, sections }
}

/// The section reached from `s` by following the child positions in `a`.
pub open spec fn sub_at(s: Section, a: Seq<int>) -> Option<Section>
    decreases a.len(),
{
    if a.len() == 0 {
        Some(s)
    } else if 0 <= a[0] < s.sub_sections.len() {
        sub_at(s.sub_sections@[a[0]], a.drop_first())
    } else {
        None
    }
}

/// The section of `t` at address `a`: `a[0]` picks a top-level section, each
/// further entry a sub-section, all counted from 0.
pub open spec fn section_at(t: SectionTree, a: Seq<int>) -> Option<Section> {
    if a.len() >= 1 && 0 <= a[0] < t.sections.len() {
        sub_at(t.sections@[a[0]], a.drop_first())
    } else {
        None
    }
}

/// Every sibling in `ss` covers the elements from its header up to where it
/// ends.
pub open spec fn siblings_chained(ss: Seq<Section>, end: int) -> bool {
    forall|j: int|
        0 <= j < ss.len() ==> {
            &&& (#[trigger] ss[j]).header < sibling_end(ss, j, end)
            &&& section_order(ss[j]) == index_range(ss[j].header as int, sibling_end(ss, j, end))
        }
}

proof fn lemma_siblings_order(ss: Seq<Section>, end: int)
    requires
        ss.len() > 0,
        siblings_chained(ss, end),
    ensures
        sections_order(ss) == index_range(ss[0].header as int, end),
        ss[0].header < end,
    decreases ss.len(),
{
    let last = ss.last();
    if ss.len() == 1 {
        assert(sections_order(ss.drop_last()) =~= Seq::<usize>::empty());
        assert(sections_order(ss) =~= section_order(last));
    } else {
        let init = ss.drop_last();
        assert forall|j: int| 0 <= j < init.len() implies {
            &&& (#[trigger] init[j]).header < sibling_end(init, j, last.header as int)
            &&& section_order(init[j]) == index_range(init[j].header as int, sibling_end(init, j, last.header as int))
        } by {
            assert(init[j] == ss[j]);
            assert(sibling_end(init, j, last.header as int) == sibling_end(ss, j, end));
        }
        lemma_siblings_order(init, last.header as int);
        assert(sibling_end(ss, ss.len() - 1, end) == end);
        assert(init[0] == ss[0]);
        lemma_range_concat(ss[0].header as int, last.header as int, end);
    }
}

/// The tree is a lossless partition of its input: the preamble, then each
/// section's header, content and sub-sections in traversal order, list every
/// element index exactly once and in input order.
pub proof fn lemma_lossless_partition(els: Seq<Element>, t: SectionTree)
    requires
        tree_ok(els, t),
    ensures
        tree_order(t) == index_range(0, els.len() as int),
{
    let p = t.preamble.len() as int;
    if t.sections.len() == 0 {
        assert(sections_order(t.sections@) =~= Seq::<usize>::empty());
        assert(tree_order(t) =~= index_range(0, els.len() as int));
    } else {
        assert forall|j: int| 0 <= j < t.sections@.len() implies {
            &&& (#[trigger] t.sections@[j]).header < sibling_end(t.sections@, j, els.len() as int)
            &&& section_order(t.sections@[j]) == index_range(
                t.sections@[j].header as int,
                sibling_end(t.sections@, j, els.len() as int),
            )
        } by {
            lemma_ok_parts(els, t.sections@[j], sibling_end(t.sections@, j, els.len() as int), seq![(j + 1) as nat]);
        }
        lemma_siblings_order(t.sections@, els.len() as int);
        lemma_range_concat(0, p, els.len() as int);
    }
}

proof fn lemma_sub_at_ok(els: Seq<Element>, s: Section, next: int, p: Seq<nat>, a: Seq<int>)
    requires
        section_ok(els, s, next, p),
        sub_at(s, a) is Some,
    ensures
        forall|k: int| 0 <= k < a.len() ==> 0 <= #[trigger] a[k],
        (sub_at(s, a)->0).section_path@ == path_text(p + ordinals(a)),
        els[(sub_at(s, a)->0).header as int].header == Some(
            HeaderInfo {
                level: (sub_at(s, a)->0).level,
                is_folded: (sub_at(s, a)->0).is_folded,
                section_index: (sub_at(s, a)->0).section_index,
            },
        ),
        forall|j: int|
            0 <= j < (sub_at(s, a)->0).sub_sections.len() ==> (#[trigger] (sub_at(s, a)->0).sub_sections@[j]).level
                > (sub_at(s, a)->0).level,
    decreases a.len(),
{
    lemma_ok_parts(els, s, next, p);
    if a.len() == 0 {
        assert(p + ordinals(a) =~= p);
    } else {
        let j = a[0];
        let c = s.sub_sections@[j];
        let rest = a.drop_first();
        lemma_ok_parts(els, s, next, p);
        lemma_sub_at_ok(els, c, sibling_end(s.sub_sections@, j, next), p.push((j + 1) as nat), rest);
        assert(p.push((j + 1) as nat) + ordinals(rest) =~= p + ordinals(a));
        assert forall|k: int| 0 <= k < a.len() implies 0 <= #[trigger] a[k] by {
            if k > 0 {
                assert(a[k] == rest[k - 1]);
            }
        }
    }
}

/// The section at address `a` carries the path of the ordinals `a[k] + 1`,
/// and the fields of its header.
#[verifier::rlimit(60)]
pub proof fn lemma_section_at(els: Seq<Element>, t: SectionTree, a: Seq<int>)
    requires
        tree_ok(els, t),
        section_at(t, a) is Some,
    ensures
        forall|k: int| 0 <= k < a.len() ==> 0 <= #[trigger] a[k],
        (section_at(t, a)->0).section_path@ == path_text(ordinals(a)),
        els[(section_at(t, a)->0).header as int].header == Some(
            HeaderInfo {
                level: (section_at(t, a)->0).level,
                is_folded: (section_at(t, a)->0).is_folded,
                section_index: (section_at(t, a)->0).section_index,
            },
        ),
{
    let j = a[0];
    let rest = a.drop_first();
    lemma_sub_at_ok(els, t.sections@[j], sibling_end(t.sections@, j, els.len() as int), seq![(j + 1) as nat], rest);
    assert(section_at(t, a) == sub_at(t.sections@[j], rest));
    assert(seq![(j + 1) as nat] + ordinals(rest) =~= ordinals(a));
    assert forall|k: int| 0 <= k < a.len() implies 0 <= #[trigger] a[k] by {
        if k > 0 {
            assert(a[k] == rest[k - 1]);
        }
    }
}

/// No two sections of a tree share a path: sections at different addresses
/// have different path texts.
pub proof fn lemma_paths_unique(els: Seq<Element>, t: SectionTree, a: Seq<int>, b: Seq<int>)
    requires
        tree_ok(els, t),
        section_at(t, a) is Some,
        section_at(t, b) is Some,
        a != b,
    ensures
        (section_at(t, a)->0).section_path@ != (section_at(t, b)->0).section_path@,
{
    lemma_section_at(els, t, a);
    lemma_section_at(els, t, b);
    if path_text(ordinals(a)) == path_text(ordinals(b)) {
        lemma_path_text_injective(ordinals(a), ordinals(b));
        assert(a.len() == b.len()) by {
            assert(ordinals(a).len() == ordinals(b).len());
        }
        assert(a =~= b) by {
            assert forall|k: int| 0 <= k < a.len() implies a[k] == b[k] by {
                assert(ordinals(a)[k] == ordinals(b)[k]);
            }
        }
    }
}

/// Along every path from a section down to a sub-section, levels strictly
/// increase.
pub proof fn lemma_levels_increase(els: Seq<Element>, t: SectionTree, a: Seq<int>, j: int)
    requires
        tree_ok(els, t),
        section_at(t, a) is Some,
        0 <= j < (section_at(t, a)->0).sub_sections.len(),
    ensures
        (section_at(t, a)->0).sub_sections@[j].level > (section_at(t, a)->0).level,
{
    let i = a[0];
    let rest = a.drop_first();
    lemma_sub_at_ok(els, t.sections@[i], sibling_end(t.sections@, i, els.len() as int), seq![(i + 1) as nat], rest);
}

/// Two sections agree in every field and, recursively, in their sub-sections.
pub open spec fn same_section(a: Section, b: Section) -> bool
    decreases a,
{
    &&& a.level == b.level
    &&& a.is_folded == b.is_folded
    &&& a.section_index == b.section_index
    &&& a.section_path@ == b.section_path@
    &&& a.header == b.header
    &&& a.header_span == b.header_span
    &&& a.content@ == b.content@
    &&& a.sub_sections.len() == b.sub_sections.len()
    &&& forall|j: int|
        0 <= j < a.sub_sections.len() ==> same_section(#[trigger] a.sub_sections@[j], b.sub_sections@[j])
}

/// Two trees agree in their preamble and, section by section, everywhere else.
pub open spec fn same_tree(a: SectionTree, b: SectionTree) -> bool {
    &&& a.preamble@ == b.preamble@
    &&& a.sections.len() == b.sections.len()
    &&& forall|j: int| 0 <= j < a.sections.len() ==> same_section(#[trigger] a.sections@[j], b.sections@[j])
}

/// Siblings that each are sections at their own path and end where the next
/// begins.
pub open spec fn siblings_ok(els: Seq<Element>, ss: Seq<Section>, end: int, p: Seq<nat>) -> bool {
    forall|j: int|
        0 <= j < ss.len() ==> section_ok(els, #[trigger] ss[j], sibling_end(ss, j, end), p.push((j + 1) as nat))
}

proof fn lemma_siblings_ok_chained(els: Seq<Element>, ss: Seq<Section>, end: int, p: Seq<nat>)
    requires
        siblings_ok(els, ss, end, p),
    ensures
        siblings_chained(ss, end),
{
    assert forall|j: int| 0 <= j < ss.len() implies {
        &&& (#[trigger] ss[j]).header < sibling_end(ss, j, end)
        &&& section_order(ss[j]) == index_range(ss[j].header as int, sibling_end(ss, j, end))
    } by {
        lemma_ok_parts(els, ss[j], sibling_end(ss, j, end), p.push((j + 1) as nat));
    }
}

/// Where each sibling ends never passes the end of the run.
proof fn lemma_sibling_end_bounded(ss: Seq<Section>, end: int, j: int)
    requires
        siblings_chained(ss, end),
        0 <= j < ss.len(),
    ensures
        sibling_end(ss, j, end) <= end,
    decreases ss.len() - j,
{
    if j + 1 < ss.len() {
        lemma_sibling_end_bounded(ss, end, j + 1);
    }
}

/// The sub-sections of a section, and where its content ends.
proof fn lemma_section_layout(els: Seq<Element>, s: Section, next: int, p: Seq<nat>)
    requires
        els.len() <= usize::MAX,
        section_ok(els, s, next, p),
    ensures
        siblings_ok(els, s.sub_sections@, next, p),
        s.header + 1 + s.content.len() <= next,
        forall|k: int| 0 <= k < s.content.len() ==> #[trigger] s.content@[k] == s.header + 1 + k,
        s.sub_sections.len() == 0 ==> s.header + 1 + s.content.len() == next,
        s.sub_sections.len() > 0 ==> s.sub_sections@[0].header == s.header + 1 + s.content.len(),
{
    lemma_ok_parts(els, s, next, p);
    let ss = s.sub_sections@;
    let c = s.content@;
    let whole = seq![s.header] + c + sections_order(ss);
    assert(section_order(s) == whole);
    assert(whole.len() == next - s.header);
    assert forall|k: int| 0 <= k < s.content.len() implies #[trigger] s.content@[k] == s.header + 1 + k by {
        assert(whole[k + 1] == c[k]);
        assert(index_range(s.header as int, next)[k + 1] == s.header + k + 1);
    }
    assert forall|j: int| 0 <= j < ss.len() implies section_ok(els, #[trigger] ss[j], sibling_end(ss, j, next), p.push((j + 1) as nat)) by {
    }
    if ss.len() == 0 {
        assert(sections_order(ss) =~= Seq::<usize>::empty());
    } else {
        lemma_siblings_ok_chained(els, ss, next, p);
        lemma_siblings_order(ss, next);
        let q = 1 + c.len() as int;
        assert(whole[q] == sections_order(ss)[0]);
        assert(index_range(s.header as int, next)[q] == s.header + q);
        assert(index_range(ss[0].header as int, next)[0] == ss[0].header);
    }
}

/// Every header strictly inside a section is deeper than the section.
proof fn lemma_inner_headers(els: Seq<Element>, s: Section, next: int, p: Seq<nat>)
    requires
        els.len() <= usize::MAX,
        section_ok(els, s, next, p),
    ensures
        forall|i: int| s.header < i < next && is_header_at(els, i) ==> level_at(els, i) > s.level,
    decreases s,
{
    lemma_ok_parts(els, s, next, p);
    lemma_section_layout(els, s, next, p);
    let ss = s.sub_sections@;
    if ss.len() > 0 {
        assert forall|j: int| 0 <= j < ss.len() implies (#[trigger] ss[j]).level > s.level by {}
        lemma_siblings_headers(els, ss, next, p, s.level as int);
    }
    assert forall|i: int| s.header < i < next && is_header_at(els, i) implies level_at(els, i) > s.level by {
        if i <= s.header + s.content.len() {
            assert(s.content@[i - s.header - 1] == i);
        }
    }
}

/// Every header in a run of siblings deeper than `lvl` is deeper than `lvl`.
proof fn lemma_siblings_headers(els: Seq<Element>, ss: Seq<Section>, end: int, p: Seq<nat>, lvl: int)
    requires
        els.len() <= usize::MAX,
        ss.len() > 0,
        siblings_ok(els, ss, end, p),
        forall|j: int| 0 <= j < ss.len() ==> (#[trigger] ss[j]).level > lvl,
    ensures
        forall|i: int| ss[0].header <= i < end && is_header_at(els, i) ==> level_at(els, i) > lvl,
    decreases ss,
{
    let n = ss.len() as int;
    let last = ss[n - 1];
    assert(section_ok(els, ss[n - 1], sibling_end(ss, n - 1, end), p.push(n as nat)));
    assert(sibling_end(ss, n - 1, end) == end);
    lemma_ok_parts(els, last, end, p.push(n as nat));
    lemma_inner_headers(els, last, end, p.push(n as nat));
    if n > 1 {
        let init = ss.drop_last();
        assert forall|j: int| 0 <= j < init.len() implies section_ok(els, #[trigger] init[j], sibling_end(init, j, last.header as int), p.push((j + 1) as nat)) by {
            assert(init[j] == ss[j]);
            assert(sibling_end(init, j, last.header as int) == sibling_end(ss, j, end));
        }
        assert forall|j: int| 0 <= j < init.len() implies (#[trigger] init[j]).level > lvl by {
            assert(init[j] == ss[j]);
        }
        lemma_siblings_headers(els, init, last.header as int, p, lvl);
        lemma_siblings_ok_chained(els, init, last.header as int, p);
        lemma_siblings_order(init, last.header as int);
        assert(init[0] == ss[0]);
    }
}

/// Two sections opened by the same header end at the same place.
proof fn lemma_same_end(els: Seq<Element>, a: Section, na: int, pa: Seq<nat>, b: Section, nb: int, pb: Seq<nat>)
    requires
        els.len() <= usize::MAX,
        section_ok(els, a, na, pa),
        section_ok(els, b, nb, pb),
        a.header == b.header,
    ensures
        na == nb,
{
    lemma_ok_parts(els, a, na, pa);
    lemma_ok_parts(els, b, nb, pb);
    lemma_inner_headers(els, a, na, pa);
    lemma_inner_headers(els, b, nb, pb);
}

/// Two sections opened by the same header at the same path agree.
proof fn lemma_same_section(els: Seq<Element>, a: Section, b: Section, next: int, p: Seq<nat>)
    requires
        els.len() <= usize::MAX,
        section_ok(els, a, next, p),
        section_ok(els, b, next, p),
        a.header == b.header,
    ensures
        same_section(a, b),
    decreases a,
{
    lemma_ok_parts(els, a, next, p);
    lemma_ok_parts(els, b, next, p);
    lemma_section_layout(els, a, next, p);
    lemma_section_layout(els, b, next, p);
    let h = a.header as int;
    let ka = a.content.len() as int;
    let kb = b.content.len() as int;
    if ka < kb {
        assert(b.content@[ka] == h + 1 + ka);
        if a.sub_sections.len() > 0 {
            lemma_ok_parts(els, a.sub_sections@[0], sibling_end(a.sub_sections@, 0, next), p.push(1));
        }
    }
    if kb < ka {
        assert(a.content@[kb] == h + 1 + kb);
        if b.sub_sections.len() > 0 {
            lemma_ok_parts(els, b.sub_sections@[0], sibling_end(b.sub_sections@, 0, next), p.push(1));
        }
    }
    assert(a.content@ =~= b.content@);
    let sa = a.sub_sections@;
    let sb = b.sub_sections@;
    if sa.len() > 0 && sb.len() > 0 {
        lemma_same_siblings(els, sa, sb, next, p);
    } else if sa.len() > 0 {
        lemma_siblings_ok_chained(els, sa, next, p);
        lemma_siblings_order(sa, next);
    } else if sb.len() > 0 {
        lemma_siblings_ok_chained(els, sb, next, p);
        lemma_siblings_order(sb, next);
    }
}

proof fn lemma_same_headers(els: Seq<Element>, sa: Seq<Section>, sb: Seq<Section>, end: int, p: Seq<nat>, j: int)
    requires
        els.len() <= usize::MAX,
        sa.len() > 0,
        sb.len() > 0,
        sa[0].header == sb[0].header,
        siblings_ok(els, sa, end, p),
        siblings_ok(els, sb, end, p),
        0 <= j < sa.len(),
        j < sb.len(),
    ensures
        sa[j].header == sb[j].header,
        sibling_end(sa, j, end) == sibling_end(sb, j, end),
    decreases j,
{
    if j > 0 {
        lemma_same_headers(els, sa, sb, end, p, j - 1);
    }
    assert(section_ok(els, sa[j], sibling_end(sa, j, end), p.push((j + 1) as nat)));
    assert(section_ok(els, sb[j], sibling_end(sb, j, end), p.push((j + 1) as nat)));
    lemma_same_end(
        els,
        sa[j],
        sibling_end(sa, j, end),
        p.push((j + 1) as nat),
        sb[j],
        sibling_end(sb, j, end),
        p.push((j + 1) as nat),
    );
}

/// Two runs of siblings that start at the same header and end at the same
/// place agree, sibling by sibling.
proof fn lemma_same_siblings(els: Seq<Element>, sa: Seq<Section>, sb: Seq<Section>, end: int, p: Seq<nat>)
    requires
        els.len() <= usize::MAX,
        sa.len() > 0,
        sb.len() > 0,
        sa[0].header == sb[0].header,
        siblings_ok(els, sa, end, p),
        siblings_ok(els, sb, end, p),
    ensures
        sa.len() == sb.len(),
        forall|j: int| 0 <= j < sa.len() ==> same_section(#[trigger] sa[j], sb[j]),
    decreases sa,
{
    lemma_siblings_ok_chained(els, sa, end, p);
    lemma_siblings_ok_chained(els, sb, end, p);
    if sa.len() < sb.len() {
        let j = sa.len() - 1;
        lemma_same_headers(els, sa, sb, end, p, j);
        lemma_sibling_end_bounded(sb, end, j + 1);
        assert(sb[j + 1].header < sibling_end(sb, j + 1, end));
    }
    if sb.len() < sa.len() {
        let j = sb.len() - 1;
        lemma_same_headers(els, sa, sb, end, p, j);
        lemma_sibling_end_bounded(sa, end, j + 1);
        assert(sa[j + 1].header < sibling_end(sa, j + 1, end));
    }
    assert forall|j: int| 0 <= j < sa.len() implies same_section(#[trigger] sa[j], sb[j]) by {
        lemma_same_headers(els, sa, sb, end, p, j);
        assert(section_ok(els, sa[j], sibling_end(sa, j, end), p.push((j + 1) as nat)));
        assert(section_ok(els, sb[j], sibling_end(sb, j, end), p.push((j + 1) as nat)));
        lemma_same_section(els, sa[j], sb[j], sibling_end(sa, j, end), p.push((j + 1) as nat));
    }
}

/// A sequence of elements has one section tree: any two trees that meet
/// `tree_ok` for the same elements agree in every field.
pub proof fn lemma_tree_determined(els: Seq<Element>, a: SectionTree, b: SectionTree)
    requires
        els.len() <= usize::MAX,
        tree_ok(els, a),
        tree_ok(els, b),
    ensures
        same_tree(a, b),
{
    let n = els.len() as int;
    let pa = a.preamble.len() as int;
    let pb = b.preamble.len() as int;
    let top = Seq::<nat>::empty();
    assert forall|j: int| 0 <= j < a.sections.len() implies section_ok(els, #[trigger] a.sections@[j], sibling_end(a.sections@, j, n), top.push((j + 1) as nat)) by {
        assert(top.push((j + 1) as nat) =~= seq![(j + 1) as nat]);
    }
    assert forall|j: int| 0 <= j < b.sections.len() implies section_ok(els, #[trigger] b.sections@[j], sibling_end(b.sections@, j, n), top.push((j + 1) as nat)) by {
        assert(top.push((j + 1) as nat) =~= seq![(j + 1) as nat]);
    }
    if a.sections.len() > 0 {
        lemma_ok_parts(els, a.sections@[0], sibling_end(a.sections@, 0, n), top.push(1));
    }
    if b.sections.len() > 0 {
        lemma_ok_parts(els, b.sections@[0], sibling_end(b.sections@, 0, n), top.push(1));
    }
    if pa < pb {
        assert(!is_header_at(els, pa));
        assert(pb <= n);
        assert(a.sections.len() > 0);
        assert(is_header_at(els, pa));
    }
    if pb < pa {
        assert(!is_header_at(els, pb));
        assert(pa <= n);
        assert(b.sections.len() > 0);
        assert(is_header_at(els, pb));
    }
    assert(a.preamble@ =~= b.preamble@);
    if a.sections.len() > 0 && b.sections.len() > 0 {
        lemma_same_siblings(els, a.sections@, b.sections@, n, top);
    }
}

} // verus!
