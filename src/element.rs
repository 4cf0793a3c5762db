use vstd::prelude::*;

verus! {

/// What a header element carries besides its span.
#[derive(Clone, Copy, Debug, PartialEq, Eq, Structural)]
pub struct HeaderInfo {
    /// Nesting level: smaller is more significant.
    pub level: usize,
    /// Whether the section it opens renders collapsed.
    pub is_folded: bool,
    /// Identifier assigned by the parser, independent of position.
    pub section_index: usize,
}

/// One parsed block of the source document, as the section builder and the
/// renderer see it.
#[derive(Debug)]
pub struct Element {
    /// Start of the element's span, in characters of the source text.
    pub start: usize,
    /// End of the element's span, in characters of the source text.
    pub end: usize,
    /// Present exactly when the element is a header.
    pub header: Option<HeaderInfo>,
    /// Markup produced for this element by the element renderer: for a
    /// header, the markup of its label; otherwise the element rendered alone.
    pub markup: String,
}

impl Element {
    pub open spec fn is_header_spec(&self) -> bool {
        self.header is Some
    }

    /// A content (non-header) element.
    pub fn content(start: usize, end: usize, markup: String) -> (r: Element)
        ensures
            r.start == start,
            r.end == end,
            r.header is None,
            r.markup@ == markup@,
    {
        Element { start, end, header: None, markup }
    }

    /// A header element opening a section of the given level.
    pub fn header(
        start: usize,
        end: usize,
        level: usize,
        is_folded: bool,
        section_index: usize,
        markup: String,
    ) -> (r: Element)
        ensures
            r.start == start,
            r.end == end,
            r.header == Some(HeaderInfo { level, is_folded, section_index }),
            r.markup@ == markup@,
    {
        Element { start, end, header: Some(HeaderInfo { level, is_folded, section_index }), markup }
    }

    /// The header data of this element, if it is a header.
    pub fn as_header(&self) -> (r: Option<HeaderInfo>)
        ensures
            r == self.header,
    {
        self.header
    }

    /// The element's span as a `(start, end)` pair.
    pub fn span(&self) -> (r: (usize, usize))
        ensures
            r == (self.start, self.end),
    {
        (self.start, self.end)
    }
}

} // verus!
