//! Style annotations: the kinds of style the markdown-subset grammar can
//! attach to a byte range, the per-grapheme style set, and the position of
//! a styled grapheme within a run of equally styled neighbours.

use vstd::prelude::*;

verus! {

/// A kind of style annotation derived from the markdown-subset grammar.
#[derive(Clone, Copy, Debug, PartialEq, Eq, Structural)]
pub enum StyleKind {
    Emphasis,
    Strong,
    Code,
    TableBlock,
    TableHeader,
    TableCellBoundary,
}

/// The set of styles one grapheme carries; a grapheme may carry zero or
/// more styles at once (for example bold and italic together).
#[derive(Clone, Copy, Debug, PartialEq, Eq, Structural)]
pub struct StyleSet {
    pub emphasis: bool,
    pub strong: bool,
    pub code: bool,
    pub table_block: bool,
    pub table_header: bool,
    pub table_cell_boundary: bool,
}

impl StyleSet {
    /// The set with no styles.
    pub open spec fn spec_empty() -> StyleSet {
        StyleSet {
            emphasis: false,
            strong: false,
            code: false,
            table_block: false,
            table_header: false,
            table_cell_boundary: false,
        }
    }

    pub fn empty() -> (r: StyleSet)
        ensures
            r == StyleSet::spec_empty(),
    {
        StyleSet {
            emphasis: false,
            strong: false,
            code: false,
            table_block: false,
            table_header: false,
            table_cell_boundary: false,
        }
    }

    /// Whether the set carries the given kind.
    pub open spec fn has(self, kind: StyleKind) -> bool {
        match kind {
            StyleKind::Emphasis => self.emphasis,
            StyleKind::Strong => self.strong,
            StyleKind::Code => self.code,
            StyleKind::TableBlock => self.table_block,
            StyleKind::TableHeader => self.table_header,
            StyleKind::TableCellBoundary => self.table_cell_boundary,
        }
    }

    pub fn contains(&self, kind: StyleKind) -> (r: bool)
        ensures
            r == self.has(kind),
    {
        match kind {
            StyleKind::Emphasis => self.emphasis,
            StyleKind::Strong => self.strong,
            StyleKind::Code => self.code,
            StyleKind::TableBlock => self.table_block,
            StyleKind::TableHeader => self.table_header,
            StyleKind::TableCellBoundary => self.table_cell_boundary,
        }
    }

    /// The set with the given kind added.
    pub open spec fn spec_with(self, kind: StyleKind) -> StyleSet {
        StyleSet {
            emphasis: self.emphasis || kind is Emphasis,
            strong: self.strong || kind is Strong,
            code: self.code || kind is Code,
            table_block: self.table_block || kind is TableBlock,
            table_header: self.table_header || kind is TableHeader,
            table_cell_boundary: self.table_cell_boundary || kind is TableCellBoundary,
        }
    }

    pub fn with(self, kind: StyleKind) -> (r: StyleSet)
        ensures
            r == self.spec_with(kind),
    {
        StyleSet {
            emphasis: self.emphasis || matches!(kind, StyleKind::Emphasis),
            strong: self.strong || matches!(kind, StyleKind::Strong),
            code: self.code || matches!(kind, StyleKind::Code),
            table_block: self.table_block || matches!(kind, StyleKind::TableBlock),
            table_header: self.table_header || matches!(kind, StyleKind::TableHeader),
            table_cell_boundary: self.table_cell_boundary
                || matches!(kind, StyleKind::TableCellBoundary),
        }
    }
}

impl Default for StyleSet {
    fn default() -> (r: StyleSet)
        ensures
            r == StyleSet::spec_empty(),
    {
        StyleSet::empty()
    }
}

/// Where a styled grapheme sits within a run of neighbours that carry the
/// same style: used to render run edges (for example rounding the left and
/// right end of a code span).
#[derive(Clone, Copy, Debug, PartialEq, Eq, Structural)]
pub enum Position {
    First,
    Last,
    Sandwiched,
    Single,
}

impl Position {
    pub open spec fn spec_is_first(self) -> bool {
        self is First || self is Single
    }

    pub fn is_first(&self) -> (r: bool)
        ensures
            r == self.spec_is_first(),
    {
        matches!(self, Position::First | Position::Single)
    }

    pub open spec fn spec_is_last(self) -> bool {
        self is Last || self is Single
    }

    pub fn is_last(&self) -> (r: bool)
        ensures
            r == self.spec_is_last(),
    {
        matches!(self, Position::Last | Position::Single)
    }
}

impl StyleKind {
    /// Classify a styled grapheme's place in its run by comparing the style
    /// sets of the previous and the next grapheme with this kind.
    pub open spec fn spec_positioned(self, was: StyleSet, will: StyleSet) -> Position {
        match (was.has(self), will.has(self)) {
            (true, true) => Position::Sandwiched,
            (true, false) => Position::Last,
            (false, true) => Position::First,
            (false, false) => Position::Single,
        }
    }

    pub fn positioned(&self, was: &StyleSet, will: &StyleSet) -> (r: Position)
        ensures
            r == self.spec_positioned(*was, *will),
    {
        match (was.contains(*self), will.contains(*self)) {
            (true, true) => Position::Sandwiched,
            (true, false) => Position::Last,
            (false, true) => Position::First,
            (false, false) => Position::Single,
        }
    }
}

} // verus!
