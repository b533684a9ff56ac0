//! The document: an ordered sequence of elements with one active element,
//! dispatching commands to the active element first and rerouting focus to
//! a sibling when a directional command is refused; at the document's own
//! edge the motion is silently absorbed.

use vstd::prelude::*;

verus! {

use crate::command::Command;
use crate::command::Commandee;
use crate::markdown::MdToken;
use crate::markdown::MdTokKind;
use crate::markdown::md_tokens;
use crate::markdown::md_tokens_of;
use crate::table::Table;
use crate::table::TableV;
use crate::table::parse_cells;
use crate::table::table_handles;
use crate::table::table_step;

/// A document element: a closed set of variants, designed to grow; a table
/// is the one kind there is so far.
#[derive(Debug, PartialEq)]
pub enum Element {
    Table(Table),
}

/// The mathematical value of an element.
pub enum ElemV {
    Table(TableV),
}

impl View for Element {
    type V = ElemV;

    open spec fn view(&self) -> ElemV {
        match self {
            Element::Table(t) => ElemV::Table(t@),
        }
    }
}

/// Whether the element consumes the command.
pub open spec fn elem_handles(e: ElemV, cmd: Command) -> bool {
    match e {
        ElemV::Table(t) => table_handles(t, cmd),
    }
}

/// The element's state after a command.
pub open spec fn elem_step(e: ElemV, cmd: Command) -> ElemV {
    match e {
        ElemV::Table(t) => ElemV::Table(table_step(t, cmd)),
    }
}

impl Commandee for Element {
    open spec fn inv(&self) -> bool {
        match self {
            Element::Table(t) => t.inv(),
        }
    }

    open spec fn accepts(&self, command: &Command) -> bool {
        match self {
            Element::Table(t) => t.accepts(command),
        }
    }

    open spec fn step_ok(pre: Self, post: Self, command: Command, handled: bool) -> bool {
        post@ == elem_step(pre@, command) && handled == elem_handles(pre@, command)
    }

    /// Forward the command to the variant's own dispatch.
    fn command(&mut self, command: &Command) -> (handled: bool) {
        match self {
            Element::Table(table) => table.command(command),
        }
    }
}

/// A document: the ordered elements and the index of the active one,
/// always valid while any element exists.
pub struct Document {
    pub elements: Vec<Element>,
    pub active_element: usize,
}

/// The mathematical value of a document.
pub struct DocV {
    pub elements: Seq<ElemV>,
    pub active_element: usize,
}

impl View for Document {
    type V = DocV;

    open spec fn view(&self) -> DocV {
        DocV {
            elements: self.elements@.map_values(|e: Element| e@),
            active_element: self.active_element,
        }
    }
}

/// Whether the document consumes the command: what its active element
/// consumes, and every directional motion (a motion that cannot leave the
/// active element either reaches a sibling or is absorbed at the edge).
pub open spec fn doc_handles(d: DocV, cmd: Command) -> bool {
    elem_handles(d.elements[d.active_element as int], cmd) || cmd.is_directional()
}

/// The document's state after a command: the active element's own step
/// when it consumes the command; otherwise a refused directional motion
/// moves focus to the previous or next element, entering it from the side
/// the focus came from, and does nothing at the document's edge.
pub open spec fn doc_step(d: DocV, cmd: Command) -> DocV {
    let a = d.active_element as int;
    let e = d.elements[a];
    if elem_handles(e, cmd) {
        DocV { elements: d.elements.update(a, elem_step(e, cmd)), active_element: d.active_element }
    } else if cmd is Up || cmd is Left {
        if d.active_element > 0 {
            DocV {
                elements: d.elements.update(a, elem_step(e, Command::CursorLeave)).update(
                    a - 1,
                    elem_step(d.elements[a - 1], Command::CursorEnterH(true)),
                ),
                active_element: (d.active_element - 1) as usize,
            }
        } else {
            d
        }
    } else if cmd is Down || cmd is Right {
        if a < d.elements.len() - 1 {
            DocV {
                elements: d.elements.update(a, elem_step(e, Command::CursorLeave)).update(
                    a + 1,
                    elem_step(d.elements[a + 1], Command::CursorEnterH(false)),
                ),
                active_element: (d.active_element + 1) as usize,
            }
        } else {
            d
        }
    } else {
        d
    }
}

/// An element that refuses a command is untouched by it.
proof fn lemma_elem_step_unhandled_is_noop(e: ElemV, cmd: Command)
    requires
        !elem_handles(e, cmd),
    ensures
        elem_step(e, cmd) == e,
{
    match e {
        ElemV::Table(t) => {
            assert(table_step(t, cmd) == t);
        },
    }
}

impl Document {
    /// Run one command against the element at position `idx`, keeping
    /// every other element as it is.
    fn elem_command(&mut self, idx: usize, command: &Command) -> (handled: bool)
        requires
            idx < old(self).elements@.len(),
            old(self).elements@[idx as int].inv(),
            old(self).elements@[idx as int].accepts(command),
        ensures
            final(self).elements@.len() == old(self).elements@.len(),
            forall|j: int|
                0 <= j < old(self).elements@.len() && j != idx ==> final(self).elements@[j] == old(
                    self,
                ).elements@[j],
            final(self).elements@[idx as int]@ == elem_step(
                old(self).elements@[idx as int]@,
                *command,
            ),
            final(self).elements@[idx as int].inv(),
            handled == elem_handles(old(self).elements@[idx as int]@, *command),
            final(self).active_element == old(self).active_element,
            final(self)@.elements == old(self)@.elements.update(
                idx as int,
                elem_step(old(self).elements@[idx as int]@, *command),
            ),
    {
        let ghost pre = self.elements@;
        let mut e = self.elements.remove(idx);
        let handled = e.command(command);
        self.elements.insert(idx, e);
        proof {
            assert(self.elements@ =~= pre.update(idx as int, self.elements@[idx as int]));
            assert(self@.elements =~= old(self)@.elements.update(
                idx as int,
                elem_step(pre[idx as int]@, *command),
            ));
        }
        handled
    }
}

impl Commandee for Document {
    /// The document's invariant: while any element exists the active index
    /// is valid, and every element holds its own invariant.
    open spec fn inv(&self) -> bool {
        &&& self.elements@.len() > 0 ==> (self.active_element as int) < self.elements@.len()
        &&& forall|i: int| 0 <= i < self.elements@.len() ==> (#[trigger] self.elements@[i]).inv()
    }

    /// A document must hold at least one element to dispatch; the active
    /// element must accept the command, and moving focus forward must find
    /// a next element that accepts entry at its default cell.
    open spec fn accepts(&self, command: &Command) -> bool {
        &&& self.elements@.len() > 0
        &&& self.elements@[self.active_element as int].accepts(command)
        &&& ((command is Down || command is Right) && (self.active_element as int)
            < self.elements@.len() - 1 ==> self.elements@[self.active_element + 1].accepts(
            &Command::CursorEnterH(false),
        ))
    }

    open spec fn step_ok(pre: Self, post: Self, command: Command, handled: bool) -> bool {
        post@ == doc_step(pre@, command) && handled == doc_handles(pre@, command)
    }

    /// Try to consume a command: the active element first; a directional
    /// motion it refuses moves focus to the neighbouring element, and is
    /// absorbed unchanged at the document's edge.
    fn command(&mut self, command: &Command) -> (handled: bool) {
        let ghost pre = *self;
        let len = self.elements.len();
        let active = self.active_element;
        let child = self.elem_command(active, command);
        if child {
            true
        } else {
            proof {
                lemma_elem_step_unhandled_is_noop(pre@.elements[active as int], *command);
                assert(self@.elements =~= pre@.elements);
            }
            let up_left = matches!(command, Command::Up | Command::Left);
            let down_right = matches!(command, Command::Down | Command::Right);
            if up_left {
                if active > 0 {
                    self.elem_command(active, &Command::CursorLeave);
                    self.active_element = active - 1;
                    self.elem_command(active - 1, &Command::CursorEnterH(true));
                    proof {
                        assert(self@.elements =~= doc_step(pre@, *command).elements);
                    }
                } else {
                    proof {
                        assert(self@.elements =~= doc_step(pre@, *command).elements);
                    }
                }
                true
            } else if down_right {
                if active < len - 1 {
                    self.elem_command(active, &Command::CursorLeave);
                    self.active_element = active + 1;
                    self.elem_command(active + 1, &Command::CursorEnterH(false));
                    proof {
                        assert(self@.elements =~= doc_step(pre@, *command).elements);
                    }
                } else {
                    proof {
                        assert(self@.elements =~= doc_step(pre@, *command).elements);
                    }
                }
                true
            } else {
                proof {
                    assert(self@.elements =~= doc_step(pre@, *command).elements);
                }
                false
            }
        }
    }
}

/// The elements a document parse yields from the tokens at `i` on: each
/// table block becomes one table element, and every other event is passed
/// over (the grammar subset recognizes nothing else as a block).
pub open spec fn doc_parse(tokens: Seq<MdToken>, i: int) -> Seq<ElemV>
    decreases tokens.len() - i,
{
    if i < 0 || i >= tokens.len() {
        Seq::empty()
    } else if tokens[i].kind is Table {
        let (cells, width, height, next) = parse_cells(
            tokens,
            i + 1,
            Map::empty(),
            0usize,
            0usize,
            0usize,
        );
        let bounded = if next < i + 1 {
            i + 1
        } else if next > tokens.len() {
            tokens.len() as int
        } else {
            next
        };
        seq![
            ElemV::Table(TableV { cells, active_cell: None, height, width }),
        ] + doc_parse(tokens, bounded)
    } else {
        doc_parse(tokens, i + 1)
    }
}

impl Document {
    /// Build a document from a markdown text: table blocks become the
    /// document's elements, in order; all other content is ignored for
    /// now. The first element starts out active, with nothing focused.
    pub fn parse_from_md(text: &str) -> (r: Document)
        ensures
            r@.elements == doc_parse(md_tokens_of(text@), 0),
            r.active_element == 0,
            r.inv(),
            forall|i: int|
                0 <= i < r.elements@.len() ==> ((#[trigger] r.elements@[i]) matches Element::Table(
                    t,
                ) && t.active_cell is None),
    {
        let tokens = md_tokens(text);
        let ghost toks = tokens@;
        let mut doc = Document { elements: Vec::new(), active_element: 0 };
        let n = tokens.len();
        let mut i: usize = 0;
        proof {
            assert(doc@.elements =~= Seq::<ElemV>::empty());
        }
        while i < n
            invariant
                i <= n,
                n == toks.len(),
                toks == tokens@,
                toks == md_tokens_of(text@),
                doc.active_element == 0,
                forall|j: int| 0 <= j < doc.elements@.len() ==> (#[trigger] doc.elements@[j]).inv(),
                forall|j: int|
                    0 <= j < doc.elements@.len() ==> ((#[trigger] doc.elements@[j]) matches Element::Table(
                        t,
                    ) && t.active_cell is None),
                doc_parse(toks, 0) == doc@.elements + doc_parse(toks, i as int),
            decreases n - i,
        {
            let ghost snap = doc@.elements;
            let is_table = matches!(&tokens[i].kind, MdTokKind::Table);
            if is_table {
                let mut pos = i + 1;
                let t = Table::parse_from_md(&tokens, &mut pos);
                proof {
                    assert(t.inv()) by {
                        assert(t.wf());
                    }
                }
                doc.elements.push(Element::Table(t));
                proof {
                    assert(doc@.elements =~= snap + seq![ElemV::Table(t@)]);
                    let (cells, width, height, next) = parse_cells(
                        toks,
                        i + 1,
                        Map::empty(),
                        0usize,
                        0usize,
                        0usize,
                    );
                    assert(doc_parse(toks, i as int) == seq![
                        ElemV::Table(TableV { cells, active_cell: None, height, width }),
                    ] + doc_parse(toks, pos as int));
                    assert(doc@.elements + doc_parse(toks, pos as int) =~= snap + doc_parse(
                        toks,
                        i as int,
                    ));
                }
                i = pos;
            } else {
                proof {
                    assert(doc_parse(toks, i as int) == doc_parse(toks, i + 1));
                }
                i += 1;
            }
        }
        proof {
            assert(doc_parse(toks, n as int) =~= Seq::<ElemV>::empty());
            assert(doc@.elements =~= doc@.elements + doc_parse(toks, n as int));
        }
        doc
    }
}

} // verus!
