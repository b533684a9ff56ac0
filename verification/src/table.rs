//! A table: a sparse grid of paragraph cells addressed by `(column, row)`
//! coordinates, with an optional active cell, command dispatch that moves
//! focus between neighbouring cells, and construction from parse tokens.

use vstd::prelude::*;

verus! {

use crate::command::Command;
use crate::command::Commandee;
use crate::paragraph::ParaV;
use crate::paragraph::Paragraph;
use crate::paragraph::col_of_index_sat;
use crate::paragraph::para_handles;
use crate::paragraph::para_step;
use crate::paragraph::widths_of;
use crate::markdown::MdToken;
use crate::markdown::MdTokKind;
use crate::unicode::graphemes_of;
use crate::unicode::split_graphemes;
use crate::unicode::views_of;

/// A table: a sparse association of grid coordinates to paragraph cells
/// (every key unique), the declared grid size, and the active cell, if any.
#[derive(Debug, PartialEq)]
pub struct Table {
    pub cells: Vec<((usize, usize), Paragraph)>,
    pub active_cell: Option<(usize, usize)>,
    pub height: usize,
    pub width: usize,
}

/// The mathematical value of a table: the grid as a map from coordinates
/// to paragraph values, and the focus state.
pub struct TableV {
    pub cells: Map<(usize, usize), ParaV>,
    pub active_cell: Option<(usize, usize)>,
    pub height: usize,
    pub width: usize,
}

/// The grid an association list denotes (a later entry would win, but a
/// well-formed table never repeats a key).
pub open spec fn assoc_map(s: Seq<((usize, usize), Paragraph)>) -> Map<(usize, usize), ParaV>
    decreases s.len(),
{
    if s.len() == 0 {
        Map::empty()
    } else {
        assoc_map(s.drop_last()).insert(s.last().0, s.last().1@)
    }
}

impl View for Table {
    type V = TableV;

    open spec fn view(&self) -> TableV {
        TableV {
            cells: assoc_map(self.cells@),
            active_cell: self.active_cell,
            height: self.height,
            width: self.width,
        }
    }
}

impl TableV {
    /// The focus invariant: every cell is a well-formed paragraph; when a
    /// cell is active it exists and owns the one set cursor; with no
    /// active cell, no cursor is set anywhere.
    pub open spec fn wf(self) -> bool {
        &&& forall|k: (usize, usize)|
            self.cells.contains_key(k) ==> (#[trigger] self.cells[k]).wf()
        &&& match self.active_cell {
            Some(a) => self.cells.contains_key(a) && self.cells[a].cursor is Some && forall|
                k: (usize, usize),
            |
                self.cells.contains_key(k) && k != a ==> (#[trigger] self.cells[k]).cursor is None,
            None => forall|k: (usize, usize)|
                self.cells.contains_key(k) ==> (#[trigger] self.cells[k]).cursor is None,
        }
    }
}

/// The coordinate one step in the given direction from the active cell,
/// when the command is directional and the step stays on the grid (no
/// coordinate underflows, and none passes the machine bound, past which no
/// cell can exist).
pub open spec fn neighbor_spec(t: TableV, direction: Command) -> Option<(usize, usize)> {
    match t.active_cell {
        Some(a) => match direction {
            Command::Up => if a.1 > 0 {
                Some((a.0, (a.1 - 1) as usize))
            } else {
                None
            },
            Command::Left => if a.0 > 0 {
                Some(((a.0 - 1) as usize, a.1))
            } else {
                None
            },
            Command::Down => if a.1 < usize::MAX {
                Some((a.0, (a.1 + 1) as usize))
            } else {
                None
            },
            Command::Right => if a.0 < usize::MAX {
                Some(((a.0 + 1) as usize, a.1))
            } else {
                None
            },
            _ => None,
        },
        None => None,
    }
}

/// The cursor-entry command a cell is entered with when focus crosses from
/// a neighbour: horizontally from the side one came from, or vertically at
/// the normalized column one left at.
pub open spec fn enter_command(direction: Command, col: usize) -> Command {
    if direction.is_horizontal() {
        Command::CursorEnterH(direction is Left)
    } else {
        Command::CursorEnterV(col, direction is Up)
    }
}

/// The normalized column of a paragraph's cursor (zero when unfocused).
pub open spec fn cursor_column(p: ParaV) -> usize {
    match p.cursor {
        Some(c) => col_of_index_sat(widths_of(p.text), c as int) as usize,
        None => 0usize,
    }
}

/// Whether the table consumes the command: an unfocused table accepts only
/// an entry at its default cell; a focused one consumes whatever its
/// active cell consumes, or a directional motion toward an existing
/// neighbour cell.
pub open spec fn table_handles(t: TableV, cmd: Command) -> bool {
    match t.active_cell {
        None => cmd.is_default_entry(),
        Some(a) => para_handles(t.cells[a], cmd) || (cmd.is_directional() && (
        match neighbor_spec(t, cmd) {
            Some(n) => t.cells.contains_key(n),
            None => false,
        })),
    }
}

/// The table's state after a command.
pub open spec fn table_step(t: TableV, cmd: Command) -> TableV {
    match t.active_cell {
        None => if cmd.is_default_entry() {
            TableV {
                cells: t.cells.insert((0usize, 0usize), para_step(t.cells[(0usize, 0usize)], cmd)),
                active_cell: Some((0usize, 0usize)),
                height: t.height,
                width: t.width,
            }
        } else {
            t
        },
        Some(a) => {
            let p = t.cells[a];
            if para_handles(p, cmd) {
                TableV {
                    cells: t.cells.insert(a, para_step(p, cmd)),
                    active_cell: if cmd is CursorLeave {
                        None
                    } else {
                        Some(a)
                    },
                    height: t.height,
                    width: t.width,
                }
            } else if cmd.is_directional() {
                match neighbor_spec(t, cmd) {
                    Some(n) => if t.cells.contains_key(n) {
                        TableV {
                            cells: t.cells.insert(a, para_step(p, Command::CursorLeave)).insert(
                                n,
                                para_step(t.cells[n], enter_command(cmd, cursor_column(p))),
                            ),
                            active_cell: Some(n),
                            height: t.height,
                            width: t.width,
                        }
                    } else {
                        t
                    },
                    None => t,
                }
            } else {
                t
            }
        },
    }
}

/// An association list holds a key exactly when some entry carries it.
proof fn lemma_assoc_contains(s: Seq<((usize, usize), Paragraph)>, k: (usize, usize))
    ensures
        assoc_map(s).contains_key(k) <==> exists|i: int| 0 <= i < s.len() && (#[trigger] s[i]).0
            == k,
    decreases s.len(),
{
    if s.len() > 0 {
        lemma_assoc_contains(s.drop_last(), k);
        if s.last().0 == k {
            assert((s[s.len() - 1]).0 == k);
        } else {
            if assoc_map(s).contains_key(k) {
                let i = choose|i: int|
                    0 <= i < s.drop_last().len() && (#[trigger] s.drop_last()[i]).0 == k;
                assert((s[i]).0 == k);
            }
            if exists|i: int| 0 <= i < s.len() && (#[trigger] s[i]).0 == k {
                let i = choose|i: int| 0 <= i < s.len() && (#[trigger] s[i]).0 == k;
                assert(i < s.len() - 1);
                assert((s.drop_last()[i]).0 == k);
            }
        }
    }
}

/// An entry with no later duplicate key gives the map's value at its key.
proof fn lemma_assoc_index(s: Seq<((usize, usize), Paragraph)>, i: int)
    requires
        0 <= i < s.len(),
        forall|j: int| i < j < s.len() ==> (#[trigger] s[j]).0 != s[i].0,
    ensures
        assoc_map(s).contains_key(s[i].0),
        assoc_map(s)[s[i].0] == s[i].1@,
    decreases s.len(),
{
    if i < s.len() - 1 {
        assert(s.drop_last()[i] == s[i]);
        assert forall|j: int| i < j < s.drop_last().len() implies (#[trigger] s.drop_last()[j]).0
            != s.drop_last()[i].0 by {
            assert(s.drop_last()[j] == s[j]);
        }
        lemma_assoc_index(s.drop_last(), i);
        assert(s.last().0 != s[i].0);
    }
}

/// Updating one entry's value updates the map at its key alone.
proof fn lemma_assoc_update(s: Seq<((usize, usize), Paragraph)>, i: int, p: Paragraph)
    requires
        0 <= i < s.len(),
        forall|j: int| i < j < s.len() ==> (#[trigger] s[j]).0 != s[i].0,
    ensures
        assoc_map(s.update(i, (s[i].0, p))) == assoc_map(s).insert(s[i].0, p@),
    decreases s.len(),
{
    let s2 = s.update(i, (s[i].0, p));
    if i == s.len() - 1 {
        assert(s2.drop_last() =~= s.drop_last());
        assert(s2.last() == (s[i].0, p));
    } else {
        assert(s2.drop_last() =~= s.drop_last().update(i, (s[i].0, p)));
        assert(s2.last() == s.last());
        assert(s.drop_last()[i] == s[i]);
        assert forall|j: int| i < j < s.drop_last().len() implies (#[trigger] s.drop_last()[j]).0
            != s.drop_last()[i].0 by {
            assert(s.drop_last()[j] == s[j]);
        }
        lemma_assoc_update(s.drop_last(), i, p);
        assert(s.last().0 != s[i].0);
        assert(assoc_map(s2) =~= assoc_map(s).insert(s[i].0, p@));
    }
}

impl Table {
    /// Whether no two entries share a coordinate.
    pub open spec fn keys_unique(self) -> bool {
        forall|i: int, j: int|
            0 <= i < j < self.cells@.len() ==> (#[trigger] self.cells@[i]).0 != (
            #[trigger] self.cells@[j]).0
    }

    /// A well-formed table: unique keys, and the focus invariant.
    pub open spec fn wf(self) -> bool {
        self.keys_unique() && self@.wf()
    }

    /// The list position of the entry holding the given coordinate.
    fn find_cell(&self, key: (usize, usize)) -> (r: Option<usize>)
        requires
            self.keys_unique(),
        ensures
            match r {
                Some(i) => i < self.cells@.len() && self.cells@[i as int].0 == key
                    && self@.cells.contains_key(key) && self@.cells[key] == self.cells@[i as int].1@,
                None => !self@.cells.contains_key(key),
            },
    {
        let n = self.cells.len();
        let mut i: usize = 0;
        while i < n
            invariant
                i <= n,
                n == self.cells@.len(),
                self.keys_unique(),
                forall|j: int| 0 <= j < i ==> (#[trigger] self.cells@[j]).0 != key,
            decreases n - i,
        {
            let c = &self.cells[i];
            if c.0.0 == key.0 && c.0.1 == key.1 {
                proof {
                    lemma_assoc_index(self.cells@, i as int);
                }
                return Some(i);
            }
            i += 1;
        }
        proof {
            lemma_assoc_contains(self.cells@, key);
        }
        None
    }

    /// The paragraph at a coordinate of the grid, if a cell exists there.
    pub fn cell(&self, x: usize, y: usize) -> (r: Option<&Paragraph>)
        requires
            self.keys_unique(),
        ensures
            match r {
                Some(p) => self@.cells.contains_key((x, y)) && p@ == self@.cells[(x, y)],
                None => !self@.cells.contains_key((x, y)),
            },
    {
        match self.find_cell((x, y)) {
            Some(i) => Some(&self.cells[i].1),
            None => None,
        }
    }

    /// The coordinate one step from the active cell in the direction the
    /// command names, if the step stays on the grid.
    pub fn neighbor(&self, direction: &Command) -> (r: Option<(usize, usize)>)
        ensures
            r == neighbor_spec(self@, *direction),
    {
        match self.active_cell {
            Some(a) => match direction {
                Command::Up => if a.1 > 0 {
                    Some((a.0, a.1 - 1))
                } else {
                    None
                },
                Command::Left => if a.0 > 0 {
                    Some((a.0 - 1, a.1))
                } else {
                    None
                },
                Command::Down => if a.1 < usize::MAX {
                    Some((a.0, a.1 + 1))
                } else {
                    None
                },
                Command::Right => if a.0 < usize::MAX {
                    Some((a.0 + 1, a.1))
                } else {
                    None
                },
                _ => None,
            },
            None => None,
        }
    }

    /// Run one command against the cell at list position `idx`, keeping
    /// every other entry as it is.
    fn cell_command(&mut self, idx: usize, command: &Command) -> (handled: bool)
        requires
            old(self).keys_unique(),
            idx < old(self).cells@.len(),
            old(self).cells@[idx as int].1@.wf(),
            !command.is_multiline_insert(),
        ensures
            final(self).keys_unique(),
            final(self).cells@.len() == old(self).cells@.len(),
            forall|j: int|
                0 <= j < old(self).cells@.len() && j != idx ==> final(self).cells@[j] == old(
                    self,
                ).cells@[j],
            final(self).cells@[idx as int].0 == old(self).cells@[idx as int].0,
            final(self).cells@[idx as int].1@ == para_step(
                old(self).cells@[idx as int].1@,
                *command,
            ),
            final(self).cells@[idx as int].1@.wf(),
            handled == para_handles(old(self).cells@[idx as int].1@, *command),
            final(self).active_cell == old(self).active_cell,
            final(self).width == old(self).width,
            final(self).height == old(self).height,
            final(self)@.cells == old(self)@.cells.insert(
                old(self).cells@[idx as int].0,
                para_step(old(self).cells@[idx as int].1@, *command),
            ),
    {
        let ghost pre = self.cells@;
        let (k, mut p) = self.cells.remove(idx);
        let handled = p.command(command);
        self.cells.insert(idx, (k, p));
        proof {
            assert(self.cells@ =~= pre.update(idx as int, (k, p)));
            assert forall|i: int, j: int|
                0 <= i < j < self.cells@.len() implies (#[trigger] self.cells@[i]).0 != (
            #[trigger] self.cells@[j]).0 by {
                assert(pre[i].0 == self.cells@[i].0);
                assert(pre[j].0 == self.cells@[j].0);
            }
            lemma_assoc_update(pre, idx as int, p);
        }
        handled
    }
}

impl Commandee for Table {
    open spec fn inv(&self) -> bool {
        self.wf()
    }

    /// Beyond the paragraph level's own demands, a table with no active
    /// cell must hold its default entry cell before focus may enter it;
    /// the engine keeps that state unreachable rather than handling it.
    open spec fn accepts(&self, command: &Command) -> bool {
        &&& !command.is_multiline_insert()
        &&& (self@.active_cell is None && command.is_default_entry() ==> self@.cells.contains_key(
            (0usize, 0usize),
        ))
    }

    open spec fn step_ok(pre: Self, post: Self, command: Command, handled: bool) -> bool {
        post@ == table_step(pre@, command) && handled == table_handles(pre@, command)
            && post.keys_unique()
    }

    /// Try to consume a command: with no focus, accept only entry at the
    /// default cell; with focus, let the active cell try first, and on a
    /// refused directional motion transfer focus to the neighbour cell in
    /// that direction, entering it from the matching side or column.
    fn command(&mut self, command: &Command) -> (handled: bool) {
        let ghost pre = *self;
        match self.active_cell {
            None => {
                let entry = match command {
                    Command::CursorEnterH(fr) => !*fr,
                    Command::CursorEnterV(_, fb) => !*fb,
                    _ => false,
                };
                if entry {
                    let idx = self.find_cell((0, 0)).unwrap();
                    self.cell_command(idx, command);
                    self.active_cell = Some((0, 0));
                    proof {
                        lemma_para_step_enter_focuses(pre@.cells[(0usize, 0usize)], *command);
                        assert(self@.wf());
                    }
                    true
                } else {
                    false
                }
            },
            Some(active) => {
                let idx = self.find_cell(active).unwrap();
                let cell_handled = self.cell_command(idx, command);
                if cell_handled {
                    if matches!(command, Command::CursorLeave) {
                        self.active_cell = None;
                        proof {
                            lemma_para_step_leave_unfocuses(pre@.cells[active]);
                            assert(self@.wf());
                        }
                    } else {
                        proof {
                            lemma_para_step_keeps_focus(pre@.cells[active], *command);
                            assert(self@.wf());
                        }
                    }
                    true
                } else {
                    let directional = matches!(
                        command,
                        Command::Up | Command::Left | Command::Down | Command::Right
                    );
                    proof {
                        lemma_para_step_unhandled_is_noop(pre@.cells[active], *command);
                        assert(self@.cells =~= pre@.cells);
                    }
                    if directional {
                        match self.neighbor(command) {
                            Some(n) => {
                                match self.find_cell(n) {
                                    Some(_) => {
                                        proof {
                                            assert(self.cells@[idx as int].1@ == pre@.cells[
                                                active
                                            ]);
                                        }
                                        let col = self.cells[idx].1.get_normalized_cursor()
                                            .unwrap();
                                        self.cell_command(idx, &Command::CursorLeave);
                                        let ecmd = if command.horizontal() {
                                            Command::CursorEnterH(
                                                matches!(command, Command::Left),
                                            )
                                        } else {
                                            Command::CursorEnterV(
                                                col,
                                                matches!(command, Command::Up),
                                            )
                                        };
                                        let nidx2 = self.find_cell(n).unwrap();
                                        self.cell_command(nidx2, &ecmd);
                                        self.active_cell = Some(n);
                                        proof {
                                            lemma_para_step_leave_unfocuses(pre@.cells[active]);
                                            lemma_para_step_enter_focuses(pre@.cells[n], ecmd);
                                            assert(self@.cells =~= table_step(
                                                pre@,
                                                *command,
                                            ).cells);
                                            assert(self@.wf());
                                        }
                                        true
                                    },
                                    None => false,
                                }
                            },
                            None => false,
                        }
                    } else {
                        false
                    }
                }
            },
        }
    }
}

/// Text joining the open cell of a parse: the graphemes are appended to
/// the cell at `key`, which is created empty when absent.
pub open spec fn append_cell(
    cells: Map<(usize, usize), ParaV>,
    key: (usize, usize),
    gs: Seq<Seq<char>>,
) -> Map<(usize, usize), ParaV> {
    if cells.contains_key(key) {
        cells.insert(key, ParaV { text: cells[key].text + gs, cursor: cells[key].cursor })
    } else {
        cells.insert(key, ParaV { text: gs, cursor: None })
    }
}

/// The grid a table parse yields from the tokens at `i` on, given the grid
/// built so far and the open coordinate: text joins the open cell, a cell
/// boundary steps one column right, a row boundary records the row's width
/// and opens the next row, and the table's end (or the tokens' end) stops
/// the parse. Yields the grid, the declared width and height, and the
/// position after the consumed tokens.
pub open spec fn parse_cells(
    tokens: Seq<MdToken>,
    i: int,
    cells: Map<(usize, usize), ParaV>,
    col: usize,
    row: usize,
    width: usize,
) -> (Map<(usize, usize), ParaV>, usize, usize, int)
    decreases tokens.len() - i,
{
    if i < 0 || i >= tokens.len() {
        (cells, width, row, i)
    } else {
        match tokens[i].kind {
            MdTokKind::TableEnd => (cells, width, row, i + 1),
            MdTokKind::Text(txt) => parse_cells(
                tokens,
                i + 1,
                append_cell(cells, (col, row), graphemes_of(txt@)),
                col,
                row,
                width,
            ),
            MdTokKind::CellEnd => parse_cells(tokens, i + 1, cells, (col + 1) as usize, row, width),
            MdTokKind::RowEnd => parse_cells(tokens, i + 1, cells, 0usize, (row + 1) as usize, col),
            MdTokKind::HeadEnd => parse_cells(tokens, i + 1, cells, 0usize, (row + 1) as usize, col),
            _ => parse_cells(tokens, i + 1, cells, col, row, width),
        }
    }
}

impl Table {
    /// Append graphemes to the cell at `key`, creating it empty if absent.
    fn append_cell_text(&mut self, key: (usize, usize), txt: &String)
        requires
            old(self).keys_unique(),
        ensures
            final(self).keys_unique(),
            final(self)@.cells == append_cell(old(self)@.cells, key, graphemes_of(txt@)),
            final(self).active_cell == old(self).active_cell,
            final(self).width == old(self).width,
            final(self).height == old(self).height,
    {
        let mut gs = split_graphemes(txt.as_str());
        let ghost gviews = views_of(gs@);
        match self.find_cell(key) {
            Some(idx) => {
                let ghost pre = self.cells@;
                let (k, mut p) = self.cells.remove(idx);
                let ghost ptext = p.text@;
                p.text.append(&mut gs);
                proof {
                    assert(views_of(p.text@) =~= views_of(ptext) + gviews);
                }
                self.cells.insert(idx, (k, p));
                proof {
                    assert(self.cells@ =~= pre.update(idx as int, (k, p)));
                    assert forall|i: int, j: int|
                        0 <= i < j < self.cells@.len() implies (#[trigger] self.cells@[i]).0 != (
                    #[trigger] self.cells@[j]).0 by {
                        assert(pre[i].0 == self.cells@[i].0);
                        assert(pre[j].0 == self.cells@[j].0);
                    }
                    lemma_assoc_update(pre, idx as int, p);
                }
            },
            None => {
                let ghost pre = self.cells@;
                self.cells.push((key, Paragraph { text: gs, cursor: None }));
                proof {
                    assert(self.cells@.drop_last() =~= pre);
                    lemma_assoc_contains(pre, key);
                    assert forall|i: int, j: int|
                        0 <= i < j < self.cells@.len() implies (#[trigger] self.cells@[i]).0 != (
                    #[trigger] self.cells@[j]).0 by {
                        if j < pre.len() {
                            assert(pre[i].0 == self.cells@[i].0);
                            assert(pre[j].0 == self.cells@[j].0);
                        } else {
                            assert(pre[i].0 == self.cells@[i].0);
                        }
                    }
                }
            },
        }
    }

    /// Build a table from the parse tokens at `*pos` on, consuming through
    /// the end of the table block: text events fill the open cell, cell
    /// boundaries step one column right, row boundaries close a row. The
    /// grid may come out sparse: a cell exists only where text appeared.
    pub fn parse_from_md(tokens: &Vec<MdToken>, pos: &mut usize) -> (r: Table)
        requires
            *old(pos) <= tokens@.len(),
        ensures
            r.wf(),
            r.active_cell is None,
            *old(pos) <= *final(pos) <= tokens@.len(),
            ({
                let (cells, width, height, next) = parse_cells(
                    tokens@,
                    *old(pos) as int,
                    Map::empty(),
                    0usize,
                    0usize,
                    0usize,
                );
                &&& r@.cells == cells
                &&& r.width == width
                &&& r.height == height
                &&& *final(pos) as int == next
            }),
    {
        let ghost toks = tokens@;
        let ghost i0 = *pos as int;
        let mut table = Table { cells: Vec::new(), active_cell: None, height: 0, width: 0 };
        let mut col: usize = 0;
        let n = tokens.len();
        let mut i: usize = *pos;
        proof {
            assert(table@.cells =~= Map::<(usize, usize), ParaV>::empty());
        }
        while i < n
            invariant_except_break
                i0 <= i <= n,
                n == toks.len(),
                toks == tokens@,
                col <= i,
                table.height <= i,
                table.keys_unique(),
                table.active_cell is None,
                forall|k: (usize, usize)|
                    table@.cells.contains_key(k) ==> (#[trigger] table@.cells[k]).cursor is None
                        && table@.cells[k].wf(),
                parse_cells(toks, i0, Map::empty(), 0usize, 0usize, 0usize) == parse_cells(
                    toks,
                    i as int,
                    table@.cells,
                    col,
                    table.height,
                    table.width,
                ),
            ensures
                i0 <= i <= n,
                toks == tokens@,
                table.keys_unique(),
                table.active_cell is None,
                forall|k: (usize, usize)|
                    table@.cells.contains_key(k) ==> (#[trigger] table@.cells[k]).cursor is None
                        && table@.cells[k].wf(),
                parse_cells(toks, i0, Map::empty(), 0usize, 0usize, 0usize) == (
                    table@.cells,
                    table.width,
                    table.height,
                    i as int,
                ),
            decreases n - i,
        {
            let ghost snap = (table@.cells, col, table.height, table.width);
            let is_end = matches!(&tokens[i].kind, MdTokKind::TableEnd);
            if is_end {
                i += 1;
                break ;
            }
            let t = &tokens[i];
            match &t.kind {
                MdTokKind::Text(txt) => {
                    table.append_cell_text((col, table.height), txt);
                },
                MdTokKind::CellEnd => {
                    col += 1;
                },
                MdTokKind::RowEnd => {
                    table.width = col;
                    col = 0;
                    let h = table.height;
                    table.height = h + 1;
                },
                MdTokKind::HeadEnd => {
                    table.width = col;
                    col = 0;
                    let h = table.height;
                    table.height = h + 1;
                },
                _ => {},
            }
            proof {
                assert(parse_cells(toks, i as int, snap.0, snap.1, snap.2, snap.3) == parse_cells(
                    toks,
                    i + 1,
                    table@.cells,
                    col,
                    table.height,
                    table.width,
                ));
            }
            i += 1;
        }
        *pos = i;
        table
    }
}

/// Entering a paragraph always sets its cursor.
proof fn lemma_para_step_enter_focuses(p: ParaV, cmd: Command)
    requires
        cmd is CursorEnterH || cmd is CursorEnterV,
    ensures
        para_step(p, cmd).cursor is Some,
        para_step(p, cmd).text == p.text,
{
}

/// Leaving a paragraph always clears its cursor.
proof fn lemma_para_step_leave_unfocuses(p: ParaV)
    ensures
        para_step(p, Command::CursorLeave).cursor is None,
        para_step(p, Command::CursorLeave).text == p.text,
{
}

/// A handled command other than leaving keeps the paragraph focused.
proof fn lemma_para_step_keeps_focus(p: ParaV, cmd: Command)
    requires
        para_handles(p, cmd),
        !(cmd is CursorLeave),
    ensures
        para_step(p, cmd).cursor is Some,
{
}

/// A command the paragraph does not handle leaves it untouched.
proof fn lemma_para_step_unhandled_is_noop(p: ParaV, cmd: Command)
    requires
        !para_handles(p, cmd),
    ensures
        para_step(p, cmd) == p,
{
}

} // verus!
