//! The command vocabulary that the hierarchy dispatches, the grapheme list
//! carried by an insertion, and the uniform dispatch protocol.

use vstd::prelude::*;

verus! {

use crate::unicode::concat_views;
use crate::unicode::graphemes_of;
use crate::unicode::split_graphemes;
use crate::unicode::views_of;

/// A directional motion; only backward deletion is defined so far.
#[non_exhaustive]
#[derive(Clone, Debug, PartialEq)]
pub enum Motion {
    Up,
    Left,
    Down,
    Right,
}

/// An ordered list of grapheme clusters, as handed to an insertion.
#[derive(Clone, Debug, PartialEq)]
pub struct Characters(pub Vec<String>);

impl View for Characters {
    type V = Seq<Seq<char>>;

    open spec fn view(&self) -> Seq<Seq<char>> {
        views_of(self.0@)
    }
}

impl Characters {
    /// Divide a text into its grapheme clusters.
    pub fn from_text(s: &str) -> (r: Characters)
        ensures
            r@ == graphemes_of(s@),
            concat_views(r@) == s@,
    {
        Characters(split_graphemes(s))
    }

    pub fn len(&self) -> (r: usize)
        ensures
            r as nat == self@.len(),
    {
        self.0.len()
    }

    /// Whether any cluster is exactly a line break.
    pub open spec fn spec_has_line_break(self) -> bool {
        exists|i: int| 0 <= i < self@.len() && self@[i] == seq!['\n']
    }

    pub fn has_line_break(&self) -> (r: bool)
        ensures
            r == self.spec_has_line_break(),
    {
        let n = self.0.len();
        let mut i: usize = 0;
        while i < n
            invariant
                i <= n,
                n == self@.len(),
                forall|j: int| 0 <= j < i ==> self@[j] != seq!['\n'],
            decreases n - i,
        {
            if is_newline_grapheme(&self.0[i]) {
                proof {
                    assert(self@[i as int] == seq!['\n']);
                }
                return true;
            }
            i += 1;
        }
        false
    }
}

/// Whether a grapheme cluster is exactly one line-break character.
fn is_newline_grapheme(g: &String) -> (r: bool)
    ensures
        r == (g@ == seq!['\n']),
{
    let s = g.as_str();
    if s.unicode_len() == 1 {
        let c = s.get_char(0);
        proof {
            if c == '\n' {
                assert(g@ =~= seq!['\n']);
            }
        }
        c == '\n'
    } else {
        false
    }
}

/// A navigation or editing command, routed through the hierarchy.
#[non_exhaustive]
#[derive(Clone, Debug, PartialEq)]
pub enum Command {
    Up,
    Left,
    Down,
    Right,
    CursorEnterH(bool),
    CursorEnterV(usize, bool),
    CursorLeave,
    Insert(Characters),
    Delete(Motion),
}

impl Command {
    /// Whether the command moves or enters along the horizontal axis.
    pub open spec fn is_horizontal(self) -> bool {
        self is Left || self is Right || self is CursorEnterH
    }

    pub fn horizontal(&self) -> (r: bool)
        ensures
            r == self.is_horizontal(),
    {
        matches!(self, Command::Left | Command::Right | Command::CursorEnterH(_))
    }

    /// Whether the command is a directional motion.
    pub open spec fn is_directional(self) -> bool {
        self is Up || self is Left || self is Down || self is Right
    }

    /// Whether the command enters a container at its default entry point.
    pub open spec fn is_default_entry(self) -> bool {
        (self matches Command::CursorEnterH(false)) || (self matches Command::CursorEnterV(
            _,
            false,
        ))
    }

    /// Whether the command inserts text that spans more than one line;
    /// such an insertion into a cell is an unimplemented operation and is
    /// excluded by the dispatch contracts rather than silently truncated.
    pub open spec fn is_multiline_insert(self) -> bool {
        self matches Command::Insert(cs) && cs.spec_has_line_break()
    }
}

/// The uniform dispatch protocol: each hierarchy level tries to consume a
/// command, possibly mutating its own state even when it ultimately reports
/// failure, and tells its caller whether the command was handled.
pub trait Commandee: Sized {
    /// The level's structural invariant.
    spec fn inv(&self) -> bool;

    /// What the level asks of a command before dispatch, beyond its
    /// invariant: inputs on which the engine's behaviour is undefined
    /// (they would fail loudly rather than corrupt state) are excluded.
    spec fn accepts(&self, command: &Command) -> bool;

    /// The transition the level makes for a command, and its report.
    spec fn step_ok(pre: Self, post: Self, command: Command, handled: bool) -> bool;

    fn command(&mut self, command: &Command) -> (handled: bool)
        requires
            old(self).inv(),
            old(self).accepts(command),
        ensures
            final(self).inv(),
            Self::step_ok(*old(self), *final(self), *command, handled),
    ;
}

} // verus!
