//! A paragraph: an ordered buffer of grapheme clusters plus an optional
//! cursor, with grapheme-aware editing and width-normalized vertical
//! cursor motion.

use vstd::prelude::*;

verus! {

use crate::command::Characters;
use crate::command::Command;
use crate::command::Commandee;
use crate::command::Motion;
use crate::unicode::display_width;
use crate::unicode::views_of;
use crate::unicode::width_of;

/// A paragraph: grapheme clusters and an optional cursor boundary index.
/// Cursor `None` means unfocused; `Some(i)` is the insertion point before
/// grapheme `i`, and a well-formed paragraph keeps `0 <= i <= text.len()`.
#[derive(Debug, Default, PartialEq)]
pub struct Paragraph {
    pub text: Vec<String>,
    pub cursor: Option<usize>,
}

/// The mathematical value of a paragraph: the grapheme views and cursor.
pub struct ParaV {
    pub text: Seq<Seq<char>>,
    pub cursor: Option<usize>,
}

impl ParaV {
    /// A cursor, when set, always lies on a grapheme boundary of the text.
    pub open spec fn wf(self) -> bool {
        self.cursor matches Some(i) ==> i <= self.text.len()
    }
}

impl View for Paragraph {
    type V = ParaV;

    open spec fn view(&self) -> ParaV {
        ParaV { text: views_of(self.text@), cursor: self.cursor }
    }
}

/// A grapheme's display width, capped at two columns for column math.
pub open spec fn cap_width(g: Seq<char>) -> nat {
    if width_of(g) >= 2 {
        2
    } else {
        width_of(g)
    }
}

/// The capped display widths of a grapheme sequence.
pub open spec fn widths_of(text: Seq<Seq<char>>) -> Seq<nat> {
    text.map_values(|g: Seq<char>| cap_width(g))
}

/// The sum of a width sequence.
pub open spec fn wsum(ws: Seq<nat>) -> nat
    decreases ws.len(),
{
    if ws.len() == 0 {
        0
    } else {
        wsum(ws.drop_last()) + ws.last()
    }
}

pub open spec fn clamp_idx(i: int, n: int) -> int {
    if i <= 0 {
        0
    } else if i >= n {
        n
    } else {
        i
    }
}

/// The normalized column of boundary index `i`: the summed capped widths
/// of every grapheme strictly before it.
pub open spec fn col_of_index(ws: Seq<nat>, i: int) -> nat {
    wsum(ws.take(clamp_idx(i, ws.len() as int)))
}

/// The normalized column as a machine word: saturated at the word bound.
pub open spec fn col_of_index_sat(ws: Seq<nat>, i: int) -> nat {
    if col_of_index(ws, i) > usize::MAX {
        usize::MAX as nat
    } else {
        col_of_index(ws, i)
    }
}

/// The boundary index a normalized column lands on: walk the graphemes
/// from the start, consuming each one's capped width while the remaining
/// column still covers it, and stop at the first that it does not.
pub open spec fn index_of_col(ws: Seq<nat>, col: int) -> nat
    decreases ws.len(),
{
    if col <= 0 || ws.len() == 0 {
        0
    } else if col >= ws[0] {
        1 + index_of_col(ws.drop_first(), col - ws[0])
    } else {
        0
    }
}

/// Extending a prefix by one grapheme adds that grapheme's width.
pub proof fn lemma_wsum_take_succ(ws: Seq<nat>, i: int)
    requires
        0 <= i < ws.len(),
    ensures
        wsum(ws.take(i + 1)) == wsum(ws.take(i)) + ws[i],
{
    assert(ws.take(i + 1).drop_last() =~= ws.take(i));
    assert(ws.take(i + 1).last() == ws[i]);
}

/// Unfolding the column walk at an interior position.
pub proof fn lemma_index_of_col_unfold(ws: Seq<nat>, k: int, col: int)
    requires
        0 <= k < ws.len(),
    ensures
        index_of_col(ws.skip(k), col) == if col <= 0 {
            0nat
        } else if col >= ws[k] {
            1nat + index_of_col(ws.skip(k + 1), col - ws[k])
        } else {
            0nat
        },
{
    assert(ws.skip(k).len() == ws.len() - k);
    assert(ws.skip(k)[0] == ws[k]);
    assert(ws.skip(k).drop_first() =~= ws.skip(k + 1));
}

/// Whether the paragraph consumes the command.
pub open spec fn para_handles(p: ParaV, cmd: Command) -> bool {
    match cmd {
        Command::Left => match p.cursor {
            Some(i) => i > 0,
            None => false,
        },
        Command::Right => match p.cursor {
            Some(i) => (i as int) < p.text.len(),
            None => false,
        },
        Command::CursorLeave => p.cursor is Some,
        Command::CursorEnterH(_) => true,
        Command::CursorEnterV(_, _) => true,
        Command::Insert(_) => p.cursor is Some,
        Command::Delete(m) => m is Left && p.cursor is Some,
        _ => false,
    }
}

/// The paragraph's state after a command. Backward deletion at the very
/// start of the text is a handled no-op: the boundary swallows it.
pub open spec fn para_step(p: ParaV, cmd: Command) -> ParaV {
    match cmd {
        Command::Left => match p.cursor {
            Some(i) => if i > 0 {
                ParaV { text: p.text, cursor: Some((i - 1) as usize) }
            } else {
                p
            },
            None => p,
        },
        Command::Right => match p.cursor {
            Some(i) => if (i as int) < p.text.len() {
                ParaV { text: p.text, cursor: Some((i + 1) as usize) }
            } else {
                p
            },
            None => p,
        },
        Command::CursorLeave => ParaV { text: p.text, cursor: None },
        Command::CursorEnterH(from_right) => ParaV {
            text: p.text,
            cursor: Some(
                if from_right {
                    p.text.len() as usize
                } else {
                    0usize
                },
            ),
        },
        Command::CursorEnterV(col, _) => ParaV {
            text: p.text,
            cursor: Some(index_of_col(widths_of(p.text), col as int) as usize),
        },
        Command::Insert(cs) => match p.cursor {
            Some(i) => ParaV {
                text: p.text.take(i as int) + cs@ + p.text.skip(i as int),
                cursor: Some((i + cs@.len()) as usize),
            },
            None => p,
        },
        Command::Delete(m) => match p.cursor {
            Some(i) => if m is Left && i > 0 {
                ParaV {
                    text: p.text.take(i - 1) + p.text.skip(i as int),
                    cursor: Some((i - 1) as usize),
                }
            } else {
                p
            },
            None => p,
        },
        _ => p,
    }
}

impl Paragraph {
    /// The number of graphemes in the paragraph.
    pub fn length(&self) -> (r: usize)
        ensures
            r as nat == self@.text.len(),
    {
        self.text.len()
    }

    /// The cursor's normalized column: the summed capped display widths of
    /// every grapheme strictly before the cursor (saturated at the machine
    /// word bound, which real text never reaches); `None` when unfocused.
    pub fn get_normalized_cursor(&self) -> (r: Option<usize>)
        ensures
            r == match self.cursor {
                None => None::<usize>,
                Some(i) => Some(col_of_index_sat(widths_of(self@.text), i as int) as usize),
            },
    {
        match self.cursor {
            None => None,
            Some(cursor) => {
                let n = self.text.len();
                let m: usize = if cursor < n {
                    cursor
                } else {
                    n
                };
                let mut col: usize = 0;
                let mut j: usize = 0;
                while j < m
                    invariant
                        j <= m,
                        m == clamp_idx(cursor as int, self@.text.len() as int),
                        m <= self.text@.len(),
                        col as nat == if wsum(widths_of(self@.text).take(j as int)) > usize::MAX {
                            usize::MAX as nat
                        } else {
                            wsum(widths_of(self@.text).take(j as int))
                        },
                    decreases m - j,
                {
                    let raw = display_width(self.text[j].as_str());
                    let w: usize = if raw >= 2 {
                        2
                    } else {
                        raw
                    };
                    proof {
                        lemma_wsum_take_succ(widths_of(self@.text), j as int);
                        assert(widths_of(self@.text)[j as int] == cap_width(self@.text[j as int]));
                    }
                    if col <= usize::MAX - w {
                        col = col + w;
                    } else {
                        col = usize::MAX;
                    }
                    j += 1;
                }
                proof {
                    assert(widths_of(self@.text).take(m as int) =~= widths_of(self@.text).take(
                        clamp_idx(cursor as int, widths_of(self@.text).len() as int),
                    ));
                }
                Some(col)
            },
        }
    }

    /// Place the cursor at the boundary index that the given normalized
    /// column lands on, walking graphemes by their capped display width.
    pub fn set_normalized_cursor(&mut self, normalized_cursor: usize)
        ensures
            final(self)@.text == old(self)@.text,
            final(self)@.cursor == Some(
                index_of_col(widths_of(old(self)@.text), normalized_cursor as int) as usize,
            ),
            final(self)@.wf(),
    {
        let ghost ws = widths_of(self@.text);
        proof {
            assert(ws.skip(0) =~= ws);
        }
        let n = self.text.len();
        let mut idx: usize = 0;
        let mut col: usize = normalized_cursor;
        while idx < n
            invariant_except_break
                idx <= n,
                n == self.text@.len(),
                self.text@ == old(self).text@,
                self.cursor == old(self).cursor,
                ws == widths_of(old(self)@.text),
                index_of_col(ws, normalized_cursor as int) == idx + index_of_col(
                    ws.skip(idx as int),
                    col as int,
                ),
            ensures
                self.text@ == old(self).text@,
                self.cursor == old(self).cursor,
                idx <= n,
                idx as nat == index_of_col(ws, normalized_cursor as int),
            decreases n - idx,
        {
            if col == 0 {
                proof {
                    assert(index_of_col(ws.skip(idx as int), 0) == 0);
                }
                break ;
            }
            let raw = display_width(self.text[idx].as_str());
            let w: usize = if raw >= 2 {
                2
            } else {
                raw
            };
            proof {
                lemma_index_of_col_unfold(ws, idx as int, col as int);
                assert(ws[idx as int] == cap_width(self@.text[idx as int]));
            }
            if col >= w {
                col -= w;
                idx += 1;
            } else {
                break ;
            }
        }
        proof {
            if idx == n {
                assert(ws.skip(n as int) =~= Seq::<nat>::empty());
            }
        }
        self.cursor = Some(idx);
    }

    /// Splice the given grapheme clusters in at boundary `i` and put the
    /// cursor after the inserted text.
    #[verifier::loop_isolation(false)]
    fn insert_at(&mut self, i: usize, chars: &Characters)
        requires
            i <= old(self).text@.len(),
        ensures
            final(self)@.text == old(self)@.text.take(i as int) + chars@ + old(self)@.text.skip(
                i as int,
            ),
            final(self)@.cursor == Some((i + chars@.len()) as usize),
            final(self)@.wf(),
    {
        let mut tail = self.text.split_off(i);
        let ghost tail0 = tail@;
        let m = chars.0.len();
        let mut k: usize = 0;
        while k < m
            invariant
                k <= m,
                m == chars@.len(),
                tail@ == tail0,
                self.text@.len() == i + k,
                views_of(self.text@) == old(self)@.text.take(i as int) + chars@.take(k as int),
            decreases m - k,
        {
            let g = chars.0[k].clone();
            proof {
                assert(g == chars.0@[k as int]);
                assert(g@ == chars@[k as int]);
            }
            let ghost before = self.text@;
            self.text.push(g);
            proof {
                assert(self.text@ == before.push(g));
                assert(views_of(self.text@).len() == i + k + 1);
                assert forall|j: int| 0 <= j < i + k + 1 implies views_of(self.text@)[j] == (old(
                    self,
                )@.text.take(i as int) + chars@.take(k + 1))[j] by {
                    if j < i + k {
                        assert(views_of(before)[j] == (old(self)@.text.take(i as int)
                            + chars@.take(k as int))[j]);
                        assert(views_of(self.text@)[j] == views_of(before)[j]);
                    } else {
                        assert(views_of(self.text@)[j] == g@);
                    }
                }
                assert(views_of(self.text@) =~= old(self)@.text.take(i as int) + chars@.take(
                    k + 1,
                ));
            }
            k += 1;
        }
        let ghost mid = self.text@;
        self.text.append(&mut tail);
        proof {
            assert(self.text@ == mid + tail0);
            assert(views_of(tail0) =~= old(self)@.text.skip(i as int));
            assert(views_of(self.text@) =~= views_of(mid) + views_of(tail0));
            assert(views_of(self.text@) =~= old(self)@.text.take(i as int) + chars@ + old(
                self,
            )@.text.skip(i as int));
        }
        let total = self.text.len();
        assert(i + m <= total);
        self.cursor = Some(i + m);
    }
}

/// Applying `n` backward deletions to a paragraph, one at a time.
pub open spec fn apply_deletes(p: ParaV, n: nat) -> ParaV
    decreases n,
{
    if n == 0 {
        p
    } else {
        apply_deletes(para_step(p, Command::Delete(Motion::Left)), (n - 1) as nat)
    }
}

/// Law: inserting a grapheme list at the cursor and then deleting backward
/// once per inserted cluster restores the original grapheme sequence and
/// cursor exactly (round trip).
pub proof fn lemma_insert_then_delete_round_trip(p: ParaV, cs: Characters)
    requires
        p.wf(),
        p.cursor is Some,
        p.cursor matches Some(i) ==> i + cs@.len() <= usize::MAX,
    ensures
        apply_deletes(para_step(p, Command::Insert(cs)), cs@.len()) == p,
{
    match p.cursor {
        Some(i) => {
            lemma_deletes_unwind(p.text, i as int, cs@);
        },
        None => {},
    }
}

/// Deleting backward `n - k` times from the spliced state with `k` inserted
/// clusters left lands back on the original text with the cursor at `i`.
proof fn lemma_deletes_unwind(t: Seq<Seq<char>>, i: int, cs: Seq<Seq<char>>)
    requires
        0 <= i <= t.len(),
        i + cs.len() <= usize::MAX,
    ensures
        apply_deletes(
            ParaV {
                text: t.take(i) + cs + t.skip(i),
                cursor: Some((i + cs.len()) as usize),
            },
            cs.len(),
        ) == (ParaV { text: t, cursor: Some(i as usize) }),
    decreases cs.len(),
{
    let q = ParaV { text: t.take(i) + cs + t.skip(i), cursor: Some((i + cs.len()) as usize) };
    if cs.len() == 0 {
        assert(q.text =~= t);
    } else {
        let stepped = para_step(q, Command::Delete(Motion::Left));
        assert(stepped.text =~= t.take(i) + cs.drop_last() + t.skip(i)) by {
            assert(q.text.take(i + cs.len() - 1) =~= t.take(i) + cs.drop_last());
            assert(q.text.skip(i + cs.len()) =~= t.skip(i));
        }
        lemma_deletes_unwind(t, i, cs.drop_last());
    }
}

/// Law: no operation ever splits a grapheme cluster. After any command,
/// every grapheme of the result is one of the original clusters or (for an
/// insertion) one of the inserted clusters, carried over whole; and the
/// horizontal motions move the cursor by exactly one cluster, leaving the
/// text untouched.
pub proof fn lemma_clusters_stay_whole(p: ParaV, cmd: Command)
    requires
        p.wf(),
        p.text.len() <= usize::MAX,
    ensures
        forall|j: int|
            #![trigger para_step(p, cmd).text[j]]
            0 <= j < para_step(p, cmd).text.len() ==> match cmd {
                Command::Insert(cs) => (exists|k: int|
                    #![auto]
                    0 <= k < p.text.len() && para_step(p, cmd).text[j] == p.text[k]) || (exists|
                    k: int,
                |
                    #![auto]
                    0 <= k < cs@.len() && para_step(p, cmd).text[j] == cs@[k]),
                _ => exists|k: int|
                    #![auto]
                    0 <= k < p.text.len() && para_step(p, cmd).text[j] == p.text[k],
            },
        (cmd is Left || cmd is Right) ==> para_step(p, cmd).text == p.text,
        cmd is Left && para_handles(p, cmd) ==> (match (p.cursor, para_step(p, cmd).cursor) {
            (Some(a), Some(b)) => b as int == a - 1,
            _ => false,
        }),
        cmd is Right && para_handles(p, cmd) ==> (match (p.cursor, para_step(p, cmd).cursor) {
            (Some(a), Some(b)) => b as int == a + 1,
            _ => false,
        }),
{
    let post = para_step(p, cmd);
    assert forall|j: int| #![trigger post.text[j]] 0 <= j < post.text.len() implies match cmd {
        Command::Insert(cs) => (exists|k: int|
            #![auto]
            0 <= k < p.text.len() && post.text[j] == p.text[k]) || (exists|k: int|
            #![auto]
            0 <= k < cs@.len() && post.text[j] == cs@[k]),
        _ => exists|k: int| #![auto] 0 <= k < p.text.len() && post.text[j] == p.text[k],
    } by {
        match cmd {
            Command::Insert(cs) => {
                match p.cursor {
                    Some(i) => {
                        if j < i {
                            assert(post.text[j] == p.text[j]);
                        } else if j < i + cs@.len() {
                            assert(post.text[j] == cs@[j - i]);
                        } else {
                            assert(post.text[j] == p.text[j - cs@.len()]);
                        }
                    },
                    None => {
                        assert(post.text[j] == p.text[j]);
                    },
                }
            },
            Command::Delete(m) => {
                match p.cursor {
                    Some(i) => {
                        if m is Left && i > 0 {
                            if j < i - 1 {
                                assert(post.text[j] == p.text[j]);
                            } else {
                                assert(post.text[j] == p.text[j + 1]);
                            }
                        } else {
                            assert(post.text[j] == p.text[j]);
                        }
                    },
                    None => {
                        assert(post.text[j] == p.text[j]);
                    },
                }
            },
            _ => {
                assert(post.text[j] == p.text[j]);
            },
        }
    }
}

/// The summed widths of a prefix of single-width graphemes count it out.
proof fn lemma_wsum_ones(ws: Seq<nat>, i: int)
    requires
        forall|j: int| 0 <= j < ws.len() ==> ws[j] == 1,
        0 <= i <= ws.len(),
    ensures
        wsum(ws.take(i)) == i,
    decreases i,
{
    if i > 0 {
        lemma_wsum_take_succ(ws, i - 1);
        lemma_wsum_ones(ws, i - 1);
    } else {
        assert(ws.take(0) =~= Seq::<nat>::empty());
    }
}

/// On single-width graphemes a column walk lands at the column itself,
/// clamped to the line end.
proof fn lemma_index_of_col_ones(ws: Seq<nat>, col: int)
    requires
        forall|j: int| 0 <= j < ws.len() ==> ws[j] == 1,
        col >= 0,
    ensures
        index_of_col(ws, col) == if col <= ws.len() {
            col
        } else {
            ws.len() as int
        },
    decreases ws.len(),
{
    if col > 0 && ws.len() > 0 {
        assert(ws[0] == 1);
        lemma_index_of_col_ones(ws.drop_first(), col - 1);
    }
}

/// Law: column normalization is faithful for equal-width content. Moving
/// down from boundary `i` of one single-width line into another single-width
/// line at least `i` long lands at boundary `i` there, and moving back
/// restores boundary `i` exactly. A shorter second line is excluded: there
/// the column clamps to that line's end and the original column is lost.
pub proof fn lemma_vertical_round_trip(a: Seq<Seq<char>>, b: Seq<Seq<char>>, i: usize)
    requires
        i <= a.len(),
        i <= b.len(),
        forall|j: int| 0 <= j < a.len() ==> cap_width(#[trigger] a[j]) == 1,
        forall|j: int| 0 <= j < b.len() ==> cap_width(#[trigger] b[j]) == 1,
    ensures
        ({
            let col = col_of_index_sat(widths_of(a), i as int);
            let bi = index_of_col(widths_of(b), col as int);
            let col2 = col_of_index_sat(widths_of(b), bi as int);
            bi == i && index_of_col(widths_of(a), col2 as int) == i
        }),
{
    let aw = widths_of(a);
    let bw = widths_of(b);
    assert(forall|j: int| 0 <= j < aw.len() ==> aw[j] == 1);
    assert(forall|j: int| 0 <= j < bw.len() ==> bw[j] == 1);
    lemma_wsum_ones(aw, i as int);
    assert(col_of_index(aw, i as int) == i);
    lemma_index_of_col_ones(bw, i as int);
    lemma_wsum_ones(bw, i as int);
    assert(col_of_index(bw, i as int) == i);
    lemma_index_of_col_ones(aw, i as int);
}

impl Commandee for Paragraph {
    /// The paragraph's invariant: the cursor stays on a boundary.
    open spec fn inv(&self) -> bool {
        self@.wf()
    }

    /// Multi-line insertion into a cell is an unimplemented operation;
    /// it is excluded here rather than silently truncated.
    open spec fn accepts(&self, command: &Command) -> bool {
        !command.is_multiline_insert()
    }

    open spec fn step_ok(pre: Self, post: Self, command: Command, handled: bool) -> bool {
        post@ == para_step(pre@, command) && handled == para_handles(pre@, command)
    }

    /// Try to consume a command: cursor motion by exactly one grapheme,
    /// focus entry and exit, insertion at the cursor, backward deletion.
    #[verifier::rlimit(30)]
    #[verifier::spinoff_prover]
    fn command(&mut self, command: &Command) -> (handled: bool) {
        let ghost pre = self@;
        proof {
            assert(old(self).inv());
            assert(pre.wf());
        }
        let handled: bool = match command {
            Command::Left => {
                match self.cursor {
                    Some(i) => {
                        if i > 0 {
                            self.cursor = Some(i - 1);
                            true
                        } else {
                            false
                        }
                    },
                    None => false,
                }
            },
            Command::Right => {
                match self.cursor {
                    Some(i) => {
                        if i < self.text.len() {
                            self.cursor = Some(i + 1);
                            true
                        } else {
                            false
                        }
                    },
                    None => false,
                }
            },
            Command::CursorLeave => {
                match self.cursor {
                    Some(_) => {
                        self.cursor = None;
                        true
                    },
                    None => {
                        self.cursor = None;
                        false
                    },
                }
            },
            Command::CursorEnterH(from_right) => {
                if *from_right {
                    let n = self.text.len();
                    self.cursor = Some(n);
                } else {
                    self.cursor = Some(0);
                }
                true
            },
            Command::CursorEnterV(col, _) => {
                self.set_normalized_cursor(*col);
                true
            },
            Command::Insert(chars) => {
                match self.cursor {
                    Some(i) => {
                        proof {
                            assert(i <= self.text@.len());
                        }
                        self.insert_at(i, chars);
                        true
                    },
                    None => false,
                }
            },
            Command::Delete(motion) => {
                match motion {
                    Motion::Left => {
                        match self.cursor {
                            Some(i) => {
                                proof {
                                    assert(i <= self.text@.len());
                                }
                                if i > 0 {
                                    self.text.remove(i - 1);
                                    self.cursor = Some(i - 1);
                                    proof {
                                        assert(views_of(self.text@) =~= pre.text.take(i - 1)
                                            + pre.text.skip(i as int));
                                    }
                                } else {
                                }
                                true
                            },
                            None => false,
                        }
                    },
                    _ => false,
                }
            },
            _ => false,
        };
        proof {
            assert(self@ == para_step(pre, *command));
            assert(handled == para_handles(pre, *command));
            assert(Self::step_ok(*old(self), *self, *command, handled));
        }
        handled
    }
}

} // verus!

