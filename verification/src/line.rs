//! The grapheme buffer behind the style annotator: an ordered line of
//! grapheme cells, each carrying its style set and its byte offset within
//! the line, kept equal to what a full reflow would compute.

use vstd::prelude::*;

verus! {

use crate::style::Position;
use crate::style::StyleKind;
use crate::style::StyleSet;
use crate::unicode::byte_count;
use crate::unicode::concat_views;
use crate::unicode::graphemes_of;
use crate::unicode::lemma_concat_views_take_succ;
use crate::unicode::lemma_split_lines_bytes;
use crate::unicode::lemma_split_lines_nonempty;
use crate::unicode::lemma_total_bytes_concat;
use crate::unicode::lemma_total_bytes_elem_le;
use crate::unicode::lemma_total_bytes_is_byte_count;
use crate::unicode::lemma_total_bytes_split;
use crate::unicode::lemma_total_bytes_take_le;
use crate::unicode::lemma_total_bytes_take_succ;
use crate::unicode::push_str;
use crate::unicode::split_graphemes;
use crate::unicode::split_lines;
use crate::unicode::split_lines_spec;
use crate::unicode::total_bytes;
use crate::unicode::views_of;

/// One grapheme cluster of a line: its text, the styles it carries, and
/// its byte offset within the line as of the last reflow.
#[derive(Debug)]
pub struct GraphemeCell {
    pub text: String,
    pub styles: StyleSet,
    pub offset: usize,
}

/// A line of grapheme cells with byte-offset bookkeeping.
#[derive(Debug, Default)]
pub struct TextLine {
    pub characters: Vec<GraphemeCell>,
}

/// What a multi-line insertion hands back: the cursor boundary within the
/// line that owns the insertion point, and the freshly created lines to be
/// spliced in after this one, in order.
pub struct InsertResult {
    pub cursor: usize,
    pub new_lines: Vec<TextLine>,
}

/// A sequence of empty style sets, one per inserted grapheme.
pub open spec fn no_styles(n: nat) -> Seq<StyleSet> {
    Seq::new(n, |i: int| StyleSet::spec_empty())
}

impl TextLine {
    /// The grapheme views of the line, in order.
    pub open spec fn graphemes(self) -> Seq<Seq<char>> {
        self.characters@.map_values(|c: GraphemeCell| c.text@)
    }

    /// The style sets of the line, in order.
    pub open spec fn styles(self) -> Seq<StyleSet> {
        self.characters@.map_values(|c: GraphemeCell| c.styles)
    }

    /// Every stored offset equals the byte total of the graphemes before
    /// it — what a full reflow would compute — and the line's byte total
    /// fits the machine word.
    pub open spec fn wf(self) -> bool {
        &&& forall|i: int|
            0 <= i < self.characters@.len() ==> (#[trigger] self.characters@[i].offset) as nat
                == total_bytes(self.graphemes().take(i))
        &&& total_bytes(self.graphemes()) <= usize::MAX
    }

    /// The number of grapheme clusters in the line.
    pub fn len(&self) -> (r: usize)
        ensures
            r as nat == self.graphemes().len(),
    {
        self.characters.len()
    }

    /// The line's length in UTF-8 bytes.
    pub fn char_len(&self) -> (r: usize)
        requires
            self.wf(),
        ensures
            r as nat == total_bytes(self.graphemes()),
    {
        let n = self.characters.len();
        if n == 0 {
            proof {
                assert(self.graphemes().take(0) =~= self.graphemes());
            }
            0
        } else {
            let c = &self.characters[n - 1];
            let gl = c.text.as_str().len();
            proof {
                lemma_total_bytes_take_succ(self.graphemes(), n - 1);
                assert(self.graphemes().take(n as int) =~= self.graphemes());
                assert(self.graphemes()[n - 1] == c.text@);
            }
            c.offset + gl
        }
    }

    /// Empty the line.
    pub fn clear(&mut self)
        ensures
            final(self).wf(),
            final(self).graphemes() == Seq::<Seq<char>>::empty(),
            final(self).styles() == Seq::<StyleSet>::empty(),
    {
        self.characters.clear();
        proof {
            assert(self.graphemes() =~= Seq::<Seq<char>>::empty());
            assert(self.styles() =~= Seq::<StyleSet>::empty());
        }
    }

    /// The line's text: its grapheme clusters concatenated.
    pub fn to_text(&self) -> (r: String)
        ensures
            r@ == concat_views(self.graphemes()),
    {
        let mut out = String::new();
        let n = self.characters.len();
        let mut j: usize = 0;
        proof {
            assert(self.graphemes().take(0) =~= Seq::<Seq<char>>::empty());
        }
        while j < n
            invariant
                j <= n,
                n == self.characters@.len(),
                out@ == concat_views(self.graphemes().take(j as int)),
            decreases n - j,
        {
            proof {
                lemma_concat_views_take_succ(self.graphemes(), j as int);
            }
            push_str(&mut out, self.characters[j].text.as_str());
            j += 1;
        }
        proof {
            assert(self.graphemes().take(n as int) =~= self.graphemes());
        }
        out
    }

    /// Append one grapheme cluster, computing its offset as the running
    /// byte total, so that the reflow bookkeeping stays exact.
    fn push_grapheme(&mut self, g: String, styles: StyleSet)
        requires
            old(self).wf(),
            total_bytes(old(self).graphemes()) + byte_count(g@) <= usize::MAX,
        ensures
            final(self).wf(),
            final(self).graphemes() == old(self).graphemes().push(g@),
            final(self).styles() == old(self).styles().push(styles),
            total_bytes(final(self).graphemes()) == total_bytes(old(self).graphemes())
                + byte_count(g@),
    {
        let off = self.char_len();
        let ghost pre = *self;
        self.characters.push(GraphemeCell { text: g, styles, offset: off });
        proof {
            let n = pre.characters@.len() as int;
            assert(self.graphemes() =~= pre.graphemes().push(g@));
            assert(self.styles() =~= pre.styles().push(styles));
            lemma_total_bytes_take_succ(self.graphemes(), n);
            assert(self.graphemes().take(n + 1) =~= self.graphemes());
            assert(self.graphemes().take(n) =~= pre.graphemes());
            assert forall|i: int| 0 <= i < self.characters@.len() implies (
            #[trigger] self.characters@[i].offset) as nat == total_bytes(
                self.graphemes().take(i),
            ) by {
                if i < n {
                    assert(self.characters@[i] == pre.characters@[i]);
                    assert(self.graphemes().take(i) =~= pre.graphemes().take(i));
                } else {
                    assert(self.graphemes().take(i) =~= pre.graphemes());
                }
            }
        }
    }

    /// Build a line from a text: one cell per grapheme cluster, no styles,
    /// offsets as a full reflow computes them.
    pub fn from_text(s: &str) -> (r: TextLine)
        requires
            byte_count(s@) <= usize::MAX,
        ensures
            r.wf(),
            r.graphemes() == graphemes_of(s@),
            r.styles() == no_styles(graphemes_of(s@).len()),
            concat_views(graphemes_of(s@)) == s@,
    {
        let gs = split_graphemes(s);
        let ghost views = views_of(gs@);
        proof {
            lemma_total_bytes_is_byte_count(views);
        }
        let mut line = TextLine { characters: Vec::new() };
        proof {
            assert(line.graphemes() =~= Seq::<Seq<char>>::empty());
            assert(line.styles() =~= Seq::<StyleSet>::empty());
            assert(line.graphemes().take(0) =~= line.graphemes());
            assert(views.take(0) =~= Seq::<Seq<char>>::empty());
        }
        let n = gs.len();
        let mut k: usize = 0;
        while k < n
            invariant
                k <= n,
                n == gs@.len(),
                views == views_of(gs@),
                total_bytes(views) <= usize::MAX,
                line.wf(),
                line.graphemes() == views.take(k as int),
                line.styles() == no_styles(k as nat),
            decreases n - k,
        {
            proof {
                lemma_total_bytes_take_succ(views, k as int);
                lemma_total_bytes_take_le(views, k + 1);
                assert(views[k as int] == gs@[k as int]@);
            }
            line.push_grapheme(gs[k].clone(), StyleSet::empty());
            proof {
                assert(line.graphemes() =~= views.take(k + 1));
                assert(line.styles() =~= no_styles((k + 1) as nat));
            }
            k += 1;
        }
        proof {
            assert(views.take(n as int) =~= views);
        }
        line
    }

    /// Delete the grapheme cluster immediately before boundary `position`;
    /// fails with no effect when the boundary is at the line start. The
    /// clusters after it keep their styles and are reflowed in place.
    pub fn remove_before(&mut self, position: usize) -> (r: bool)
        requires
            old(self).wf(),
            position <= old(self).graphemes().len(),
        ensures
            r == (position > 0),
            final(self).wf(),
            position > 0 ==> final(self).graphemes() == old(self).graphemes().take(position - 1)
                + old(self).graphemes().skip(position as int),
            position > 0 ==> final(self).styles() == old(self).styles().take(position - 1) + old(
                self,
            ).styles().skip(position as int),
            position == 0 ==> *final(self) == *old(self),
    {
        if position == 0 {
            return false;
        }
        let ghost pre = *self;
        let mut rest = self.characters.split_off(position - 1);
        rest.remove(0);
        let ghost restv = rest@;
        proof {
            assert(self.graphemes() =~= pre.graphemes().take(position - 1));
            assert(self.styles() =~= pre.styles().take(position - 1));
            assert(restv.map_values(|c: GraphemeCell| c.text@) =~= pre.graphemes().skip(
                position as int,
            ));
            assert(restv.map_values(|c: GraphemeCell| c.styles) =~= pre.styles().skip(
                position as int,
            ));
            assert forall|i: int| 0 <= i < self.characters@.len() implies (
            #[trigger] self.characters@[i].offset) as nat == total_bytes(
                self.graphemes().take(i),
            ) by {
                assert(self.characters@[i] == pre.characters@[i]);
                assert(self.graphemes().take(i) =~= pre.graphemes().take(i));
            }
            lemma_total_bytes_take_le(pre.graphemes(), position - 1);
            lemma_total_bytes_split(pre.graphemes(), position - 1);
            lemma_total_bytes_split(pre.graphemes().skip(position - 1), 1);
            assert(pre.graphemes().skip(position - 1).skip(1) =~= pre.graphemes().skip(
                position as int,
            ));
        }
        self.append_cells(&rest);
        true
    }

    /// Append the given cells, keeping their text and styles and reflowing
    /// their offsets onto the end of this line.
    fn append_cells(&mut self, cells: &Vec<GraphemeCell>)
        requires
            old(self).wf(),
            total_bytes(old(self).graphemes()) + total_bytes(
                cells@.map_values(|c: GraphemeCell| c.text@),
            ) <= usize::MAX,
        ensures
            final(self).wf(),
            final(self).graphemes() == old(self).graphemes() + cells@.map_values(
                |c: GraphemeCell| c.text@,
            ),
            final(self).styles() == old(self).styles() + cells@.map_values(
                |c: GraphemeCell| c.styles,
            ),
    {
        let ghost pre = *self;
        let ghost cviews = cells@.map_values(|c: GraphemeCell| c.text@);
        let ghost cstyles = cells@.map_values(|c: GraphemeCell| c.styles);
        let n = cells.len();
        let mut k: usize = 0;
        proof {
            assert(pre.graphemes() + cviews.take(0) =~= pre.graphemes());
            assert(pre.styles() + cstyles.take(0) =~= pre.styles());
        }
        while k < n
            invariant
                k <= n,
                n == cells@.len(),
                cviews == cells@.map_values(|c: GraphemeCell| c.text@),
                cstyles == cells@.map_values(|c: GraphemeCell| c.styles),
                total_bytes(pre.graphemes()) + total_bytes(cviews) <= usize::MAX,
                self.wf(),
                self.graphemes() == pre.graphemes() + cviews.take(k as int),
                self.styles() == pre.styles() + cstyles.take(k as int),
            decreases n - k,
        {
            proof {
                lemma_total_bytes_concat(pre.graphemes(), cviews.take(k as int));
                lemma_total_bytes_take_succ(cviews, k as int);
                lemma_total_bytes_take_le(cviews, k + 1);
                assert(cviews[k as int] == cells@[k as int].text@);
            }
            let c = &cells[k];
            self.push_grapheme(c.text.clone(), c.styles);
            proof {
                assert(self.graphemes() =~= pre.graphemes() + cviews.take(k + 1));
                assert(self.styles() =~= pre.styles() + cstyles.take(k + 1));
            }
            k += 1;
        }
        proof {
            assert(cviews.take(n as int) =~= cviews);
            assert(cstyles.take(n as int) =~= cstyles);
        }
    }

    /// Classify grapheme `j`'s place within its run of the given style
    /// kind, from the style sets of its neighbours; past either end of the
    /// line counts as unstyled. Recomputed whenever style sets change,
    /// never cached across edits.
    pub fn run_position(&self, j: usize, kind: StyleKind) -> (r: Position)
        requires
            j < self.graphemes().len(),
        ensures
            r == kind.spec_positioned(
                if j == 0 {
                    StyleSet::spec_empty()
                } else {
                    self.styles()[j - 1]
                },
                if j + 1 < self.styles().len() {
                    self.styles()[j + 1]
                } else {
                    StyleSet::spec_empty()
                },
            ),
    {
        let n = self.characters.len();
        let was = if j == 0 {
            StyleSet::empty()
        } else {
            self.characters[j - 1].styles
        };
        let will = if j + 1 < n {
            self.characters[j + 1].styles
        } else {
            StyleSet::empty()
        };
        kind.positioned(&was, &will)
    }

    /// Insert `value` at grapheme boundary `position`, splitting it on
    /// line breaks: the first piece joins this line at the split point,
    /// every later piece becomes a fresh line, and the content that
    /// trailed the split point moves onto the last such line. Inserted
    /// graphemes carry no styles; moved graphemes keep theirs.
    pub fn insert(&mut self, position: usize, value: &str) -> (r: InsertResult)
        requires
            old(self).wf(),
            position <= old(self).graphemes().len(),
            total_bytes(old(self).graphemes()) + byte_count(value@) <= usize::MAX,
        ensures
            final(self).wf(),
            forall|k: int| 0 <= k < r.new_lines@.len() ==> (#[trigger] r.new_lines@[k]).wf(),
            ({
                let segs = split_lines_spec(value@);
                let first = graphemes_of(segs[0]);
                &&& r.new_lines@.len() == segs.len() - 1
                &&& (segs.len() == 1 ==> {
                    &&& final(self).graphemes() == old(self).graphemes().take(position as int)
                        + first + old(self).graphemes().skip(position as int)
                    &&& final(self).styles() == old(self).styles().take(position as int)
                        + no_styles(first.len()) + old(self).styles().skip(position as int)
                    &&& r.cursor as nat == position + first.len()
                })
                &&& (segs.len() > 1 ==> {
                    &&& final(self).graphemes() == old(self).graphemes().take(position as int)
                        + first
                    &&& final(self).styles() == old(self).styles().take(position as int)
                        + no_styles(first.len())
                    &&& forall|k: int|
                        1 <= k < segs.len() - 1 ==> (#[trigger] r.new_lines@[k - 1]).graphemes()
                            == graphemes_of(segs[k]) && r.new_lines@[k - 1].styles() == no_styles(
                            graphemes_of(segs[k]).len(),
                        )
                    &&& r.new_lines@.last().graphemes() == graphemes_of(segs.last()) + old(
                        self,
                    ).graphemes().skip(position as int)
                    &&& r.new_lines@.last().styles() == no_styles(graphemes_of(segs.last()).len())
                        + old(self).styles().skip(position as int)
                    &&& r.cursor as nat == graphemes_of(segs.last()).len()
                })
            }),
    {
        let ghost pre = *self;
        let segs = split_lines(value);
        let ghost segviews = split_lines_spec(value@);
        proof {
            lemma_split_lines_nonempty(value@);
            lemma_split_lines_bytes(value@);
            assert(segviews[0] == segs@[0]@);
        }
        let tail = self.characters.split_off(position);
        proof {
            assert(self.graphemes() =~= pre.graphemes().take(position as int));
            assert(self.styles() =~= pre.styles().take(position as int));
            assert(tail@.map_values(|c: GraphemeCell| c.text@) =~= pre.graphemes().skip(
                position as int,
            ));
            assert(tail@.map_values(|c: GraphemeCell| c.styles) =~= pre.styles().skip(
                position as int,
            ));
            assert forall|i: int| 0 <= i < self.characters@.len() implies (
            #[trigger] self.characters@[i].offset) as nat == total_bytes(
                self.graphemes().take(i),
            ) by {
                assert(self.characters@[i] == pre.characters@[i]);
                assert(self.graphemes().take(i) =~= pre.graphemes().take(i));
            }
            lemma_total_bytes_take_le(pre.graphemes(), position as int);
            lemma_total_bytes_split(pre.graphemes(), position as int);
        }
        // the first piece joins this line at the split point
        let piece = split_graphemes(segs[0].as_str());
        let ghost pviews = views_of(piece@);
        proof {
            lemma_total_bytes_is_byte_count(pviews);
            lemma_total_bytes_elem_le(segviews, 0);
        }
        let m = piece.len();
        let mut k: usize = 0;
        proof {
            assert(self.graphemes() + pviews.take(0) =~= self.graphemes());
            assert(self.styles() + no_styles(0) =~= self.styles());
        }
        let ghost afters = self.graphemes();
        let ghost aftst = self.styles();
        while k < m
            invariant
                k <= m,
                m == piece@.len(),
                pviews == views_of(piece@),
                total_bytes(afters) + total_bytes(pviews) <= usize::MAX,
                self.wf(),
                self.graphemes() == afters + pviews.take(k as int),
                self.styles() == aftst + no_styles(k as nat),
            decreases m - k,
        {
            proof {
                lemma_total_bytes_concat(afters, pviews.take(k as int));
                lemma_total_bytes_take_succ(pviews, k as int);
                lemma_total_bytes_take_le(pviews, k + 1);
                assert(pviews[k as int] == piece@[k as int]@);
            }
            self.push_grapheme(piece[k].clone(), StyleSet::empty());
            proof {
                assert(self.graphemes() =~= afters + pviews.take(k + 1));
                assert(self.styles() =~= aftst + no_styles((k + 1) as nat));
            }
            k += 1;
        }
        proof {
            assert(pviews.take(m as int) =~= pviews);
            assert(no_styles(m as nat) =~= no_styles(pviews.len()));
        }
        if segs.len() == 1 {
            // no line break: the trailing content stays on this line
            let cursor = self.characters.len();
            proof {
                lemma_total_bytes_concat(afters, pviews);
            }
            self.append_cells(&tail);
            proof {
                assert(segviews =~= seq![segviews[0]]);
                assert(self.graphemes() =~= pre.graphemes().take(position as int)
                    + graphemes_of(segviews[0]) + pre.graphemes().skip(position as int));
                assert(self.styles() =~= pre.styles().take(position as int) + no_styles(
                    graphemes_of(segviews[0]).len(),
                ) + pre.styles().skip(position as int));
            }
            InsertResult { cursor, new_lines: Vec::new() }
        } else {
            // each later piece becomes a fresh line; the trailing content
            // moves onto the last one
            let mut new_lines: Vec<TextLine> = Vec::new();
            let last_index = segs.len() - 1;
            let mut k: usize = 1;
            while k < last_index
                invariant
                    1 <= k <= last_index,
                    last_index == segviews.len() - 1,
                    segviews == split_lines_spec(value@),
                    segs@.len() == segviews.len(),
                    forall|j: int| 0 <= j < segviews.len() ==> segviews[j] == #[trigger] segs@[j]@,
                    byte_count(value@) <= usize::MAX,
                    new_lines@.len() == k - 1,
                    forall|j: int| 0 <= j < k - 1 ==> (#[trigger] new_lines@[j]).wf(),
                    forall|j: int|
                        1 <= j < k ==> (#[trigger] new_lines@[j - 1]).graphemes() == graphemes_of(
                            segviews[j],
                        ) && new_lines@[j - 1].styles() == no_styles(
                            graphemes_of(segviews[j]).len(),
                        ),
                decreases last_index - k,
            {
                proof {
                    lemma_total_bytes_elem_le(segviews, k as int);
                    lemma_split_lines_bytes(value@);
                }
                new_lines.push(TextLine::from_text(segs[k].as_str()));
                k += 1;
            }
            proof {
                lemma_total_bytes_elem_le(segviews, last_index as int);
                lemma_split_lines_bytes(value@);
            }
            let mut last = TextLine::from_text(segs[last_index].as_str());
            let cursor = last.characters.len();
            proof {
                lemma_total_bytes_is_byte_count(graphemes_of(segviews[last_index as int]));
                let lastv = segviews[last_index as int];
                assert(concat_views(graphemes_of(lastv)) == lastv);
            }
            last.append_cells(&tail);
            new_lines.push(last);
            proof {
                assert(segviews.last() == segviews[last_index as int]);
                assert(new_lines@.last().graphemes() =~= graphemes_of(segviews.last()) + pre
                    .graphemes().skip(position as int));
                assert(new_lines@.last().styles() =~= no_styles(
                    graphemes_of(segviews.last()).len(),
                ) + pre.styles().skip(position as int));
            }
            InsertResult { cursor, new_lines }
        }
    }
}

/// Splice freshly created lines into a line sequence, each one position
/// after the line at `at`, in order, as a multi-line insertion asks.
#[verifier::loop_isolation(false)]
pub fn splice_new_lines(lines: &mut Vec<TextLine>, at: usize, new_lines: Vec<TextLine>)
    requires
        at < old(lines)@.len(),
    ensures
        final(lines)@ == old(lines)@.take(at + 1) + new_lines@ + old(lines)@.skip(at + 1),
{
    let ghost pre = lines@;
    let ghost nl = new_lines@;
    let n0 = lines.len();
    assert(at < n0);
    let mut rest = new_lines;
    proof {
        assert(pre.take(at + 1) + nl.skip(nl.len() as int) + pre.skip(at + 1) =~= pre);
    }
    while rest.len() > 0
        invariant
            rest@.len() <= nl.len(),
            rest@ == nl.take(rest@.len() as int),
            lines@ == pre.take(at + 1) + nl.skip(rest@.len() as int) + pre.skip(at + 1),
        decreases rest@.len(),
    {
        let ghost m = rest@.len() as int;
        let l = rest.pop().unwrap();
        proof {
            assert(l == nl[m - 1]);
            assert(rest@ =~= nl.take(m - 1));
        }
        lines.insert(at + 1, l);
        proof {
            assert(lines@ =~= pre.take(at + 1) + nl.skip(m - 1) + pre.skip(at + 1));
        }
    }
    proof {
        assert(nl.skip(0) =~= nl);
    }
}

/// The whole document text: every line's content, joined in order with a
/// single line-break byte between lines.
pub open spec fn joined_text(lines: Seq<TextLine>) -> Seq<char>
    decreases lines.len(),
{
    if lines.len() == 0 {
        Seq::empty()
    } else if lines.len() == 1 {
        concat_views(lines[0].graphemes())
    } else {
        joined_text(lines.drop_last()) + seq!['\n'] + concat_views(lines.last().graphemes())
    }
}

/// Join the lines into one text with a line break between each pair.
pub fn join_lines(lines: &Vec<TextLine>) -> (r: String)
    ensures
        r@ == joined_text(lines@),
{
    let mut out = String::new();
    let n = lines.len();
    let mut l: usize = 0;
    proof {
        assert(joined_text(lines@.take(0)) =~= Seq::<char>::empty());
    }
    while l < n
        invariant
            l <= n,
            n == lines@.len(),
            out@ == joined_text(lines@.take(l as int)),
        decreases n - l,
    {
        if l > 0 {
            proof {
                reveal_strlit("\n");
                assert("\n"@ =~= seq!['\n']);
            }
            push_str(&mut out, "\n");
        }
        let t = lines[l].to_text();
        push_str(&mut out, t.as_str());
        proof {
            assert(lines@.take(l + 1).drop_last() =~= lines@.take(l as int));
            assert(lines@.take(l + 1).last() == lines@[l as int]);
            if l == 0 {
                assert(out@ =~= joined_text(lines@.take(1)));
            }
        }
        l += 1;
    }
    proof {
        assert(lines@.take(n as int) =~= lines@);
    }
    out
}

} // verus!
