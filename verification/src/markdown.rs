//! The markdown-subset grammar: parse tokens from the outside parser, the
//! style spans the grammar attaches to byte ranges, and their application
//! to the grapheme lines of a document.

use vstd::prelude::*;

verus! {

use pulldown_cmark::Event;
use pulldown_cmark::Options;
use pulldown_cmark::Parser;
use pulldown_cmark::Tag;

use crate::line::GraphemeCell;
use crate::line::TextLine;
use crate::line::join_lines;
use crate::line::joined_text;
use crate::style::StyleKind;
use crate::style::StyleSet;
use crate::unicode::total_bytes;

/// One event of the markdown parse that the engine reads, with the byte
/// range of the construct it belongs to.
#[derive(Clone, Debug, PartialEq)]
pub struct MdToken {
    pub kind: MdTokKind,
    pub start: usize,
    pub end: usize,
}

/// The parse events the grammar subset distinguishes; every other event
/// the parser may emit is `Other` and is ignored.
#[derive(Clone, Debug, PartialEq)]
pub enum MdTokKind {
    Table,
    TableEnd,
    HeadEnd,
    RowEnd,
    CellEnd,
    Emphasis,
    Strong,
    Code,
    Text(String),
    Other,
}

/// The tokens the markdown parser derives from a text, a pure function of
/// the characters alone.
pub uninterp spec fn md_tokens_of(s: Seq<char>) -> Seq<MdToken>;

/// Relies on pulldown_cmark's `Parser` with tables enabled, through
/// `into_offset_iter`: the parse events of the text in document order,
/// each with the byte range of the construct it belongs to (a start and an
/// end event both carry the construct's whole range).
#[verifier::external_body]
pub(crate) fn md_tokens(text: &str) -> (r: Vec<MdToken>)
    ensures
        r@ == md_tokens_of(text@),
{
    let parser = Parser::new_ext(text, Options::ENABLE_TABLES);
    parser.into_offset_iter().map(|(ev, sp)| MdToken { start: sp.start, end: sp.end, kind: match ev {
        Event::Start(Tag::Table(_)) => MdTokKind::Table,
        Event::End(Tag::Table(_)) => MdTokKind::TableEnd,
        Event::End(Tag::TableHead) => MdTokKind::HeadEnd,
        Event::End(Tag::TableRow) => MdTokKind::RowEnd,
        Event::End(Tag::TableCell) => MdTokKind::CellEnd,
        Event::Start(Tag::Emphasis) => MdTokKind::Emphasis,
        Event::Start(Tag::Strong) => MdTokKind::Strong,
        Event::Code(_) => MdTokKind::Code,
        Event::Text(t) => MdTokKind::Text(t.into_string()),
        _ => MdTokKind::Other,
    } }).collect()
}

/// A style annotation: a kind attached to a half-open byte range.
#[derive(Clone, Copy, Debug, PartialEq, Eq, Structural)]
pub struct StyleSpan {
    pub kind: StyleKind,
    pub start: usize,
    pub end: usize,
}

/// The style span one token contributes, if any: emphasis, strong
/// emphasis, an inline code span, the table block, the header row (set in
/// strong), and each table cell's boundary.
pub open spec fn spans_of_token(t: MdToken) -> Seq<StyleSpan> {
    match t.kind {
        MdTokKind::Emphasis => seq![
            StyleSpan { kind: StyleKind::Emphasis, start: t.start, end: t.end },
        ],
        MdTokKind::Strong => seq![StyleSpan { kind: StyleKind::Strong, start: t.start, end: t.end }],
        MdTokKind::Code => seq![StyleSpan { kind: StyleKind::Code, start: t.start, end: t.end }],
        MdTokKind::Table => seq![
            StyleSpan { kind: StyleKind::TableBlock, start: t.start, end: t.end },
        ],
        MdTokKind::HeadEnd => seq![
            StyleSpan { kind: StyleKind::Strong, start: t.start, end: t.end },
        ],
        MdTokKind::CellEnd => seq![
            StyleSpan { kind: StyleKind::TableCellBoundary, start: t.start, end: t.end },
        ],
        _ => Seq::empty(),
    }
}

/// Every style span of a token stream, in stream order.
pub open spec fn spans_of(tokens: Seq<MdToken>) -> Seq<StyleSpan>
    decreases tokens.len(),
{
    if tokens.len() == 0 {
        Seq::empty()
    } else {
        spans_of(tokens.drop_last()) + spans_of_token(tokens.last())
    }
}

/// Derive the style spans of a token stream.
pub fn style_spans(tokens: &Vec<MdToken>) -> (r: Vec<StyleSpan>)
    ensures
        r@ == spans_of(tokens@),
{
    let mut out: Vec<StyleSpan> = Vec::new();
    let n = tokens.len();
    let mut i: usize = 0;
    proof {
        assert(spans_of(tokens@.take(0)) =~= Seq::<StyleSpan>::empty());
    }
    while i < n
        invariant
            i <= n,
            n == tokens@.len(),
            out@ == spans_of(tokens@.take(i as int)),
        decreases n - i,
    {
        let t = &tokens[i];
        proof {
            assert(tokens@.take(i + 1).drop_last() =~= tokens@.take(i as int));
            assert(tokens@.take(i + 1).last() == tokens@[i as int]);
        }
        match &t.kind {
            MdTokKind::Emphasis => out.push(
                StyleSpan { kind: StyleKind::Emphasis, start: t.start, end: t.end },
            ),
            MdTokKind::Strong => out.push(
                StyleSpan { kind: StyleKind::Strong, start: t.start, end: t.end },
            ),
            MdTokKind::Code => out.push(
                StyleSpan { kind: StyleKind::Code, start: t.start, end: t.end },
            ),
            MdTokKind::Table => out.push(
                StyleSpan { kind: StyleKind::TableBlock, start: t.start, end: t.end },
            ),
            MdTokKind::HeadEnd => out.push(
                StyleSpan { kind: StyleKind::Strong, start: t.start, end: t.end },
            ),
            MdTokKind::CellEnd => out.push(
                StyleSpan { kind: StyleKind::TableCellBoundary, start: t.start, end: t.end },
            ),
            _ => {},
        }
        proof {
            assert(out@ =~= spans_of(tokens@.take(i + 1)));
        }
        i += 1;
    }
    proof {
        assert(tokens@.take(n as int) =~= tokens@);
    }
    out
}

/// The style spans the markdown-subset grammar derives from a text.
pub fn style_spans_of_text(text: &str) -> (r: Vec<StyleSpan>)
    ensures
        r@ == spans_of(md_tokens_of(text@)),
{
    let tokens = md_tokens(text);
    style_spans(&tokens)
}

/// Whether a span covers the byte at `off`.
pub open spec fn covers(sp: StyleSpan, off: int) -> bool {
    sp.start <= off < sp.end
}

/// Whether any span of the given kind covers the byte at `off`.
pub open spec fn has_kind_at(spans: Seq<StyleSpan>, kind: StyleKind, off: int) -> bool {
    exists|i: int| 0 <= i < spans.len() && (#[trigger] spans[i]).kind == kind && covers(spans[i], off)
}

/// The set of styles whose spans cover the byte at `off`: a grapheme may
/// carry zero or more styles at once.
pub open spec fn style_set_at(spans: Seq<StyleSpan>, off: int) -> StyleSet {
    StyleSet {
        emphasis: has_kind_at(spans, StyleKind::Emphasis, off),
        strong: has_kind_at(spans, StyleKind::Strong, off),
        code: has_kind_at(spans, StyleKind::Code, off),
        table_block: has_kind_at(spans, StyleKind::TableBlock, off),
        table_header: has_kind_at(spans, StyleKind::TableHeader, off),
        table_cell_boundary: has_kind_at(spans, StyleKind::TableCellBoundary, off),
    }
}

/// Taking one more span in either finds the kind earlier or on that span.
proof fn lemma_has_kind_take_succ(spans: Seq<StyleSpan>, kind: StyleKind, i: int, off: int)
    requires
        0 <= i < spans.len(),
    ensures
        has_kind_at(spans.take(i + 1), kind, off) == (has_kind_at(spans.take(i), kind, off) || (
        spans[i].kind == kind && covers(spans[i], off))),
{
    let pre = spans.take(i);
    let cur = spans.take(i + 1);
    if has_kind_at(cur, kind, off) {
        let j = choose|j: int| 0 <= j < cur.len() && (#[trigger] cur[j]).kind == kind && covers(
            cur[j],
            off,
        );
        if j < i {
            assert(pre[j] == cur[j]);
            assert(has_kind_at(pre, kind, off));
        } else {
            assert(cur[j] == spans[i]);
        }
    }
    if has_kind_at(pre, kind, off) {
        let j = choose|j: int| 0 <= j < pre.len() && (#[trigger] pre[j]).kind == kind && covers(
            pre[j],
            off,
        );
        assert(cur[j] == pre[j]);
        assert(has_kind_at(cur, kind, off));
    }
    if spans[i].kind == kind && covers(spans[i], off) {
        assert(cur[i] == spans[i]);
        assert(has_kind_at(cur, kind, off));
    }
}

/// Compute the style set covering the byte at `off`.
pub fn style_at(spans: &Vec<StyleSpan>, off: usize) -> (r: StyleSet)
    ensures
        r == style_set_at(spans@, off as int),
{
    let mut r = StyleSet::empty();
    let n = spans.len();
    let mut i: usize = 0;
    proof {
        assert(spans@.take(0) =~= Seq::<StyleSpan>::empty());
    }
    while i < n
        invariant
            i <= n,
            n == spans@.len(),
            r == style_set_at(spans@.take(i as int), off as int),
        decreases n - i,
    {
        let sp = spans[i];
        proof {
            lemma_has_kind_take_succ(spans@, StyleKind::Emphasis, i as int, off as int);
            lemma_has_kind_take_succ(spans@, StyleKind::Strong, i as int, off as int);
            lemma_has_kind_take_succ(spans@, StyleKind::Code, i as int, off as int);
            lemma_has_kind_take_succ(spans@, StyleKind::TableBlock, i as int, off as int);
            lemma_has_kind_take_succ(spans@, StyleKind::TableHeader, i as int, off as int);
            lemma_has_kind_take_succ(spans@, StyleKind::TableCellBoundary, i as int, off as int);
        }
        if sp.start <= off && off < sp.end {
            r = r.with(sp.kind);
        }
        i += 1;
    }
    proof {
        assert(spans@.take(n as int) =~= spans@);
    }
    r
}

/// The absolute byte offset at which line `l` begins in the joined text:
/// every earlier line's bytes plus one line-break byte each.
pub open spec fn line_base(lines: Seq<TextLine>, l: int) -> nat
    decreases l,
{
    if l <= 0 {
        0
    } else {
        line_base(lines, l - 1) + total_bytes(lines[l - 1].graphemes()) + 1
    }
}

/// The byte length of the joined document text.
pub open spec fn doc_byte_len(lines: Seq<TextLine>) -> nat {
    if lines.len() == 0 {
        0
    } else {
        line_base(lines, lines.len() - 1) + total_bytes(lines[lines.len() - 1].graphemes())
    }
}

/// A line's bytes end before the whole document's byte length.
proof fn lemma_line_base_le(lines: Seq<TextLine>, l: int)
    requires
        0 <= l < lines.len(),
    ensures
        line_base(lines, l) + total_bytes(lines[l].graphemes()) <= doc_byte_len(lines),
    decreases lines.len() - l,
{
    if l < lines.len() - 1 {
        lemma_line_base_le(lines, l + 1);
    }
}

/// Rebuild one line with every grapheme's styles recomputed from the
/// spans, against the line's base byte offset in the document.
fn restyle_line(line: &TextLine, spans: &Vec<StyleSpan>, base: usize) -> (r: TextLine)
    requires
        line.wf(),
        base + total_bytes(line.graphemes()) <= usize::MAX,
    ensures
        r.wf(),
        r.graphemes() == line.graphemes(),
        r.styles().len() == line.graphemes().len(),
        forall|j: int|
            0 <= j < line.graphemes().len() ==> #[trigger] r.styles()[j] == style_set_at(
                spans@,
                base + total_bytes(line.graphemes().take(j)),
            ),
{
    let mut out = TextLine { characters: Vec::new() };
    let n = line.characters.len();
    let mut j: usize = 0;
    proof {
        assert(out.graphemes() =~= Seq::<Seq<char>>::empty());
        assert(line.graphemes().take(0) =~= Seq::<Seq<char>>::empty());
    }
    while j < n
        invariant
            j <= n,
            n == line.characters@.len(),
            line.wf(),
            base + total_bytes(line.graphemes()) <= usize::MAX,
            out.characters@.len() == j,
            out.graphemes() == line.graphemes().take(j as int),
            forall|i: int|
                0 <= i < j ==> #[trigger] out.characters@[i].offset == line.characters@[i].offset,
            forall|i: int|
                0 <= i < j ==> #[trigger] out.styles()[i] == style_set_at(
                    spans@,
                    (base + total_bytes(line.graphemes().take(i))) as int,
                ),
        decreases n - j,
    {
        let c = &line.characters[j];
        proof {
            crate::unicode::lemma_total_bytes_take_le(line.graphemes(), j as int);
        }
        let abs = base + c.offset;
        let st = style_at(spans, abs);
        let ghost prev_styles = out.styles();
        out.characters.push(GraphemeCell { text: c.text.clone(), styles: st, offset: c.offset });
        proof {
            assert(out.graphemes() =~= line.graphemes().take(j + 1));
            assert(out.styles() =~= prev_styles.push(st));
            assert(abs as nat == base + total_bytes(line.graphemes().take(j as int)));
        }
        j += 1;
    }
    proof {
        assert(line.graphemes().take(n as int) =~= line.graphemes());
        assert forall|i: int| 0 <= i < out.characters@.len() implies (
        #[trigger] out.characters@[i].offset) as nat == total_bytes(out.graphemes().take(i)) by {
            assert(line.characters@[i].offset as nat == total_bytes(line.graphemes().take(i)));
            assert(out.graphemes().take(i) =~= line.graphemes().take(i));
        }
    }
    out
}

/// Reapply the given style spans across all lines: each grapheme receives
/// exactly the styles whose spans cover its absolute byte offset, which is
/// its byte offset within its line plus the line's base offset.
pub fn apply_styles(lines: &mut Vec<TextLine>, spans: &Vec<StyleSpan>)
    requires
        forall|l: int| 0 <= l < old(lines)@.len() ==> (#[trigger] old(lines)@[l]).wf(),
        doc_byte_len(old(lines)@) <= usize::MAX,
    ensures
        final(lines)@.len() == old(lines)@.len(),
        forall|l: int| 0 <= l < old(lines)@.len() ==> (#[trigger] final(lines)@[l]).wf(),
        forall|l: int|
            0 <= l < old(lines)@.len() ==> (#[trigger] final(lines)@[l]).graphemes() == old(
                lines,
            )@[l].graphemes(),
        forall|l: int, j: int|
            0 <= l < old(lines)@.len() && 0 <= j < old(lines)@[l].graphemes().len()
                ==> (#[trigger] final(lines)@[l].styles()[j]) == style_set_at(
                spans@,
                (line_base(old(lines)@, l) + total_bytes(old(lines)@[l].graphemes().take(j))) as int,
            ),
{
    let ghost pre = lines@;
    let mut out: Vec<TextLine> = Vec::new();
    let n = lines.len();
    let mut base: usize = 0;
    let mut l: usize = 0;
    while l < n
        invariant
            l <= n,
            n == pre.len(),
            lines@ == pre,
            forall|k: int| 0 <= k < pre.len() ==> (#[trigger] pre[k]).wf(),
            doc_byte_len(pre) <= usize::MAX,
            l < n ==> base as nat == line_base(pre, l as int),
            out@.len() == l,
            forall|k: int| 0 <= k < l ==> (#[trigger] out@[k]).wf(),
            forall|k: int|
                0 <= k < l ==> (#[trigger] out@[k]).graphemes() == pre[k].graphemes(),
            forall|k: int, j: int|
                0 <= k < l && 0 <= j < pre[k].graphemes().len() ==> (
                #[trigger] out@[k].styles()[j]) == style_set_at(
                    spans@,
                    (line_base(pre, k) + total_bytes(pre[k].graphemes().take(j))) as int,
                ),
        decreases n - l,
    {
        proof {
            lemma_line_base_le(pre, l as int);
        }
        let line = &lines[l];
        let styled = restyle_line(line, spans, base);
        let cl = line.char_len();
        out.push(styled);
        if l + 1 < n {
            proof {
                lemma_line_base_le(pre, l + 1);
            }
            base = base + cl + 1;
        }
        l += 1;
    }
    *lines = out;
}

/// Recompute the style annotation of the whole document: run the
/// markdown-subset grammar over the joined text of all lines and give
/// every grapheme exactly the styles whose spans cover its absolute byte
/// offset. Derived styles are fully recomputed, never patched.
pub fn restyle(lines: &mut Vec<TextLine>)
    requires
        forall|l: int| 0 <= l < old(lines)@.len() ==> (#[trigger] old(lines)@[l]).wf(),
        doc_byte_len(old(lines)@) <= usize::MAX,
    ensures
        final(lines)@.len() == old(lines)@.len(),
        forall|l: int| 0 <= l < old(lines)@.len() ==> (#[trigger] final(lines)@[l]).wf(),
        forall|l: int|
            0 <= l < old(lines)@.len() ==> (#[trigger] final(lines)@[l]).graphemes() == old(
                lines,
            )@[l].graphemes(),
        forall|l: int, j: int|
            0 <= l < old(lines)@.len() && 0 <= j < old(lines)@[l].graphemes().len()
                ==> (#[trigger] final(lines)@[l].styles()[j]) == style_set_at(
                spans_of(md_tokens_of(joined_text(old(lines)@))),
                (line_base(old(lines)@, l) + total_bytes(old(lines)@[l].graphemes().take(j))) as int,
            ),
{
    let text = join_lines(lines);
    let tokens = md_tokens(text.as_str());
    let spans = style_spans(&tokens);
    apply_styles(lines, &spans);
}

} // verus!
