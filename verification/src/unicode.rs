//! Unicode facts the engine rests on: grapheme segmentation, display
//! width, line splitting, and UTF-8 byte counts of grapheme sequences.

use vstd::prelude::*;

verus! {

use vstd::utf8::encode_utf8;

/// The UTF-8 byte count of a character sequence.
pub open spec fn byte_count(s: Seq<char>) -> nat {
    encode_utf8(s).len()
}

/// The views of a vector of strings, each as its character sequence.
pub open spec fn views_of(v: Seq<String>) -> Seq<Seq<char>> {
    v.map_values(|g: String| g@)
}

/// The concatenation of a sequence of character sequences.
pub open spec fn concat_views(gs: Seq<Seq<char>>) -> Seq<char>
    decreases gs.len(),
{
    if gs.len() == 0 {
        Seq::empty()
    } else {
        concat_views(gs.drop_last()) + gs.last()
    }
}

/// The total UTF-8 byte count of a sequence of grapheme views.
pub open spec fn total_bytes(gs: Seq<Seq<char>>) -> nat
    decreases gs.len(),
{
    if gs.len() == 0 {
        0
    } else {
        total_bytes(gs.drop_last()) + byte_count(gs.last())
    }
}

/// The pieces of a character sequence between `'\n'` separators, in order;
/// always at least one piece, and one more piece than there are separators.
pub open spec fn split_lines_spec(s: Seq<char>) -> Seq<Seq<char>>
    decreases s.len(),
{
    if s.len() == 0 {
        seq![Seq::<char>::empty()]
    } else if s[0] == '\n' {
        seq![Seq::<char>::empty()] + split_lines_spec(s.drop_first())
    } else {
        let rest = split_lines_spec(s.drop_first());
        seq![seq![s[0]] + rest[0]] + rest.drop_first()
    }
}

/// The grapheme clusters a string divides into: one entry for each
/// user-perceived character, a pure function of the characters alone.
pub uninterp spec fn graphemes_of(s: Seq<char>) -> Seq<Seq<char>>;

/// The display width of a string in monospace columns, a pure function of
/// the characters alone.
pub uninterp spec fn width_of(s: Seq<char>) -> nat;

/// Relies on unicode_segmentation's `UnicodeSegmentation::graphemes` with
/// extended clusters: the grapheme clusters of the string in order. The
/// iterator cuts the string at cluster boundaries and yields the contiguous
/// slices between them, so the clusters concatenate back to the string.
#[verifier::external_body]
pub(crate) fn split_graphemes(s: &str) -> (r: Vec<String>)
    ensures
        views_of(r@) == graphemes_of(s@),
        concat_views(views_of(r@)) == s@,
{
    unicode_segmentation::UnicodeSegmentation::graphemes(s, true).map(|g| g.to_string()).collect()
}

/// Relies on unicode_width's `UnicodeWidthStr::width`: the display width of
/// a string, a pure function of the characters alone.
#[verifier::external_body]
pub(crate) fn display_width(s: &str) -> (r: usize)
    ensures
        r as nat == width_of(s@),
{
    unicode_width::UnicodeWidthStr::width(s)
}

/// Relies on std's `str::split` with a `'\n'` pattern: the substrings
/// between line breaks, in order, as `split_lines_spec` states them.
#[verifier::external_body]
pub(crate) fn split_lines(s: &str) -> (r: Vec<String>)
    ensures
        views_of(r@) == split_lines_spec(s@),
{
    s.split('\n').map(|p| p.to_string()).collect()
}

/// Relies on std's `String::push_str`: appends the slice to the string.
#[verifier::external_body]
pub(crate) fn push_str(s: &mut String, t: &str)
    ensures
        final(s)@ == old(s)@ + t@,
{
    s.push_str(t)
}

/// UTF-8 encoding distributes over concatenation.
pub proof fn lemma_encode_utf8_concat(a: Seq<char>, b: Seq<char>)
    ensures
        encode_utf8(a + b) == encode_utf8(a) + encode_utf8(b),
    decreases a.len(),
{
    if a.len() == 0 {
        assert(a + b =~= b);
        assert(encode_utf8(a) + encode_utf8(b) =~= encode_utf8(b));
    } else {
        assert((a + b).drop_first() =~= a.drop_first() + b);
        lemma_encode_utf8_concat(a.drop_first(), b);
        assert(encode_utf8(a + b) =~= encode_utf8(a) + encode_utf8(b));
    }
}

/// Byte counts add over concatenation of character sequences.
pub proof fn lemma_byte_count_concat(a: Seq<char>, b: Seq<char>)
    ensures
        byte_count(a + b) == byte_count(a) + byte_count(b),
{
    lemma_encode_utf8_concat(a, b);
}

/// The total byte count of grapheme views is the byte count of their
/// concatenation.
pub proof fn lemma_total_bytes_is_byte_count(gs: Seq<Seq<char>>)
    ensures
        total_bytes(gs) == byte_count(concat_views(gs)),
    decreases gs.len(),
{
    if gs.len() == 0 {
        assert(encode_utf8(concat_views(gs)) =~= Seq::<u8>::empty());
    } else {
        lemma_total_bytes_is_byte_count(gs.drop_last());
        lemma_byte_count_concat(concat_views(gs.drop_last()), gs.last());
    }
}

/// Total byte counts add over concatenation of grapheme sequences.
pub proof fn lemma_total_bytes_concat(a: Seq<Seq<char>>, b: Seq<Seq<char>>)
    ensures
        total_bytes(a + b) == total_bytes(a) + total_bytes(b),
    decreases b.len(),
{
    if b.len() == 0 {
        assert(a + b =~= a);
    } else {
        assert((a + b).drop_last() =~= a + b.drop_last());
        assert((a + b).last() == b.last());
        lemma_total_bytes_concat(a, b.drop_last());
    }
}

/// Extending a prefix by one grapheme adds that grapheme's byte count.
pub proof fn lemma_total_bytes_take_succ(gs: Seq<Seq<char>>, i: int)
    requires
        0 <= i < gs.len(),
    ensures
        total_bytes(gs.take(i + 1)) == total_bytes(gs.take(i)) + byte_count(gs[i]),
{
    assert(gs.take(i + 1).drop_last() =~= gs.take(i));
    assert(gs.take(i + 1).last() == gs[i]);
}

/// A prefix never holds more bytes than the whole sequence.
pub proof fn lemma_total_bytes_take_le(gs: Seq<Seq<char>>, i: int)
    requires
        0 <= i <= gs.len(),
    ensures
        total_bytes(gs.take(i)) <= total_bytes(gs),
    decreases gs.len() - i,
{
    if i == gs.len() {
        assert(gs.take(i) =~= gs);
    } else {
        lemma_total_bytes_take_succ(gs, i);
        lemma_total_bytes_take_le(gs, i + 1);
    }
}

/// Extending a prefix by one grapheme appends it to the concatenation.
pub proof fn lemma_concat_views_take_succ(gs: Seq<Seq<char>>, i: int)
    requires
        0 <= i < gs.len(),
    ensures
        concat_views(gs.take(i + 1)) == concat_views(gs.take(i)) + gs[i],
{
    assert(gs.take(i + 1).drop_last() =~= gs.take(i));
    assert(gs.take(i + 1).last() == gs[i]);
}

/// The whole splits into a prefix and the rest.
pub proof fn lemma_total_bytes_split(gs: Seq<Seq<char>>, i: int)
    requires
        0 <= i <= gs.len(),
    ensures
        total_bytes(gs) == total_bytes(gs.take(i)) + total_bytes(gs.skip(i)),
{
    assert(gs =~= gs.take(i) + gs.skip(i));
    lemma_total_bytes_concat(gs.take(i), gs.skip(i));
}

/// No single grapheme holds more bytes than the whole sequence.
pub proof fn lemma_total_bytes_elem_le(gs: Seq<Seq<char>>, i: int)
    requires
        0 <= i < gs.len(),
    ensures
        byte_count(gs[i]) <= total_bytes(gs),
{
    lemma_total_bytes_split(gs, i);
    lemma_total_bytes_drop_first(gs.skip(i));
    assert(gs.skip(i)[0] == gs[i]);
}

/// A single grapheme's total is its own byte count.
pub proof fn lemma_total_bytes_singleton(g: Seq<char>)
    ensures
        total_bytes(seq![g]) == byte_count(g),
{
    let e: Seq<Seq<char>> = Seq::empty();
    assert(total_bytes(e) == 0);
    assert(seq![g].drop_last() =~= e);
    assert(seq![g].last() == g);
}

/// Unfolding `total_bytes` from the front instead of the back.
pub proof fn lemma_total_bytes_drop_first(gs: Seq<Seq<char>>)
    requires
        gs.len() > 0,
    ensures
        total_bytes(gs) == byte_count(gs[0]) + total_bytes(gs.drop_first()),
{
    assert(gs =~= seq![gs[0]] + gs.drop_first());
    lemma_total_bytes_concat(seq![gs[0]], gs.drop_first());
    lemma_total_bytes_singleton(gs[0]);
}

/// A single `'\n'` occupies one UTF-8 byte.
pub proof fn lemma_newline_one_byte()
    ensures
        byte_count(seq!['\n']) == 1,
{
    let s = seq!['\n'];
    assert(s.drop_first() =~= Seq::<char>::empty());
    assert(encode_utf8(Seq::<char>::empty()) =~= Seq::<u8>::empty());
    assert('\n' as u32 == 10);
    assert(vstd::utf8::has_width_1_encoding('\n' as u32));
    assert(vstd::utf8::encode_scalar('\n' as u32) =~= seq![
        vstd::utf8::leading_byte_width_1('\n' as u32),
    ]);
    assert(encode_utf8(s) =~= vstd::utf8::encode_scalar('\n' as u32));
}

/// Splitting on line breaks accounts for every byte: the pieces' bytes plus
/// one byte per separator give the original byte count.
pub proof fn lemma_split_lines_bytes(s: Seq<char>)
    ensures
        total_bytes(split_lines_spec(s)) + split_lines_spec(s).len() == byte_count(s) + 1,
    decreases s.len(),
{
    lemma_newline_one_byte();
    if s.len() == 0 {
        lemma_total_bytes_drop_first(split_lines_spec(s));
        assert(encode_utf8(s) =~= Seq::<u8>::empty());
        assert(encode_utf8(Seq::<char>::empty()) =~= Seq::<u8>::empty());
    } else if s[0] == '\n' {
        lemma_split_lines_bytes(s.drop_first());
        lemma_total_bytes_concat(seq![Seq::<char>::empty()], split_lines_spec(s.drop_first()));
        lemma_total_bytes_singleton(Seq::<char>::empty());
        assert(encode_utf8(Seq::<char>::empty()) =~= Seq::<u8>::empty());
        assert(s =~= seq!['\n'] + s.drop_first());
        lemma_byte_count_concat(seq!['\n'], s.drop_first());
    } else {
        let rest = split_lines_spec(s.drop_first());
        lemma_split_lines_bytes(s.drop_first());
        assert(rest.len() > 0) by {
            lemma_split_lines_nonempty(s.drop_first());
        }
        assert(rest =~= seq![rest[0]] + rest.drop_first());
        lemma_total_bytes_concat(seq![rest[0]], rest.drop_first());
        lemma_total_bytes_concat(seq![seq![s[0]] + rest[0]], rest.drop_first());
        lemma_total_bytes_singleton(rest[0]);
        lemma_total_bytes_singleton(seq![s[0]] + rest[0]);
        lemma_byte_count_concat(seq![s[0]], rest[0]);
        assert(s =~= seq![s[0]] + s.drop_first());
        lemma_byte_count_concat(seq![s[0]], s.drop_first());
    }
}

/// Splitting always yields at least one piece.
pub proof fn lemma_split_lines_nonempty(s: Seq<char>)
    ensures
        split_lines_spec(s).len() >= 1,
    decreases s.len(),
{
    if s.len() > 0 && s[0] != '\n' {
        lemma_split_lines_nonempty(s.drop_first());
    }
}


} // verus!
