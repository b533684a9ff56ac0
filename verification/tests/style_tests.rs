use mdedit::Position;
use mdedit::StyleKind;
use mdedit::StyleSet;
use mdedit::TextLine;
use mdedit::join_lines;
use mdedit::restyle;
use mdedit::style_spans_of_text;

fn styles_of(line: &TextLine) -> Vec<StyleSet> {
    line.characters.iter().map(|c| c.styles).collect()
}

#[test]
fn emphasis_annotation_covers_emphasized_text() {
    let spans = style_spans_of_text("a *b* c");
    assert_eq!(spans.len(), 1);
    assert!(matches!(spans[0].kind, StyleKind::Emphasis));
    // the one span covers the byte range of "b" (byte three)
    assert!(spans[0].start <= 3 && 4 <= spans[0].end);

    let mut lines = vec![TextLine::from_text("a *b* c")];
    restyle(&mut lines);
    let sets = styles_of(&lines[0]);
    // graphemes: a, space, star, b, star, space, c
    assert!(sets[3].emphasis);
    assert_eq!(sets[0], StyleSet::empty());
    assert_eq!(sets[1], StyleSet::empty());
    assert_eq!(sets[5], StyleSet::empty());
    assert_eq!(sets[6], StyleSet::empty());
}

#[test]
fn strong_and_code_annotations() {
    let mut lines = vec![TextLine::from_text("**b** and `c`")];
    restyle(&mut lines);
    let sets = styles_of(&lines[0]);
    // graphemes: * * b * * space a n d space ` c `
    assert!(sets[2].strong);
    assert!(!sets[2].emphasis);
    assert!(sets[11].code);
    assert!(!sets[6].strong && !sets[6].code);
}

#[test]
fn nested_styles_combine() {
    let mut lines = vec![TextLine::from_text("*a **b** c*")];
    restyle(&mut lines);
    let sets = styles_of(&lines[0]);
    // the inner "b" carries both emphasis and strong emphasis
    assert!(sets[5].emphasis && sets[5].strong);
    // the outer "a" carries emphasis alone
    assert!(sets[1].emphasis && !sets[1].strong);
}

#[test]
fn table_rows_carry_table_styles() {
    let text = "| Head |\n| ---- |\n| body |";
    let mut lines = vec![
        TextLine::from_text("| Head |"),
        TextLine::from_text("| ---- |"),
        TextLine::from_text("| body |"),
    ];
    assert_eq!(join_lines(&lines), text);
    restyle(&mut lines);
    // "Head" sits in the header row: table block, cell boundary, strong
    let head = styles_of(&lines[0]);
    assert!(head[2].table_block && head[2].table_cell_boundary && head[2].strong);
    // "body" sits in a body row: table block and cell boundary, not strong
    let body = styles_of(&lines[2]);
    assert!(body[2].table_block && body[2].table_cell_boundary);
    assert!(!body[2].strong);
}

#[test]
fn restyle_is_recomputed_after_edit() {
    let mut lines = vec![TextLine::from_text("*a* b")];
    restyle(&mut lines);
    assert!(styles_of(&lines[0])[1].emphasis);
    // removing the closing marker dissolves the emphasis
    assert!(lines[0].remove_before(3));
    restyle(&mut lines);
    let sets = styles_of(&lines[0]);
    assert!(sets.iter().all(|s| !s.emphasis));
}

#[test]
fn offsets_follow_multi_byte_graphemes() {
    let mut line = TextLine::from_text("h\u{E9}llo");
    let r = line.insert(1, "xy");
    assert!(r.new_lines.is_empty());
    assert_eq!(r.cursor, 3);
    assert_eq!(line.to_text(), "hxy\u{E9}llo");
    // the accented grapheme is two bytes wide, so the offsets jump by two
    assert_eq!(line.characters[3].offset, 3);
    assert_eq!(line.characters[4].offset, 5);
    assert_eq!(line.char_len(), 8);
}

#[test]
fn multi_line_insert_splits_lines() {
    let mut line = TextLine::from_text("hello");
    let r = line.insert(2, "X\nY\nZ");
    assert_eq!(line.to_text(), "heX");
    assert_eq!(r.new_lines.len(), 2);
    assert_eq!(r.new_lines[0].to_text(), "Y");
    assert_eq!(r.new_lines[1].to_text(), "Zllo");
    assert_eq!(r.cursor, 1);
}

#[test]
fn insert_empty_line_break_moves_tail() {
    let mut line = TextLine::from_text("ab");
    let r = line.insert(1, "\n");
    assert_eq!(line.to_text(), "a");
    assert_eq!(r.new_lines.len(), 1);
    assert_eq!(r.new_lines[0].to_text(), "b");
    assert_eq!(r.cursor, 0);
}

#[test]
fn insert_advances_cursor_by_grapheme_count() {
    let mut line = TextLine::from_text("ab");
    let r = line.insert(1, "xyz");
    assert_eq!(line.to_text(), "axyzb");
    assert_eq!(r.cursor, 4);
    assert!(r.new_lines.is_empty());
}

#[test]
fn remove_before_deletes_one_cluster() {
    let mut line = TextLine::from_text("a\u{E9}c");
    assert!(line.remove_before(2));
    assert_eq!(line.to_text(), "ac");
    assert_eq!(line.characters[1].offset, 1);
    assert!(!line.remove_before(0));
    assert_eq!(line.to_text(), "ac");
}

#[test]
fn moved_text_keeps_its_styles() {
    let mut lines = vec![TextLine::from_text("ab *c*")];
    restyle(&mut lines);
    let mut line = lines.remove(0);
    assert!(line.characters[4].styles.emphasis);
    // splitting before the emphasised run moves it, styles included
    let r = line.insert(2, "\n");
    assert!(r.new_lines[0].characters[2].styles.emphasis);
}

#[test]
fn join_lines_inserts_single_separator() {
    let lines = vec![TextLine::from_text("ab"), TextLine::from_text(""), TextLine::from_text("c")];
    assert_eq!(join_lines(&lines), "ab\n\nc");
    let none: Vec<TextLine> = Vec::new();
    assert_eq!(join_lines(&none), "");
}

#[test]
fn run_positions_classify_edges() {
    let mut lines = vec![TextLine::from_text("`ab`")];
    restyle(&mut lines);
    let line = &lines[0];
    // all four graphemes of the code span carry the code style
    assert!(styles_of(line).iter().all(|s| s.code));
    assert_eq!(line.run_position(0, StyleKind::Code), Position::First);
    assert_eq!(line.run_position(1, StyleKind::Code), Position::Sandwiched);
    assert_eq!(line.run_position(3, StyleKind::Code), Position::Last);
    assert_eq!(line.run_position(0, StyleKind::Emphasis), Position::Single);
}

#[test]
fn position_edge_queries() {
    assert!(Position::First.is_first());
    assert!(!Position::First.is_last());
    assert!(Position::Last.is_last());
    assert!(!Position::Last.is_first());
    assert!(Position::Single.is_first() && Position::Single.is_last());
    assert!(!Position::Sandwiched.is_first() && !Position::Sandwiched.is_last());
}

#[test]
fn style_set_operations() {
    let empty = StyleSet::empty();
    assert!(!empty.contains(StyleKind::Emphasis));
    let with_code = empty.with(StyleKind::Code);
    assert!(with_code.contains(StyleKind::Code));
    assert!(!with_code.contains(StyleKind::Strong));
    let both = with_code.with(StyleKind::Strong);
    assert!(both.contains(StyleKind::Code) && both.contains(StyleKind::Strong));
    let positioned = StyleKind::Code.positioned(&with_code, &empty);
    assert_eq!(positioned, Position::Last);
}

#[test]
fn plain_text_carries_no_styles() {
    let mut lines = vec![TextLine::from_text("just words here")];
    restyle(&mut lines);
    assert!(styles_of(&lines[0]).iter().all(|s| *s == StyleSet::empty()));
    assert!(style_spans_of_text("just words here").is_empty());
}

#[test]
fn splice_inserts_new_lines_after_owner() {
    let mut lines = vec![TextLine::from_text("one"), TextLine::from_text("four")];
    let fresh = vec![TextLine::from_text("two"), TextLine::from_text("three")];
    mdedit::splice_new_lines(&mut lines, 0, fresh);
    let texts: Vec<String> = lines.iter().map(|l| l.to_text()).collect();
    assert_eq!(texts, vec!["one", "two", "three", "four"]);
}

#[test]
fn full_edit_cycle_keeps_lines_styled() {
    // type an emphasis marker pair into a line, splitting it in two first
    let mut lines = vec![TextLine::from_text("hello world")];
    let r = lines[0].insert(5, "\n*wo*");
    assert_eq!(r.new_lines.len(), 1);
    mdedit::splice_new_lines(&mut lines, 0, r.new_lines);
    assert_eq!(join_lines(&lines), "hello\n*wo* world");
    restyle(&mut lines);
    let sets = styles_of(&lines[1]);
    assert!(sets[1].emphasis && sets[2].emphasis);
    assert!(!sets[5].emphasis);
}

#[test]
fn clear_empties_a_line() {
    let mut line = TextLine::from_text("abc");
    line.clear();
    assert_eq!(line.characters.len(), 0);
    assert_eq!(line.to_text(), "");
    assert_eq!(line.char_len(), 0);
}
