use mdedit::Characters;
use mdedit::Command;
use mdedit::Commandee;
use mdedit::Document;
use mdedit::Element;
use mdedit::Paragraph;
use mdedit::Table;

fn cell(s: &str, cursor: Option<usize>) -> Paragraph {
    Paragraph { text: Characters::from_text(s).0, cursor }
}

fn grid_2x2(active: Option<(usize, usize)>, cursor00: Option<usize>) -> Table {
    Table {
        cells: vec![
            ((0, 0), cell("ab", cursor00)),
            ((1, 0), cell("cd", None)),
            ((0, 1), cell("ef", None)),
            ((1, 1), cell("gh", None)),
        ],
        active_cell: active,
        height: 2,
        width: 2,
    }
}

fn cell_cursor(t: &Table, key: (usize, usize)) -> Option<usize> {
    t.cell(key.0, key.1).unwrap().cursor
}

#[test]
fn left_at_grid_edge_is_not_handled() {
    let mut t = grid_2x2(Some((0, 0)), Some(0));
    assert!(!t.command(&Command::Left));
    assert_eq!(t.active_cell, Some((0, 0)));
    assert_eq!(cell_cursor(&t, (0, 0)), Some(0));
}

#[test]
fn right_at_text_end_moves_to_next_cell() {
    let mut t = grid_2x2(Some((0, 0)), Some(2));
    assert!(t.command(&Command::Right));
    assert_eq!(t.active_cell, Some((1, 0)));
    assert_eq!(cell_cursor(&t, (1, 0)), Some(0));
    assert_eq!(cell_cursor(&t, (0, 0)), None);
}

#[test]
fn left_entry_into_neighbour_lands_at_text_end() {
    let mut t = Table {
        cells: vec![((0, 0), cell("abc", None)), ((1, 0), cell("xy", Some(0)))],
        active_cell: Some((1, 0)),
        height: 1,
        width: 2,
    };
    assert!(t.command(&Command::Left));
    assert_eq!(t.active_cell, Some((0, 0)));
    assert_eq!(cell_cursor(&t, (0, 0)), Some(3));
    assert_eq!(cell_cursor(&t, (1, 0)), None);
}

#[test]
fn vertical_motion_carries_normalized_column() {
    // leaving before "h" in a wide-then-narrow line is column two, which
    // lands at index two in a single-width line below
    let mut t = Table {
        cells: vec![((0, 0), cell("\u{597D}h", Some(1))), ((0, 1), cell("abcd", None))],
        active_cell: Some((0, 0)),
        height: 2,
        width: 1,
    };
    assert!(t.command(&Command::Down));
    assert_eq!(t.active_cell, Some((0, 1)));
    assert_eq!(cell_cursor(&t, (0, 1)), Some(2));
    assert!(t.command(&Command::Up));
    assert_eq!(t.active_cell, Some((0, 0)));
    assert_eq!(cell_cursor(&t, (0, 0)), Some(1));
}

#[test]
fn motion_within_cell_stays_there() {
    let mut t = grid_2x2(Some((0, 0)), Some(1));
    assert!(t.command(&Command::Right));
    assert_eq!(t.active_cell, Some((0, 0)));
    assert_eq!(cell_cursor(&t, (0, 0)), Some(2));
}

#[test]
fn motion_toward_missing_cell_is_not_handled() {
    let mut t = Table {
        cells: vec![((0, 0), cell("a", Some(1)))],
        active_cell: Some((0, 0)),
        height: 1,
        width: 1,
    };
    assert!(!t.command(&Command::Right));
    assert_eq!(t.active_cell, Some((0, 0)));
}

#[test]
fn unfocused_table_accepts_only_default_entry() {
    let mut t = grid_2x2(None, None);
    assert!(!t.command(&Command::CursorEnterH(true)));
    assert!(!t.command(&Command::Left));
    assert_eq!(t.active_cell, None);
    assert!(t.command(&Command::CursorEnterH(false)));
    assert_eq!(t.active_cell, Some((0, 0)));
    assert_eq!(cell_cursor(&t, (0, 0)), Some(0));
}

#[test]
fn cursor_leave_unfocuses_table() {
    let mut t = grid_2x2(Some((0, 0)), Some(1));
    assert!(t.command(&Command::CursorLeave));
    assert_eq!(t.active_cell, None);
    assert_eq!(cell_cursor(&t, (0, 0)), None);
}

#[test]
fn neighbor_guards_grid_edges() {
    let t = grid_2x2(Some((0, 0)), Some(0));
    assert_eq!(t.neighbor(&Command::Left), None);
    assert_eq!(t.neighbor(&Command::Up), None);
    assert_eq!(t.neighbor(&Command::Right), Some((1, 0)));
    assert_eq!(t.neighbor(&Command::Down), Some((0, 1)));
    assert_eq!(t.neighbor(&Command::CursorLeave), None);
    let u = grid_2x2(None, None);
    assert_eq!(u.neighbor(&Command::Right), None);
}

#[test]
fn cell_lookup_is_by_coordinate() {
    let t = grid_2x2(None, None);
    assert_eq!(t.cell(1, 0).unwrap().text, Characters::from_text("cd").0);
    assert!(t.cell(2, 0).is_none());
    assert!(t.cell(0, 2).is_none());
}

#[test]
fn parse_table_from_markdown() {
    let md = "| Hello | xD |\n| ----- | -- |\n| test | 1 |\n";
    let doc = Document::parse_from_md(md);
    assert_eq!(doc.elements.len(), 1);
    assert_eq!(doc.active_element, 0);
    let Element::Table(t) = &doc.elements[0];
    assert_eq!(t.width, 2);
    assert_eq!(t.height, 2);
    assert_eq!(t.active_cell, None);
    assert_eq!(t.cell(0, 0).unwrap().text.concat(), "Hello");
    assert_eq!(t.cell(1, 0).unwrap().text.concat(), "xD");
    assert_eq!(t.cell(0, 1).unwrap().text.concat(), "test");
    assert_eq!(t.cell(1, 1).unwrap().text.concat(), "1");
}

#[test]
fn parse_ignores_non_table_blocks() {
    let md = "plain text\n\n| a |\n| - |\n| b |\n\nmore text\n";
    let doc = Document::parse_from_md(md);
    assert_eq!(doc.elements.len(), 1);
    let Element::Table(t) = &doc.elements[0];
    assert_eq!(t.cell(0, 0).unwrap().text.concat(), "a");
    assert_eq!(t.cell(0, 1).unwrap().text.concat(), "b");
}

#[test]
fn parse_two_tables_in_order() {
    let md = "| a |\n| - |\n\n| b |\n| - |\n";
    let doc = Document::parse_from_md(md);
    assert_eq!(doc.elements.len(), 2);
    let Element::Table(t0) = &doc.elements[0];
    let Element::Table(t1) = &doc.elements[1];
    assert_eq!(t0.cell(0, 0).unwrap().text.concat(), "a");
    assert_eq!(t1.cell(0, 0).unwrap().text.concat(), "b");
}

#[test]
fn document_moves_focus_between_elements() {
    let t0 = Table {
        cells: vec![((0, 0), cell("ab", Some(2)))],
        active_cell: Some((0, 0)),
        height: 1,
        width: 1,
    };
    let t1 = Table {
        cells: vec![((0, 0), cell("cd", None))],
        active_cell: None,
        height: 1,
        width: 1,
    };
    let mut doc = Document { elements: vec![Element::Table(t0), Element::Table(t1)], active_element: 0 };
    assert!(doc.command(&Command::Right));
    assert_eq!(doc.active_element, 1);
    let Element::Table(now) = &doc.elements[1];
    assert_eq!(now.active_cell, Some((0, 0)));
    assert_eq!(now.cell(0, 0).unwrap().cursor, Some(0));
    let Element::Table(left) = &doc.elements[0];
    assert_eq!(left.active_cell, None);
}

#[test]
fn document_absorbs_motion_at_its_edge() {
    let t0 = Table {
        cells: vec![((0, 0), cell("ab", Some(0)))],
        active_cell: Some((0, 0)),
        height: 1,
        width: 1,
    };
    let mut doc = Document { elements: vec![Element::Table(t0)], active_element: 0 };
    assert!(doc.command(&Command::Left));
    assert_eq!(doc.active_element, 0);
    let Element::Table(t) = &doc.elements[0];
    assert_eq!(t.active_cell, Some((0, 0)));
    assert_eq!(t.cell(0, 0).unwrap().cursor, Some(0));
}

#[test]
fn document_routes_insert_to_focused_cell() {
    let t0 = Table {
        cells: vec![((0, 0), cell("ab", Some(1)))],
        active_cell: Some((0, 0)),
        height: 1,
        width: 1,
    };
    let mut doc = Document { elements: vec![Element::Table(t0)], active_element: 0 };
    assert!(doc.command(&Command::Insert(Characters::from_text("zz"))));
    let Element::Table(t) = &doc.elements[0];
    assert_eq!(t.cell(0, 0).unwrap().text.concat(), "azzb");
    assert_eq!(t.cell(0, 0).unwrap().cursor, Some(3));
}

#[test]
fn document_left_into_unfocused_table_switches_element_only() {
    // the previous table is entered from the right; an unfocused table
    // refuses that entry, so the focus pointer moves but nothing focuses
    let t0 = Table {
        cells: vec![((0, 0), cell("ab", None))],
        active_cell: None,
        height: 1,
        width: 1,
    };
    let t1 = Table {
        cells: vec![((0, 0), cell("cd", Some(0)))],
        active_cell: Some((0, 0)),
        height: 1,
        width: 1,
    };
    let mut doc = Document { elements: vec![Element::Table(t0), Element::Table(t1)], active_element: 1 };
    assert!(doc.command(&Command::Left));
    assert_eq!(doc.active_element, 0);
    let Element::Table(prev) = &doc.elements[0];
    assert_eq!(prev.active_cell, None);
    let Element::Table(was) = &doc.elements[1];
    assert_eq!(was.active_cell, None);
}

#[test]
fn table_vertical_entry_uses_from_bottom_flag() {
    let mut t = grid_2x2(None, None);
    assert!(!t.command(&Command::CursorEnterV(1, true)));
    assert_eq!(t.active_cell, None);
    assert!(t.command(&Command::CursorEnterV(1, false)));
    assert_eq!(t.active_cell, Some((0, 0)));
    assert_eq!(cell_cursor(&t, (0, 0)), Some(1));
}

#[test]
fn parse_of_plain_text_yields_no_elements() {
    let doc = Document::parse_from_md("nothing but prose\n");
    assert!(doc.elements.is_empty());
    let empty = Document::parse_from_md("");
    assert!(empty.elements.is_empty());
}

#[test]
fn inline_markup_inside_cell_accumulates_text() {
    let md = "| *a* b |\n| ----- |\n| c |\n";
    let doc = Document::parse_from_md(md);
    let Element::Table(t) = &doc.elements[0];
    assert_eq!(t.cell(0, 0).unwrap().text.concat(), "a b");
    assert_eq!(t.cell(0, 1).unwrap().text.concat(), "c");
}

#[test]
fn lengths_count_grapheme_clusters() {
    let chars = Characters::from_text("e\u{301}b");
    assert_eq!(chars.len(), 2);
    let p = Paragraph { text: chars.0, cursor: None };
    assert_eq!(p.length(), 2);
    let line = mdedit::TextLine::from_text("e\u{301}b");
    assert_eq!(line.len(), 2);
    assert_eq!(line.char_len(), 4);
}
