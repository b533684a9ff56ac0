use mdedit::Characters;
use mdedit::Command;
use mdedit::Commandee;
use mdedit::Motion;
use mdedit::Paragraph;

fn graphemes(s: &str) -> Vec<String> {
    Characters::from_text(s).0
}

#[test]
fn cursor_stays_within_bounds() {
    let mut p = Paragraph { text: graphemes("abc"), cursor: Some(0) };
    assert!(!p.command(&Command::Left));
    assert_eq!(p.cursor, Some(0));
    assert!(p.command(&Command::CursorEnterH(true)));
    assert_eq!(p.cursor, Some(3));
    assert!(!p.command(&Command::Right));
    assert_eq!(p.cursor, Some(3));
    assert!(p.command(&Command::CursorEnterH(false)));
    assert_eq!(p.cursor, Some(0));
}

#[test]
fn insert_then_delete_restores_text() {
    let mut p = Paragraph { text: graphemes("ab"), cursor: Some(1) };
    assert!(p.command(&Command::Insert(Characters::from_text("xy"))));
    assert_eq!(p.text, graphemes("axyb"));
    assert_eq!(p.cursor, Some(3));
    assert!(p.command(&Command::Delete(Motion::Left)));
    assert!(p.command(&Command::Delete(Motion::Left)));
    assert_eq!(p.text, graphemes("ab"));
    assert_eq!(p.cursor, Some(1));
}

#[test]
fn delete_at_start_is_handled_no_op() {
    let mut p = Paragraph { text: graphemes("ab"), cursor: Some(0) };
    assert!(p.command(&Command::Delete(Motion::Left)));
    assert_eq!(p.text, graphemes("ab"));
    assert_eq!(p.cursor, Some(0));
}

#[test]
fn edit_without_cursor_is_rejected() {
    let mut p = Paragraph { text: graphemes("ab"), cursor: None };
    assert!(!p.command(&Command::Insert(Characters::from_text("x"))));
    assert!(!p.command(&Command::Delete(Motion::Left)));
    assert!(!p.command(&Command::Left));
    assert!(!p.command(&Command::Right));
    assert_eq!(p.text, graphemes("ab"));
    assert_eq!(p.cursor, None);
}

#[test]
fn multi_code_point_clusters_stay_whole() {
    // a rainbow flag sequence and a combining accent are one cluster each
    let chars = Characters::from_text("\u{1F3F3}\u{FE0F}\u{200D}\u{1F308}e\u{301}x");
    assert_eq!(chars.0.len(), 3);
    let mut p = Paragraph { text: chars.0, cursor: Some(0) };
    assert!(p.command(&Command::Right));
    assert_eq!(p.cursor, Some(1));
    assert!(p.command(&Command::Right));
    assert_eq!(p.cursor, Some(2));
    assert!(p.command(&Command::Left));
    assert_eq!(p.cursor, Some(1));
    assert!(p.command(&Command::Delete(Motion::Left)));
    assert_eq!(p.text, Characters::from_text("e\u{301}x").0);
}

#[test]
fn cursor_leave_clears_focus() {
    let mut p = Paragraph { text: graphemes("ab"), cursor: Some(2) };
    assert!(p.command(&Command::CursorLeave));
    assert_eq!(p.cursor, None);
    assert!(!p.command(&Command::CursorLeave));
}

#[test]
fn vertical_motion_round_trip_single_width() {
    let mut a = Paragraph { text: graphemes("abcd"), cursor: Some(3) };
    let mut b = Paragraph { text: graphemes("wxyz"), cursor: None };
    let col = a.get_normalized_cursor().unwrap();
    assert_eq!(col, 3);
    b.set_normalized_cursor(col);
    assert_eq!(b.cursor, Some(3));
    let back = b.get_normalized_cursor().unwrap();
    a.set_normalized_cursor(back);
    assert_eq!(a.cursor, Some(3));
}

#[test]
fn wide_character_column_normalization() {
    // the first grapheme is two columns wide, the second one column
    let mut wide = Paragraph { text: graphemes("\u{597D}h"), cursor: Some(1) };
    let col = wide.get_normalized_cursor().unwrap();
    assert_eq!(col, 2);
    let mut narrow = Paragraph { text: graphemes("abcd"), cursor: None };
    narrow.set_normalized_cursor(col);
    assert_eq!(narrow.cursor, Some(2));
    let back = narrow.get_normalized_cursor().unwrap();
    assert_eq!(back, 2);
    wide.set_normalized_cursor(back);
    assert_eq!(wide.cursor, Some(1));
}

#[test]
fn normalized_cursor_clamps_to_line_end() {
    let mut p = Paragraph { text: graphemes("ab"), cursor: None };
    p.set_normalized_cursor(10);
    assert_eq!(p.cursor, Some(2));
    let mut q = Paragraph { text: graphemes(""), cursor: None };
    q.set_normalized_cursor(4);
    assert_eq!(q.cursor, Some(0));
}

#[test]
fn enter_vertical_uses_normalized_column() {
    let mut p = Paragraph { text: graphemes("\u{597D}\u{597D}a"), cursor: None };
    assert!(p.command(&Command::CursorEnterV(4, false)));
    assert_eq!(p.cursor, Some(2));
    assert!(p.command(&Command::CursorEnterV(3, true)));
    assert_eq!(p.cursor, Some(1));
}

#[test]
fn unknown_motion_is_not_handled() {
    let mut p = Paragraph { text: graphemes("ab"), cursor: Some(1) };
    assert!(!p.command(&Command::Up));
    assert!(!p.command(&Command::Down));
    assert_eq!(p.cursor, Some(1));
}

#[test]
fn characters_detect_line_breaks() {
    assert!(Characters::from_text("a\nb").has_line_break());
    assert!(!Characters::from_text("ab").has_line_break());
    // a carriage-return pair is one cluster and is not a bare line break
    assert!(!Characters::from_text("a\r\nb").has_line_break());
}

#[test]
fn command_horizontal_classification() {
    assert!(Command::Left.horizontal());
    assert!(Command::Right.horizontal());
    assert!(Command::CursorEnterH(true).horizontal());
    assert!(!Command::Up.horizontal());
    assert!(!Command::Down.horizontal());
    assert!(!Command::CursorEnterV(0, false).horizontal());
    assert!(!Command::CursorLeave.horizontal());
}
