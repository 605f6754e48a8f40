use json_parser_lib::cursor::Cursor;

#[test]
fn single_char() {
    let mut cursor = Cursor::new("a");

    assert_eq!(cursor.curr(), Some(&'a'));
    assert_eq!(cursor.curr(), Some(&'a')); // doesn't advance
    assert_eq!(cursor.peek(), None);
    assert_eq!(cursor.peek(), None); // doesn't advance
    cursor.advance();
    assert_eq!(cursor.curr(), None);
    assert_eq!(cursor.peek(), None);
}

#[test]
fn short_string() {
    let mut cursor = Cursor::new("abc");
    assert_eq!(cursor.curr(), Some(&'a'));
    assert_eq!(cursor.peek(), Some(&'b'));
    cursor.advance();
    assert_eq!(cursor.curr(), Some(&'b'));
    assert_eq!(cursor.peek(), Some(&'c'));
    cursor.advance();
    assert_eq!(cursor.curr(), Some(&'c'));
    assert_eq!(cursor.peek(), None);
    cursor.advance();
    assert_eq!(cursor.curr(), None);
    assert_eq!(cursor.peek(), None);
}

#[test]
fn cursor_counts_lines() {
    let mut cursor = Cursor::new("x\ny");
    assert_eq!(cursor.curr(), Some(&'x'));
    cursor.advance();
    assert_eq!(cursor.curr(), Some(&'\n'));
    cursor.advance();
    assert_eq!(cursor.curr(), Some(&'y'));
    assert_eq!(cursor.iter().len(), 3);
}
