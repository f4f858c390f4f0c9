use offsides::ColumnIndex;

#[test]
fn line_and_column_basic() {
    let src = "abc\nde\n  f";
    let idx = ColumnIndex::new(src);
    assert_eq!(idx.line(0), 0);
    assert_eq!(idx.line(3), 0);
    assert_eq!(idx.line(4), 1);
    assert_eq!(idx.line(7), 2);
    assert_eq!(idx.column(src, 0, 1), 0);
    assert_eq!(idx.column(src, 5, 1), 1);
    assert_eq!(idx.column(src, 9, 1), 2);
}

#[test]
fn tab_width() {
    let src = "\tx";
    let idx = ColumnIndex::new(src);
    assert_eq!(idx.column(src, 1, 4), 4);
    assert_eq!(idx.column(src, 1, 1), 1);
}
