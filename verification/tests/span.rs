use tesshir::span::{Node, SourceFile, Span};

#[test]
fn join_covers_both_spans_in_either_order() {
    let a = Span::new(3, 7);
    let b = Span::new(5, 12);
    assert_eq!(a.join(b), Span::new(3, 12));
    assert_eq!(b.join(a), a.join(b));
    assert!(Span::new(4, 4).is_empty());
    assert!(!a.is_empty());
    assert_eq!(Span::zero(), Span::default());
}

#[test]
fn node_map_keeps_the_span() {
    let n = Node::new(Span::new(1, 2), 5u32);
    let m = n.map(|x| x * 2);
    assert_eq!(m.kind, 10);
    assert_eq!(m.span, Span::new(1, 2));
}

#[test]
fn line_col_is_one_based() {
    let file = SourceFile::new("a.tess", "ab\ncd\n\nx");
    assert_eq!(file.line_col(0), (1, 1));
    assert_eq!(file.line_col(1), (1, 2));
    assert_eq!(file.line_col(2), (1, 3));
    assert_eq!(file.line_col(3), (2, 1));
    assert_eq!(file.line_col(6), (3, 1));
    assert_eq!(file.line_col(7), (4, 1));
    assert_eq!(file.line_col(8), (4, 2));
}

#[test]
fn format_span_names_file_line_and_column() {
    let file = SourceFile::new("dir/m.tess", "struct A {}\n  fn f() {}");
    assert_eq!(file.format_span(Span::new(14, 16)), "dir/m.tess:2:3");
    assert_eq!(file.format_span(Span::new(0, 6)), "dir/m.tess:1:1");
}

#[test]
fn span_displays_as_a_range() {
    assert_eq!(Span::new(3, 17).to_string(), "3..17");
    assert_eq!(Span::zero().to_string(), "0..0");
}
