//! Direct tests of the `LayoutLexer` over a hand-rolled token stream.

use offsides::{Layout, LayoutConfig, LayoutLexer, LayoutMode};

#[derive(Clone, Copy, Debug, PartialEq, Eq)]
enum T {
    Do,
    Word,
    VOpen,
    VClose,
    VSep,
}

impl Layout for T {
    fn v_open() -> Self {
        Self::VOpen
    }
    fn v_close() -> Self {
        Self::VClose
    }
    fn v_sep() -> Self {
        Self::VSep
    }
}

fn is_do(t: &T) -> bool {
    matches!(t, T::Do)
}

fn run(source: &'static str, tokens: Vec<(usize, T, usize)>, mode: LayoutMode) -> Vec<T> {
    let cfg = LayoutConfig::new(is_do).with_mode(mode);
    let iter = tokens
        .into_iter()
        .map::<Result<(usize, T, usize), ()>, _>(Ok);
    let mut lexer = LayoutLexer::new(iter, source, cfg);
    let mut out = Vec::new();
    while let Some(item) = lexer.next() {
        if let Ok((_, t, _)) = item {
            out.push(t);
        }
    }
    out
}

#[test]
fn lazy_mode_no_opener_means_no_layout() {
    // No `do` keyword, Lazy mode -> stream passes through unchanged.
    let src = "a\nb\nc";
    let toks = vec![(0, T::Word, 1), (2, T::Word, 3), (4, T::Word, 5)];
    let out = run(src, toks, LayoutMode::Lazy);
    assert_eq!(out, vec![T::Word, T::Word, T::Word]);
}

#[test]
fn eager_mode_wraps_top_level_in_a_block() {
    let src = "a\nb\nc";
    let toks = vec![(0, T::Word, 1), (2, T::Word, 3), (4, T::Word, 5)];
    let out = run(src, toks, LayoutMode::Eager);
    assert_eq!(
        out,
        vec![
            T::VOpen,
            T::Word,
            T::VSep,
            T::Word,
            T::VSep,
            T::Word,
            T::VClose,
        ]
    );
}

#[test]
fn dedent_closes_blocks_to_outer_level() {
    // do
    //   a
    //   b
    // c
    let src = "do\n  a\n  b\nc";
    let toks = vec![
        (0, T::Do, 2),
        (5, T::Word, 6),
        (9, T::Word, 10),
        (11, T::Word, 12),
    ];
    let out = run(src, toks, LayoutMode::Lazy);
    assert_eq!(
        out,
        vec![
            T::Do,
            T::VOpen,
            T::Word,
            T::VSep,
            T::Word,
            T::VClose,
            T::Word,
        ]
    );
}

#[test]
fn nested_blocks_close_in_order_at_eof() {
    // do
    //   do
    //     a
    let src = "do\n  do\n    a";
    let toks = vec![(0, T::Do, 2), (5, T::Do, 7), (12, T::Word, 13)];
    let out = run(src, toks, LayoutMode::Lazy);
    assert_eq!(
        out,
        vec![
            T::Do,
            T::VOpen,
            T::Do,
            T::VOpen,
            T::Word,
            T::VClose,
            T::VClose,
        ]
    );
}
