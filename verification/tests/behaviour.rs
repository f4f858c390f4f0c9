//! Laws of the layout lexer checked on concrete streams, and the edges it
//! handles: inner errors, tabs, brackets, spans and the configuration.

use offsides::column::columns_fit;
use offsides::{
    CloseStep, ColumnIndex, IndentStack, Layout, LayoutConfig, LayoutLexer, LayoutMode,
    OpenerRule,
};

#[derive(Clone, Debug, PartialEq, Eq)]
enum Tk {
    Do,
    Eq,
    Fn,
    LParen,
    RParen,
    Id(&'static str),
    VOpen,
    VClose,
    VSep,
}

impl Layout for Tk {
    fn v_open() -> Self {
        Self::VOpen
    }
    fn v_close() -> Self {
        Self::VClose
    }
    fn v_sep() -> Self {
        Self::VSep
    }
}

fn opens(t: &Tk) -> bool {
    matches!(t, Tk::Do | Tk::Eq | Tk::Fn)
}

fn bopen(t: &Tk) -> bool {
    matches!(t, Tk::LParen)
}

fn bclose(t: &Tk) -> bool {
    matches!(t, Tk::RParen)
}

fn carry(t: &Tk) -> bool {
    matches!(t, Tk::Fn)
}

fn word(w: &'static str) -> Tk {
    match w {
        "do" => Tk::Do,
        "=" => Tk::Eq,
        "fn" => Tk::Fn,
        "(" => Tk::LParen,
        ")" => Tk::RParen,
        _ => Tk::Id(w),
    }
}

fn toks(src: &'static str) -> Vec<(usize, Tk, usize)> {
    let mut out = Vec::new();
    let mut start = None;
    for (i, c) in src.char_indices() {
        match (c.is_ascii_whitespace(), start) {
            (false, None) => start = Some(i),
            (true, Some(s)) => {
                out.push((s, word(&src[s..i]), i));
                start = None;
            }
            _ => {}
        }
    }
    if let Some(s) = start {
        out.push((s, word(&src[s..]), src.len()));
    }
    out
}

fn full_cfg(mode: LayoutMode, rule: OpenerRule) -> LayoutConfig<fn(&Tk) -> bool> {
    LayoutConfig::new(opens as fn(&Tk) -> bool)
        .with_mode(mode)
        .with_opener_rule(rule)
        .with_brackets(bopen, bclose)
        .with_carry_openers(carry)
}

fn drain<I>(mut lexer: LayoutLexer<I, Tk, u8, fn(&Tk) -> bool>) -> Vec<Result<(usize, Tk, usize), u8>>
where
    I: Iterator<Item = Result<(usize, Tk, usize), u8>>,
{
    let mut out = Vec::new();
    while let Some(item) = lexer.next() {
        out.push(item);
    }
    assert!(lexer.next().is_none());
    out
}

fn spanned(src: &'static str, cfg: LayoutConfig<fn(&Tk) -> bool>) -> Vec<(usize, Tk, usize)> {
    let iter = toks(src).into_iter().map(Ok::<_, u8>);
    drain(LayoutLexer::new(iter, src, cfg))
        .into_iter()
        .map(|r| r.unwrap())
        .collect()
}

fn is_virtual(t: &Tk) -> bool {
    matches!(t, Tk::VOpen | Tk::VClose | Tk::VSep)
}

const SOURCES: [&str; 8] = [
    "main =\n  f x\n  g y",
    "a =\n  b =\n    c\nd = e",
    "x = ( a\n  b )\ny",
    "each xs fn ( x )\n  f x\ndone",
    "  a\nb",
    "a =\n    b\n  c",
    "do\n  do\n    a\n  b\nc",
    "",
];

#[test]
fn real_tokens_pass_through_unchanged() {
    for mode in [LayoutMode::Lazy, LayoutMode::Eager] {
        for rule in [OpenerRule::Always, OpenerRule::Conditional] {
            for src in SOURCES {
                let out = spanned(src, full_cfg(mode, rule));
                let reals: Vec<_> = out.into_iter().filter(|(_, t, _)| !is_virtual(t)).collect();
                assert_eq!(reals, toks(src), "src {src:?}");
            }
        }
    }
}

#[test]
fn opens_and_closes_balance() {
    for mode in [LayoutMode::Lazy, LayoutMode::Eager] {
        for rule in [OpenerRule::Always, OpenerRule::Conditional] {
            for src in SOURCES {
                let out = spanned(src, full_cfg(mode, rule));
                let opens = out.iter().filter(|(_, t, _)| *t == Tk::VOpen).count();
                let closes = out.iter().filter(|(_, t, _)| *t == Tk::VClose).count();
                assert_eq!(opens, closes, "src {src:?}");
            }
        }
    }
}

#[test]
fn blocks_nest_in_every_prefix() {
    for mode in [LayoutMode::Lazy, LayoutMode::Eager] {
        for rule in [OpenerRule::Always, OpenerRule::Conditional] {
            for src in SOURCES {
                let out = spanned(src, full_cfg(mode, rule));
                let mut open = 0usize;
                for (_, t, _) in &out {
                    match t {
                        Tk::VOpen => open += 1,
                        Tk::VClose => {
                            assert!(open >= 1, "src {src:?}");
                            open -= 1;
                        }
                        Tk::VSep => assert!(open >= 1, "src {src:?}"),
                        _ => {}
                    }
                }
                assert_eq!(open, 0, "src {src:?}");
            }
        }
    }
}

#[test]
fn eager_top_level_block_open_until_the_end() {
    for rule in [OpenerRule::Always, OpenerRule::Conditional] {
        for src in SOURCES {
            let out = spanned(src, full_cfg(LayoutMode::Eager, rule));
            let mut open = 0usize;
            for (i, (_, t, _)) in out.iter().enumerate() {
                match t {
                    Tk::VOpen => open += 1,
                    Tk::VClose => open -= 1,
                    _ => {}
                }
                if i + 1 < out.len() {
                    assert!(open >= 1, "src {src:?}");
                }
            }
        }
    }
}

#[test]
fn nothing_after_an_error() {
    let src = "do\n  a";
    let items = vec![Ok((0, Tk::Do, 2)), Err(1u8), Ok((5, Tk::Id("a"), 6))];
    let cfg = LayoutConfig::new(opens as fn(&Tk) -> bool);
    let mut lexer = LayoutLexer::new(items.into_iter(), src, cfg);
    assert_eq!(lexer.next(), Some(Ok((0, Tk::Do, 2))));
    assert_eq!(lexer.next(), Some(Err(1u8)));
    assert_eq!(lexer.next(), None);
    assert_eq!(lexer.next(), None);
    assert_eq!(lexer.inner().len(), 1);
}

#[test]
fn lexer_does_not_read_ahead() {
    let src = "do\n  a\nb";
    let items = vec![Ok::<_, u8>((0, Tk::Do, 2)), Ok((5, Tk::Id("a"), 6)), Ok((7, Tk::Id("b"), 8))];
    let cfg = LayoutConfig::new(opens as fn(&Tk) -> bool);
    let mut lexer = LayoutLexer::new(items.into_iter(), src, cfg);
    assert_eq!(lexer.next(), Some(Ok((0, Tk::Do, 2))));
    assert_eq!(lexer.inner().len(), 2);
    assert_eq!(lexer.next(), Some(Ok((5, Tk::VOpen, 5))));
    assert_eq!(lexer.pending_len(), 1);
    assert_eq!(lexer.stack_depth(), 1);
    assert_eq!(lexer.next(), Some(Ok((5, Tk::Id("a"), 6))));
    assert_eq!(lexer.inner().len(), 1);
    assert_eq!(lexer.next(), Some(Ok((6, Tk::VClose, 6))));
    assert_eq!(lexer.inner().len(), 0);
    assert_eq!(lexer.stack_depth(), 0);
    assert_eq!(lexer.next(), Some(Ok((7, Tk::Id("b"), 8))));
    assert_eq!(lexer.next(), None);
}

#[test]
fn virtual_tokens_sit_at_their_anchors() {
    for mode in [LayoutMode::Lazy, LayoutMode::Eager] {
        for src in SOURCES {
            let out = spanned(src, full_cfg(mode, OpenerRule::Always));
            let mut last_end = 0;
            for (i, (lo, t, hi)) in out.iter().enumerate() {
                match t {
                    Tk::VOpen => {
                        assert_eq!(lo, hi);
                        let (next_lo, next, _) = &out[i + 1];
                        assert!(!is_virtual(next));
                        assert_eq!(next_lo, lo);
                    }
                    Tk::VClose | Tk::VSep => {
                        assert_eq!((*lo, *hi), (last_end, last_end), "src {src:?}");
                    }
                    _ => last_end = *hi,
                }
            }
        }
    }
}

#[test]
fn lazy_without_openers_emits_nothing() {
    let src = "a\n  b (\nc )\n d";
    let cfg = LayoutConfig::new((|_: &Tk| false) as fn(&Tk) -> bool).with_brackets(bopen, bclose);
    assert_eq!(spanned(src, cfg), toks(src));
}

#[test]
fn eager_wraps_everything_in_one_block() {
    let src = "  a\nb\n c";
    let out: Vec<Tk> = spanned(src, full_cfg(LayoutMode::Eager, OpenerRule::Always))
        .into_iter()
        .map(|(_, t, _)| t)
        .collect();
    assert_eq!(out, vec![Tk::VOpen, Tk::Id("a"), Tk::Id("b"), Tk::Id("c"), Tk::VClose]);
}

#[test]
fn empty_input_gives_empty_output() {
    assert!(spanned("", full_cfg(LayoutMode::Eager, OpenerRule::Always)).is_empty());
    assert!(spanned("", full_cfg(LayoutMode::Lazy, OpenerRule::Always)).is_empty());
}

#[test]
fn conditional_opener_needs_deeper_line() {
    let src = "a =\nb";
    let out: Vec<Tk> = spanned(src, full_cfg(LayoutMode::Eager, OpenerRule::Conditional))
        .into_iter()
        .map(|(_, t, _)| t)
        .collect();
    assert_eq!(out, vec![Tk::VOpen, Tk::Id("a"), Tk::Eq, Tk::VSep, Tk::Id("b"), Tk::VClose]);
}

#[test]
fn always_opener_opens_on_same_line() {
    let src = "do a\n   b\nc";
    let out: Vec<Tk> = spanned(src, full_cfg(LayoutMode::Lazy, OpenerRule::Always))
        .into_iter()
        .map(|(_, t, _)| t)
        .collect();
    assert_eq!(
        out,
        vec![Tk::Do, Tk::VOpen, Tk::Id("a"), Tk::VSep, Tk::Id("b"), Tk::VClose, Tk::Id("c")]
    );
}

#[test]
fn brackets_suppress_separators_and_closes() {
    let src = "do\n  f (\n x\n  y )\n  z";
    let out: Vec<Tk> = spanned(src, full_cfg(LayoutMode::Lazy, OpenerRule::Always))
        .into_iter()
        .map(|(_, t, _)| t)
        .collect();
    assert_eq!(
        out,
        vec![
            Tk::Do,
            Tk::VOpen,
            Tk::Id("f"),
            Tk::LParen,
            Tk::Id("x"),
            Tk::Id("y"),
            Tk::RParen,
            Tk::VSep,
            Tk::Id("z"),
            Tk::VClose,
        ]
    );
}

#[test]
fn tab_width_decides_siblings() {
    let src = "do\n\ta\n  b";
    let cfg2 = LayoutConfig::new(opens as fn(&Tk) -> bool).with_tab_width(2);
    let out2: Vec<Tk> = spanned(src, cfg2).into_iter().map(|(_, t, _)| t).collect();
    assert_eq!(out2, vec![Tk::Do, Tk::VOpen, Tk::Id("a"), Tk::VSep, Tk::Id("b"), Tk::VClose]);
    let cfg1 = LayoutConfig::new(opens as fn(&Tk) -> bool);
    let out1: Vec<Tk> = spanned(src, cfg1).into_iter().map(|(_, t, _)| t).collect();
    assert_eq!(out1, vec![Tk::Do, Tk::VOpen, Tk::Id("a"), Tk::Id("b"), Tk::VClose]);
}

#[test]
fn inner_error_ends_the_stream() {
    let src = "do\n  a\n  b";
    let items = vec![Ok((0, Tk::Do, 2)), Ok((5, Tk::Id("a"), 6)), Err(7u8), Ok((9, Tk::Id("b"), 10))];
    let cfg = LayoutConfig::new(opens as fn(&Tk) -> bool);
    let out = drain(LayoutLexer::new(items.into_iter(), src, cfg));
    assert_eq!(
        out,
        vec![Ok((0, Tk::Do, 2)), Ok((5, Tk::VOpen, 5)), Ok((5, Tk::Id("a"), 6)), Err(7u8)]
    );
}

#[test]
fn closes_at_end_of_input_sit_at_last_token_end() {
    let src = "do\n  do\n    a";
    let out = spanned(src, full_cfg(LayoutMode::Lazy, OpenerRule::Always));
    assert_eq!(
        out,
        vec![
            (0, Tk::Do, 2),
            (5, Tk::VOpen, 5),
            (5, Tk::Do, 7),
            (12, Tk::VOpen, 12),
            (12, Tk::Id("a"), 13),
            (13, Tk::VClose, 13),
            (13, Tk::VClose, 13),
        ]
    );
}

#[test]
fn inner_iterator_can_be_recovered() {
    let src = "a b";
    let items = vec![Ok::<_, u8>((0, Tk::Id("a"), 1)), Ok((2, Tk::Id("b"), 3))];
    let cfg = LayoutConfig::new(opens as fn(&Tk) -> bool);
    let mut lexer = LayoutLexer::new(items.into_iter(), src, cfg);
    assert_eq!(lexer.inner().len(), 2);
    assert_eq!(lexer.next(), Some(Ok((0, Tk::Id("a"), 1))));
    assert_eq!(lexer.inner().len(), 1);
    assert_eq!(lexer.inner_mut().next(), Some(Ok((2, Tk::Id("b"), 3))));
    assert_eq!(lexer.next(), None);
    assert_eq!(lexer.bracket_depth(), 0);
    assert_eq!(lexer.into_inner().len(), 0);
}

#[test]
fn bracket_depth_counts_open_groups() {
    let src = "( ( a ) b";
    let iter = toks(src).into_iter().map(Ok::<_, u8>);
    let mut lexer = LayoutLexer::new(iter, src, full_cfg(LayoutMode::Lazy, OpenerRule::Always));
    let mut depths = Vec::new();
    while let Some(_) = lexer.next() {
        depths.push(lexer.bracket_depth());
    }
    assert_eq!(depths, vec![1, 2, 2, 1, 1]);
}

#[test]
fn config_builders_set_their_fields() {
    let cfg = LayoutConfig::new(opens as fn(&Tk) -> bool);
    assert_eq!(cfg.mode, LayoutMode::Lazy);
    assert_eq!(cfg.opener_rule, OpenerRule::Always);
    assert_eq!(cfg.tab_width, 1);
    assert!(cfg.is_bracket_open.is_none());
    assert!(cfg.is_bracket_close.is_none());
    assert!(cfg.is_carry_opener.is_none());
    let cfg = cfg
        .with_mode(LayoutMode::Eager)
        .with_opener_rule(OpenerRule::Conditional)
        .with_tab_width(8)
        .with_brackets(bopen, bclose)
        .with_carry_openers(carry);
    assert_eq!(cfg.mode, LayoutMode::Eager);
    assert_eq!(cfg.opener_rule, OpenerRule::Conditional);
    assert_eq!(cfg.tab_width, 8);
    assert!((cfg.is_bracket_open.unwrap())(&Tk::LParen));
    assert!((cfg.is_bracket_close.unwrap())(&Tk::RParen));
    assert!((cfg.is_carry_opener.unwrap())(&Tk::Fn));
    assert!((cfg.is_opener)(&Tk::Do));
    let class = cfg.classify(&Tk::Fn, false);
    assert!(class.opener && class.carry && !class.bracket_open && !class.bracket_close);
    let inside = cfg.classify(&Tk::Fn, true);
    assert!(!inside.opener && !inside.carry);
    assert!(cfg.classify(&Tk::RParen, true).bracket_close);
    assert_eq!(LayoutMode::default(), LayoutMode::Lazy);
    assert_eq!(OpenerRule::default(), OpenerRule::Always);
}

#[test]
fn config_summary_text() {
    let cfg = LayoutConfig::new(opens as fn(&Tk) -> bool);
    assert_eq!(
        cfg.summary(),
        "LayoutConfig { mode: Lazy, opener_rule: Always, tab_width: 1, has_brackets: false, has_carry_openers: false, .. }"
    );
    let cfg = full_cfg(LayoutMode::Eager, OpenerRule::Conditional).with_tab_width(1024);
    assert_eq!(
        cfg.summary(),
        "LayoutConfig { mode: Eager, opener_rule: Conditional, tab_width: 1024, has_brackets: true, has_carry_openers: true, .. }"
    );
    assert!(LayoutConfig::new(opens as fn(&Tk) -> bool)
        .with_tab_width(0)
        .summary()
        .contains("tab_width: 0,"));
}

#[test]
fn column_counts_every_byte_of_a_character() {
    let src = "x\u{e9}y";
    let idx = ColumnIndex::new(src);
    assert_eq!(idx.column(src, 1, 1), 1);
    assert_eq!(idx.column(src, 2, 1), 2);
    assert_eq!(idx.column(src, 3, 1), 3);
    assert_eq!(idx.column(src, 99, 1), 0);
    assert_eq!(idx.line(99), 0);
}

#[test]
fn column_inside_first_character() {
    let src = "\u{e9}x";
    let idx = ColumnIndex::new(src);
    assert_eq!(idx.column(src, 1, 1), 1);
    assert_eq!(idx.column(src, 2, 1), 2);
}

#[test]
fn line_of_offsets_on_each_line() {
    let src = "a\n\nbc\n";
    let idx = ColumnIndex::new(src);
    assert_eq!(idx.line(0), 0);
    assert_eq!(idx.line(1), 0);
    assert_eq!(idx.line(2), 1);
    assert_eq!(idx.line(3), 2);
    assert_eq!(idx.line(5), 2);
    assert_eq!(idx.line(6), 3);
    assert_eq!(idx.column(src, 5, 1), 2);
}

#[test]
fn columns_fit_detects_overflow() {
    assert!(columns_fit("\tx\n\t\ty", 4));
    assert!(columns_fit("\t", usize::MAX));
    assert!(!columns_fit("\t\t", usize::MAX));
    assert!(columns_fit("\t\n\t", usize::MAX));
}

#[test]
fn stack_push_pop_top_depth() {
    let mut s = IndentStack::default();
    assert_eq!(s.top(), None);
    assert_eq!(s.depth(), 0);
    s.push(0);
    s.push(4);
    assert_eq!(s.top(), Some(4));
    assert_eq!(s.depth(), 2);
    assert_eq!(s.step(4), CloseStep::Separator);
    assert_eq!(s.pop(), Some(4));
    assert_eq!(s.step(2), CloseStep::NoAction);
    assert_eq!(s.pop(), Some(0));
    assert_eq!(s.pop(), None);
    let c = s.clone();
    assert_eq!(c.depth(), 0);
}
