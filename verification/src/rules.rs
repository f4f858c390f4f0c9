//! The layout rule as a mathematical model: what one token does to the
//! layout state, and what a whole token stream becomes.
use vstd::prelude::*;

use crate::layout::{LayoutMode, OpenerRule, TokenClass};

verus! {

/// An item of the output stream: a virtual token anchored at a zero-width
/// span, or a real token passed through with its span.
#[derive(Clone, Debug, PartialEq, Eq)]
pub enum LayoutToken<T> {
    /// Virtual block open, anchored at the start of the block's first token.
    Open(usize),
    /// Virtual block close, anchored at the end of the previous token.
    Close(usize),
    /// Virtual separator, anchored at the end of the previous token.
    Sep(usize),
    /// A token of the input stream: start, token, end.
    Real(usize, T, usize),
}

/// The layout state between two tokens.
pub struct LayoutState {
    /// Indentation columns of the open layout blocks, innermost last.
    pub stack: Seq<usize>,
    /// The previous token was an opener (or a carried opener fired).
    pub pending_opener: bool,
    /// A carry opener is waiting for its bracket group to close.
    pub carrying: bool,
    /// Number of open bracket groups.
    pub bracket_depth: nat,
    /// Line on which the previous token ended, if there was one.
    pub prev_line: Option<usize>,
    /// End offset of the previous token (0 before the first).
    pub last_hi: usize,
}

/// One input token, with what the source and the predicates say of it.
pub struct TokenAt<T> {
    /// Start offset.
    pub lo: usize,
    /// The token itself.
    pub tok: T,
    /// End offset.
    pub hi: usize,
    /// Column of `lo`.
    pub col: usize,
    /// Line of `lo`.
    pub line: usize,
    /// Line of the token's last byte.
    pub end_line: usize,
    /// The predicates' verdicts.
    pub class: TokenClass,
}

/// State before any token.
pub open spec fn initial_state() -> LayoutState {
    LayoutState {
        stack: Seq::empty(),
        pending_opener: false,
        carrying: false,
        bracket_depth: 0,
        prev_line: None,
        last_hi: 0,
    }
}

/// A token on `line` begins a new line (the first token always does).
pub open spec fn starts_new_line(st: LayoutState, line: usize) -> bool {
    match st.prev_line {
        None => true,
        Some(pl) => line > pl,
    }
}

/// The token after an opener opens a block.
pub open spec fn opens_block(rule: OpenerRule, st: LayoutState, col: usize, new_line: bool) -> bool {
    match rule {
        OpenerRule::Always => st.pending_opener,
        OpenerRule::Conditional => st.pending_opener && new_line && (st.stack.len() == 0 || col
            > st.stack.last()),
    }
}

/// Number of blocks that dedenting never closes: the top-level block in
/// `Eager` mode.
pub open spec fn floor_of(mode: LayoutMode) -> nat {
    match mode {
        LayoutMode::Eager => 1,
        LayoutMode::Lazy => 0,
    }
}

/// Number of innermost blocks that a line starting at `col` closes: those
/// indented deeper than `col`, keeping at least `floor` blocks open.
pub open spec fn closed_frames(stack: Seq<usize>, col: usize, floor: nat) -> nat
    decreases stack.len(),
{
    if stack.len() > floor && stack.last() > col {
        closed_frames(stack.drop_last(), col, floor) + 1
    } else {
        0
    }
}

/// `n` copies of `t`.
pub open spec fn repeat<T>(t: LayoutToken<T>, n: nat) -> Seq<LayoutToken<T>> {
    Seq::new(n, |_i: int| t)
}

/// The token opens a new block: it is outside brackets and either follows
/// an opener that fires, or is the first token in `Eager` mode.
pub open spec fn opens_here<T>(mode: LayoutMode, rule: OpenerRule, st: LayoutState, t: TokenAt<T>) -> bool {
    &&& st.bracket_depth == 0
    &&& opens_block(rule, st, t.col, starts_new_line(st, t.line)) || (st.prev_line is None && mode
        == LayoutMode::Eager)
}

/// The stack after the token, and the virtual tokens emitted before it.
pub open spec fn layout_phase<T>(
    mode: LayoutMode,
    rule: OpenerRule,
    st: LayoutState,
    t: TokenAt<T>,
) -> (Seq<usize>, Seq<LayoutToken<T>>) {
    if st.bracket_depth > 0 {
        (st.stack, Seq::empty())
    } else if opens_here(mode, rule, st, t) {
        (st.stack.push(t.col), seq![LayoutToken::Open(t.lo)])
    } else if starts_new_line(st, t.line) {
        let k = closed_frames(st.stack, t.col, floor_of(mode));
        let rest = st.stack.take(st.stack.len() - k);
        let closes = repeat(LayoutToken::Close(st.last_hi), k);
        if rest.len() > 0 && rest.last() == t.col {
            (rest, closes.push(LayoutToken::Sep(st.last_hi)))
        } else {
            (rest, closes)
        }
    } else {
        (st.stack, Seq::empty())
    }
}

/// Opener status after the token's layout decision (before brackets).
pub open spec fn opener_after<T>(st: LayoutState, t: TokenAt<T>) -> bool {
    if st.bracket_depth > 0 {
        st.pending_opener
    } else {
        t.class.opener
    }
}

/// Carry status after the token's layout decision (before brackets).
pub open spec fn carry_after<T>(st: LayoutState, t: TokenAt<T>) -> bool {
    if st.bracket_depth > 0 {
        st.carrying
    } else {
        t.class.carry || (st.carrying && !starts_new_line(st, t.line) && t.class.bracket_open)
    }
}

/// Bracket bookkeeping after a token: its depth, opener and carry status,
/// given those after the token's layout decision. Closing the bracket group
/// that follows a carry opener makes the opener fire.
pub open spec fn bracket_phase(depth: nat, opener: bool, carry: bool, class: TokenClass) -> (
    nat,
    bool,
    bool,
) {
    if class.bracket_open {
        (depth + 1, opener, carry)
    } else if class.bracket_close {
        let d: nat = if depth > 0 {
            (depth - 1) as nat
        } else {
            0
        };
        if d == 0 && carry {
            (d, true, false)
        } else {
            (d, opener, carry)
        }
    } else {
        (depth, opener, carry)
    }
}

/// The layout state after one token.
pub open spec fn step_state<T>(
    mode: LayoutMode,
    rule: OpenerRule,
    st: LayoutState,
    t: TokenAt<T>,
) -> LayoutState {
    let b = bracket_phase(st.bracket_depth, opener_after(st, t), carry_after(st, t), t.class);
    LayoutState {
        stack: layout_phase(mode, rule, st, t).0,
        pending_opener: b.1,
        carrying: b.2,
        bracket_depth: b.0,
        prev_line: Some(t.end_line),
        last_hi: t.hi,
    }
}

/// What one token adds to the output: its virtual tokens, then itself.
pub open spec fn step_output<T>(
    mode: LayoutMode,
    rule: OpenerRule,
    st: LayoutState,
    t: TokenAt<T>,
) -> Seq<LayoutToken<T>> {
    layout_phase(mode, rule, st, t).1.push(LayoutToken::Real(t.lo, t.tok, t.hi))
}

/// The layout state after a token stream.
pub open spec fn run_state<T>(mode: LayoutMode, rule: OpenerRule, toks: Seq<TokenAt<T>>) -> LayoutState
    decreases toks.len(),
{
    if toks.len() == 0 {
        initial_state()
    } else {
        step_state(mode, rule, run_state(mode, rule, toks.drop_last()), toks.last())
    }
}

/// The output for a token stream, before the end of input.
pub open spec fn run_output<T>(mode: LayoutMode, rule: OpenerRule, toks: Seq<TokenAt<T>>) -> Seq<
    LayoutToken<T>,
>
    decreases toks.len(),
{
    if toks.len() == 0 {
        Seq::empty()
    } else {
        run_output(mode, rule, toks.drop_last()) + step_output(
            mode,
            rule,
            run_state(mode, rule, toks.drop_last()),
            toks.last(),
        )
    }
}

/// What the end of input adds: one close per open block, anchored at the
/// end of the last token.
pub open spec fn eof_output<T>(st: LayoutState) -> Seq<LayoutToken<T>> {
    repeat(LayoutToken::Close(st.last_hi), st.stack.len())
}

/// The whole output for a token stream that ends normally.
pub open spec fn layout_of<T>(mode: LayoutMode, rule: OpenerRule, toks: Seq<TokenAt<T>>) -> Seq<
    LayoutToken<T>,
> {
    run_output(mode, rule, toks) + eof_output(run_state(mode, rule, toks))
}

/// Reading one more token extends the state and output by one step.
pub proof fn lemma_run_push<T>(mode: LayoutMode, rule: OpenerRule, toks: Seq<TokenAt<T>>, t: TokenAt<T>)
    ensures
        run_state(mode, rule, toks.push(t)) == step_state(mode, rule, run_state(mode, rule, toks), t),
        run_output(mode, rule, toks.push(t)) == run_output(mode, rule, toks) + step_output(
            mode,
            rule,
            run_state(mode, rule, toks),
            t,
        ),
{
    assert(toks.push(t).drop_last() =~= toks);
}

} // verus!
