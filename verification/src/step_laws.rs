//! What one token does to the layout state and the output, stated directly
//! over the token's position, class and the state before it.
use vstd::prelude::*;

use crate::column::{is_line_of, lemma_line_exists, lemma_line_starts_ok, line_starts_of};
use crate::layout::{LayoutConfig, LayoutMode, OpenerRule};
use crate::lexer::describes;
use crate::rules::{step_output, step_state, LayoutState, LayoutToken, TokenAt};

verus! {

/// With conditional openers, outside brackets, a token that follows an
/// opener, starts a new line, and is indented deeper than the innermost
/// open block (or no block is open) opens a block at its own column: its
/// column is pushed and a virtual open at its start comes right before it.
pub proof fn law_conditional_opener_opens<T>(mode: LayoutMode, st: LayoutState, t: TokenAt<T>)
    requires
        st.bracket_depth == 0,
        st.pending_opener,
        st.prev_line is None || t.line > st.prev_line->0,
        st.stack.len() == 0 || t.col > st.stack.last(),
    ensures
        step_state(mode, OpenerRule::Conditional, st, t).stack == st.stack.push(t.col),
        step_output(mode, OpenerRule::Conditional, st, t) == seq![
            LayoutToken::Open(t.lo),
            LayoutToken::Real(t.lo, t.tok, t.hi),
        ],
{
    assert(step_output(mode, OpenerRule::Conditional, st, t) =~= seq![
        LayoutToken::Open(t.lo),
        LayoutToken::Real(t.lo, t.tok, t.hi),
    ]);
}

/// With conditional openers, a token on the line where the previous token
/// ended never opens a block, and never brings a close or a separator: it
/// comes out alone and the open blocks stay as they are.
pub proof fn law_same_line_is_flat<T>(mode: LayoutMode, st: LayoutState, t: TokenAt<T>)
    requires
        st.prev_line is Some,
        t.line <= st.prev_line->0,
    ensures
        step_state(mode, OpenerRule::Conditional, st, t).stack == st.stack,
        step_output(mode, OpenerRule::Conditional, st, t) == seq![
            LayoutToken::Real(t.lo, t.tok, t.hi),
        ],
{
    assert(step_output(mode, OpenerRule::Conditional, st, t) =~= seq![
        LayoutToken::Real(t.lo, t.tok, t.hi),
    ]);
}

/// With conditional openers, a new line that is not deeper than the
/// innermost open block does not open a block, even after an opener.
pub proof fn law_conditional_needs_deeper_line<T>(mode: LayoutMode, st: LayoutState, t: TokenAt<T>)
    requires
        st.prev_line is Some,
        st.stack.len() > 0,
        t.col <= st.stack.last(),
    ensures
        step_state(mode, OpenerRule::Conditional, st, t).stack.len() <= st.stack.len(),
        forall|i: int|
            0 <= i < step_output(mode, OpenerRule::Conditional, st, t).len() ==> !(
            #[trigger] step_output(mode, OpenerRule::Conditional, st, t)[i] is Open),
{
    crate::laws::lemma_closed_frames_bound(st.stack, t.col, crate::rules::floor_of(mode));
}

/// With `Always` openers, outside brackets, the token after an opener opens
/// a block at its own column, wherever it stands.
pub proof fn law_always_opener_opens<T>(mode: LayoutMode, st: LayoutState, t: TokenAt<T>)
    requires
        st.bracket_depth == 0,
        st.pending_opener,
    ensures
        step_state(mode, OpenerRule::Always, st, t).stack == st.stack.push(t.col),
        step_output(mode, OpenerRule::Always, st, t) == seq![
            LayoutToken::Open(t.lo),
            LayoutToken::Real(t.lo, t.tok, t.hi),
        ],
{
    assert(step_output(mode, OpenerRule::Always, st, t) =~= seq![
        LayoutToken::Open(t.lo),
        LayoutToken::Real(t.lo, t.tok, t.hi),
    ]);
}

/// In `Eager` mode the first token opens the top-level block at its column.
pub proof fn law_eager_first_token_opens<T>(rule: OpenerRule, t: TokenAt<T>)
    ensures
        step_state(LayoutMode::Eager, rule, crate::rules::initial_state(), t).stack == seq![
            t.col,
        ],
        step_output(LayoutMode::Eager, rule, crate::rules::initial_state(), t) == seq![
            LayoutToken::Open(t.lo),
            LayoutToken::Real(t.lo, t.tok, t.hi),
        ],
{
    let st = crate::rules::initial_state();
    assert(st.stack.push(t.col) =~= seq![t.col]);
    assert(step_output(LayoutMode::Eager, rule, st, t) =~= seq![
        LayoutToken::Open(t.lo),
        LayoutToken::Real(t.lo, t.tok, t.hi),
    ]);
}

/// Outside brackets, unless the token closes a bracket, the opener status it
/// leaves behind is exactly whether it is an opener: an opener followed by
/// another token on its line is spent.
pub proof fn law_opener_status_is_the_last_token<T>(
    mode: LayoutMode,
    rule: OpenerRule,
    st: LayoutState,
    t: TokenAt<T>,
)
    requires
        st.bracket_depth == 0,
        !t.class.bracket_close,
    ensures
        step_state(mode, rule, st, t).pending_opener == t.class.opener,
{
}

/// Inside a bracket group, a token that opens or closes no bracket leaves
/// the open blocks, the opener and carry status and the bracket depth as
/// they are, and brings no virtual token, whatever line it is on.
pub proof fn law_inside_brackets_state_kept<T>(
    mode: LayoutMode,
    rule: OpenerRule,
    st: LayoutState,
    t: TokenAt<T>,
)
    requires
        st.bracket_depth > 0,
        !t.class.bracket_open,
        !t.class.bracket_close,
    ensures
        step_state(mode, rule, st, t).stack == st.stack,
        step_state(mode, rule, st, t).pending_opener == st.pending_opener,
        step_state(mode, rule, st, t).carrying == st.carrying,
        step_state(mode, rule, st, t).bracket_depth == st.bracket_depth,
        step_output(mode, rule, st, t) == seq![LayoutToken::Real(t.lo, t.tok, t.hi)],
{
    assert(step_output(mode, rule, st, t) =~= seq![LayoutToken::Real(t.lo, t.tok, t.hi)]);
}

/// Inside a bracket group, a nested bracket opens one level deeper, and a
/// closing bracket that leaves a group open goes one level up; either way
/// the opener and carry status stay as they are, whatever line it is on.
pub proof fn law_inside_brackets_nesting<T>(
    mode: LayoutMode,
    rule: OpenerRule,
    st: LayoutState,
    t: TokenAt<T>,
)
    requires
        st.bracket_depth > 0,
        t.class.bracket_open || (t.class.bracket_close && st.bracket_depth > 1),
    ensures
        step_state(mode, rule, st, t).bracket_depth == (if t.class.bracket_open {
            st.bracket_depth + 1int
        } else {
            st.bracket_depth - 1
        }),
        step_state(mode, rule, st, t).pending_opener == st.pending_opener,
        step_state(mode, rule, st, t).carrying == st.carrying,
        step_state(mode, rule, st, t).stack == st.stack,
{
}

/// Closing the last open bracket group that a carry opener started fires
/// the opener: the next token sees a pending opener, and the carry is spent.
pub proof fn law_carried_group_close_fires<T>(
    mode: LayoutMode,
    rule: OpenerRule,
    st: LayoutState,
    t: TokenAt<T>,
)
    requires
        st.bracket_depth == 1,
        st.carrying,
        t.class.bracket_close,
        !t.class.bracket_open,
    ensures
        step_state(mode, rule, st, t).bracket_depth == 0,
        step_state(mode, rule, st, t).pending_opener,
        !step_state(mode, rule, st, t).carrying,
{
}

/// A carry opener followed on its own line by an opening bracket carries its
/// opener status into the group.
pub proof fn law_carry_enters_group<T>(
    mode: LayoutMode,
    rule: OpenerRule,
    st: LayoutState,
    t: TokenAt<T>,
)
    requires
        st.bracket_depth == 0,
        st.carrying,
        st.prev_line is Some,
        t.line <= st.prev_line->0,
        t.class.bracket_open,
    ensures
        step_state(mode, rule, st, t).carrying,
        step_state(mode, rule, st, t).bracket_depth == 1,
{
}

/// After a token, the line it is taken to end on is the line holding its
/// last byte (its start, for an empty span), and the line it starts on is
/// the line holding its first byte.
pub proof fn law_token_lines<T, P: Fn(&T) -> bool>(
    cfg: LayoutConfig<P>,
    bytes: Seq<u8>,
    t: TokenAt<T>,
    in_brackets: bool,
)
    requires
        bytes.len() <= usize::MAX,
        describes(cfg, bytes, t, in_brackets),
    ensures
        is_line_of(line_starts_of(bytes), t.lo as int, t.line as int),
        t.hi > t.lo ==> is_line_of(line_starts_of(bytes), t.hi - 1, t.end_line as int),
        t.hi <= t.lo ==> is_line_of(line_starts_of(bytes), t.lo as int, t.end_line as int),
{
    lemma_line_starts_ok(bytes);
    let starts = line_starts_of(bytes);
    lemma_line_exists(starts, t.lo as int);
    if t.hi > t.lo {
        lemma_line_exists(starts, t.hi - 1);
    }
}

/// The next token, if it starts on the line where the previous token ended
/// (a token spanning several lines ends on its last one), does not start a
/// new line.
pub proof fn law_next_token_same_line<T>(
    mode: LayoutMode,
    rule: OpenerRule,
    st: LayoutState,
    t: TokenAt<T>,
    line: usize,
)
    requires
        line <= t.end_line,
    ensures
        step_state(mode, rule, st, t).prev_line == Some(t.end_line),
        !crate::rules::starts_new_line(step_state(mode, rule, st, t), line),
{
}

/// Every frame above `keep` deeper than `col` is closed.
proof fn lemma_closes_deeper(stack: Seq<usize>, col: usize, keep: nat)
    requires
        keep <= stack.len(),
        forall|i: int| keep <= i < stack.len() ==> stack[i] > col,
    ensures
        crate::rules::closed_frames(stack, col, keep) == stack.len() - keep,
    decreases stack.len(),
{
    if stack.len() > keep {
        lemma_closes_deeper(stack.drop_last(), col, keep);
    }
}

/// In `Lazy` mode, a token that starts a new line left of every open block,
/// outside brackets and not after an opener, closes all of them: one close
/// per block, each at the end of the previous token, then the token.
pub proof fn law_lazy_dedent_closes_all<T>(rule: OpenerRule, st: LayoutState, t: TokenAt<T>)
    requires
        st.bracket_depth == 0,
        !st.pending_opener,
        st.prev_line is Some,
        t.line > st.prev_line->0,
        forall|i: int| 0 <= i < st.stack.len() ==> st.stack[i] > t.col,
    ensures
        step_state(LayoutMode::Lazy, rule, st, t).stack == Seq::<usize>::empty(),
        step_output(LayoutMode::Lazy, rule, st, t).len() == st.stack.len() + 1,
        forall|i: int|
            0 <= i < st.stack.len() ==> #[trigger] step_output(LayoutMode::Lazy, rule, st, t)[i]
                == LayoutToken::<T>::Close(st.last_hi),
        step_output(LayoutMode::Lazy, rule, st, t).last() == LayoutToken::Real(t.lo, t.tok, t.hi),
{
    lemma_closes_deeper(st.stack, t.col, 0);
    assert(st.stack.take(0) =~= Seq::<usize>::empty());
}

/// In `Eager` mode the same dedent closes every block but the top-level
/// one, then separates the token from the top-level block's previous item
/// if it sits at that block's column.
pub proof fn law_eager_dedent_keeps_top<T>(rule: OpenerRule, st: LayoutState, t: TokenAt<T>)
    requires
        st.bracket_depth == 0,
        !st.pending_opener,
        st.prev_line is Some,
        t.line > st.prev_line->0,
        st.stack.len() >= 1,
        forall|i: int| 1 <= i < st.stack.len() ==> st.stack[i] > t.col,
    ensures
        step_state(LayoutMode::Eager, rule, st, t).stack == seq![st.stack[0]],
        step_output(LayoutMode::Eager, rule, st, t).len() == st.stack.len() + (if st.stack[0]
            == t.col {
            1int
        } else {
            0int
        }),
        forall|i: int|
            0 <= i < st.stack.len() - 1 ==> #[trigger] step_output(LayoutMode::Eager, rule, st, t)[i]
                == LayoutToken::<T>::Close(st.last_hi),
        st.stack[0] == t.col ==> step_output(LayoutMode::Eager, rule, st, t)[st.stack.len() - 1]
            == LayoutToken::<T>::Sep(st.last_hi),
        step_output(LayoutMode::Eager, rule, st, t).last() == LayoutToken::Real(t.lo, t.tok, t.hi),
{
    lemma_closes_deeper(st.stack, t.col, 1);
    assert(st.stack.take(1) =~= seq![st.stack[0]]);
}

/// A closing bracket with no group open leaves the bracket depth at zero.
pub proof fn law_stray_close_keeps_depth_zero<T>(
    mode: LayoutMode,
    rule: OpenerRule,
    st: LayoutState,
    t: TokenAt<T>,
)
    requires
        st.bracket_depth == 0,
        t.class.bracket_close,
        !t.class.bracket_open,
    ensures
        step_state(mode, rule, st, t).bracket_depth == 0,
{
}

} // verus!
