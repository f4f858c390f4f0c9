//! Properties of the layout rule over whole token streams.
use vstd::prelude::*;

use crate::layout::{LayoutMode, OpenerRule};
use crate::lexer::{output_for, LayoutLexer};
use crate::rules::{
    closed_frames, eof_output, layout_of, layout_phase, opens_here, repeat, run_output, run_state,
    starts_new_line, step_output, step_state, LayoutState, LayoutToken, TokenAt,
};

verus! {

/// The real tokens of an output stream, in order, without the virtual ones.
pub open spec fn strip_virtual<T>(out: Seq<LayoutToken<T>>) -> Seq<(usize, T, usize)>
    decreases out.len(),
{
    if out.len() == 0 {
        Seq::empty()
    } else {
        let rest = strip_virtual(out.drop_last());
        match out.last() {
            LayoutToken::Real(lo, tok, hi) => rest.push((lo, tok, hi)),
            _ => rest,
        }
    }
}

/// Number of virtual block opens in an output stream.
pub open spec fn count_opens<T>(out: Seq<LayoutToken<T>>) -> nat
    decreases out.len(),
{
    if out.len() == 0 {
        0
    } else {
        count_opens(out.drop_last()) + if out.last() is Open {
            1nat
        } else {
            0nat
        }
    }
}

/// Number of virtual block closes in an output stream.
pub open spec fn count_closes<T>(out: Seq<LayoutToken<T>>) -> nat
    decreases out.len(),
{
    if out.len() == 0 {
        0
    } else {
        count_closes(out.drop_last()) + if out.last() is Close {
            1nat
        } else {
            0nat
        }
    }
}

/// The spans and tokens of an input stream.
pub open spec fn input_of<T>(toks: Seq<TokenAt<T>>) -> Seq<(usize, T, usize)> {
    toks.map_values(|t: TokenAt<T>| (t.lo, t.tok, t.hi))
}

/// Stripping, and counting, distribute over concatenation.
pub proof fn lemma_concat<T>(a: Seq<LayoutToken<T>>, b: Seq<LayoutToken<T>>)
    ensures
        strip_virtual(a + b) == strip_virtual(a) + strip_virtual(b),
        count_opens(a + b) == count_opens(a) + count_opens(b),
        count_closes(a + b) == count_closes(a) + count_closes(b),
    decreases b.len(),
{
    if b.len() == 0 {
        assert(a + b =~= a);
        assert(strip_virtual(a) + strip_virtual(b) =~= strip_virtual(a));
    } else {
        lemma_concat(a, b.drop_last());
        assert((a + b).drop_last() =~= a + b.drop_last());
        assert((a + b).last() == b.last());
        assert(strip_virtual(a) + strip_virtual(b.drop_last()).push(
            (b.last()->Real_0, b.last()->Real_1, b.last()->Real_2),
        ) =~= (strip_virtual(a) + strip_virtual(b.drop_last())).push(
            (b.last()->Real_0, b.last()->Real_1, b.last()->Real_2),
        ));
    }
}

/// A run of closes has no real tokens and no opens.
pub proof fn lemma_repeat_close<T>(p: usize, n: nat)
    ensures
        strip_virtual(repeat(LayoutToken::<T>::Close(p), n)) == Seq::<(usize, T, usize)>::empty(),
        count_opens(repeat(LayoutToken::<T>::Close(p), n)) == 0,
        count_closes(repeat(LayoutToken::<T>::Close(p), n)) == n,
    decreases n,
{
    if n > 0 {
        lemma_repeat_close::<T>(p, (n - 1) as nat);
        assert(repeat(LayoutToken::<T>::Close(p), n).drop_last() =~= repeat(
            LayoutToken::<T>::Close(p),
            (n - 1) as nat,
        ));
    }
}

/// Dedenting never closes more blocks than are open above the floor.
pub proof fn lemma_closed_frames_bound(stack: Seq<usize>, col: usize, floor: nat)
    ensures
        closed_frames(stack, col, floor) <= stack.len(),
        stack.len() >= floor ==> closed_frames(stack, col, floor) <= stack.len() - floor,
    decreases stack.len(),
{
    if stack.len() > floor && stack.last() > col {
        lemma_closed_frames_bound(stack.drop_last(), col, floor);
    }
}

/// What one token's virtual tokens amount to: no real token, one open if
/// it opens a block, and as many closes as blocks it ends.
pub proof fn lemma_phase_counts<T>(mode: LayoutMode, rule: OpenerRule, st: LayoutState, t: TokenAt<T>)
    ensures
        strip_virtual(layout_phase(mode, rule, st, t).1) == Seq::<(usize, T, usize)>::empty(),
        count_opens(layout_phase(mode, rule, st, t).1) + st.stack.len() == count_closes(
            layout_phase(mode, rule, st, t).1,
        ) + layout_phase(mode, rule, st, t).0.len(),
{
    let ph = layout_phase(mode, rule, st, t);
    if st.bracket_depth > 0 {
        assert(ph.1 =~= Seq::<LayoutToken<T>>::empty());
    } else if opens_here(mode, rule, st, t) {
        let o = seq![LayoutToken::<T>::Open(t.lo)];
        assert(ph.1 == o);
        assert(o.drop_last() =~= Seq::<LayoutToken<T>>::empty());
        assert(count_opens(o.drop_last()) == 0);
        assert(count_closes(o.drop_last()) == 0);
        assert(strip_virtual(o.drop_last()) =~= Seq::<(usize, T, usize)>::empty());
        assert(o.last() is Open);
        assert(count_opens(o) == 1);
        assert(count_closes(o) == 0);
        assert(strip_virtual(o) =~= Seq::<(usize, T, usize)>::empty());
    } else if starts_new_line(st, t.line) {
        let k = closed_frames(st.stack, t.col, crate::rules::floor_of(mode));
        lemma_closed_frames_bound(st.stack, t.col, crate::rules::floor_of(mode));
        lemma_repeat_close::<T>(st.last_hi, k);
        let closes = repeat(LayoutToken::<T>::Close(st.last_hi), k);
        let rest = st.stack.take(st.stack.len() - k);
        assert(rest.len() == st.stack.len() - k);
        if rest.len() > 0 && rest.last() == t.col {
            let cs = closes.push(LayoutToken::Sep(st.last_hi));
            assert(cs.drop_last() =~= closes);
            assert(ph.1 == cs);
            assert(count_opens(cs) == 0);
            assert(count_closes(cs) == k);
            assert(strip_virtual(cs) == strip_virtual(closes));
        } else {
            assert(ph.1 == closes);
        }
    } else {
        assert(ph.1 =~= Seq::<LayoutToken<T>>::empty());
    }
}

/// What one token adds: itself as the only real token, and opens and
/// closes that account for the change in open blocks.
pub proof fn lemma_step_counts<T>(mode: LayoutMode, rule: OpenerRule, st: LayoutState, t: TokenAt<T>)
    ensures
        strip_virtual(step_output(mode, rule, st, t)) == seq![(t.lo, t.tok, t.hi)],
        count_opens(step_output(mode, rule, st, t)) + st.stack.len() == count_closes(
            step_output(mode, rule, st, t),
        ) + step_state(mode, rule, st, t).stack.len(),
{
    let ph = layout_phase(mode, rule, st, t);
    lemma_phase_counts(mode, rule, st, t);
    assert(step_output(mode, rule, st, t).drop_last() =~= ph.1);
    assert(Seq::<(usize, T, usize)>::empty().push((t.lo, t.tok, t.hi)) =~= seq![(t.lo, t.tok, t.hi)]);
}

/// Over a stream read so far, the real tokens pass through in order, and
/// every open block accounts for one more open than close.
pub proof fn lemma_run_counts<T>(mode: LayoutMode, rule: OpenerRule, toks: Seq<TokenAt<T>>)
    ensures
        strip_virtual(run_output(mode, rule, toks)) == input_of(toks),
        count_opens(run_output(mode, rule, toks)) == count_closes(run_output(mode, rule, toks))
            + run_state(mode, rule, toks).stack.len(),
    decreases toks.len(),
{
    if toks.len() == 0 {
        assert(input_of(toks) =~= Seq::<(usize, T, usize)>::empty());
    } else {
        let prev = toks.drop_last();
        lemma_run_counts(mode, rule, prev);
        let st = run_state(mode, rule, prev);
        lemma_step_counts(mode, rule, st, toks.last());
        lemma_concat(run_output(mode, rule, prev), step_output(mode, rule, st, toks.last()));
        assert(input_of(toks) =~= input_of(prev).push(
            (toks.last().lo, toks.last().tok, toks.last().hi),
        ));
    }
}

/// The layout lexer passes every token of a stream that ends normally
/// through unchanged and in order: removing the virtual tokens from its
/// output gives back the input.
pub proof fn law_real_tokens_pass_through<T>(mode: LayoutMode, rule: OpenerRule, toks: Seq<TokenAt<T>>)
    ensures
        strip_virtual(layout_of(mode, rule, toks)) == input_of(toks),
{
    let st = run_state(mode, rule, toks);
    lemma_run_counts(mode, rule, toks);
    lemma_repeat_close::<T>(st.last_hi, st.stack.len());
    lemma_concat(run_output(mode, rule, toks), eof_output::<T>(st));
    assert(input_of(toks) + Seq::<(usize, T, usize)>::empty() =~= input_of(toks));
}

/// Every virtual block open is matched by a virtual close once the stream
/// has ended.
pub proof fn law_blocks_balance<T>(mode: LayoutMode, rule: OpenerRule, toks: Seq<TokenAt<T>>)
    ensures
        count_opens(layout_of(mode, rule, toks)) == count_closes(layout_of(mode, rule, toks)),
{
    let st = run_state(mode, rule, toks);
    lemma_run_counts(mode, rule, toks);
    lemma_repeat_close::<T>(st.last_hi, st.stack.len());
    lemma_concat(run_output(mode, rule, toks), eof_output::<T>(st));
}

/// While a bracket group is open, a token brings no virtual tokens and
/// leaves the open blocks as they are.
pub proof fn law_brackets_suppress_layout<T>(
    mode: LayoutMode,
    rule: OpenerRule,
    st: LayoutState,
    t: TokenAt<T>,
)
    requires
        st.bracket_depth > 0,
    ensures
        step_output(mode, rule, st, t) == seq![LayoutToken::Real(t.lo, t.tok, t.hi)],
        step_state(mode, rule, st, t).stack == st.stack,
{
    assert(step_output(mode, rule, st, t) =~= seq![LayoutToken::Real(t.lo, t.tok, t.hi)]);
}

/// The input tokens as they appear in the output, with no virtual tokens.
pub open spec fn as_real<T>(toks: Seq<TokenAt<T>>) -> Seq<LayoutToken<T>> {
    toks.map_values(|t: TokenAt<T>| LayoutToken::Real(t.lo, t.tok, t.hi))
}

/// No token of the stream is an opener or a carry opener.
pub open spec fn no_openers<T>(toks: Seq<TokenAt<T>>) -> bool {
    forall|i: int| 0 <= i < toks.len() ==> !(#[trigger] toks[i]).class.opener && !toks[i].class.carry
}

/// Without openers, `Lazy` mode never opens a block nor emits anything.
pub proof fn lemma_lazy_quiet<T>(rule: OpenerRule, toks: Seq<TokenAt<T>>)
    requires
        no_openers(toks),
    ensures
        run_state(LayoutMode::Lazy, rule, toks).stack == Seq::<usize>::empty(),
        !run_state(LayoutMode::Lazy, rule, toks).pending_opener,
        !run_state(LayoutMode::Lazy, rule, toks).carrying,
        run_output(LayoutMode::Lazy, rule, toks) == as_real(toks),
    decreases toks.len(),
{
    if toks.len() == 0 {
        assert(as_real(toks) =~= Seq::<LayoutToken<T>>::empty());
    } else {
        let prev = toks.drop_last();
        assert forall|i: int| 0 <= i < prev.len() implies !(#[trigger] prev[i]).class.opener
            && !prev[i].class.carry by {
            assert(prev[i] == toks[i]);
        }
        lemma_lazy_quiet(rule, prev);
        let st = run_state(LayoutMode::Lazy, rule, prev);
        let t = toks.last();
        assert(!t.class.opener && !t.class.carry);
        let ph = layout_phase(LayoutMode::Lazy, rule, st, t);
        assert(st.stack.take(0) =~= Seq::<usize>::empty());
        assert(ph.1 =~= Seq::<LayoutToken<T>>::empty());
        assert(ph.0 =~= Seq::<usize>::empty());
        assert(as_real(toks) =~= as_real(prev).push(LayoutToken::Real(t.lo, t.tok, t.hi)));
        assert(step_output(LayoutMode::Lazy, rule, st, t) =~= seq![LayoutToken::Real(t.lo, t.tok, t.hi)]);
    }
}

/// In `Lazy` mode a stream with no openers passes through unchanged: no
/// virtual token is ever emitted.
pub proof fn law_lazy_without_openers_passes_through<T>(rule: OpenerRule, toks: Seq<TokenAt<T>>)
    requires
        no_openers(toks),
    ensures
        layout_of(LayoutMode::Lazy, rule, toks) == as_real(toks),
{
    lemma_lazy_quiet(rule, toks);
    let st = run_state(LayoutMode::Lazy, rule, toks);
    assert(eof_output::<T>(st) =~= Seq::<LayoutToken<T>>::empty());
    assert(layout_of(LayoutMode::Lazy, rule, toks) =~= as_real(toks));
}

/// There is a previous line exactly when some token has been read.
pub proof fn lemma_prev_line<T>(mode: LayoutMode, rule: OpenerRule, toks: Seq<TokenAt<T>>)
    ensures
        run_state(mode, rule, toks).prev_line is None <==> toks.len() == 0,
        toks.len() == 0 ==> run_state(mode, rule, toks).stack == Seq::<usize>::empty(),
{
}

/// In `Eager` mode, the top-level block stays open from the first token on.
pub proof fn lemma_eager_keeps_top<T>(rule: OpenerRule, toks: Seq<TokenAt<T>>)
    requires
        toks.len() > 0,
    ensures
        run_state(LayoutMode::Eager, rule, toks).stack.len() >= 1,
        run_output(LayoutMode::Eager, rule, toks).len() >= 1,
        run_output(LayoutMode::Eager, rule, toks)[0] == LayoutToken::<T>::Open(toks[0].lo),
    decreases toks.len(),
{
    let mode = LayoutMode::Eager;
    let prev = toks.drop_last();
    let st = run_state(mode, rule, prev);
    let t = toks.last();
    let ph = layout_phase(mode, rule, st, t);
    if prev.len() == 0 {
        lemma_prev_line(mode, rule, prev);
        assert(opens_here(mode, rule, st, t));
        assert(run_output(mode, rule, prev) =~= Seq::<LayoutToken<T>>::empty());
        assert(run_output(mode, rule, toks) =~= seq![
            LayoutToken::<T>::Open(t.lo),
            LayoutToken::Real(t.lo, t.tok, t.hi),
        ]);
    } else {
        lemma_eager_keeps_top(rule, prev);
        assert(prev[0] == toks[0]);
        lemma_closed_frames_bound(st.stack, t.col, 1);
        if st.bracket_depth == 0 && !opens_here(mode, rule, st, t) && starts_new_line(st, t.line) {
            let k = closed_frames(st.stack, t.col, 1);
            assert(st.stack.take(st.stack.len() - k).len() >= 1);
        }
        assert(ph.0.len() >= 1);
    }
}

/// In `Eager` mode the whole input is one block: a non-empty stream starts
/// with a virtual open at its first token, and ends with a virtual close,
/// and the top-level block is never closed before the end of input.
pub proof fn law_eager_wraps_top_level<T>(rule: OpenerRule, toks: Seq<TokenAt<T>>)
    requires
        toks.len() > 0,
    ensures
        run_state(LayoutMode::Eager, rule, toks).stack.len() >= 1,
        layout_of(LayoutMode::Eager, rule, toks)[0] == LayoutToken::<T>::Open(toks[0].lo),
        layout_of(LayoutMode::Eager, rule, toks).last() is Close,
{
    lemma_eager_keeps_top(rule, toks);
    let out = run_output(LayoutMode::Eager, rule, toks);
    let st = run_state(LayoutMode::Eager, rule, toks);
    let all = layout_of(LayoutMode::Eager, rule, toks);
    assert(all[0] == out[0]);
    assert(all.last() == eof_output::<T>(st).last());
}

/// The columns are strictly increasing, innermost last.
pub open spec fn strictly_increasing(s: Seq<usize>) -> bool {
    forall|i: int, j: int| 0 <= i < j < s.len() ==> s[i] < s[j]
}

/// With conditional openers, every block is indented strictly deeper than
/// the block around it.
pub proof fn law_conditional_blocks_nest_deeper<T>(mode: LayoutMode, toks: Seq<TokenAt<T>>)
    ensures
        strictly_increasing(run_state(mode, OpenerRule::Conditional, toks).stack),
    decreases toks.len(),
{
    let rule = OpenerRule::Conditional;
    if toks.len() > 0 {
        let prev = toks.drop_last();
        law_conditional_blocks_nest_deeper(mode, prev);
        let st = run_state(mode, rule, prev);
        let t = toks.last();
        lemma_prev_line(mode, rule, prev);
        lemma_closed_frames_bound(st.stack, t.col, crate::rules::floor_of(mode));
        let ph = layout_phase(mode, rule, st, t);
        assert(strictly_increasing(ph.0));
    }
}

/// End of the last real token of `out`, or `start` if there is none.
pub open spec fn last_end<T>(out: Seq<LayoutToken<T>>, start: usize) -> usize
    decreases out.len(),
{
    if out.len() == 0 {
        start
    } else {
        match out.last() {
            LayoutToken::Real(_, _, hi) => hi,
            _ => last_end(out.drop_last(), start),
        }
    }
}

/// Every virtual token sits at its anchor: a close or separator at the end
/// of the real token before it (offset 0 if there is none), an open at the
/// start of the real token right after it.
pub open spec fn anchored<T>(out: Seq<LayoutToken<T>>) -> bool {
    forall|i: int|
        0 <= i < out.len() ==> match #[trigger] out[i] {
            LayoutToken::Close(p) => p == last_end(out.take(i), 0),
            LayoutToken::Sep(p) => p == last_end(out.take(i), 0),
            LayoutToken::Open(p) => i + 1 < out.len() && out[i + 1] is Real && out[i + 1]->Real_0
                == p,
            LayoutToken::Real(_, _, _) => true,
        }
}

/// Closes and separators anchored at `p`.
pub open spec fn closes_at<T>(v: Seq<LayoutToken<T>>, p: usize) -> bool {
    forall|j: int|
        0 <= j < v.len() ==> #[trigger] v[j] == LayoutToken::<T>::Close(p) || v[j]
            == LayoutToken::<T>::Sep(p)
}

/// Closes and separators leave the end of the last real token unchanged.
pub proof fn lemma_last_end_closes<T>(a: Seq<LayoutToken<T>>, v: Seq<LayoutToken<T>>, p: usize)
    requires
        closes_at(v, p),
    ensures
        last_end(a + v, 0) == last_end(a, 0),
    decreases v.len(),
{
    if v.len() > 0 {
        assert((a + v).drop_last() =~= a + v.drop_last());
        assert(closes_at(v.drop_last(), p));
        lemma_last_end_closes(a, v.drop_last(), p);
    } else {
        assert(a + v =~= a);
    }
}

/// Appending closes and separators at the end of the last real token keeps
/// the stream anchored.
pub proof fn lemma_anchored_closes<T>(a: Seq<LayoutToken<T>>, v: Seq<LayoutToken<T>>)
    requires
        anchored(a),
        a.len() == 0 || a.last() is Real,
        closes_at(v, last_end(a, 0)),
    ensures
        anchored(a + v),
{
    let p = last_end(a, 0);
    let out = a + v;
    assert forall|i: int| 0 <= i < out.len() implies match #[trigger] out[i] {
        LayoutToken::Close(q) => q == last_end(out.take(i), 0),
        LayoutToken::Sep(q) => q == last_end(out.take(i), 0),
        LayoutToken::Open(q) => i + 1 < out.len() && out[i + 1] is Real && out[i + 1]->Real_0 == q,
        LayoutToken::Real(_, _, _) => true,
    } by {
        if i < a.len() {
            assert(out[i] == a[i]);
            assert(out.take(i) =~= a.take(i));
            if a[i] is Open {
                assert(i + 1 < a.len());
                assert(out[i + 1] == a[i + 1]);
            }
        } else {
            let j = i - a.len();
            assert(out[i] == v[j]);
            assert(out.take(i) =~= a + v.take(j));
            assert(closes_at(v.take(j), p));
            lemma_last_end_closes(a, v.take(j), p);
        }
    }
}

/// The output so far ends with a real token, whose end is the state's last
/// end; and it is anchored.
pub proof fn lemma_run_anchored<T>(mode: LayoutMode, rule: OpenerRule, toks: Seq<TokenAt<T>>)
    ensures
        anchored(run_output(mode, rule, toks)),
        run_output(mode, rule, toks).len() == 0 || run_output(mode, rule, toks).last() is Real,
        last_end(run_output(mode, rule, toks), 0) == run_state(mode, rule, toks).last_hi,
    decreases toks.len(),
{
    if toks.len() > 0 {
        let prev = toks.drop_last();
        lemma_run_anchored(mode, rule, prev);
        let st = run_state(mode, rule, prev);
        let t = toks.last();
        let a = run_output(mode, rule, prev);
        let ph = layout_phase(mode, rule, st, t);
        let rt = LayoutToken::Real(t.lo, t.tok, t.hi);
        let out = run_output(mode, rule, toks);
        assert(out == a + ph.1.push(rt));
        assert(out.drop_last() =~= a + ph.1);
        if st.bracket_depth == 0 && opens_here(mode, rule, st, t) {
            assert(out =~= a.push(LayoutToken::Open(t.lo)).push(rt));
            assert forall|i: int| 0 <= i < out.len() implies match #[trigger] out[i] {
                LayoutToken::Close(q) => q == last_end(out.take(i), 0),
                LayoutToken::Sep(q) => q == last_end(out.take(i), 0),
                LayoutToken::Open(q) => i + 1 < out.len() && out[i + 1] is Real && out[i + 1]->Real_0
                    == q,
                LayoutToken::Real(_, _, _) => true,
            } by {
                if i < a.len() {
                    assert(out[i] == a[i]);
                    assert(out.take(i) =~= a.take(i));
                    if a[i] is Open {
                        assert(out[i + 1] == a[i + 1]);
                    }
                }
            }
        } else {
            assert(closes_at(ph.1, st.last_hi)) by {
                if st.bracket_depth == 0 && !opens_here(mode, rule, st, t) && starts_new_line(
                    st,
                    t.line,
                ) {
                    let k = closed_frames(st.stack, t.col, crate::rules::floor_of(mode));
                    let closes = repeat(LayoutToken::<T>::Close(st.last_hi), k);
                    assert(closes_at(closes, st.last_hi));
                    assert(closes_at(closes.push(LayoutToken::Sep(st.last_hi)), st.last_hi));
                }
            }
            lemma_anchored_closes(a, ph.1);
            let b = a + ph.1;
            assert forall|i: int| 0 <= i < out.len() implies match #[trigger] out[i] {
                LayoutToken::Close(q) => q == last_end(out.take(i), 0),
                LayoutToken::Sep(q) => q == last_end(out.take(i), 0),
                LayoutToken::Open(q) => i + 1 < out.len() && out[i + 1] is Real && out[i + 1]->Real_0
                    == q,
                LayoutToken::Real(_, _, _) => true,
            } by {
                if i < b.len() {
                    assert(out[i] == b[i]);
                    assert(out.take(i) =~= b.take(i));
                    assert(b[i] matches LayoutToken::Open(_) ==> i + 1 < b.len() && out[i + 1]
                        == b[i + 1]);
                }
            }
        }
    }
}

/// Every virtual token sits at its anchor in the output of a stream that
/// ends normally: an open at the start of the token that begins the block,
/// a close or separator at the end of the token before it.
pub proof fn law_virtual_tokens_anchored<T>(mode: LayoutMode, rule: OpenerRule, toks: Seq<TokenAt<T>>)
    ensures
        anchored(layout_of(mode, rule, toks)),
{
    lemma_run_anchored(mode, rule, toks);
    let st = run_state(mode, rule, toks);
    let closes = eof_output::<T>(st);
    assert(closes_at(closes, st.last_hi));
    lemma_anchored_closes(run_output(mode, rule, toks), closes);
}

/// The frames left after closing stop at a block no deeper than `col`, or at
/// the floor.
pub proof fn lemma_closed_frames_stop(stack: Seq<usize>, col: usize, floor: nat)
    ensures
        ({
            let rest = stack.take(stack.len() - closed_frames(stack, col, floor));
            rest.len() > floor ==> rest.last() <= col
        }),
    decreases stack.len(),
{
    lemma_closed_frames_bound(stack, col, floor);
    if stack.len() > floor && stack.last() > col {
        lemma_closed_frames_stop(stack.drop_last(), col, floor);
        let k = closed_frames(stack.drop_last(), col, floor);
        lemma_closed_frames_bound(stack.drop_last(), col, floor);
        assert(stack.take(stack.len() - (k + 1)) =~= stack.drop_last().take(
            stack.drop_last().len() - k,
        ));
    } else {
        assert(stack.take(stack.len() - 0) =~= stack);
    }
}

/// A token that starts a line outside brackets, and opens no block, closes
/// every block indented deeper than itself (keeping the top-level block in
/// `Eager` mode), and is preceded by a separator exactly when it sits at the
/// column of the innermost block still open.
pub proof fn law_dedent_closes_deeper_blocks<T>(
    mode: LayoutMode,
    rule: OpenerRule,
    st: LayoutState,
    t: TokenAt<T>,
)
    requires
        st.bracket_depth == 0,
        !opens_here(mode, rule, st, t),
        starts_new_line(st, t.line),
    ensures
        ({
            let after = step_state(mode, rule, st, t).stack;
            let virt = layout_phase(mode, rule, st, t).1;
            &&& after.len() > crate::rules::floor_of(mode) ==> after.last() <= t.col
            &&& after.len() <= st.stack.len()
            &&& after == st.stack.take(after.len() as int)
            &&& virt.len() > 0 && virt.last() is Sep <==> after.len() > 0 && after.last() == t.col
        }),
{
    let k = closed_frames(st.stack, t.col, crate::rules::floor_of(mode));
    lemma_closed_frames_stop(st.stack, t.col, crate::rules::floor_of(mode));
    lemma_closed_frames_bound(st.stack, t.col, crate::rules::floor_of(mode));
    let rest = st.stack.take(st.stack.len() - k);
    assert(rest == st.stack.take(rest.len() as int));
    let closes = repeat(LayoutToken::<T>::Close(st.last_hi), k);
    if !(rest.len() > 0 && rest.last() == t.col) && closes.len() > 0 {
        assert(closes.last() is Close);
    }
}

/// Virtual blocks nest like brackets: no prefix of the output closes more
/// blocks than it opened, and every close or separator stands inside an open
/// block.
pub open spec fn nested<T>(out: Seq<LayoutToken<T>>) -> bool {
    &&& forall|i: int|
        0 <= i <= out.len() ==> #[trigger] count_closes(out.take(i)) <= count_opens(out.take(i))
    &&& forall|i: int|
        0 <= i < out.len() && (out[i] is Close || out[i] is Sep) ==> count_closes(
            #[trigger] out.take(i),
        ) < count_opens(out.take(i))
}

/// A sequence with no close counts no closes.
pub proof fn lemma_no_closes<T>(s: Seq<LayoutToken<T>>)
    requires
        forall|i: int| 0 <= i < s.len() ==> !(#[trigger] s[i] is Close),
    ensures
        count_closes(s) == 0,
    decreases s.len(),
{
    if s.len() > 0 {
        let t = s.drop_last();
        assert forall|i: int| 0 <= i < t.len() implies !(#[trigger] t[i] is Close) by {
            assert(t[i] == s[i]);
        }
        lemma_no_closes(t);
    }
}

/// One position of the appended part, for [`lemma_nested_append`].
pub proof fn lemma_nested_at<T>(
    a: Seq<LayoutToken<T>>,
    d: nat,
    p: usize,
    k: nat,
    tail: Seq<LayoutToken<T>>,
    j: int,
)
    requires
        count_opens(a) == count_closes(a) + d,
        k <= d,
        forall|i: int| 0 <= i < tail.len() ==> !(#[trigger] tail[i] is Close),
        (exists|i: int| 0 <= i < tail.len() && #[trigger] tail[i] is Sep) ==> k < d,
        0 <= j <= k + tail.len(),
    ensures
        ({
            let v = repeat(LayoutToken::<T>::Close(p), k) + tail;
            let pre = (a + v).take(a.len() + j);
            &&& count_closes(pre) <= count_opens(pre)
            &&& j < v.len() && (v[j] is Close || v[j] is Sep) ==> count_closes(pre) < count_opens(
                pre,
            )
            &&& count_closes(pre) == count_closes(a) + (if j <= k {
                j
            } else {
                k as int
            })
            &&& count_opens(pre) >= count_opens(a)
        }),
{
    let cl = repeat(LayoutToken::<T>::Close(p), k);
    let v = cl + tail;
    let out = a + v;
    assert(out.take(a.len() + j) =~= a + v.take(j));
    lemma_concat(a, v.take(j));
    if j <= k {
        assert(v.take(j) =~= repeat(LayoutToken::<T>::Close(p), j as nat));
        lemma_repeat_close::<T>(p, j as nat);
    } else {
        let m = j - k;
        assert(v.take(j) =~= cl + tail.take(m));
        lemma_concat(cl, tail.take(m));
        lemma_repeat_close::<T>(p, k);
        assert forall|i: int| 0 <= i < tail.take(m).len() implies !(#[trigger] tail.take(m)[i] is Close) by {
            assert(tail.take(m)[i] == tail[i]);
        }
        lemma_no_closes(tail.take(m));
        if j < v.len() {
            assert(v[j] == tail[m]);
        }
    }
}

/// Appending `k` closes then a tail without closes to a stream with `d`
/// blocks open keeps it nested, provided `k <= d` and the tail holds a
/// separator only if some block stays open.
pub proof fn lemma_nested_append<T>(
    a: Seq<LayoutToken<T>>,
    d: nat,
    p: usize,
    k: nat,
    tail: Seq<LayoutToken<T>>,
)
    requires
        nested(a),
        count_opens(a) == count_closes(a) + d,
        k <= d,
        forall|i: int| 0 <= i < tail.len() ==> !(#[trigger] tail[i] is Close),
        (exists|i: int| 0 <= i < tail.len() && #[trigger] tail[i] is Sep) ==> k < d,
    ensures
        nested(a + (repeat(LayoutToken::<T>::Close(p), k) + tail)),
{
    let cl = repeat(LayoutToken::<T>::Close(p), k);
    let v = cl + tail;
    let out = a + v;
    assert forall|i: int| 0 <= i <= out.len() implies #[trigger] count_closes(out.take(i))
        <= count_opens(out.take(i)) by {
        if i <= a.len() {
            assert(out.take(i) =~= a.take(i));
        } else {
            lemma_nested_at(a, d, p, k, tail, i - a.len());
        }
    }
    assert forall|i: int|
        0 <= i < out.len() && (out[i] is Close || out[i] is Sep) implies count_closes(
        #[trigger] out.take(i),
    ) < count_opens(out.take(i)) by {
        if i < a.len() {
            assert(out.take(i) =~= a.take(i));
            assert(out[i] == a[i]);
        } else {
            assert(out[i] == v[i - a.len()]);
            lemma_nested_at(a, d, p, k, tail, i - a.len());
        }
    }
}

/// The output so far nests.
pub proof fn lemma_run_nested<T>(mode: LayoutMode, rule: OpenerRule, toks: Seq<TokenAt<T>>)
    ensures
        nested(run_output(mode, rule, toks)),
    decreases toks.len(),
{
    if toks.len() == 0 {
        let e = Seq::<LayoutToken<T>>::empty();
        assert forall|i: int| 0 <= i <= e.len() implies #[trigger] count_closes(e.take(i))
            <= count_opens(e.take(i)) by {
            assert(e.take(i) =~= e);
        }
    } else {
        let prev = toks.drop_last();
        lemma_run_nested(mode, rule, prev);
        lemma_run_counts(mode, rule, prev);
        let st = run_state(mode, rule, prev);
        let t = toks.last();
        let a = run_output(mode, rule, prev);
        let d = st.stack.len();
        let rt = LayoutToken::Real(t.lo, t.tok, t.hi);
        let v = step_output(mode, rule, st, t);
        assert(run_output(mode, rule, toks) == a + v);
        if st.bracket_depth == 0 && opens_here(mode, rule, st, t) {
            let tail = seq![LayoutToken::<T>::Open(t.lo), rt];
            assert(v =~= repeat(LayoutToken::<T>::Close(st.last_hi), 0) + tail);
            lemma_nested_append(a, d, st.last_hi, 0, tail);
        } else if st.bracket_depth == 0 && starts_new_line(st, t.line) {
            let k = closed_frames(st.stack, t.col, crate::rules::floor_of(mode));
            lemma_closed_frames_bound(st.stack, t.col, crate::rules::floor_of(mode));
            let rest = st.stack.take(st.stack.len() - k);
            let cl = repeat(LayoutToken::<T>::Close(st.last_hi), k);
            if rest.len() > 0 && rest.last() == t.col {
                let tail = seq![LayoutToken::<T>::Sep(st.last_hi), rt];
                assert(v =~= cl + tail);
                lemma_nested_append(a, d, st.last_hi, k, tail);
            } else {
                let tail = seq![rt];
                assert(v =~= cl + tail);
                assert(!(tail[0] is Sep));
                lemma_nested_append(a, d, st.last_hi, k, tail);
            }
        } else {
            let tail = seq![rt];
            assert(v =~= repeat(LayoutToken::<T>::Close(st.last_hi), 0) + tail);
            assert(!(tail[0] is Sep));
            lemma_nested_append(a, d, st.last_hi, 0, tail);
        }
    }
}

/// Virtual blocks nest like brackets in the output of every stream that
/// ends normally: every prefix has at least as many opens as closes, every
/// close and separator stands inside an open block, and in the whole output
/// opens and closes balance.
pub proof fn law_blocks_nest<T>(mode: LayoutMode, rule: OpenerRule, toks: Seq<TokenAt<T>>)
    ensures
        nested(layout_of(mode, rule, toks)),
        count_opens(layout_of(mode, rule, toks)) == count_closes(layout_of(mode, rule, toks)),
{
    lemma_run_nested(mode, rule, toks);
    lemma_run_counts(mode, rule, toks);
    law_blocks_balance(mode, rule, toks);
    let st = run_state(mode, rule, toks);
    let e = Seq::<LayoutToken<T>>::empty();
    assert(eof_output::<T>(st) =~= repeat(LayoutToken::<T>::Close(st.last_hi), st.stack.len()) + e);
    lemma_nested_append(run_output(mode, rule, toks), st.stack.len(), st.last_hi, st.stack.len(), e);
}

/// The Eager top-level block is open after every item of the output so far.
pub proof fn lemma_eager_open_throughout<T>(rule: OpenerRule, toks: Seq<TokenAt<T>>)
    requires
        toks.len() > 0,
    ensures
        forall|i: int|
            1 <= i <= run_output(LayoutMode::Eager, rule, toks).len() ==> count_closes(
                #[trigger] run_output(LayoutMode::Eager, rule, toks).take(i),
            ) < count_opens(run_output(LayoutMode::Eager, rule, toks).take(i)),
    decreases toks.len(),
{
    let mode = LayoutMode::Eager;
    let prev = toks.drop_last();
    let st = run_state(mode, rule, prev);
    let t = toks.last();
    let a = run_output(mode, rule, prev);
    let v = step_output(mode, rule, st, t);
    let out = run_output(mode, rule, toks);
    let rt = LayoutToken::Real(t.lo, t.tok, t.hi);
    assert(out == a + v);
    if prev.len() == 0 {
        lemma_prev_line(mode, rule, prev);
        assert(a =~= Seq::<LayoutToken<T>>::empty());
        let o = seq![LayoutToken::<T>::Open(t.lo)];
        assert(out =~= o.push(rt));
        assert(o.drop_last() =~= Seq::<LayoutToken<T>>::empty());
        assert(count_opens(o.drop_last()) == 0);
        assert(count_closes(o.drop_last()) == 0);
        assert(count_opens(o) == 1 && count_closes(o) == 0);
        assert(out.take(1) =~= o);
        assert(out.take(2) =~= o.push(rt));
        assert(o.push(rt).drop_last() =~= o);
        assert forall|i: int| 1 <= i <= out.len() implies count_closes(#[trigger] out.take(i))
            < count_opens(out.take(i)) by {
            if i == 1 {
            } else {
                assert(out.take(i) == o.push(rt));
            }
        }
    } else {
        lemma_eager_open_throughout(rule, prev);
        lemma_eager_keeps_top(rule, prev);
        lemma_run_counts(mode, rule, prev);
        let d = st.stack.len();
        lemma_closed_frames_bound(st.stack, t.col, 1);
        let (k, tail) = if st.bracket_depth == 0 && opens_here(mode, rule, st, t) {
            (0nat, seq![LayoutToken::<T>::Open(t.lo), rt])
        } else if st.bracket_depth == 0 && starts_new_line(st, t.line) {
            let k = closed_frames(st.stack, t.col, 1);
            let rest = st.stack.take(st.stack.len() - k);
            if rest.len() > 0 && rest.last() == t.col {
                (k, seq![LayoutToken::<T>::Sep(st.last_hi), rt])
            } else {
                (k, seq![rt])
            }
        } else {
            (0nat, seq![rt])
        };
        assert(k + 1 <= d);
        assert(v =~= repeat(LayoutToken::<T>::Close(st.last_hi), k) + tail);
        assert forall|i: int| 0 <= i < tail.len() implies !(#[trigger] tail[i] is Close) by {}
        assert forall|i: int| 1 <= i <= out.len() implies count_closes(#[trigger] out.take(i))
            < count_opens(out.take(i)) by {
            if i <= a.len() {
                assert(out.take(i) =~= a.take(i));
            } else {
                lemma_nested_at(a, d, st.last_hi, k, tail, i - a.len());
                assert(out.take(a.len() + (i - a.len())) == out.take(i));
            }
        }
    }
}

/// In `Eager` mode the top-level block stays open through the whole output
/// of a non-empty stream that ends normally: every non-empty proper prefix
/// has more opens than closes.
pub proof fn law_eager_block_open_throughout<T>(rule: OpenerRule, toks: Seq<TokenAt<T>>)
    requires
        toks.len() > 0,
    ensures
        forall|i: int|
            1 <= i < layout_of(LayoutMode::Eager, rule, toks).len() ==> count_closes(
                #[trigger] layout_of(LayoutMode::Eager, rule, toks).take(i),
            ) < count_opens(layout_of(LayoutMode::Eager, rule, toks).take(i)),
{
    let mode = LayoutMode::Eager;
    lemma_eager_open_throughout(rule, toks);
    lemma_run_counts(mode, rule, toks);
    let st = run_state(mode, rule, toks);
    let a = run_output(mode, rule, toks);
    let d = st.stack.len();
    let e = Seq::<LayoutToken<T>>::empty();
    let out = layout_of(mode, rule, toks);
    assert(eof_output::<T>(st) =~= repeat(LayoutToken::<T>::Close(st.last_hi), d) + e);
    assert(out == a + (repeat(LayoutToken::<T>::Close(st.last_hi), d) + e));
    assert forall|i: int| 1 <= i < out.len() implies count_closes(#[trigger] out.take(i))
        < count_opens(out.take(i)) by {
        if i <= a.len() {
            assert(out.take(i) =~= a.take(i));
        } else {
            lemma_nested_at(a, d, st.last_hi, d, e, i - a.len());
            assert(out.take(a.len() + (i - a.len())) == out.take(i));
        }
    }
}

/// Once a layout lexer has handed out everything for a stream that ended
/// normally, its output holds exactly the tokens it read, in order, its
/// opens and closes balance, and every virtual token sits at its anchor.
pub proof fn law_finished_lexer_output<I, T, E, P>(lx: LayoutLexer<I, T, E, P>)
    where
        I: Iterator<Item = Result<(usize, T, usize), E>>,
        P: Fn(&T) -> bool,
    requires
        lx.ended(),
        lx.produced() == output_for(
            lx.config().mode,
            lx.config().opener_rule,
            lx.consumed(),
            lx.ended(),
        ),
    ensures
        strip_virtual(lx.produced()) == input_of(lx.consumed()),
        count_opens(lx.produced()) == count_closes(lx.produced()),
        nested(lx.produced()),
        anchored(lx.produced()),
{
    let mode = lx.config().mode;
    let rule = lx.config().opener_rule;
    law_real_tokens_pass_through(mode, rule, lx.consumed());
    law_blocks_balance(mode, rule, lx.consumed());
    law_blocks_nest(mode, rule, lx.consumed());
    law_virtual_tokens_anchored(mode, rule, lx.consumed());
}

} // verus!
