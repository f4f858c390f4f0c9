//! The layout lexer: splices virtual tokens into a token stream.
use std::collections::VecDeque;
use std::marker::PhantomData;
use vstd::prelude::*;
use vstd::std_specs::iter::IteratorSpec;
use vstd::string::StringSliceAdditionalSpecFns;
use vstd::utf8::encode_utf8;

use crate::column::{column_of, lemma_column_fits, line_of, line_starts_of, widths_fit, ColumnIndex};
use crate::layout::{Layout, LayoutConfig, LayoutMode, OpenerRule, TokenClass};
use crate::rules::{
    bracket_phase, closed_frames, layout_of, layout_phase, lemma_run_push, repeat, run_output,
    run_state, starts_new_line, step_output, step_state, LayoutState, LayoutToken, TokenAt,
};
use crate::stack::{CloseStep, IndentStack};

verus! {

/// Offset of the last byte of a token spanning `lo..hi` (its start when the
/// span is empty).
pub open spec fn end_offset(lo: usize, hi: usize) -> int {
    if hi >= 1 && hi - 1 > lo {
        hi - 1
    } else {
        lo as int
    }
}

/// `t` is what the lexer makes of a token read with `in_brackets` bracket
/// groups open or not: its column and lines come from the source text, its
/// class from the configured predicates.
pub open spec fn describes<T, P: Fn(&T) -> bool>(
    cfg: LayoutConfig<P>,
    bytes: Seq<u8>,
    t: TokenAt<T>,
    in_brackets: bool,
) -> bool {
    let starts = line_starts_of(bytes);
    &&& t.col as nat == column_of(bytes, starts, t.lo as int, cfg.tab_width as nat)
    &&& t.line as int == line_of(starts, t.lo as int)
    &&& t.end_line as int == line_of(starts, end_offset(t.lo, t.hi))
    &&& cfg.classifies(&t.tok, t.class, in_brackets)
}

/// The output that the tokens read so far give: the layout of the whole
/// stream once the input has ended, else the output up to the last token.
pub open spec fn output_for<T>(
    mode: LayoutMode,
    rule: OpenerRule,
    toks: Seq<TokenAt<T>>,
    ended: bool,
) -> Seq<LayoutToken<T>> {
    if ended {
        layout_of(mode, rule, toks)
    } else {
        run_output(mode, rule, toks)
    }
}

/// `x` is the output item that stands for the layout token `t`: a virtual
/// token is what the token type's constructor for its kind returns, at the
/// zero-width span of its anchor; a real token is passed through unchanged.
pub open spec fn item_for<T: Layout>(t: LayoutToken<T>, x: (usize, T, usize)) -> bool {
    match t {
        LayoutToken::Open(p) => x.0 == p && x.2 == p && call_ensures(T::v_open, (), x.1),
        LayoutToken::Close(p) => x.0 == p && x.2 == p && call_ensures(T::v_close, (), x.1),
        LayoutToken::Sep(p) => x.0 == p && x.2 == p && call_ensures(T::v_sep, (), x.1),
        LayoutToken::Real(lo, tok, hi) => x.0 == lo && x.1 == tok && x.2 == hi,
    }
}

/// The output item for a layout token: virtual tokens are built with the
/// token type's constructors at their zero-width span.
fn to_item<T: Layout>(t: LayoutToken<T>) -> (x: (usize, T, usize))
    ensures
        item_for(t, x),
{
    match t {
        LayoutToken::Open(p) => (p, T::v_open(), p),
        LayoutToken::Close(p) => (p, T::v_close(), p),
        LayoutToken::Sep(p) => (p, T::v_sep(), p),
        LayoutToken::Real(lo, tok, hi) => (lo, tok, hi),
    }
}

/// Close the blocks that a line starting at `col` ends (those indented
/// deeper than `col`, keeping at least `floor` open), each with a virtual
/// close at `anchor`; then, if the line sits exactly at the innermost
/// remaining block's column, emit a separator at `anchor`.
fn close_blocks<T>(
    stack: &mut IndentStack,
    pending: &mut VecDeque<LayoutToken<T>>,
    col: usize,
    floor: usize,
    anchor: usize,
)
    ensures
        ({
            let k = closed_frames(old(stack)@, col, floor as nat);
            let rest = old(stack)@.take(old(stack)@.len() - k);
            let closes = repeat(LayoutToken::<T>::Close(anchor), k);
            &&& final(stack)@ == rest
            &&& final(pending)@ == old(pending)@ + (if rest.len() > 0 && rest.last() == col {
                closes.push(LayoutToken::Sep(anchor))
            } else {
                closes
            })
        }),
{
    let ghost s0 = stack@;
    let ghost p0 = pending@;
    let ghost k = closed_frames(s0, col, floor as nat);
    let ghost mut popped: nat = 0;
    assert(s0.take(s0.len() - 0) =~= s0);
    assert(p0 + repeat(LayoutToken::<T>::Close(anchor), 0) =~= p0);
    loop
        invariant_except_break
            popped + closed_frames(stack@, col, floor as nat) == k,
            popped <= s0.len(),
            stack@ == s0.take(s0.len() - popped),
            pending@ == p0 + repeat(LayoutToken::Close(anchor), popped),
        ensures
            ({
                let rest = s0.take(s0.len() - k);
                let closes = repeat(LayoutToken::<T>::Close(anchor), k);
                &&& stack@ == rest
                &&& pending@ == p0 + (if rest.len() > 0 && rest.last() == col {
                    closes.push(LayoutToken::Sep(anchor))
                } else {
                    closes
                })
            }),
        decreases stack@.len(),
    {
        match stack.step(col) {
            CloseStep::Pop => {
                if stack.depth() > floor {
                    let ghost before = stack@;
                    stack.pop();
                    pending.push_back(LayoutToken::Close(anchor));
                    proof {
                        popped = popped + 1;
                        assert(before.drop_last() =~= s0.take(s0.len() - popped));
                        assert(repeat(LayoutToken::<T>::Close(anchor), popped) =~= repeat(
                            LayoutToken::<T>::Close(anchor),
                            (popped - 1) as nat,
                        ).push(LayoutToken::Close(anchor)));
                    }
                } else {
                    break ;
                }
            },
            CloseStep::Separator => {
                pending.push_back(LayoutToken::Sep(anchor));
                proof {
                    assert(pending@ =~= p0 + repeat(LayoutToken::<T>::Close(anchor), k).push(
                        LayoutToken::Sep(anchor),
                    ));
                }
                break ;
            },
            CloseStep::NoAction => {
                break ;
            },
        }
    }
}

/// Close every open block, each with a virtual close at `anchor`.
fn close_all<T>(stack: &mut IndentStack, pending: &mut VecDeque<LayoutToken<T>>, anchor: usize)
    ensures
        final(stack)@ == Seq::<usize>::empty(),
        final(pending)@ == old(pending)@ + repeat(LayoutToken::<T>::Close(anchor), old(stack)@.len()),
{
    let ghost n = stack@.len();
    let ghost p0 = pending@;
    assert(p0 + repeat(LayoutToken::<T>::Close(anchor), 0) =~= p0);
    loop
        invariant_except_break
            stack@.len() <= n,
            pending@ == p0 + repeat(LayoutToken::<T>::Close(anchor), (n - stack@.len()) as nat),
        ensures
            stack@ == Seq::<usize>::empty(),
            pending@ == p0 + repeat(LayoutToken::<T>::Close(anchor), n),
        decreases stack@.len(),
    {
        match stack.pop() {
            Some(_) => {
                pending.push_back(LayoutToken::Close(anchor));
                assert(repeat(LayoutToken::<T>::Close(anchor), (n - stack@.len()) as nat) =~= repeat(
                    LayoutToken::<T>::Close(anchor),
                    (n - stack@.len() - 1) as nat,
                ).push(LayoutToken::Close(anchor)));
            },
            None => {
                break ;
            },
        }
    }
}

/// Bracket bookkeeping after a token; see [`bracket_phase`].
fn bracket_update(depth: usize, opener: bool, carry: bool, class: TokenClass) -> (r: (
    usize,
    bool,
    bool,
))
    requires
        depth < usize::MAX,
    ensures
        (r.0 as nat, r.1, r.2) == bracket_phase(depth as nat, opener, carry, class),
{
    if class.bracket_open {
        (depth + 1, opener, carry)
    } else if class.bracket_close {
        let d = if depth > 0 {
            depth - 1
        } else {
            0
        };
        if d == 0 && carry {
            (d, true, false)
        } else {
            (d, opener, carry)
        }
    } else {
        (depth, opener, carry)
    }
}


/// Adapter that inserts virtual open/close/separator tokens into a stream of
/// spanned tokens `Result<(usize, T, usize), E>`, driven by an off-side
/// (indentation) rule.
///
/// Three kinds of virtual tokens are spliced in at zero-width spans:
/// - `T::v_open()` before the first token of a new layout block, anchored at
///   that token's start;
/// - `T::v_sep()` before each sibling token at the block's indent level,
///   anchored at the end of the previous token;
/// - `T::v_close()` after the last token of a layout block, anchored at the
///   end of that token.
pub struct LayoutLexer<I, T, E, P> {
    inner: I,
    source: String,
    cols: ColumnIndex,
    cfg: LayoutConfig<P>,
    stack: IndentStack,
    pending: VecDeque<LayoutToken<T>>,
    pending_opener: bool,
    carrying: bool,
    bracket_depth: usize,
    prev_line: Option<usize>,
    last_hi: usize,
    done: bool,
    consumed: Ghost<Seq<TokenAt<T>>>,
    produced: Ghost<Seq<LayoutToken<T>>>,
    at_eof: Ghost<bool>,
    _marker: PhantomData<E>,
}

impl<I, T, E, P> LayoutLexer<I, T, E, P> {
    /// Bytes of the source text.
    pub closed spec fn source_bytes(&self) -> Seq<u8> {
        encode_utf8(self.source@)
    }

    /// The configuration.
    pub closed spec fn config(&self) -> LayoutConfig<P> {
        self.cfg
    }

    /// The wrapped token iterator.
    pub closed spec fn inner_iter(&self) -> I {
        self.inner
    }

    /// Tokens read from the inner iterator so far, as the lexer saw them.
    pub closed spec fn consumed(&self) -> Seq<TokenAt<T>> {
        self.consumed@
    }

    /// Layout tokens handed out so far.
    pub closed spec fn produced(&self) -> Seq<LayoutToken<T>> {
        self.produced@
    }

    /// Layout tokens computed but not yet handed out.
    pub closed spec fn pending(&self) -> Seq<LayoutToken<T>> {
        self.pending@
    }

    /// No more items will come: the input ended or failed.
    pub closed spec fn is_done(&self) -> bool {
        self.done
    }

    /// The input ended normally (every open block has been closed).
    pub closed spec fn ended(&self) -> bool {
        self.at_eof@
    }

    /// Current number of open bracket groups.
    pub closed spec fn open_brackets(&self) -> nat {
        self.bracket_depth as nat
    }

    /// The layout state held in the fields.
    pub closed spec fn state(&self) -> LayoutState {
        LayoutState {
            stack: self.stack@,
            pending_opener: self.pending_opener,
            carrying: self.carrying,
            bracket_depth: self.bracket_depth as nat,
            prev_line: self.prev_line,
            last_hi: self.last_hi,
        }
    }
}

impl<I, T, E, P> LayoutLexer<I, T, E, P> where
    I: Iterator<Item = Result<(usize, T, usize), E>>,
    P: Fn(&T) -> bool,
 {
    /// The lexer's internal invariant: the fields hold the layout state of
    /// the tokens read so far, and what was handed out plus what is pending
    /// is the output those tokens give.
    pub closed spec fn wf(&self) -> bool {
        let bytes = self.source_bytes();
        let mode = self.cfg.mode;
        let rule = self.cfg.opener_rule;
        let toks = self.consumed@;
        &&& bytes.len() <= usize::MAX
        &&& self.cols.starts() == line_starts_of(bytes)
        &&& widths_fit(bytes, self.cfg.tab_width as nat)
        &&& self.cfg.predicates_total::<T>()
        &&& forall|i: int|
            0 <= i < toks.len() ==> describes(
                self.cfg,
                bytes,
                #[trigger] toks[i],
                run_state(mode, rule, toks.take(i)).bracket_depth > 0,
            )
        &&& self.state() == (if self.at_eof@ {
            LayoutState { stack: Seq::empty(), ..run_state(mode, rule, toks) }
        } else {
            run_state(mode, rule, toks)
        })
        &&& self.at_eof@ ==> self.done
        &&& self.done && !self.at_eof@ ==> self.pending@.len() == 0
        &&& self.produced@ + self.pending@ == output_for(mode, rule, toks, self.at_eof@)
    }

    /// Current number of open bracket groups.
    pub fn bracket_depth(&self) -> (d: usize)
        ensures
            d == self.open_brackets(),
    {
        self.bracket_depth
    }

    /// Number of open layout blocks.
    pub fn stack_depth(&self) -> (d: usize)
        ensures
            d == self.state().stack.len(),
    {
        self.stack.depth()
    }

    /// Number of layout tokens computed but not yet handed out.
    pub fn pending_len(&self) -> (n: usize)
        ensures
            n == self.pending().len(),
    {
        self.pending.len()
    }

    /// Borrow the underlying iterator. Useful when the inner lexer carries
    /// state that must be recovered after parsing.
    pub fn inner(&self) -> (r: &I)
        ensures
            *r == self.inner_iter(),
    {
        &self.inner
    }

    /// Mutable access to the underlying iterator.
    pub fn inner_mut(&mut self) -> (r: &mut I)
        ensures
            *r == old(self).inner_iter(),
            final(self).inner_iter() == *final(r),
            final(self).config() == old(self).config(),
            final(self).source_bytes() == old(self).source_bytes(),
            final(self).consumed() == old(self).consumed(),
            final(self).produced() == old(self).produced(),
            final(self).pending() == old(self).pending(),
            final(self).is_done() == old(self).is_done(),
            final(self).ended() == old(self).ended(),
            final(self).open_brackets() == old(self).open_brackets(),
            final(self).state() == old(self).state(),
            old(self).wf() ==> final(self).wf(),
    {
        &mut self.inner
    }

    /// Consume the layout lexer and return the underlying iterator.
    pub fn into_inner(self) -> (r: I)
        ensures
            r == self.inner_iter(),
    {
        self.inner
    }

    /// One layout step keeps the invariant.
    proof fn lemma_wf_step(a: Self, b: Self, t: TokenAt<T>)
        requires
            a.wf(),
            !a.done,
            b == (LayoutLexer {
                stack: b.stack,
                pending: b.pending,
                pending_opener: b.pending_opener,
                carrying: b.carrying,
                bracket_depth: b.bracket_depth,
                prev_line: b.prev_line,
                last_hi: b.last_hi,
                consumed: Ghost(a.consumed@.push(t)),
                ..a
            }),
            b.state() == step_state(a.cfg.mode, a.cfg.opener_rule, a.state(), t),
            b.pending@ == a.pending@ + step_output(a.cfg.mode, a.cfg.opener_rule, a.state(), t),
            describes(a.cfg, a.source_bytes(), t, a.state().bracket_depth > 0),
        ensures
            b.wf(),
    {
        let mode = a.cfg.mode;
        let rule = a.cfg.opener_rule;
        let toks = a.consumed@;
        let toks2 = toks.push(t);
        lemma_run_push(mode, rule, toks, t);
        assert forall|i: int| 0 <= i < toks2.len() implies describes(
            b.cfg,
            b.source_bytes(),
            #[trigger] toks2[i],
            run_state(mode, rule, toks2.take(i)).bracket_depth > 0,
        ) by {
            if i < toks.len() {
                assert(toks2[i] == toks[i]);
                assert(toks2.take(i) =~= toks.take(i));
            } else {
                assert(toks2.take(i) =~= toks);
            }
        }
        assert(b.produced@ + b.pending@ =~= run_output(mode, rule, toks2));
    }

    /// The layout decision for a token outside brackets: open a block, or
    /// close and separate on a new line. Returns the opener and carry status
    /// that the token leaves behind.
    fn layout_decision(
        &mut self,
        lo: usize,
        col: usize,
        new_line: bool,
        class: TokenClass,
        Ghost(t): Ghost<TokenAt<T>>,
    ) -> (r: (bool, bool))
        requires
            t.lo == lo,
            t.col == col,
            t.class == class,
            old(self).bracket_depth == 0,
            new_line == starts_new_line(old(self).state(), t.line),
        ensures
            *final(self) == (LayoutLexer {
                stack: final(self).stack,
                pending: final(self).pending,
                ..*old(self)
            }),
            final(self).stack@ == layout_phase(
                old(self).cfg.mode,
                old(self).cfg.opener_rule,
                old(self).state(),
                t,
            ).0,
            final(self).pending@ == old(self).pending@ + layout_phase(
                old(self).cfg.mode,
                old(self).cfg.opener_rule,
                old(self).state(),
                t,
            ).1,
            r.0 == t.class.opener,
            r.1 == (t.class.carry || (old(self).carrying && !new_line && t.class.bracket_open)),
    {
        let eager = match self.cfg.mode {
            LayoutMode::Eager => true,
            LayoutMode::Lazy => false,
        };
        let opens = match self.cfg.opener_rule {
            OpenerRule::Always => self.pending_opener,
            OpenerRule::Conditional => self.pending_opener && new_line && match self.stack.top() {
                None => true,
                Some(top) => col > top,
            },
        };
        if opens || (self.prev_line.is_none() && eager) {
            self.stack.push(col);
            self.pending.push_back(LayoutToken::Open(lo));
        } else if new_line {
            let floor: usize = if eager {
                1
            } else {
                0
            };
            close_blocks(&mut self.stack, &mut self.pending, col, floor, self.last_hi);
        }
        (class.opener, class.carry || (self.carrying && !new_line && class.bracket_open))
    }

    /// Read one token `lo..hi`: emit the virtual tokens it calls for, then
    /// the token itself, and update the layout state.
    fn handle_token(&mut self, lo: usize, tok: T, hi: usize)
        requires
            old(self).wf(),
            !old(self).is_done(),
            old(self).open_brackets() < usize::MAX,
        ensures
            final(self).wf(),
            !final(self).is_done(),
            final(self).config() == old(self).config(),
            final(self).source_bytes() == old(self).source_bytes(),
            final(self).inner_iter() == old(self).inner_iter(),
            final(self).produced() == old(self).produced(),
            final(self).consumed().len() == old(self).consumed().len() + 1,
            final(self).consumed().drop_last() == old(self).consumed(),
            final(self).consumed().last().lo == lo,
            final(self).consumed().last().tok == tok,
            final(self).consumed().last().hi == hi,
            final(self).open_brackets() <= old(self).open_brackets() + 1,
    {
        let ghost a = *self;
        let ghost bytes = self.source_bytes();
        let ghost g_tok = tok;
        proof {
            lemma_column_fits(bytes, lo as int, self.cfg.tab_width as nat);
        }
        let col = self.cols.column(self.source.as_str(), lo, self.cfg.tab_width);
        let cur_line = self.cols.line(lo);
        let end = if hi >= 1 && hi - 1 > lo {
            hi - 1
        } else {
            lo
        };
        let end_line = self.cols.line(end);
        let new_line = match self.prev_line {
            None => true,
            Some(pl) => cur_line > pl,
        };
        let class = self.cfg.classify(&tok, self.bracket_depth > 0);
        let ghost t = TokenAt { lo, tok: g_tok, hi, col, line: cur_line, end_line, class };
        let mut opener = self.pending_opener;
        let mut carry = self.carrying;
        if self.bracket_depth == 0 {
            let r = self.layout_decision(lo, col, new_line, class, Ghost(t));
            opener = r.0;
            carry = r.1;
        }
        let (depth, opener, carry) = bracket_update(self.bracket_depth, opener, carry, class);
        self.bracket_depth = depth;
        self.pending_opener = opener;
        self.carrying = carry;
        self.pending.push_back(LayoutToken::Real(lo, tok, hi));
        self.prev_line = Some(end_line);
        self.last_hi = hi;
        proof {
            self.consumed = Ghost(a.consumed@.push(t));
            assert(self.pending@ =~= a.pending@ + step_output(a.cfg.mode, a.cfg.opener_rule, a.state(), t));
            Self::lemma_wf_step(a, *self, t);
        }
    }

    /// End of input: close every open block at the end of the last token.
    fn drain_eof(&mut self)
        requires
            old(self).wf(),
            !old(self).is_done(),
        ensures
            final(self).wf(),
            final(self).is_done(),
            final(self).ended(),
            final(self).config() == old(self).config(),
            final(self).source_bytes() == old(self).source_bytes(),
            final(self).inner_iter() == old(self).inner_iter(),
            final(self).produced() == old(self).produced(),
            final(self).consumed() == old(self).consumed(),
            final(self).open_brackets() == old(self).open_brackets(),
    {
        let ghost toks = self.consumed@;
        let ghost mode = self.cfg.mode;
        let ghost rule = self.cfg.opener_rule;
        close_all(&mut self.stack, &mut self.pending, self.last_hi);
        self.done = true;
        proof {
            self.at_eof = Ghost(true);
            assert(self.produced@ + self.pending@ =~= layout_of(mode, rule, toks));
        }
    }

    /// Hand out the next pending layout token, if any.
    fn pop_pending(&mut self) -> (r: Option<LayoutToken<T>>)
        requires
            old(self).wf(),
        ensures
            final(self).wf(),
            final(self).is_done() == old(self).is_done(),
            final(self).ended() == old(self).ended(),
            final(self).config() == old(self).config(),
            final(self).source_bytes() == old(self).source_bytes(),
            final(self).inner_iter() == old(self).inner_iter(),
            final(self).consumed() == old(self).consumed(),
            final(self).open_brackets() == old(self).open_brackets(),
            old(self).pending().len() == 0 ==> r is None && final(self).produced() == old(
                self,
            ).produced() && final(self).pending() == old(self).pending(),
            old(self).pending().len() > 0 ==> r == Some(old(self).pending()[0])
                && final(self).produced() == old(self).produced().push(old(self).pending()[0]),
    {
        let r = self.pending.pop_front();
        let ghost gr = r;
        proof {
            match gr {
                Some(x) => {
                    let p2 = self.produced@.push(x);
                    assert(p2 + self.pending@ =~= old(self).produced@ + old(self).pending@);
                    self.produced = Ghost(p2);
                },
                None => {},
            }
        }
        r
    }

    /// What every call that advances the lexer keeps and promises: the
    /// invariant, the configuration and the source; at most one more token
    /// read; every token read is described by the source and the predicates;
    /// what has been handed out, followed by what is pending, is the layout of
    /// the tokens read.
    /// While tokens are pending, or once the stream is over, the inner
    /// iterator is left alone and nothing more is read.
    pub open spec fn advanced(before: Self, after: Self) -> bool {
        &&& after.wf()
        &&& after.config() == before.config()
        &&& after.source_bytes() == before.source_bytes()
        &&& after.consumed() == before.consumed() || (after.consumed().len()
            == before.consumed().len() + 1 && after.consumed().drop_last() == before.consumed())
        &&& after.open_brackets() <= before.open_brackets() + 1
        &&& after.ended() ==> after.is_done()
        &&& after.produced().is_prefix_of(
            output_for(after.config().mode, after.config().opener_rule, after.consumed(), after.ended()),
        )
        &&& after.produced() + after.pending() == output_for(
            after.config().mode,
            after.config().opener_rule,
            after.consumed(),
            after.ended(),
        )
        &&& forall|i: int|
            0 <= i < after.consumed().len() ==> describes(
                after.config(),
                after.source_bytes(),
                #[trigger] after.consumed()[i],
                run_state(
                    after.config().mode,
                    after.config().opener_rule,
                    after.consumed().take(i),
                ).bracket_depth > 0,
            )
        &&& before.is_done() || before.pending().len() > 0 ==> {
            &&& after.inner_iter() == before.inner_iter()
            &&& after.consumed() == before.consumed()
            &&& after.is_done() == before.is_done()
            &&& after.ended() == before.ended()
        }
    }

    /// A call that keeps the invariant and touches the input only as allowed
    /// has advanced the lexer.
    proof fn lemma_advanced(a: Self, b: Self)
        requires
            a.wf(),
            b.wf(),
            b.cfg == a.cfg,
            b.source_bytes() == a.source_bytes(),
            b.consumed@ == a.consumed@ || (b.consumed@.len() == a.consumed@.len() + 1
                && b.consumed@.drop_last() == a.consumed@),
            b.bracket_depth <= a.bracket_depth + 1,
            a.done || a.pending@.len() > 0 ==> {
                &&& b.inner == a.inner
                &&& b.consumed@ == a.consumed@
                &&& b.done == a.done
                &&& b.at_eof@ == a.at_eof@
            },
        ensures
            Self::advanced(a, b),
    {
        let out = output_for(b.cfg.mode, b.cfg.opener_rule, b.consumed@, b.at_eof@);
        assert(b.produced@ =~= out.subrange(0, b.produced@.len() as int));
    }

    /// After an error from the inner iterator the stream is over: nothing is
    /// pending, so every later call returns `None` without reading the inner
    /// iterator, and what was handed out is exactly the output for the tokens
    /// read before the error, ending with the last of them: the blocks still
    /// open at the error are never closed.
    pub proof fn law_error_ends_stream(&self)
        requires
            self.wf(),
            self.is_done(),
            !self.ended(),
        ensures
            self.pending().len() == 0,
            self.produced() == run_output(self.config().mode, self.config().opener_rule, self.consumed()),
            self.produced().len() == 0 || self.produced().last() is Real,
    {
        crate::laws::lemma_run_anchored(self.cfg.mode, self.cfg.opener_rule, self.consumed@);
        assert(self.produced@ + self.pending@ =~= self.produced@);
    }

    /// Advance: the next layout token, an error from the inner iterator, or
    /// `None` once the stream is over.
    ///
    /// Tokens are read from the inner iterator only when nothing is pending;
    /// what has been handed out is always a prefix of the layout of the
    /// tokens read so far, and all of it once `None` comes back. At most one
    /// item is read from the inner iterator per call: a token that is then
    /// consumed, an error that is handed on, or the end of input; where the
    /// inner iterator obeys the iterator laws, that item is the first of
    /// those it had yet to yield.
    #[verifier::rlimit(100)]
    #[verifier::spinoff_prover]
    pub fn next_event(&mut self) -> (ret: Option<Result<LayoutToken<T>, E>>)
        requires
            old(self).wf(),
            old(self).open_brackets() < usize::MAX,
        ensures
            Self::advanced(*old(self), *final(self)),
            old(self).pending().len() > 0 ==> ret == Some(Ok::<LayoutToken<T>, E>(old(self).pending()[0])),
            old(self).pending().len() == 0 && old(self).is_done() ==> ret is None,
            match ret {
                Some(Ok(x)) => final(self).produced() == old(self).produced().push(x),
                Some(Err(_)) => {
                    &&& final(self).produced() == old(self).produced()
                    &&& final(self).is_done()
                    &&& !final(self).ended()
                    &&& !old(self).is_done()
                    &&& final(self).pending().len() == 0
                },
                None => {
                    &&& final(self).produced() == old(self).produced()
                    &&& final(self).is_done()
                    &&& old(self).is_done() || final(self).ended()
                    &&& final(self).pending().len() == 0
                },
            },
            !(ret matches Some(Ok(_))) ==> final(self).produced() == output_for(
                final(self).config().mode,
                final(self).config().opener_rule,
                final(self).consumed(),
                final(self).ended(),
            ),
            !old(self).is_done() && old(self).pending().len() == 0 ==> {
                let rem = old(self).inner_iter().remaining();
                let laws = old(self).inner_iter().obeys_prophetic_iter_laws();
                let after = final(self).inner_iter().remaining();
                &&& laws ==> final(self).inner_iter().obeys_prophetic_iter_laws()
                &&& {
                    ||| {
                        &&& final(self).consumed().len() == old(self).consumed().len() + 1
                        &&& ret is Some
                        &&& !final(self).is_done()
                        &&& laws ==> rem.len() > 0 && after == rem.drop_first() && rem[0] == Ok::<
                            (usize, T, usize),
                            E,
                        >(
                            (
                                final(self).consumed().last().lo,
                                final(self).consumed().last().tok,
                                final(self).consumed().last().hi,
                            ),
                        )
                }
                ||| {
                    &&& ret matches Some(Err(e))
                    &&& final(self).consumed() == old(self).consumed()
                    &&& laws ==> rem.len() > 0 && after == rem.drop_first() && rem[0] == Err::<
                        (usize, T, usize),
                        E,
                    >(ret->0->Err_0)
                }
                ||| {
                    &&& final(self).ended()
                    &&& final(self).consumed() == old(self).consumed()
                    &&& laws ==> rem.len() == 0
                }
                }
            },
    {
        let ghost a = *self;
        if let Some(x) = self.pop_pending() {
            proof {
                Self::lemma_advanced(a, *self);
            }
            return Some(Ok(x));
        }
        if self.done {
            proof {
                Self::lemma_advanced(a, *self);
            }
            return None;
        }
        match self.inner.next() {
            None => {
                self.drain_eof();
                let r = self.pop_pending();
                proof {
                    Self::lemma_advanced(a, *self);
                }
                match r {
                    Some(x) => Some(Ok(x)),
                    None => None,
                }
            },
            Some(Err(e)) => {
                self.done = true;
                proof {
                    Self::lemma_advanced(a, *self);
                }
                Some(Err(e))
            },
            Some(Ok((lo, tok, hi))) => {
                self.handle_token(lo, tok, hi);
                let r = self.pop_pending();
                proof {
                    Self::lemma_advanced(a, *self);
                }
                match r {
                    Some(x) => Some(Ok(x)),
                    None => None,
                }
            },
        }
    }

    /// Advance: the next item of the output stream, with the virtual tokens
    /// built by [`Layout::v_open`], [`Layout::v_close`] and
    /// [`Layout::v_sep`], an error from the inner iterator, or `None` once
    /// the stream is over.
    pub fn next(&mut self) -> (ret: Option<Result<(usize, T, usize), E>>) where T: Layout
        requires
            old(self).wf(),
            old(self).open_brackets() < usize::MAX,
        ensures
            Self::advanced(*old(self), *final(self)),
            old(self).pending().len() > 0 ==> (ret matches Some(Ok(x)) && item_for(
                old(self).pending()[0],
                x,
            )),
            old(self).pending().len() == 0 && old(self).is_done() ==> ret is None,
            match ret {
                Some(Ok(x)) => {
                    &&& final(self).produced().len() == old(self).produced().len() + 1
                    &&& final(self).produced().drop_last() == old(self).produced()
                    &&& item_for(final(self).produced().last(), x)
                },
                Some(Err(_)) => {
                    &&& final(self).produced() == old(self).produced()
                    &&& final(self).is_done()
                    &&& !final(self).ended()
                    &&& !old(self).is_done()
                    &&& final(self).pending().len() == 0
                },
                None => {
                    &&& final(self).produced() == old(self).produced()
                    &&& final(self).is_done()
                    &&& old(self).is_done() || final(self).ended()
                    &&& final(self).pending().len() == 0
                },
            },
            !(ret matches Some(Ok(_))) ==> final(self).produced() == output_for(
                final(self).config().mode,
                final(self).config().opener_rule,
                final(self).consumed(),
                final(self).ended(),
            ),
            !old(self).is_done() && old(self).pending().len() == 0 ==> {
                let rem = old(self).inner_iter().remaining();
                let laws = old(self).inner_iter().obeys_prophetic_iter_laws();
                let after = final(self).inner_iter().remaining();
                &&& laws ==> final(self).inner_iter().obeys_prophetic_iter_laws()
                &&& {
                    ||| {
                        &&& final(self).consumed().len() == old(self).consumed().len() + 1
                        &&& ret is Some
                        &&& !final(self).is_done()
                        &&& laws ==> rem.len() > 0 && after == rem.drop_first() && rem[0] == Ok::<
                            (usize, T, usize),
                            E,
                        >(
                            (
                                final(self).consumed().last().lo,
                                final(self).consumed().last().tok,
                                final(self).consumed().last().hi,
                            ),
                        )
                }
                ||| {
                    &&& ret matches Some(Err(e))
                    &&& final(self).consumed() == old(self).consumed()
                    &&& laws ==> rem.len() > 0 && after == rem.drop_first() && rem[0] == Err::<
                        (usize, T, usize),
                        E,
                    >(ret->0->Err_0)
                }
                ||| {
                    &&& final(self).ended()
                    &&& final(self).consumed() == old(self).consumed()
                    &&& laws ==> rem.len() == 0
                }
                }
            },
    {
        match self.next_event() {
            Some(Ok(t)) => {
                let x = to_item(t);
                assert(self.produced@.drop_last() =~= old(self).produced@);
                Some(Ok(x))
            },
            Some(Err(e)) => Some(Err(e)),
            None => None,
        }
    }

    /// Wrap `inner`, whose spans are byte offsets into `source`. Every line
    /// of `source` must be at most `usize::MAX` columns wide at the
    /// configured tab width (see [`crate::column::columns_fit`]).
    pub fn new(inner: I, source: &str, cfg: LayoutConfig<P>) -> (lx: Self)
        requires
            cfg.predicates_total::<T>(),
            widths_fit(source.spec_bytes(), cfg.tab_width as nat),
        ensures
            lx.wf(),
            lx.inner_iter() == inner,
            lx.config() == cfg,
            lx.source_bytes() == source.spec_bytes(),
            lx.consumed() == Seq::<TokenAt<T>>::empty(),
            lx.produced() == Seq::<LayoutToken<T>>::empty(),
            lx.pending() == Seq::<LayoutToken<T>>::empty(),
            !lx.is_done(),
            !lx.ended(),
            lx.open_brackets() == 0,
    {
        let bytes = source.as_bytes();
        let owned = source.to_owned();
        let cols = ColumnIndex::new(source);
        let _n: usize = bytes.len();
        LayoutLexer {
            inner,
            source: owned,
            cols,
            cfg,
            stack: IndentStack::default(),
            pending: VecDeque::new(),
            pending_opener: false,
            carrying: false,
            bracket_depth: 0,
            prev_line: None,
            last_hi: 0,
            done: false,
            consumed: Ghost(Seq::empty()),
            produced: Ghost(Seq::empty()),
            at_eof: Ghost(false),
            _marker: PhantomData,
        }
    }
}

} // verus!
