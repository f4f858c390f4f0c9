//! Public configuration types for layout-sensitive lexing.
use vstd::prelude::*;
use vstd::string::StringExecFns;

verus! {

/// Token types that participate in layout implement `Layout` so that the
/// lexer can construct the virtual open/close/separator tokens it splices
/// into the stream.
///
/// The user's token enum picks names for these three variants (e.g.
/// `VOpen`/`VClose`/`VSemi`, or `Indent`/`Dedent`/`Newline`). Which real
/// tokens open a block is configured separately, in [`LayoutConfig`].
pub trait Layout: Sized + 'static {
    /// Construct a virtual open-block token.
    fn v_open() -> Self;

    /// Construct a virtual close-block token.
    fn v_close() -> Self;

    /// Construct a virtual separator (semicolon-equivalent) between siblings
    /// inside the same layout block.
    fn v_sep() -> Self;
}

/// Off-side rule variant.
#[derive(Clone, Copy, Debug, Default, Eq, PartialEq, Structural)]
pub enum LayoutMode {
    /// Haskell-style: a layout block only opens after a keyword identified by
    /// [`LayoutConfig::is_opener`]. Top-level tokens have no implicit block.
    #[default]
    Lazy,
    /// Python-style: the whole input is one layout block. The first token
    /// sets the top-level indent, every later indent change emits virtual
    /// tokens, and the top-level block closes only at end of input.
    Eager,
}

/// When does the token after an opener actually start a block?
#[derive(Clone, Copy, Debug, Default, Eq, PartialEq, Structural)]
pub enum OpenerRule {
    /// The next token always starts a block (Haskell report style).
    #[default]
    Always,
    /// The next token starts a block only if it begins a new line at deeper
    /// indentation than the enclosing block. Otherwise the opener is inert,
    /// so a one-liner like `let x = e` stays flat.
    Conditional,
}

/// What the configured predicates say of one token.
#[derive(Clone, Copy, Debug, PartialEq, Eq, Structural)]
pub struct TokenClass {
    /// The token opens a layout block.
    pub opener: bool,
    /// The token opens a bracket group.
    pub bracket_open: bool,
    /// The token closes a bracket group.
    pub bracket_close: bool,
    /// The token keeps its opener status across a following bracket group.
    pub carry: bool,
}

/// The decimal digit `d` as text.
pub open spec fn digit_text(d: nat) -> Seq<char> {
    if d == 0 {
        "0"@
    } else if d == 1 {
        "1"@
    } else if d == 2 {
        "2"@
    } else if d == 3 {
        "3"@
    } else if d == 4 {
        "4"@
    } else if d == 5 {
        "5"@
    } else if d == 6 {
        "6"@
    } else if d == 7 {
        "7"@
    } else if d == 8 {
        "8"@
    } else {
        "9"@
    }
}

/// `n` in decimal, without leading zeros.
pub open spec fn decimal_text(n: nat) -> Seq<char>
    decreases n,
{
    if n < 10 {
        digit_text(n)
    } else {
        decimal_text(n / 10) + digit_text(n % 10)
    }
}

/// `b` as `true` or `false`.
pub open spec fn bool_text(b: bool) -> Seq<char> {
    if b {
        "true"@
    } else {
        "false"@
    }
}

/// Name of an off-side rule variant.
pub open spec fn mode_text(m: LayoutMode) -> Seq<char> {
    match m {
        LayoutMode::Lazy => "Lazy"@,
        LayoutMode::Eager => "Eager"@,
    }
}

/// Name of an opener rule.
pub open spec fn rule_text(r: OpenerRule) -> Seq<char> {
    match r {
        OpenerRule::Always => "Always"@,
        OpenerRule::Conditional => "Conditional"@,
    }
}

fn append_digit(s: &mut String, d: usize)
    requires
        d < 10,
    ensures
        final(s)@ == old(s)@ + digit_text(d as nat),
{
    if d == 0 {
        s.append("0");
    } else if d == 1 {
        s.append("1");
    } else if d == 2 {
        s.append("2");
    } else if d == 3 {
        s.append("3");
    } else if d == 4 {
        s.append("4");
    } else if d == 5 {
        s.append("5");
    } else if d == 6 {
        s.append("6");
    } else if d == 7 {
        s.append("7");
    } else if d == 8 {
        s.append("8");
    } else {
        s.append("9");
    }
}

fn append_decimal(s: &mut String, n: usize)
    ensures
        final(s)@ == old(s)@ + decimal_text(n as nat),
    decreases n,
{
    if n >= 10 {
        append_decimal(s, n / 10);
    }
    append_digit(s, n % 10);
    proof {
        if n >= 10 {
            assert(s@ =~= old(s)@ + decimal_text(n as nat));
        }
    }
}

fn append_bool(s: &mut String, b: bool)
    ensures
        final(s)@ == old(s)@ + bool_text(b),
{
    if b {
        s.append("true");
    } else {
        s.append("false");
    }
}

/// Configuration for [`crate::LayoutLexer`].
///
/// The predicates are values of one callable type `P`, typically a plain
/// function pointer `fn(&T) -> bool`, so that no allocation is needed.
/// [`LayoutConfig::summary`] gives a printable summary.
#[derive(Clone)]
pub struct LayoutConfig<P> {
    /// Does this token start a layout block? The *next* token's column
    /// becomes the new block's indent level. For Haskell: `do | where | let |
    /// of`.
    pub is_opener: P,
    /// Does this token open a bracket group that suppresses layout? Typical:
    /// `( [ {`. While brackets are open no virtual tokens are emitted. `None`
    /// disables.
    pub is_bracket_open: Option<P>,
    /// Does this token close a bracket group? Pairs with `is_bracket_open`.
    /// `None` disables.
    pub is_bracket_close: Option<P>,
    /// Does this token keep its opener status across an immediately
    /// following bracket group on the same line? With `fn` in this set,
    /// `fn(x)` followed by an indented line opens a block after the closing
    /// paren. `None` disables.
    pub is_carry_opener: Option<P>,
    /// Off-side rule variant.
    pub mode: LayoutMode,
    /// Whether openers fire unconditionally or only on newline plus indent.
    pub opener_rule: OpenerRule,
    /// Columns per tab character. Defaults to `1`.
    pub tab_width: usize,
}

/// `f` is a predicate that may be called on every token.
pub open spec fn total_predicate<T, P: Fn(&T) -> bool>(f: P) -> bool {
    forall|t: &T| #[trigger] call_requires(f, (t,))
}

/// An optional predicate, absent or callable on every token.
pub open spec fn total_option<T, P: Fn(&T) -> bool>(f: Option<P>) -> bool {
    match f {
        Some(g) => total_predicate::<T, P>(g),
        None => true,
    }
}

/// `b` is what the optional predicate `f` may answer for `tok`; an absent
/// predicate answers `false`.
pub open spec fn answers<T, P: Fn(&T) -> bool>(f: Option<P>, tok: &T, b: bool) -> bool {
    match f {
        Some(g) => call_ensures(g, (tok,), b),
        None => !b,
    }
}

impl<P> LayoutConfig<P> {
    /// All the configured predicates may be called on any token.
    pub open spec fn predicates_total<T>(&self) -> bool where P: Fn(&T) -> bool {
        &&& total_predicate::<T, P>(self.is_opener)
        &&& total_option::<T, P>(self.is_bracket_open)
        &&& total_option::<T, P>(self.is_bracket_close)
        &&& total_option::<T, P>(self.is_carry_opener)
    }

    /// `c` is a classification of `tok` that the predicates may give. The
    /// bracket predicates are always asked; the opener and carry predicates
    /// only outside brackets, and inside them `c` says `false` for both.
    pub open spec fn classifies<T>(&self, tok: &T, c: TokenClass, in_brackets: bool) -> bool where
        P: Fn(&T) -> bool,
     {
        &&& answers::<T, P>(self.is_bracket_open, tok, c.bracket_open)
        &&& answers::<T, P>(self.is_bracket_close, tok, c.bracket_close)
        &&& if in_brackets {
            !c.opener && !c.carry
        } else {
            &&& call_ensures(self.is_opener, (tok,), c.opener)
            &&& answers::<T, P>(self.is_carry_opener, tok, c.carry)
        }
    }

    /// The configuration's settings as text, in the form
    /// `LayoutConfig { mode: Lazy, opener_rule: Always, tab_width: 1,
    /// has_brackets: false, has_carry_openers: false, .. }`.
    pub open spec fn summary_text(&self) -> Seq<char> {
        "LayoutConfig { mode: "@ + mode_text(self.mode) + ", opener_rule: "@ + rule_text(
            self.opener_rule,
        ) + ", tab_width: "@ + decimal_text(self.tab_width as nat) + ", has_brackets: "@
            + bool_text(self.is_bracket_open is Some) + ", has_carry_openers: "@ + bool_text(
            self.is_carry_opener is Some,
        ) + ", .. }"@
    }

    /// The summary ends by saying whether carry openers are configured
    /// (`true` exactly when there is a carry predicate), and just before that
    /// whether brackets are (`true` exactly when there is a bracket-open
    /// predicate).
    pub proof fn law_summary_flags(&self)
        ensures
            ({
                let s = self.summary_text();
                let c = if self.is_carry_opener is Some {
                    "true"@
                } else {
                    "false"@
                };
                let b = if self.is_bracket_open is Some {
                    "true"@
                } else {
                    "false"@
                };
                let tail = ", has_carry_openers: "@ + c + ", .. }"@;
                let rest = s.subrange(0, s.len() - tail.len());
                let btail = ", has_brackets: "@ + b;
                &&& tail.len() <= s.len()
                &&& s.subrange(s.len() - tail.len(), s.len() as int) == tail
                &&& btail.len() <= rest.len()
                &&& rest.subrange(rest.len() - btail.len(), rest.len() as int) == btail
            }),
    {
        let s = self.summary_text();
        let c = bool_text(self.is_carry_opener is Some);
        let b = bool_text(self.is_bracket_open is Some);
        let head = "LayoutConfig { mode: "@ + mode_text(self.mode) + ", opener_rule: "@ + rule_text(
            self.opener_rule,
        ) + ", tab_width: "@ + decimal_text(self.tab_width as nat);
        let tail = ", has_carry_openers: "@ + c + ", .. }"@;
        let btail = ", has_brackets: "@ + b;
        assert(s =~= (head + btail) + tail);
        let rest = s.subrange(0, s.len() - tail.len());
        assert(rest =~= head + btail);
        assert(s.subrange(s.len() - tail.len(), s.len() as int) =~= tail);
        assert(rest.subrange(rest.len() - btail.len(), rest.len() as int) =~= btail);
    }

    /// A printable summary of the settings: mode, opener rule, tab width,
    /// and whether brackets and carry openers are configured.
    pub fn summary(&self) -> (r: String)
        ensures
            r@ == self.summary_text(),
    {
        let mut s = String::new();
        s.append("LayoutConfig { mode: ");
        match self.mode {
            LayoutMode::Lazy => s.append("Lazy"),
            LayoutMode::Eager => s.append("Eager"),
        }
        s.append(", opener_rule: ");
        match self.opener_rule {
            OpenerRule::Always => s.append("Always"),
            OpenerRule::Conditional => s.append("Conditional"),
        }
        s.append(", tab_width: ");
        append_decimal(&mut s, self.tab_width);
        s.append(", has_brackets: ");
        append_bool(&mut s, self.is_bracket_open.is_some());
        s.append(", has_carry_openers: ");
        append_bool(&mut s, self.is_carry_opener.is_some());
        s.append(", .. }");
        s
    }

    /// Build a config with the given opener predicate, no brackets, no carry
    /// openers, `Lazy` mode, `Always` openers, and `tab_width = 1`.
    #[must_use]
    pub fn new(is_opener: P) -> (cfg: Self)
        ensures
            cfg.is_opener == is_opener,
            cfg.is_bracket_open is None,
            cfg.is_bracket_close is None,
            cfg.is_carry_opener is None,
            cfg.mode == LayoutMode::Lazy,
            cfg.opener_rule == OpenerRule::Always,
            cfg.tab_width == 1,
    {
        LayoutConfig {
            is_opener,
            is_bracket_open: None,
            is_bracket_close: None,
            is_carry_opener: None,
            mode: LayoutMode::Lazy,
            opener_rule: OpenerRule::Always,
            tab_width: 1,
        }
    }

    /// Enable bracket pairs that suppress layout while open.
    #[must_use]
    pub fn with_brackets(self, open: P, close: P) -> (cfg: Self)
        ensures
            cfg == (LayoutConfig {
                is_bracket_open: Some(open),
                is_bracket_close: Some(close),
                ..self
            }),
    {
        LayoutConfig { is_bracket_open: Some(open), is_bracket_close: Some(close), ..self }
    }

    /// Enable carry openers: tokens whose opener status survives an
    /// immediately following bracket group started on the same line.
    #[must_use]
    pub fn with_carry_openers(self, is_carry: P) -> (cfg: Self)
        ensures
            cfg == (LayoutConfig { is_carry_opener: Some(is_carry), ..self }),
    {
        LayoutConfig { is_carry_opener: Some(is_carry), ..self }
    }

    /// Set the off-side rule variant.
    #[must_use]
    pub fn with_mode(self, mode: LayoutMode) -> (cfg: Self)
        ensures
            cfg == (LayoutConfig { mode, ..self }),
    {
        LayoutConfig { mode, ..self }
    }

    /// Set when openers fire.
    #[must_use]
    pub fn with_opener_rule(self, rule: OpenerRule) -> (cfg: Self)
        ensures
            cfg == (LayoutConfig { opener_rule: rule, ..self }),
    {
        LayoutConfig { opener_rule: rule, ..self }
    }

    /// Set the tab-to-column expansion.
    #[must_use]
    pub fn with_tab_width(self, tab_width: usize) -> (cfg: Self)
        ensures
            cfg == (LayoutConfig { tab_width, ..self }),
    {
        LayoutConfig { tab_width, ..self }
    }

    /// Ask the predicates about `tok`: the bracket predicates always, the
    /// opener and carry predicates only outside brackets.
    pub fn classify<T>(&self, tok: &T, in_brackets: bool) -> (c: TokenClass) where
        P: Fn(&T) -> bool,

        requires
            self.predicates_total::<T>(),
        ensures
            self.classifies(tok, c, in_brackets),
    {
        let bracket_open = match &self.is_bracket_open {
            Some(f) => f(tok),
            None => false,
        };
        let bracket_close = match &self.is_bracket_close {
            Some(f) => f(tok),
            None => false,
        };
        if in_brackets {
            return TokenClass { opener: false, bracket_open, bracket_close, carry: false };
        }
        let opener = (self.is_opener)(tok);
        let carry = match &self.is_carry_opener {
            Some(f) => f(tok),
            None => false,
        };
        TokenClass { opener, bracket_open, bracket_close, carry }
    }
}

} // verus!
