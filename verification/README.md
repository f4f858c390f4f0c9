# offsides

A layout-sensitive (off-side rule) lexer adapter, verified with Verus.

`LayoutLexer` wraps a stream of spanned tokens `Result<(usize, T, usize), E>`
and splices in virtual open, separator and close tokens driven by
indentation, so that a parser can treat layout blocks like braces and
semicolons. Haskell-style layout (`LayoutMode::Lazy`, blocks open after
opener keywords) and Python-style layout (`LayoutMode::Eager`, the whole input
is a block) are both configurations, with optional conditional openers,
bracket groups that suppress layout, and carry openers.

Layout:

- `src/` is the verified library. `rules.rs` states the layout rule as a
  model over token streams; `lexer.rs` is proved to hand out, item by item,
  that model's output for the tokens it reads, with each virtual item built
  by the token type's constructor for its kind, ending only when the input
  ends or fails; `laws.rs` proves what the model
  guarantees (real tokens pass through in order, opens and closes balance,
  virtual tokens sit at their anchors, brackets suppress layout, and more).
- `tests/` runs the library on concrete streams.
- `app/` offers the lexer as an `Iterator`, for parser generators that take
  one.
