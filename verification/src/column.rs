//! Byte-offset to (line, column) lookups.
use vstd::prelude::*;
use vstd::string::StringSliceAdditionalSpecFns;

verus! {

/// Columns taken by one byte: a tab counts `tab` columns, any other byte
/// (UTF-8 continuation bytes included) counts one.
pub open spec fn byte_width(b: u8, tab: nat) -> nat {
    if b == 9u8 {
        tab
    } else {
        1
    }
}

/// Columns taken by a run of bytes.
pub open spec fn expanded_width(bytes: Seq<u8>, tab: nat) -> nat
    decreases bytes.len(),
{
    if bytes.len() == 0 {
        0
    } else {
        expanded_width(bytes.drop_last(), tab) + byte_width(bytes.last(), tab)
    }
}

/// Byte offsets at which the lines of `bytes` start: offset 0, then one past
/// every newline byte.
pub open spec fn line_starts_of(bytes: Seq<u8>) -> Seq<usize>
    decreases bytes.len(),
{
    if bytes.len() == 0 {
        seq![0usize]
    } else {
        let prev = line_starts_of(bytes.drop_last());
        if bytes.last() == 10u8 {
            prev.push(bytes.len() as usize)
        } else {
            prev
        }
    }
}

/// A table of line starts: starts at 0 and strictly increases.
pub open spec fn starts_ok(starts: Seq<usize>) -> bool {
    &&& starts.len() >= 1
    &&& starts[0] == 0
    &&& forall|i: int, j: int| 0 <= i < j < starts.len() ==> starts[i] < starts[j]
}

/// `i` is the line holding `offset`: its start is at or before `offset`, and
/// the next line (if any) starts after `offset`.
pub open spec fn is_line_of(starts: Seq<usize>, offset: int, i: int) -> bool {
    &&& 0 <= i < starts.len()
    &&& starts[i] <= offset
    &&& i + 1 < starts.len() ==> offset < starts[i + 1]
}

/// The line (0-based) that holds byte `offset`.
pub open spec fn line_of(starts: Seq<usize>, offset: int) -> int {
    choose|i: int| is_line_of(starts, offset, i)
}

/// Column of byte `offset`: the expanded width of the bytes between the
/// start of its line and `offset`, every byte counted (UTF-8 continuation
/// bytes included); 0 for an offset past the end of the text.
pub open spec fn column_of(bytes: Seq<u8>, starts: Seq<usize>, offset: int, tab: nat) -> nat {
    let start = starts[line_of(starts, offset)] as int;
    if start <= offset <= bytes.len() {
        expanded_width(bytes.subrange(start, offset), tab)
    } else {
        0
    }
}

/// Every line of `bytes` has an expanded width that fits in a `usize`.
pub open spec fn widths_fit(bytes: Seq<u8>, tab: nat) -> bool {
    forall|a: int, b: int|
        0 <= a <= b <= bytes.len() && (forall|k: int| a <= k < b ==> bytes[k] != 10u8)
            ==> #[trigger] expanded_width(bytes.subrange(a, b), tab) <= usize::MAX
}

/// A prefix is never wider than the whole.
pub proof fn lemma_width_prefix(bytes: Seq<u8>, n: int, tab: nat)
    requires
        0 <= n <= bytes.len(),
    ensures
        expanded_width(bytes.take(n), tab) <= expanded_width(bytes, tab),
    decreases bytes.len(),
{
    if n < bytes.len() {
        lemma_width_prefix(bytes.drop_last(), n, tab);
        assert(bytes.drop_last().take(n) =~= bytes.take(n));
    } else {
        assert(bytes.take(n) =~= bytes);
    }
}

/// At most one line holds a given offset.
pub proof fn lemma_line_unique(starts: Seq<usize>, offset: int, i: int, j: int)
    requires
        starts_ok(starts),
        is_line_of(starts, offset, i),
        is_line_of(starts, offset, j),
    ensures
        i == j,
{
    if i < j {
        assert(starts[i + 1] <= starts[j]);
    } else if j < i {
        assert(starts[j + 1] <= starts[i]);
    }
}

/// The line starts of a text form a well-formed table within the text.
pub proof fn lemma_line_starts_ok(bytes: Seq<u8>)
    requires
        bytes.len() <= usize::MAX,
    ensures
        starts_ok(line_starts_of(bytes)),
        forall|j: int|
            0 <= j < line_starts_of(bytes).len() ==> line_starts_of(bytes)[j] <= bytes.len(),
    decreases bytes.len(),
{
    if bytes.len() > 0 {
        lemma_line_starts_ok(bytes.drop_last());
    }
}

/// One past every newline, a line starts.
pub proof fn lemma_newline_starts_line(bytes: Seq<u8>, k: int)
    requires
        bytes.len() <= usize::MAX,
        0 <= k < bytes.len(),
        bytes[k] == 10u8,
    ensures
        exists|j: int| 0 <= j < line_starts_of(bytes).len() && line_starts_of(bytes)[j] == k + 1,
    decreases bytes.len(),
{
    let starts = line_starts_of(bytes);
    if k == bytes.len() - 1 {
        assert(starts[starts.len() - 1] == k + 1);
    } else {
        assert(bytes.drop_last()[k] == bytes[k]);
        lemma_newline_starts_line(bytes.drop_last(), k);
        let prev = line_starts_of(bytes.drop_last());
        let j = choose|j: int| 0 <= j < prev.len() && prev[j] == k + 1;
        assert(starts[j] == prev[j]);
    }
}

/// Every offset lies on some line.
pub proof fn lemma_line_exists(starts: Seq<usize>, offset: int)
    requires
        starts_ok(starts),
        offset >= 0,
    ensures
        is_line_of(starts, offset, line_of(starts, offset)),
    decreases starts.len(),
{
    if starts.len() == 1 {
        assert(is_line_of(starts, offset, 0));
    } else if starts.last() <= offset {
        assert(is_line_of(starts, offset, starts.len() - 1));
    } else {
        let prev = starts.drop_last();
        assert(starts_ok(prev));
        lemma_line_exists(prev, offset);
        let i = line_of(prev, offset);
        assert(is_line_of(starts, offset, i));
    }
}

/// Where every line fits, every column fits.
pub proof fn lemma_column_fits(bytes: Seq<u8>, offset: int, tab: nat)
    requires
        bytes.len() <= usize::MAX,
        widths_fit(bytes, tab),
        offset >= 0,
    ensures
        column_of(bytes, line_starts_of(bytes), offset, tab) <= usize::MAX,
{
    let starts = line_starts_of(bytes);
    lemma_line_starts_ok(bytes);
    lemma_line_exists(starts, offset);
    let line = line_of(starts, offset);
    let start = starts[line] as int;
    if start <= offset <= bytes.len() {
        assert forall|k: int| start <= k < offset implies bytes[k] != 10u8 by {
            if bytes[k] == 10u8 {
                lemma_newline_starts_line(bytes, k);
                let j = choose|j: int| 0 <= j < starts.len() && starts[j] == k + 1;
                if j <= line {
                    assert(starts[j] <= starts[line]);
                } else {
                    assert(starts[line + 1] <= starts[j]);
                }
            }
        }
        assert(expanded_width(bytes.subrange(start, offset), tab) <= usize::MAX);
    }
}

/// Widths add up over concatenation.
pub proof fn lemma_width_concat(x: Seq<u8>, y: Seq<u8>, tab: nat)
    ensures
        expanded_width(x + y, tab) == expanded_width(x, tab) + expanded_width(y, tab),
    decreases y.len(),
{
    if y.len() == 0 {
        assert(x + y =~= x);
    } else {
        lemma_width_concat(x, y.drop_last(), tab);
        assert((x + y).drop_last() =~= x + y.drop_last());
    }
}

/// A range is never wider than a range that contains it and ends with it.
pub proof fn lemma_width_suffix(bytes: Seq<u8>, s: int, a: int, b: int, tab: nat)
    requires
        0 <= s <= a <= b <= bytes.len(),
    ensures
        expanded_width(bytes.subrange(a, b), tab) <= expanded_width(bytes.subrange(s, b), tab),
{
    assert(bytes.subrange(s, b) =~= bytes.subrange(s, a) + bytes.subrange(a, b));
    lemma_width_concat(bytes.subrange(s, a), bytes.subrange(a, b), tab);
}

/// Check that every column of `source` fits in a `usize` when each tab
/// counts `tab_width` columns.
pub fn columns_fit(source: &str, tab_width: usize) -> (r: bool)
    ensures
        r == widths_fit(source.spec_bytes(), tab_width as nat),
{
    let bytes = source.as_bytes();
    let n = bytes.len();
    let ghost tab = tab_width as nat;
    let ghost mut s: int = 0;
    let mut col: usize = 0;
    let mut i: usize = 0;
    assert(bytes@.subrange(0, 0) =~= Seq::<u8>::empty());
    while i < n
        invariant
            n == bytes@.len(),
            bytes@ == source.spec_bytes(),
            tab == tab_width as nat,
            0 <= s <= i <= n,
            forall|k: int| s <= k < i ==> bytes@[k] != 10u8,
            s > 0 ==> bytes@[s - 1] == 10u8,
            col as nat == expanded_width(bytes@.subrange(s, i as int), tab),
            forall|a: int, b: int|
                0 <= a <= b <= i && (forall|k: int| a <= k < b ==> bytes@[k] != 10u8)
                    ==> #[trigger] expanded_width(bytes@.subrange(a, b), tab) <= usize::MAX,
        decreases n - i,
    {
        let b = bytes[i];
        if b == 10u8 {
            proof {
                assert forall|a: int, c: int|
                    0 <= a <= c <= i + 1 && (forall|k: int| a <= k < c ==> bytes@[k] != 10u8)
                        implies #[trigger] expanded_width(bytes@.subrange(a, c), tab) <= usize::MAX by {
                    if c == i + 1 && a < c {
                        assert(bytes@[i as int] != 10u8);
                    }
                    if c == i + 1 && a == c {
                        assert(bytes@.subrange(a, c) =~= Seq::<u8>::empty());
                    }
                }
                s = i + 1;
                assert(bytes@.subrange(s, i + 1) =~= Seq::<u8>::empty());
            }
            col = 0;
        } else {
            let w: usize = if b == 9u8 {
                tab_width
            } else {
                1
            };
            proof {
                assert(bytes@.subrange(s, i + 1).drop_last() =~= bytes@.subrange(s, i as int));
            }
            if col > usize::MAX - w {
                proof {
                    assert(forall|k: int| s <= k < i + 1 ==> bytes@[k] != 10u8);
                    assert(expanded_width(bytes@.subrange(s, i + 1), tab) > usize::MAX);
                }
                return false;
            }
            col = col + w;
            proof {
                assert forall|a: int, c: int|
                    0 <= a <= c <= i + 1 && (forall|k: int| a <= k < c ==> bytes@[k] != 10u8)
                        implies #[trigger] expanded_width(bytes@.subrange(a, c), tab) <= usize::MAX by {
                    if c == i + 1 {
                        if a < s {
                            assert(bytes@[s - 1] == 10u8);
                        }
                        lemma_width_suffix(bytes@, s, a, c, tab);
                    }
                }
            }
        }
        i = i + 1;
    }
    true
}

/// Tabs in a run of bytes.
pub open spec fn tabs_in(s: Seq<u8>) -> nat {
    s.filter(|b: u8| b == 9u8).len()
}

/// A run of bytes is as wide as its bytes, each tab counting `tab` columns
/// instead of one.
pub proof fn law_width_counts(s: Seq<u8>, tab: nat)
    ensures
        expanded_width(s, tab) == (s.len() - tabs_in(s)) + tab * tabs_in(s),
        tabs_in(s) <= s.len(),
    decreases s.len(),
{
    reveal_with_fuel(Seq::filter, 1);
    if s.len() > 0 {
        law_width_counts(s.drop_last(), tab);
        let t = tabs_in(s.drop_last());
        let f = |b: u8| b == 9u8;
        assert(s.filter(f) == if f(s.last()) {
            s.drop_last().filter(f).push(s.last())
        } else {
            s.drop_last().filter(f)
        });
        assert(expanded_width(s, tab) == expanded_width(s.drop_last(), tab) + byte_width(
            s.last(),
            tab,
        ));
        if s.last() == 9u8 {
            assert(tabs_in(s) == t + 1);
            assert(tab * (t + 1) == tab * t + tab) by (nonlinear_arith);
            assert(tab * tabs_in(s) == tab * t + tab);
        } else {
            assert(tabs_in(s) == t);
            assert(tab * tabs_in(s) == tab * t);
        }
    } else {
        assert(s.filter(|b: u8| b == 9u8) =~= Seq::<u8>::empty());
        assert(tabs_in(s) == 0);
        assert(tab * 0 == 0);
    }
}

/// Lines start at offset 0 and one past each newline, and nowhere else.
pub proof fn law_lines_start_after_newlines(bytes: Seq<u8>)
    requires
        bytes.len() <= usize::MAX,
    ensures
        line_starts_of(bytes)[0] == 0,
        forall|j: int|
            0 < j < line_starts_of(bytes).len() ==> 1 <= #[trigger] line_starts_of(bytes)[j]
                <= bytes.len() && bytes[line_starts_of(bytes)[j] - 1] == 10u8,
        forall|k: int|
            0 <= k < bytes.len() && bytes[k] == 10u8 ==> exists|j: int|
                0 <= j < line_starts_of(bytes).len() && #[trigger] line_starts_of(bytes)[j] == k + 1,
    decreases bytes.len(),
{
    lemma_line_starts_ok(bytes);
    if bytes.len() > 0 {
        law_lines_start_after_newlines(bytes.drop_last());
        let prev = line_starts_of(bytes.drop_last());
        assert forall|j: int| 0 < j < line_starts_of(bytes).len() implies 1
            <= #[trigger] line_starts_of(bytes)[j] <= bytes.len() && bytes[line_starts_of(bytes)[j]
            - 1] == 10u8 by {
            if j < prev.len() {
                assert(line_starts_of(bytes)[j] == prev[j]);
                assert(bytes[prev[j] - 1] == bytes.drop_last()[prev[j] - 1]);
            }
        }
    }
    assert forall|k: int| 0 <= k < bytes.len() && bytes[k] == 10u8 implies exists|j: int|
        0 <= j < line_starts_of(bytes).len() && #[trigger] line_starts_of(bytes)[j] == k + 1 by {
        lemma_newline_starts_line(bytes, k);
    }
}

/// Line-start table of a source text.
#[derive(Debug)]
pub struct ColumnIndex {
    line_starts: Vec<usize>,
}

impl ColumnIndex {
    #[verifier::type_invariant]
    spec fn inv(self) -> bool {
        starts_ok(self.line_starts@)
    }

    /// The line starts, in increasing order.
    pub closed spec fn starts(&self) -> Seq<usize> {
        self.line_starts@
    }

    /// Index the line starts of `source`.
    pub fn new(source: &str) -> (idx: Self)
        ensures
            idx.starts() == line_starts_of(source.spec_bytes()),
    {
        let bytes = source.as_bytes();
        let mut line_starts: Vec<usize> = Vec::new();
        line_starts.push(0);
        let mut i: usize = 0;
        assert(bytes@.take(0) =~= Seq::<u8>::empty());
        while i < bytes.len()
            invariant
                0 <= i <= bytes@.len(),
                bytes@ == source.spec_bytes(),
                line_starts@ == line_starts_of(bytes@.take(i as int)),
                starts_ok(line_starts@),
                forall|k: int| 0 <= k < line_starts@.len() ==> line_starts@[k] <= i,
            decreases bytes@.len() - i,
        {
            let b = bytes[i];
            assert(bytes@.take(i + 1).drop_last() =~= bytes@.take(i as int));
            if b == 10u8 {
                line_starts.push(i + 1);
            }
            i = i + 1;
        }
        assert(bytes@.take(i as int) =~= bytes@);
        ColumnIndex { line_starts }
    }

    /// Line (0-based) of byte `offset`.
    pub fn line(&self, offset: usize) -> (line: usize)
        ensures
            is_line_of(self.starts(), offset as int, line as int),
            line as int == line_of(self.starts(), offset as int),
    {
        proof {
            use_type_invariant(self);
        }
        let n = self.line_starts.len();
        let mut lo: usize = 0;
        let mut hi: usize = n;
        while hi - lo > 1
            invariant
                n == self.line_starts@.len(),
                starts_ok(self.line_starts@),
                0 <= lo < hi <= n,
                self.line_starts@[lo as int] <= offset,
                hi < n ==> offset < self.line_starts@[hi as int],
            decreases hi - lo,
        {
            let mid = lo + (hi - lo) / 2;
            if self.line_starts[mid] <= offset {
                lo = mid;
            } else {
                hi = mid;
            }
        }
        proof {
            let c = line_of(self.starts(), offset as int);
            assert(is_line_of(self.starts(), offset as int, lo as int));
            lemma_line_unique(self.starts(), offset as int, c, lo as int);
        }
        lo
    }

    /// Column of byte `offset`, with each tab counted as `tab_width` columns
    /// and all other bytes (including UTF-8 continuation bytes) counted as 1.
    /// Layout decisions only need ordinal comparisons, not display width. An
    /// offset past the end of `source` has column 0.
    pub fn column(&self, source: &str, offset: usize, tab_width: usize) -> (col: usize)
        requires
            column_of(source.spec_bytes(), self.starts(), offset as int, tab_width as nat)
                <= usize::MAX,
        ensures
            col as nat == column_of(source.spec_bytes(), self.starts(), offset as int, tab_width as nat),
    {
        proof {
            use_type_invariant(self);
        }
        let line = self.line(offset);
        let start = self.line_starts[line];
        let bytes = source.as_bytes();
        let ghost tab = tab_width as nat;
        if start <= offset && offset <= bytes.len() {
            let ghost region = bytes@.subrange(start as int, offset as int);
            let mut col: usize = 0;
            let mut i: usize = start;
            assert(bytes@.subrange(start as int, start as int) =~= Seq::<u8>::empty());
            while i < offset
                invariant
                    start <= i <= offset <= bytes@.len(),
                    region == bytes@.subrange(start as int, offset as int),
                    expanded_width(region, tab) <= usize::MAX,
                    col as nat == expanded_width(bytes@.subrange(start as int, i as int), tab),
                    tab == tab_width as nat,
                decreases offset - i,
            {
                proof {
                    assert(bytes@.subrange(start as int, i + 1).drop_last() =~= bytes@.subrange(
                        start as int,
                        i as int,
                    ));
                    assert(region.take(i + 1 - start) =~= bytes@.subrange(start as int, i + 1));
                    lemma_width_prefix(region, i + 1 - start, tab);
                }
                if bytes[i] == 9u8 {
                    col = col + tab_width;
                } else {
                    col = col + 1;
                }
                i = i + 1;
            }
            col
        } else {
            0
        }
    }
}

impl Clone for ColumnIndex {
    fn clone(&self) -> (res: Self)
        ensures
            res.starts() == self.starts(),
    {
        proof {
            use_type_invariant(self);
        }
        ColumnIndex { line_starts: self.line_starts.clone() }
    }
}

} // verus!
