//! Indent-stack state for the layout algorithm.
use vstd::prelude::*;

verus! {

/// Stack of the indentation columns of the open layout blocks, innermost
/// last.
#[derive(Debug)]
pub struct IndentStack {
    frames: Vec<usize>,
}

/// What a token that starts a new line does to the innermost block.
#[derive(Clone, Copy, Debug, PartialEq, Eq, Structural)]
pub enum CloseStep {
    /// Pop the frame and emit a virtual close.
    Pop,
    /// Emit a virtual separator (sibling at same indent).
    Separator,
    /// No layout action needed (column is deeper than the current frame, or
    /// the stack is empty).
    NoAction,
}

/// The step that a token at `col` takes against the frames `frames`.
pub open spec fn step_of(frames: Seq<usize>, col: usize) -> CloseStep {
    if frames.len() == 0 {
        CloseStep::NoAction
    } else if frames.last() > col {
        CloseStep::Pop
    } else if frames.last() == col {
        CloseStep::Separator
    } else {
        CloseStep::NoAction
    }
}

impl View for IndentStack {
    type V = Seq<usize>;

    closed spec fn view(&self) -> Seq<usize> {
        self.frames@
    }
}

impl Clone for IndentStack {
    fn clone(&self) -> (res: Self)
        ensures
            res@ == self@,
    {
        IndentStack { frames: self.frames.clone() }
    }
}

impl Default for IndentStack {
    fn default() -> (s: Self)
        ensures
            s@ == Seq::<usize>::empty(),
    {
        IndentStack { frames: Vec::new() }
    }
}

impl IndentStack {
    /// Open a block at column `col`.
    pub fn push(&mut self, col: usize)
        ensures
            final(self)@ == old(self)@.push(col),
    {
        self.frames.push(col);
    }

    /// Column of the innermost block, if any.
    pub fn top(&self) -> (t: Option<usize>)
        ensures
            t == (if self@.len() == 0 {
                None
            } else {
                Some(self@.last())
            }),
    {
        let n = self.frames.len();
        if n == 0 {
            None
        } else {
            Some(self.frames[n - 1])
        }
    }

    /// Close the innermost block, returning its column.
    pub fn pop(&mut self) -> (t: Option<usize>)
        ensures
            old(self)@.len() == 0 ==> t == None::<usize> && final(self)@ == old(self)@,
            old(self)@.len() > 0 ==> t == Some(old(self)@.last()) && final(self)@ == old(
                self,
            )@.drop_last(),
    {
        self.frames.pop()
    }

    /// Number of open blocks.
    pub fn depth(&self) -> (d: usize)
        ensures
            d == self@.len(),
    {
        self.frames.len()
    }

    /// Compute the next layout action when a token appears at `col` after a
    /// line break: `Pop` if the innermost block is indented deeper than
    /// `col`, `Separator` if it is exactly at `col`, `NoAction` otherwise.
    pub fn step(&self, col: usize) -> (s: CloseStep)
        ensures
            s == step_of(self@, col),
    {
        match self.top() {
            Some(top) => {
                if top > col {
                    CloseStep::Pop
                } else if top == col {
                    CloseStep::Separator
                } else {
                    CloseStep::NoAction
                }
            },
            None => CloseStep::NoAction,
        }
    }
}

} // verus!
