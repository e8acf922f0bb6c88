//! How far edits move the text behind them.
use vstd::prelude::*;

verus! {

/// How far edits have moved what stands behind them.
pub struct Drift {
    pub grown: u128,
    pub shrunk: u128,
}

impl View for Drift {
    type V = int;

    open spec fn view(&self) -> int {
        self.grown - self.shrunk
    }
}

impl Drift {
    /// No more than `n` edits have been counted.
    pub open spec fn within(self, n: int) -> bool {
        self.grown <= n * usize::MAX && self.shrunk <= n * usize::MAX
    }

    pub fn new() -> (result: Drift)
        ensures
            result@ == 0,
            result.within(0),
    {
        Drift { grown: 0, shrunk: 0 }
    }

    /// Counts one more edit.
    pub fn count(&mut self, grown: usize, shrunk: usize, Ghost(n): Ghost<int>)
        requires
            old(self).within(n),
            0 <= n < usize::MAX,
        ensures
            final(self)@ == old(self)@ + grown - shrunk,
            final(self).within(n + 1),
    {
        proof {
            lemma_room(n, usize::MAX as int);
        }
        self.grown = self.grown + grown as u128;
        self.shrunk = self.shrunk + shrunk as u128;
    }

    /// Where an offset has moved to.
    pub fn place(&self, offset: usize, Ghost(n): Ghost<int>) -> (result: Option<usize>)
        requires
            self.within(n),
            0 <= n <= usize::MAX,
        ensures
            match result {
                Some(place) => place == offset + self@,
                None => !(0 <= offset + self@ <= usize::MAX),
            },
    {
        proof {
            lemma_square(n, usize::MAX as int);
        }
        let reached: u128 = self.grown + offset as u128;
        if reached >= self.shrunk && reached - self.shrunk <= usize::MAX as u128 {
            Some((reached - self.shrunk) as usize)
        } else {
            None
        }
    }
}

impl Drift {
    /// Where an offset has come from.
    pub fn origin(&self, offset: usize, Ghost(n): Ghost<int>) -> (result: Option<usize>)
        requires
            self.within(n),
            0 <= n <= usize::MAX,
        ensures
            match result {
                Some(place) => place == offset - self@,
                None => !(0 <= offset - self@ <= usize::MAX),
            },
    {
        proof {
            lemma_square(n, usize::MAX as int);
        }
        let reached: u128 = self.shrunk + offset as u128;
        if reached >= self.grown && reached - self.grown <= usize::MAX as u128 {
            Some((reached - self.grown) as usize)
        } else {
            None
        }
    }
}

proof fn lemma_room(n: int, m: int)
    by (nonlinear_arith)
    requires
        0 <= n < m,
        m <= 0xffff_ffff_ffff_ffff,
    ensures
        n * m + m == (n + 1) * m,
        n * m + m <= 0xffff_ffff_ffff_ffff * 0xffff_ffff_ffff_ffff,
{
}

proof fn lemma_square(n: int, m: int)
    by (nonlinear_arith)
    requires
        0 <= n <= m,
        m <= 0xffff_ffff_ffff_ffff,
    ensures
        n * m <= 0xffff_ffff_ffff_ffff * 0xffff_ffff_ffff_ffff,
{
}

} // verus!
