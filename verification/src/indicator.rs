use vstd::prelude::*;

use crate::scalar::Scalar;

verus! {

/// A named series of values, one per bar, computed before the backtest runs.
pub struct Indicator<P> {
    pub name: String,
    pub values: Vec<P>,
    pub plot: bool,
    pub overlay: bool,
    pub scatter: bool,
}

impl<P: Scalar> Indicator<P> {
    /// A plotted, non-overlay, non-scatter indicator.
    pub fn new(name: String, values: Vec<P>) -> (r: Self)
        ensures
            r.name == name,
            r.values == values,
            r.plot,
            !r.overlay,
            !r.scatter,
    {
        Indicator { name, values, plot: true, overlay: false, scatter: false }
    }

    pub fn plot(self, plot: bool) -> (r: Self)
        ensures
            r == (Indicator { plot, ..self }),
    {
        let mut s = self;
        s.plot = plot;
        s
    }

    pub fn overlay(self, overlay: bool) -> (r: Self)
        ensures
            r == (Indicator { overlay, ..self }),
    {
        let mut s = self;
        s.overlay = overlay;
        s
    }

    /// The number of leading values that are not a number: the bars that the
    /// indicator needs before it has a value.
    pub fn warmup_bars(&self) -> (r: usize)
        ensures
            r <= self.values@.len(),
    {
        let mut n: usize = 0;
        while n < self.values.len()
            invariant
                n <= self.values@.len(),
            decreases self.values@.len() - n,
        {
            if !self.values[n].is_nan() {
                break;
            }
            n = n + 1;
        }
        n
    }

    /// The values up to and including bar `index` (all of them when `index`
    /// is past the end).
    pub fn as_of(&self, index: usize) -> (r: &[P])
        requires
            self.values@.len() > 0,
        ensures
            r@ == self.values@.subrange(
                0,
                if index < self.values@.len() {
                    index + 1
                } else {
                    self.values@.len() as int
                },
            ),
    {
        let last = self.values.len() - 1;
        let end = if index < last {
            index
        } else {
            last
        };
        vstd::slice::slice_subrange(self.values.as_slice(), 0, end + 1)
    }

    pub fn value_at(&self, index: usize) -> (r: P)
        requires
            index < self.values@.len(),
        ensures
            r == self.values@[index as int],
    {
        self.values[index]
    }
}

/// The first bar at which every indicator has a value: one past the longest
/// warm-up.
pub fn warmup_start_bar<P: Scalar>(indicators: &[Indicator<P>]) -> (r: usize)
    ensures
        r >= 1,
        indicators@.len() == 0 ==> r == 1,
        indicators@.len() > 0 ==> exists|i: int|
            0 <= i < indicators@.len() && r <= #[trigger] indicators@[i].values@.len() + 1,
{
    let mut best: usize = 0;
    let mut i: usize = 0;
    while i < indicators.len()
        invariant
            i <= indicators@.len(),
            i == 0 ==> best == 0,
            i > 0 ==> exists|k: int| 0 <= k < i && best <= indicators@[k].values@.len(),
        decreases indicators@.len() - i,
    {
        let w = indicators[i].warmup_bars();
        if w > best {
            best = w;
        }
        i = i + 1;
    }
    // A warm-up is at most the length of a vector, which is below
    // `usize::MAX` for any element type that takes memory.
    best.saturating_add(1)
}

} // verus!
