use vstd::prelude::*;

use crate::error::{BacktestError, BtResult};

verus! {

/// A column of the price data.
#[derive(Debug, Copy, PartialEq, Eq, Clone, Structural)]
pub enum Field {
    Open,
    High,
    Low,
    Close,
    Volume,
}

/// An element-by-element copy of `v`.
pub fn copy_values<P: Copy>(v: &Vec<P>) -> (r: Vec<P>)
    ensures
        r@ == v@,
{
    let mut r: Vec<P> = Vec::with_capacity(v.len());
    let mut i: usize = 0;
    while i < v.len()
        invariant
            i <= v@.len(),
            r@ == v@.subrange(0, i as int),
        decreases v@.len() - i,
    {
        r.push(v[i]);
        i = i + 1;
    }
    r
}

/// OHLCV bars with a timestamp index of type `I`, of which the first `len()`
/// are visible; the rest are the future that a backtest has not reached yet.
pub struct Data<P, I> {
    pub index: Vec<I>,
    open: Vec<P>,
    high: Vec<P>,
    low: Vec<P>,
    close: Vec<P>,
    volume: Vec<P>,
    curr: usize,
}

impl<P: Copy, I: Clone> Data<P, I> {
    /// All values of a column, visible or not.
    pub closed spec fn column(self, field: Field) -> Seq<P> {
        match field {
            Field::Open => self.open@,
            Field::High => self.high@,
            Field::Low => self.low@,
            Field::Close => self.close@,
            Field::Volume => self.volume@,
        }
    }

    /// All timestamps, visible or not.
    pub closed spec fn stamps(self) -> Seq<I> {
        self.index@
    }

    /// The number of bars, visible or not.
    pub closed spec fn total(self) -> nat {
        self.open@.len()
    }

    /// The number of visible bars.
    pub closed spec fn visible(self) -> nat {
        self.curr as nat
    }

    /// Every column and the index have the same, nonzero, length, and no more
    /// bars are visible than there are.
    pub closed spec fn wf(self) -> bool {
        &&& self.open@.len() > 0
        &&& self.high@.len() == self.open@.len()
        &&& self.low@.len() == self.open@.len()
        &&& self.close@.len() == self.open@.len()
        &&& self.volume@.len() == self.open@.len()
        &&& self.index@.len() == self.open@.len()
        &&& self.curr <= self.open@.len()
    }

    pub proof fn lemma_columns(self)
        requires
            self.wf(),
        ensures
            forall|f: Field| #[trigger] self.column(f).len() == self.total(),
            self.stamps().len() == self.total(),
            self.visible() <= self.total(),
            self.total() > 0,
    {
        assert forall|f: Field| #[trigger] self.column(f).len() == self.total() by {
            match f {
                Field::Open => {},
                Field::High => {},
                Field::Low => {},
                Field::Close => {},
                Field::Volume => {},
            }
        }
    }

    /// Bars from columns of one length; all bars are visible at first.
    /// Refused when there is no bar or the lengths differ.
    pub fn new(
        index: Vec<I>,
        open: Vec<P>,
        high: Vec<P>,
        low: Vec<P>,
        close: Vec<P>,
        volume: Vec<P>,
    ) -> (r: BtResult<Self>)
        ensures
            index@.len() == 0 ==> r is Err,
            (index@.len() > 0 && (open@.len() != index@.len() || high@.len() != index@.len()
                || low@.len() != index@.len() || close@.len() != index@.len()
                || volume@.len() != index@.len())) ==> r is Err,
            r is Ok <==> (index@.len() > 0 && open@.len() == index@.len() && high@.len()
                == index@.len() && low@.len() == index@.len() && close@.len() == index@.len()
                && volume@.len() == index@.len()),
            r matches Ok(d) ==> {
                &&& d.wf()
                &&& d.stamps() == index@
                &&& d.column(Field::Open) == open@
                &&& d.column(Field::High) == high@
                &&& d.column(Field::Low) == low@
                &&& d.column(Field::Close) == close@
                &&& d.column(Field::Volume) == volume@
                &&& d.visible() == index@.len()
            },
            r matches Err(e) ==> e is InvalidParameter,
    {
        let n = index.len();
        if n == 0 {
            return Err(BacktestError::InvalidParameter("data is empty".to_owned()));
        }
        if open.len() != n || high.len() != n || low.len() != n || close.len() != n || volume.len()
            != n {
            return Err(
                BacktestError::InvalidParameter("All OHLCV must have the same length".to_owned()),
            );
        }
        Ok(Data { index, open, high, low, close, volume, curr: n })
    }

    /// A copy of the bars, with the same bars visible.
    pub fn duplicate(&self) -> (r: Self)
        requires
            self.wf(),
        ensures
            r.wf(),
            r.total() == self.total(),
            r.visible() == self.visible(),
            r.stamps().len() == self.stamps().len(),
            forall|f: Field| #[trigger] r.column(f) == self.column(f),
    {
        Data {
            index: self.index.clone(),
            open: copy_values(&self.open),
            high: copy_values(&self.high),
            low: copy_values(&self.low),
            close: copy_values(&self.close),
            volume: copy_values(&self.volume),
            curr: self.curr,
        }
    }

    /// The number of bars, visible or not.
    pub fn full_len(&self) -> (r: usize)
        requires
            self.wf(),
        ensures
            r == self.total(),
    {
        self.open.len()
    }

    pub fn is_empty(&self) -> (r: bool)
        ensures
            r == (self.visible() == 0),
    {
        self.curr == 0
    }

    /// The number of visible bars.
    pub fn len(&self) -> (r: usize)
        ensures
            r == self.visible(),
    {
        self.curr
    }

    /// Makes the first `n` bars visible.
    pub fn set_length(&mut self, n: usize)
        requires
            old(self).wf(),
            n <= old(self).total(),
        ensures
            final(self).wf(),
            final(self).visible() == n,
            final(self).total() == old(self).total(),
            final(self).stamps() == old(self).stamps(),
            forall|f: Field| #[trigger] final(self).column(f) == old(self).column(f),
    {
        self.curr = n;
    }

    fn visible_part<'a>(&'a self, column: &'a Vec<P>) -> (r: &'a [P])
        requires
            self.curr <= column@.len(),
        ensures
            r@ == column@.subrange(0, self.curr as int),
    {
        vstd::slice::slice_subrange(column.as_slice(), 0, self.curr)
    }

    pub fn open(&self) -> (r: &[P])
        requires
            self.wf(),
        ensures
            r@ == self.column(Field::Open).subrange(0, self.visible() as int),
    {
        self.visible_part(&self.open)
    }

    pub fn high(&self) -> (r: &[P])
        requires
            self.wf(),
        ensures
            r@ == self.column(Field::High).subrange(0, self.visible() as int),
    {
        self.visible_part(&self.high)
    }

    pub fn low(&self) -> (r: &[P])
        requires
            self.wf(),
        ensures
            r@ == self.column(Field::Low).subrange(0, self.visible() as int),
    {
        self.visible_part(&self.low)
    }

    pub fn close(&self) -> (r: &[P])
        requires
            self.wf(),
        ensures
            r@ == self.column(Field::Close).subrange(0, self.visible() as int),
    {
        self.visible_part(&self.close)
    }

    pub fn volume(&self) -> (r: &[P])
        requires
            self.wf(),
        ensures
            r@ == self.column(Field::Volume).subrange(0, self.visible() as int),
    {
        self.visible_part(&self.volume)
    }

    /// The timestamps of the visible bars.
    pub fn index(&self) -> (r: &[I])
        requires
            self.wf(),
        ensures
            r@ == self.stamps().subrange(0, self.visible() as int),
    {
        vstd::slice::slice_subrange(self.index.as_slice(), 0, self.curr)
    }

    /// All closing prices, visible or not (for statistics).
    pub fn full_close(&self) -> (r: &[P])
        ensures
            r@ == self.column(Field::Close),
    {
        self.close.as_slice()
    }

    /// The value of `field` at `offset` bars from the end of the visible bars
    /// (`-1` is the last visible bar); `None` outside the visible bars.
    pub fn at(&self, field: Field, offset: isize) -> (r: Option<P>)
        requires
            self.wf(),
        ensures
            r == if 0 <= self.visible() + offset < self.visible() {
                Some(self.column(field)[self.visible() + offset])
            } else {
                None
            },
    {
        let idx: i128 = self.curr as i128 + offset as i128;
        if idx < 0 || idx >= self.curr as i128 {
            return None;
        }
        let i: usize = idx as usize;
        match field {
            Field::Open => Some(self.open[i]),
            Field::High => Some(self.high[i]),
            Field::Low => Some(self.low[i]),
            Field::Close => Some(self.close[i]),
            Field::Volume => Some(self.volume[i]),
        }
    }
}

} // verus!
