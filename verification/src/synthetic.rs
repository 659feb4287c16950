use vstd::prelude::*;

use crate::data::{Data, Field};
use crate::error::{BacktestError, BtResult};
use crate::scalar::Scalar;

verus! {

/// The random draws behind one synthetic bar: the day's return shock, how far
/// the high rises above and the low falls below the open-close range (as
/// fractions of it), and the volume.
#[derive(Debug, Clone, Copy)]
pub struct Draw<P> {
    pub shock: P,
    pub high_up: P,
    pub low_down: P,
    pub volume: P,
}

/// Bars of a geometric random walk that starts at `start_price`: each bar
/// opens at the previous close and closes at its open times
/// `1 + drift + shock`, but not below `floor_price`; its high is the larger
/// of open and close times `1 + high_up`, its low the smaller times
/// `1 - low_down`. Refused when there is no draw, or the index and the draws
/// differ in length.
pub fn random_walk<P: Scalar, I: Clone>(
    index: Vec<I>,
    draws: &[Draw<P>],
    start_price: P,
    drift: P,
    floor_price: P,
) -> (r: BtResult<Data<P, I>>)
    ensures
        r is Ok <==> (index@.len() > 0 && index@.len() == draws@.len()),
        r matches Ok(d) ==> {
            &&& d.wf()
            &&& d.total() == draws@.len()
            &&& d.visible() == draws@.len()
            &&& d.stamps() == index@
            &&& forall|i: int| 0 <= i < draws@.len() ==> #[trigger] d.column(Field::Volume)[i] == draws@[i].volume
            &&& d.column(Field::Open)[0] == start_price
            &&& forall|i: int| 0 < i < draws@.len() ==> #[trigger] d.column(Field::Open)[i] == d.column(
                Field::Close,
            )[i - 1]
        },
        r matches Err(e) ==> e is InvalidParameter,
{
    let n = draws.len();
    if index.len() != n {
        return Err(BacktestError::InvalidParameter("index and draws differ in length".to_owned()));
    }
    let mut open: Vec<P> = Vec::with_capacity(n);
    let mut high: Vec<P> = Vec::with_capacity(n);
    let mut low: Vec<P> = Vec::with_capacity(n);
    let mut close: Vec<P> = Vec::with_capacity(n);
    let mut volume: Vec<P> = Vec::with_capacity(n);
    let mut price = start_price;
    let mut i: usize = 0;
    while i < n
        invariant
            n == draws@.len(),
            i <= n,
            open@.len() == i,
            high@.len() == i,
            low@.len() == i,
            close@.len() == i,
            volume@.len() == i,
            i > 0 ==> price == close@[i - 1],
            i == 0 ==> price == start_price,
            i > 0 ==> open@[0] == start_price,
            forall|k: int| 0 < k < i ==> #[trigger] open@[k] == close@[k - 1],
            forall|k: int| 0 <= k < i ==> #[trigger] volume@[k] == draws@[k].volume,
        decreases n - i,
    {
        let d = draws[i];
        let day_open = price;
        let moved = price.times(P::one().plus(drift).plus(d.shock));
        price = moved.maximum(floor_price);
        let day_close = price;
        let day_high = day_open.maximum(day_close).times(P::one().plus(d.high_up));
        let day_low = day_open.minimum(day_close).times(P::one().minus(d.low_down));
        open.push(day_open);
        high.push(day_high);
        low.push(day_low);
        close.push(day_close);
        volume.push(d.volume);
        i = i + 1;
    }
    let ghost opens = open@;
    let ghost closes = close@;
    let ghost volumes = volume@;
    let r = Data::new(index, open, high, low, close, volume);
    proof {
        if r is Ok {
            let d = r->Ok_0;
            d.lemma_columns();
            assert forall|k: int| 0 < k < draws@.len() implies #[trigger] d.column(Field::Open)[k] == d.column(
                Field::Close,
            )[k - 1] by {
                assert(opens[k] == closes[k - 1]);
            }
            assert forall|k: int| 0 <= k < draws@.len() implies #[trigger] d.column(Field::Volume)[k] == draws@[k].volume by {
                assert(volumes[k] == draws@[k].volume);
            }
        }
    }
    r
}

} // verus!
