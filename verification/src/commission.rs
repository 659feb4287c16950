use vstd::prelude::*;

use crate::scalar::Scalar;

verus! {

/// How the broker charges commission: `compute(order_size, price)` is the
/// cash charged for one leg of a trade of `order_size` units at `price`.
/// `Commission` is the library's own model; a caller may supply any other,
/// such as an arbitrary function of size and price.
pub trait CommissionModel<P> {
    fn compute(&self, order_size: P, price: P) -> P;
}

/// A fixed amount per leg plus a fraction of the leg's notional value.
#[derive(Debug, Clone, Copy)]
pub enum Commission<P> {
    /// `fixed` cash amount + `relative` fraction of order notional.
    FixedRelative { fixed: P, relative: P },
}

impl<P: Scalar> Commission<P> {
    /// A commission of `rate` times the notional value, with no fixed part.
    pub fn relative(rate: P) -> (r: Self)
        ensures
            r matches Commission::FixedRelative { fixed, relative } && relative == rate,
    {
        Commission::FixedRelative { fixed: P::zero(), relative: rate }
    }

    pub fn fixed_and_relative(fixed: P, rate: P) -> (r: Self)
        ensures
            r == (Commission::FixedRelative { fixed, relative: rate }),
    {
        Commission::FixedRelative { fixed, relative: rate }
    }

    /// `fixed + |order_size| * price * relative`.
    pub fn compute(&self, order_size: P, price: P) -> P {
        match self {
            Commission::FixedRelative { fixed, relative } => {
                fixed.plus(order_size.abs().times(price).times(*relative))
            },
        }
    }
}

impl<P: Scalar> CommissionModel<P> for Commission<P> {
    fn compute(&self, order_size: P, price: P) -> P {
        Commission::compute(self, order_size, price)
    }
}

impl<P: Scalar> Default for Commission<P> {
    /// No commission at all: a relative rate of zero.
    fn default() -> (r: Self)
        ensures
            r matches Commission::FixedRelative { .. },
    {
        Commission::relative(P::zero())
    }
}

} // verus!
