use vstd::prelude::*;
use std::sync::Arc;

use crate::scalar::Scalar;

verus! {

/// Identifies an order; ids are handed out in increasing order, from zero.
#[derive(Debug, Clone, Copy, PartialEq, Eq, Hash, PartialOrd, Ord, Structural)]
pub struct OrderId(pub usize);

/// Identifies a trade: the trade's place among all trades that the broker
/// ever opened.
#[derive(Debug, Clone, Copy, PartialEq, Eq, Hash, PartialOrd, Ord, Structural)]
pub struct TradeId(pub usize);

/// The size of an order: positive buys (goes long), negative sells.
#[derive(Debug, Clone, Copy, PartialEq)]
pub enum OrderSize<P> {
    /// Signed fraction of equity, magnitude strictly in `(0, 1)`.
    Fraction(P),
    /// Signed, exact number of whole units.
    Units(i64),
}

impl<P: Scalar> OrderSize<P> {
    pub fn is_long(&self) -> (r: bool)
        ensures
            self matches OrderSize::Units(u) ==> r == (u > 0),
    {
        match self {
            OrderSize::Fraction(f) => f.gt(P::zero()),
            OrderSize::Units(u) => *u > 0,
        }
    }

    pub fn is_short(&self) -> (r: bool)
        ensures
            self matches OrderSize::Units(u) ==> r == (u < 0),
    {
        match self {
            OrderSize::Fraction(f) => f.lt(P::zero()),
            OrderSize::Units(u) => *u < 0,
        }
    }

    /// The size as a number: the fraction itself, or the units.
    pub(crate) fn signed_value(&self) -> (r: P)
        ensures
            self matches OrderSize::Fraction(f) ==> r == f,
    {
        match self {
            OrderSize::Fraction(f) => *f,
            OrderSize::Units(u) => P::from_i64(*u),
        }
    }
}

/// A pending order.
#[derive(Debug, Clone)]
pub struct Order<P> {
    pub id: OrderId,
    pub size: OrderSize<P>,
    pub limit: Option<P>,
    pub stop: Option<P>,
    pub sl: Option<P>,
    pub tp: Option<P>,
    /// The trade that this order closes or reduces, if it is one that does.
    pub parent_trade: Option<TradeId>,
    pub tag: Option<Arc<str>>,
}

/// Shares a tag: `Clone::clone` of std's `Option<Arc<str>>`, which clones
/// the `Arc` (a new pointer to the same text, not a copy of the text).
/// Trusted: the result is `None` for `None` and the same text otherwise,
/// which is what std documents for `Option::clone` and `Arc::clone`.
#[verifier::external_body]
pub(crate) fn share_tag(tag: &Option<Arc<str>>) -> (r: Option<Arc<str>>)
    ensures
        r == *tag,
{
    tag.clone()
}

impl<P> Order<P> {
    /// The order buys: a positive number of units (a fraction's side is not
    /// known here).
    pub open spec fn is_long_spec(self) -> bool {
        match self.size {
            OrderSize::Units(u) => u > 0,
            OrderSize::Fraction(_) => true,
        }
    }

    pub open spec fn is_short_spec(self) -> bool {
        match self.size {
            OrderSize::Units(u) => u < 0,
            OrderSize::Fraction(_) => true,
        }
    }
}

impl<P: Scalar> Order<P> {
    pub fn is_long(&self) -> (r: bool)
        ensures
            self.size matches OrderSize::Units(u) ==> r == (u > 0),
    {
        self.size.is_long()
    }

    pub fn is_short(&self) -> (r: bool)
        ensures
            self.size matches OrderSize::Units(u) ==> r == (u < 0),
    {
        self.size.is_short()
    }

    /// A copy of the order, sharing its tag.
    pub fn duplicate(&self) -> (r: Order<P>)
        ensures
            r == *self,
    {
        Order {
            id: self.id,
            size: self.size,
            limit: self.limit,
            stop: self.stop,
            sl: self.sl,
            tp: self.tp,
            parent_trade: self.parent_trade,
            tag: share_tag(&self.tag),
        }
    }
}

/// One for a slot that holds an order of its own (one that closes no trade).
pub open spec fn standalone_slot<P>(slot: Option<Order<P>>) -> nat {
    if slot matches Some(o) && o.parent_trade is None {
        1
    } else {
        0
    }
}

/// The number of slots that hold an order of its own.
pub open spec fn standalone_count<P>(s: Seq<Option<Order<P>>>) -> nat
    decreases s.len(),
{
    if s.len() == 0 {
        0
    } else {
        standalone_count(s.drop_last()) + standalone_slot(s.last())
    }
}

pub proof fn lemma_standalone_push<P>(s: Seq<Option<Order<P>>>, x: Option<Order<P>>)
    ensures
        standalone_count(s.push(x)) == standalone_count(s) + standalone_slot(x),
{
    assert(s.push(x).drop_last() == s);
}

pub proof fn lemma_standalone_update<P>(s: Seq<Option<Order<P>>>, i: int, x: Option<Order<P>>)
    requires
        0 <= i < s.len(),
    ensures
        standalone_count(s.update(i, x)) + standalone_slot(s[i]) == standalone_count(s) + standalone_slot(x),
    decreases s.len(),
{
    if i == s.len() - 1 {
        assert(s.update(i, x).drop_last() == s.drop_last());
    } else {
        lemma_standalone_update(s.drop_last(), i, x);
        assert(s.update(i, x).drop_last() == s.drop_last().update(i, x));
    }
}

/// Orders by id: slot `i` holds the order with id `i` while it is pending.
pub struct OrderTable<P>(Vec<Option<Order<P>>>);

impl<P> View for OrderTable<P> {
    type V = Seq<Option<Order<P>>>;

    closed spec fn view(&self) -> Seq<Option<Order<P>>> {
        self.0@
    }
}

impl<P> OrderTable<P> {
    /// The order stored under `id`, if any.
    pub open spec fn spec_get(self, id: OrderId) -> Option<Order<P>> {
        if id.0 < self@.len() {
            self@[id.0 as int]
        } else {
            None
        }
    }

    pub fn with_capacity(cap: usize) -> (r: Self)
        ensures
            r@ == Seq::<Option<Order<P>>>::empty(),
    {
        OrderTable(Vec::with_capacity(cap))
    }

    /// Stores `order` under `id`, replacing what was there.
    pub fn insert(&mut self, id: OrderId, order: Order<P>)
        ensures
            final(self)@.len() == if id.0 < old(self)@.len() { old(self)@.len() as int } else { id.0 + 1 },
            forall|k: OrderId|
                #![trigger final(self).spec_get(k)]
                final(self).spec_get(k) == if k == id {
                    Some(order)
                } else {
                    old(self).spec_get(k)
                },
            standalone_count(final(self)@) + standalone_slot(old(self).spec_get(id)) == standalone_count(old(self)@)
                + standalone_slot(Some(order)),
    {
        let ghost old_v = self@;
        while self.0.len() <= id.0
            invariant
                self@.len() >= old_v.len(),
                self@.subrange(0, old_v.len() as int) == old_v,
                forall|j: int| old_v.len() <= j < self@.len() ==> self@[j] is None,
                self@.len() <= if id.0 < old_v.len() { old_v.len() as int } else { id.0 + 1 },
                standalone_count(self@) == standalone_count(old_v),
            decreases id.0 + 1 - self.0.len(),
        {
            proof {
                lemma_standalone_push(self@, None);
            }
            self.0.push(None);
        }
        let ghost mid = self@;
        assert forall|k: int| 0 <= k < old_v.len() implies mid[k] == old_v[k] by {
            assert(mid.subrange(0, old_v.len() as int)[k] == mid[k]);
        }
        proof {
            lemma_standalone_update(mid, id.0 as int, Some(order));
            if id.0 < old_v.len() {
                assert(mid[id.0 as int] == old_v[id.0 as int]);
            }
        }
        self.0.set(id.0, Some(order));
    }

    /// Grows the table, with empty slots, until it has a slot for `id`.
    pub(crate) fn make_room(&mut self, id: OrderId)
        ensures
            final(self)@.len() > id.0,
            final(self)@.len() <= usize::MAX,
            standalone_count(final(self)@) == standalone_count(old(self)@),
            forall|k: OrderId| #![trigger final(self).spec_get(k)] final(self).spec_get(k) == old(self).spec_get(k),
    {
        let ghost old_v = self@;
        while self.0.len() <= id.0
            invariant
                self@.len() >= old_v.len(),
                self@.subrange(0, old_v.len() as int) == old_v,
                forall|j: int| old_v.len() <= j < self@.len() ==> self@[j] is None,
                standalone_count(self@) == standalone_count(old_v),
            decreases id.0 + 1 - self.0.len(),
        {
            proof {
                lemma_standalone_push(self@, None);
            }
            self.0.push(None);
        }
        let _ = self.0.len();
        assert forall|k: OrderId| #![trigger self.spec_get(k)] self.spec_get(k) == old(self).spec_get(k) by {
            if k.0 < old_v.len() {
                assert(self@.subrange(0, old_v.len() as int)[k.0 as int] == self@[k.0 as int]);
            }
        }
    }

    /// Takes the order stored under `id` out of the table.
    pub fn remove(&mut self, id: OrderId) -> (r: Option<Order<P>>)
        ensures
            r == old(self).spec_get(id),
            standalone_count(final(self)@) + standalone_slot(r) == standalone_count(old(self)@),
            final(self)@.len() == old(self)@.len(),
            forall|k: OrderId|
                #![trigger final(self).spec_get(k)]
                final(self).spec_get(k) == if k == id {
                    None
                } else {
                    old(self).spec_get(k)
                },
    {
        if id.0 < self.0.len() {
            proof {
                lemma_standalone_update(self@, id.0 as int, None);
            }
            self.0[id.0].take()
        } else {
            None
        }
    }

    pub fn get(&self, id: OrderId) -> (r: Option<&Order<P>>)
        ensures
            match r {
                Some(o) => self.spec_get(id) == Some(*o),
                None => self.spec_get(id) is None,
            },
    {
        if id.0 < self.0.len() {
            self.0[id.0].as_ref()
        } else {
            None
        }
    }

    pub fn get_mut(&mut self, id: OrderId) -> (r: Option<&mut Order<P>>)
        ensures
            match r {
                Some(o) => {
                    &&& old(self).spec_get(id) == Some(*o)
                    &&& final(self)@ == old(self)@.update(id.0 as int, Some(*final(o)))
                },
                None => {
                    &&& old(self).spec_get(id) is None
                    &&& final(self)@ == old(self)@
                },
            },
    {
        if id.0 < self.0.len() {
            self.0[id.0].as_mut()
        } else {
            None
        }
    }

    pub fn contains(&self, id: OrderId) -> (r: bool)
        ensures
            r == self.spec_get(id) is Some,
    {
        self.get(id).is_some()
    }
}

} // verus!
