use vstd::prelude::*;
use vstd::string::StringSliceAdditionalSpecFns;
use std::cmp::Ordering;
use crate::error::Error;
use crate::interval::{interval_cmp, interval_cmp_fits, Interval};
use crate::numeral::chars_of;
use crate::rational::{lemma_rat_trans, Rational};

verus! {

/// Largest number of live orders in one book.
pub const MAX_ORDERS: usize = 16;

/// Largest length in UTF-8 bytes of an order identifier or an asset symbol.
pub const STR_CAP: usize = 32;

#[allow(non_camel_case_types)]
#[derive(Clone, Copy, Debug, PartialEq, Eq, Structural)]
pub enum OrderType {
    LEND,
    BORROW,
}

#[allow(non_camel_case_types)]
#[derive(Clone, Copy, Debug, PartialEq, Eq, Structural)]
pub enum OrderStatus {
    OPEN,
    PARTIALLY_FILLED,
    FILLED,
    EXPIRED,
}

/// One resting order.
#[derive(Clone, Debug)]
pub struct Order {
    pub order_id: String,
    pub order_type: OrderType,
    pub status: OrderStatus,
    pub asset: String,
    pub collateral: u128,
    pub amount: u128,
    pub remaining_amount: u128,
    pub vtl_range: Interval<Rational>,
}

/// Relies on `heapless::String::<STR_CAP>::try_from(&str)`, which copies the
/// bytes and fails exactly when they exceed the capacity.
#[verifier::external_body]
fn bounded_text(s: &str) -> (r: Option<String>)
    ensures
        r is Some <==> s.spec_bytes().len() <= STR_CAP,
        r matches Some(t) ==> t@ == s@,
{
    match heapless::String::<STR_CAP>::try_from(s) {
        Ok(h) => Some(String::from(h.as_str())),
        Err(()) => None,
    }
}

#[verifier::external_type_specification]
#[verifier::external_body]
#[verifier::reject_recursive_types(T)]
pub struct ExBoundedVec<T, const N: usize>(heapless::Vec<T, N>);

/// The orders that a bounded vector holds, in order.
pub uninterp spec fn bounded_items(v: heapless::Vec<Order, MAX_ORDERS>) -> Seq<Order>;

/// Relies on `heapless::Vec::new`: an empty vector.
#[verifier::external_body]
fn bounded_new() -> (r: heapless::Vec<Order, MAX_ORDERS>)
    ensures
        bounded_items(r) == Seq::<Order>::empty(),
{
    heapless::Vec::new()
}

/// Relies on `heapless::Vec::as_slice`: the elements in order, never more than
/// the capacity.
#[verifier::external_body]
fn bounded_slice(v: &heapless::Vec<Order, MAX_ORDERS>) -> (r: &[Order])
    ensures
        r@ == bounded_items(*v),
        r@.len() <= MAX_ORDERS,
{
    v.as_slice()
}

/// Relies on `heapless::Vec::insert`: shifts the tail right and puts the
/// element at `i`, or hands the element back, unchanged vector, when full.
#[verifier::external_body]
fn bounded_insert(v: &mut heapless::Vec<Order, MAX_ORDERS>, i: usize, o: Order) -> (r: Result<(), Order>)
    requires
        i <= bounded_items(*old(v)).len(),
    ensures
        r is Err <==> bounded_items(*old(v)).len() == MAX_ORDERS,
        match r {
            Ok(()) => bounded_items(*final(v)) == bounded_items(*old(v)).insert(i as int, o),
            Err(e) => e == o && bounded_items(*final(v)) == bounded_items(*old(v)),
        },
{
    v.insert(i, o)
}

/// Relies on `heapless::Vec::remove`: takes out the element at `i` and shifts
/// the tail left.
#[verifier::external_body]
fn bounded_remove(v: &mut heapless::Vec<Order, MAX_ORDERS>, i: usize) -> (r: Order)
    requires
        i < bounded_items(*old(v)).len(),
    ensures
        r == bounded_items(*old(v))[i as int],
        bounded_items(*final(v)) == bounded_items(*old(v)).remove(i as int),
{
    v.remove(i)
}

/// Lexicographic order of two character sequences.
pub open spec fn seq_cmp(a: Seq<char>, b: Seq<char>) -> Ordering
    decreases a.len(),
{
    if a.len() == 0 {
        if b.len() == 0 {
            Ordering::Equal
        } else {
            Ordering::Less
        }
    } else if b.len() == 0 {
        Ordering::Greater
    } else if a[0] < b[0] {
        Ordering::Less
    } else if a[0] > b[0] {
        Ordering::Greater
    } else {
        seq_cmp(a.skip(1), b.skip(1))
    }
}

/// `seq_cmp` is antisymmetric and only says `Equal` of equal sequences.
pub proof fn lemma_seq_cmp(a: Seq<char>, b: Seq<char>)
    ensures
        seq_cmp(a, b) == Ordering::Less <==> seq_cmp(b, a) == Ordering::Greater,
        seq_cmp(a, b) == Ordering::Equal <==> a == b,
    decreases a.len(),
{
    if a.len() == 0 && b.len() == 0 {
        assert(a =~= b);
    }
    if a.len() > 0 && b.len() > 0 && a[0] == b[0] {
        lemma_seq_cmp(a.skip(1), b.skip(1));
        if a.skip(1) == b.skip(1) {
            assert forall|i: int| 0 <= i < a.len() implies a[i] == b[i] by {
                if i > 0 {
                    assert(a[i] == a.skip(1)[i - 1]);
                    assert(b[i] == b.skip(1)[i - 1]);
                }
            }
            assert(a =~= b);
        }
        if a == b {
            assert(a.skip(1) =~= b.skip(1));
        }
    }
}

/// `seq_cmp` is transitive.
pub proof fn lemma_seq_cmp_trans(a: Seq<char>, b: Seq<char>, c: Seq<char>)
    requires
        seq_cmp(a, b) == Ordering::Less,
        seq_cmp(b, c) == Ordering::Less,
    ensures
        seq_cmp(a, c) == Ordering::Less,
    decreases a.len(),
{
    if a.len() > 0 && b.len() > 0 && c.len() > 0 && a[0] == b[0] && b[0] == c[0] {
        lemma_seq_cmp_trans(a.skip(1), b.skip(1), c.skip(1));
    }
}

/// Compares two strings character by character.
pub fn compare_text(a: &str, b: &str) -> (r: Ordering)
    ensures
        r == seq_cmp(a@, b@),
{
    let x = chars_of(a);
    let y = chars_of(b);
    let mut i: usize = 0;
    assert(x@.skip(0) =~= x@);
    assert(y@.skip(0) =~= y@);
    while i < x.len() && i < y.len() && x[i] == y[i]
        invariant
            i <= x@.len(),
            i <= y@.len(),
            x@ == a@,
            y@ == b@,
            seq_cmp(a@, b@) == seq_cmp(x@.skip(i as int), y@.skip(i as int)),
        decreases x@.len() - i,
    {
        assert(x@.skip(i as int).skip(1) =~= x@.skip(i + 1));
        assert(y@.skip(i as int).skip(1) =~= y@.skip(i + 1));
        i = i + 1;
    }
    if i == x.len() {
        if i == y.len() {
            Ordering::Equal
        } else {
            Ordering::Less
        }
    } else if i == y.len() {
        Ordering::Greater
    } else if x[i] < y[i] {
        Ordering::Less
    } else {
        Ordering::Greater
    }
}

/// Sort key of the range index: the range, then the identifier.
pub open spec fn order_cmp(a: Order, b: Order) -> Ordering {
    if interval_cmp(a.vtl_range, b.vtl_range) != Ordering::Equal {
        interval_cmp(a.vtl_range, b.vtl_range)
    } else {
        seq_cmp(a.order_id@, b.order_id@)
    }
}

/// Both bounds of the order's range have a positive denominator.
pub open spec fn dens_positive(o: Order) -> bool {
    o.vtl_range.min.den_spec() > 0 && o.vtl_range.max.den_spec() > 0
}

/// The sort key is antisymmetric, and `Equal` only on equal identifiers.
pub proof fn lemma_order_cmp(a: Order, b: Order)
    ensures
        order_cmp(a, b) == Ordering::Less <==> order_cmp(b, a) == Ordering::Greater,
        order_cmp(a, b) == Ordering::Equal ==> a.order_id@ == b.order_id@,
{
    lemma_seq_cmp(a.order_id@, b.order_id@);
    lemma_seq_cmp(b.order_id@, a.order_id@);
}

/// The sort key is transitive.
pub proof fn lemma_order_cmp_trans(a: Order, b: Order, c: Order)
    requires
        dens_positive(a),
        dens_positive(b),
        dens_positive(c),
        order_cmp(a, b) == Ordering::Less,
        order_cmp(b, c) == Ordering::Less,
    ensures
        order_cmp(a, c) == Ordering::Less,
{
    lemma_rat_trans(a.vtl_range.min, b.vtl_range.min, c.vtl_range.min);
    lemma_rat_trans(a.vtl_range.max, b.vtl_range.max, c.vtl_range.max);
    if interval_cmp(a.vtl_range, b.vtl_range) == Ordering::Equal && interval_cmp(
        b.vtl_range,
        c.vtl_range,
    ) == Ordering::Equal {
        lemma_seq_cmp_trans(a.order_id@, b.order_id@, c.order_id@);
    }
}

/// Compares two orders by the sort key of the range index.
pub fn compare_orders(a: &Order, b: &Order) -> (r: Result<Ordering, Error>)
    ensures
        match r {
            Ok(o) => interval_cmp_fits(a.vtl_range, b.vtl_range) && o == order_cmp(*a, *b),
            Err(e) => e == Error::Overflow && !interval_cmp_fits(a.vtl_range, b.vtl_range),
        },
{
    let c = a.vtl_range.try_cmp(&b.vtl_range)?;
    match c {
        Ordering::Equal => Ok(compare_text(a.order_id.as_str(), b.order_id.as_str())),
        _ => Ok(c),
    }
}

impl Order {
    /// A new open order with nothing filled yet.
    pub fn new(
        order_id: &str,
        order_type: OrderType,
        asset: &str,
        collateral: u128,
        amount: u128,
        vtl_range: Interval<Rational>,
    ) -> (r: Result<Self, Error>)
        ensures
            match r {
                Ok(o) => order_id.spec_bytes().len() <= STR_CAP && asset.spec_bytes().len()
                    <= STR_CAP && o.order_id@ == order_id@ && o.order_type == order_type
                    && o.status == OrderStatus::OPEN && o.asset@ == asset@ && o.collateral
                    == collateral && o.amount == amount && o.remaining_amount == amount
                    && o.vtl_range == vtl_range,
                Err(e) => (e == Error::OrderIdTooLong && order_id.spec_bytes().len() > STR_CAP)
                    || (e == Error::AssetTooLong && order_id.spec_bytes().len() <= STR_CAP
                    && asset.spec_bytes().len() > STR_CAP),
            },
    {
        let order_id = match bounded_text(order_id) {
            Some(t) => t,
            None => {
                return Err(Error::OrderIdTooLong);
            },
        };
        let asset = match bounded_text(asset) {
            Some(t) => t,
            None => {
                return Err(Error::AssetTooLong);
            },
        };
        Ok(Order {
            order_id,
            order_type,
            status: OrderStatus::OPEN,
            asset,
            collateral,
            amount,
            remaining_amount: amount,
            vtl_range,
        })
    }
}

/// Strictly ascending by the sort key.
pub open spec fn sorted_by_key(s: Seq<Order>) -> bool {
    forall|i: int, j: int| 0 <= i < j < s.len() ==> order_cmp(s[i], s[j]) == Ordering::Less
}

/// No identifier occurs twice.
pub open spec fn ids_unique(s: Seq<Order>) -> bool {
    forall|i: int, j: int|
        0 <= i < s.len() && 0 <= j < s.len() && i != j ==> s[i].order_id@ != s[j].order_id@
}

/// Invariant of a book's contents.
pub open spec fn book_wf(s: Seq<Order>) -> bool {
    &&& s.len() <= MAX_ORDERS
    &&& sorted_by_key(s)
    &&& ids_unique(s)
    &&& forall|i: int| 0 <= i < s.len() ==> dens_positive(#[trigger] s[i])
}

/// Some order of `s` has the identifier `id`.
pub open spec fn has_id(s: Seq<Order>, id: Seq<char>) -> bool {
    exists|j: int| 0 <= j < s.len() && (#[trigger] s[j]).order_id@ == id
}

/// A bounded set of orders, indexed by range and by identifier.
///
/// One fixed-capacity vector, kept sorted by `(vtl_range, order_id)`, serves
/// both the range index and lookups by identifier, so the two can never
/// disagree and removal takes an order out of both.
#[derive(Debug)]
pub struct OrderBook {
    orders_by_vtl: heapless::Vec<Order, MAX_ORDERS>,
}

impl OrderBook {
    /// The live orders, ascending by `(vtl_range, order_id)`.
    pub closed spec fn orders(self) -> Seq<Order> {
        bounded_items(self.orders_by_vtl)
    }

    pub open spec fn wf(self) -> bool {
        book_wf(self.orders())
    }

    /// An empty book.
    pub fn new() -> (r: Self)
        ensures
            r.wf(),
            r.orders() == Seq::<Order>::empty(),
    {
        OrderBook { orders_by_vtl: bounded_new() }
    }

    /// Number of live orders.
    pub fn len(&self) -> (r: usize)
        ensures
            r == self.orders().len(),
    {
        bounded_slice(&self.orders_by_vtl).len()
    }

    /// The live orders; the book keeps no other order among them.
    pub fn iter_orders_by_id(&self) -> (r: &[Order])
        ensures
            r@ == self.orders(),
    {
        bounded_slice(&self.orders_by_vtl)
    }

    /// The live orders, ascending by `(vtl_range, order_id)`.
    pub fn iter_orders_by_vtl(&self) -> (r: &[Order])
        ensures
            r@ == self.orders(),
    {
        bounded_slice(&self.orders_by_vtl)
    }

    /// Position of the order with identifier `id`.
    fn position_of(&self, id: &str) -> (r: Option<usize>)
        ensures
            match r {
                Some(j) => j < self.orders().len() && self.orders()[j as int].order_id@ == id@,
                None => !has_id(self.orders(), id@),
            },
    {
        let orders = bounded_slice(&self.orders_by_vtl);
        let n = orders.len();
        let mut j: usize = 0;
        while j < n
            invariant
                j <= n == self.orders().len(),
                orders@ == self.orders(),
                forall|k: int| 0 <= k < j ==> self.orders()[k].order_id@ != id@,
            decreases n - j,
        {
            let c = compare_text(orders[j].order_id.as_str(), id);
            proof {
                lemma_seq_cmp(self.orders()[j as int].order_id@, id@);
            }
            if let Ordering::Equal = c {
                return Some(j);
            }
            j = j + 1;
        }
        None
    }

    /// The order with identifier `id`, if the book holds one.
    pub fn get_order_by_id(&self, id: &str) -> (r: Option<&Order>)
        ensures
            match r {
                Some(o) => has_id(self.orders(), id@) && o.order_id@ == id@ && exists|j: int|
                    0 <= j < self.orders().len() && self.orders()[j] == *o,
                None => !has_id(self.orders(), id@),
            },
    {
        match self.position_of(id) {
            Some(j) => Some(&bounded_slice(&self.orders_by_vtl)[j]),
            None => None,
        }
    }

    /// Inserts `order` at its place in the range order.
    ///
    /// Fails, leaving the book as it was, when the book is full, when the
    /// identifier is already present, or when comparing ranges overflows.
    pub fn add_order(&mut self, order: Order) -> (r: Result<(), Error>)
        requires
            old(self).wf(),
        ensures
            final(self).wf(),
            match r {
                Ok(()) => exists|p: int|
                    0 <= p <= old(self).orders().len() && final(self).orders() == old(self).orders().insert(p, order),
                Err(e) => *final(self) == *old(self) && ((e == Error::BookFull && old(self).orders().len() == MAX_ORDERS) || (e == Error::DuplicateOrderId && old(self).orders().len() < MAX_ORDERS && has_id(old(self).orders(), order.order_id@)) || (
                e == Error::Overflow && old(self).orders().len() < MAX_ORDERS && !has_id(
                    old(self).orders(),
                    order.order_id@,
                ) && exists|j: int|
                    0 <= j < old(self).orders().len() && !interval_cmp_fits(
                        #[trigger] old(self).orders()[j].vtl_range,
                        order.vtl_range,
                    ))),
            },
    {
        let n = bounded_slice(&self.orders_by_vtl).len();
        if n >= MAX_ORDERS {
            return Err(Error::BookFull);
        }
        if let Some(_) = self.position_of(order.order_id.as_str()) {
            return Err(Error::DuplicateOrderId);
        }
        // The denominators are positive; the calls make that known here.
        let _ = order.vtl_range.min.denom();
        let _ = order.vtl_range.max.denom();
        let ghost s = self.orders();
        let mut lo: usize = 0;
        let mut hi: usize = n;
        while lo < hi
            invariant
                0 <= lo <= hi <= n == s.len(),
                n < MAX_ORDERS,
                *self == *old(self),
                s == self.orders(),
                book_wf(s),
                dens_positive(order),
                !has_id(s, order.order_id@),
                forall|i: int| 0 <= i < lo ==> order_cmp(#[trigger] s[i], order) == Ordering::Less,
                forall|i: int|
                    hi <= i < n ==> order_cmp(#[trigger] s[i], order) == Ordering::Greater,
            decreases hi - lo,
        {
            let mid = lo + (hi - lo) / 2;
            let c = compare_orders(&bounded_slice(&self.orders_by_vtl)[mid], &order);
            match c {
                Err(e) => {
                    assert(!interval_cmp_fits(s[mid as int].vtl_range, order.vtl_range));
                    return Err(e);
                },
                Ok(Ordering::Less) => {
                    proof {
                        assert forall|i: int| 0 <= i <= mid implies order_cmp(
                            #[trigger] s[i],
                            order,
                        ) == Ordering::Less by {
                            if i < mid {
                                lemma_order_cmp_trans(s[i], s[mid as int], order);
                            }
                        }
                    }
                    lo = mid + 1;
                },
                Ok(Ordering::Greater) => {
                    proof {
                        assert forall|i: int| mid <= i < n implies order_cmp(
                            #[trigger] s[i],
                            order,
                        ) == Ordering::Greater by {
                            if i > mid {
                                lemma_order_cmp(order, s[i]);
                                lemma_order_cmp(order, s[mid as int]);
                                lemma_order_cmp_trans(order, s[mid as int], s[i]);
                            }
                        }
                    }
                    hi = mid;
                },
                Ok(Ordering::Equal) => {
                    proof {
                        lemma_order_cmp(s[mid as int], order);
                        assert(false);
                    }
                    return Err(Error::DuplicateOrderId);
                },
            }
        }
        if let Err(_) = bounded_insert(&mut self.orders_by_vtl, lo, order) {
            return Err(Error::BookFull);
        }
        proof {
            let t = self.orders();
            assert(t == s.insert(lo as int, order));
            assert forall|i: int, j: int| 0 <= i < j < t.len() implies order_cmp(
                t[i],
                t[j],
            ) == Ordering::Less by {
                if j < lo {
                } else if j == lo {
                } else if i < lo {
                    assert(t[j] == s[j - 1]);
                    lemma_order_cmp(order, s[j - 1]);
                    lemma_order_cmp_trans(s[i], order, s[j - 1]);
                } else if i == lo {
                    assert(t[j] == s[j - 1]);
                    lemma_order_cmp(order, s[j - 1]);
                } else {
                    assert(t[i] == s[i - 1]);
                    assert(t[j] == s[j - 1]);
                }
            }
            assert forall|i: int, j: int|
                0 <= i < t.len() && 0 <= j < t.len() && i != j implies t[i].order_id@
                != t[j].order_id@ by {
                if i != lo as int && j != lo as int {
                    let si = if i < lo { i } else { i - 1 };
                    let sj = if j < lo { j } else { j - 1 };
                    assert(t[i] == s[si]);
                    assert(t[j] == s[sj]);
                } else if i == lo as int {
                    let sj = if j < lo { j } else { j - 1 };
                    assert(t[j] == s[sj]);
                } else {
                    let si = if i < lo { i } else { i - 1 };
                    assert(t[i] == s[si]);
                }
            }
            assert forall|i: int| 0 <= i < t.len() implies dens_positive(#[trigger] t[i]) by {
                if i < lo {
                    assert(t[i] == s[i]);
                } else if i > lo {
                    assert(t[i] == s[i - 1]);
                }
            }
        }
        Ok(())
    }

    /// Takes the order with identifier `id` out of the book.
    pub fn remove_order(&mut self, id: &str) -> (r: Option<Order>)
        requires
            old(self).wf(),
        ensures
            final(self).wf(),
            match r {
                Some(o) => o.order_id@ == id@ && exists|j: int|
                    0 <= j < old(self).orders().len() && old(self).orders()[j] == o && final(self).orders() == old(self).orders().remove(j),
                None => *final(self) == *old(self) && !has_id(old(self).orders(), id@),
            },
    {
        match self.position_of(id) {
            None => None,
            Some(j) => {
                let ghost s = self.orders();
                let o = bounded_remove(&mut self.orders_by_vtl, j);
                proof {
                    let t = self.orders();
                    assert(t == s.remove(j as int));
                    assert forall|a: int, b: int| 0 <= a < b < t.len() implies order_cmp(
                        t[a],
                        t[b],
                    ) == Ordering::Less by {
                        let sa = if a < j { a } else { a + 1 };
                        let sb = if b < j { b } else { b + 1 };
                        assert(t[a] == s[sa]);
                        assert(t[b] == s[sb]);
                    }
                    assert forall|a: int, b: int|
                        0 <= a < t.len() && 0 <= b < t.len() && a != b implies t[a].order_id@
                        != t[b].order_id@ by {
                        let sa = if a < j { a } else { a + 1 };
                        let sb = if b < j { b } else { b + 1 };
                        assert(t[a] == s[sa]);
                        assert(t[b] == s[sb]);
                    }
                    assert forall|a: int| 0 <= a < t.len() implies dens_positive(
                        #[trigger] t[a],
                    ) by {
                        let sa = if a < j { a } else { a + 1 };
                        assert(t[a] == s[sa]);
                    }
                }
                Some(o)
            },
        }
    }
}

/// The lender and borrower books of one market.
#[derive(Debug)]
pub struct MarketOrderBooks {
    pub lender_book: OrderBook,
    pub borrower_book: OrderBook,
}

} // verus!
