use vstd::prelude::*;
use std::cmp::Ordering;
use crate::interval::{comparable, interval_cmp, overlaps};
use crate::order::{book_wf, Order, OrderBook, OrderStatus, order_cmp};
use crate::rational::{cmp_fits, lemma_rat_trans, rat_cmp, rat_le, Rational};

verus! {

/// `o` is open and its range overlaps the range of `incoming`.
pub open spec fn is_match(o: Order, incoming: Order) -> bool {
    o.status == OrderStatus::OPEN && overlaps(o.vtl_range, incoming.vtl_range)
}

/// The lower bound of `s[j]` is at most `x`.
pub open spec fn min_at_most(s: Seq<Order>, j: int, x: Rational) -> bool {
    rat_le(s[j].vtl_range.min, x)
}

/// `s[j]` is the last order whose lower bound is at most `x`.
pub open spec fn last_at_most(s: Seq<Order>, j: int, x: Rational) -> bool {
    0 <= j < s.len() && min_at_most(s, j, x) && (j + 1 == s.len() || !min_at_most(s, j + 1, x))
}

/// Every order of the book can be compared with `incoming` without overflow.
pub open spec fn book_comparable(s: Seq<Order>, incoming: Order) -> bool {
    forall|j: int| 0 <= j < s.len() ==> comparable(#[trigger] s[j].vtl_range, incoming.vtl_range)
}

/// Lower bounds ascend along a sorted book.
proof fn lemma_mins_ascend(s: Seq<Order>, i: int, j: int)
    requires
        book_wf(s),
        0 <= i < j < s.len(),
    ensures
        rat_le(s[i].vtl_range.min, s[j].vtl_range.min),
{
    assert(order_cmp(s[i], s[j]) == Ordering::Less);
    assert(interval_cmp(s[i].vtl_range, s[j].vtl_range) != Ordering::Greater);
}

/// Number of orders whose lower bound is at most `x`; they come first.
fn partition_point(book: &OrderBook, x: &Rational) -> (p: usize)
    requires
        book.wf(),
        forall|j: int|
            0 <= j < book.orders().len() ==> cmp_fits(#[trigger] book.orders()[j].vtl_range.min, *x),
    ensures
        p <= book.orders().len(),
        forall|i: int| 0 <= i < p ==> min_at_most(book.orders(), i, *x),
        forall|i: int| p <= i < book.orders().len() ==> !min_at_most(book.orders(), i, *x),
{
    let orders = book.iter_orders_by_vtl();
    let ghost s = book.orders();
    let n = orders.len();
    let mut lo: usize = 0;
    let mut hi: usize = n;
    while lo < hi
        invariant
            0 <= lo <= hi <= n == s.len(),
            orders@ == s,
            book_wf(s),
            forall|j: int| 0 <= j < s.len() ==> cmp_fits(#[trigger] s[j].vtl_range.min, *x),
            forall|i: int| 0 <= i < lo ==> min_at_most(s, i, *x),
            forall|i: int| hi <= i < n ==> !min_at_most(s, i, *x),
        decreases hi - lo,
    {
        let mid = lo + (hi - lo) / 2;
        let c = orders[mid].vtl_range.min.try_cmp(x);
        assert(cmp_fits(s[mid as int].vtl_range.min, *x));
        match c {
            Ok(Ordering::Greater) => {
                proof {
                    assert forall|i: int| mid <= i < n implies !min_at_most(s, i, *x) by {
                        if i > mid {
                            lemma_mins_ascend(s, mid as int, i);
                            lemma_rat_trans(*x, s[mid as int].vtl_range.min, s[i].vtl_range.min);
                        }
                    }
                }
                hi = mid;
            },
            _ => {
                proof {
                    assert forall|i: int| 0 <= i <= mid implies min_at_most(s, i, *x) by {
                        if i < mid {
                            lemma_mins_ascend(s, i, mid as int);
                            lemma_rat_trans(s[i].vtl_range.min, s[mid as int].vtl_range.min, *x);
                        }
                    }
                }
                lo = mid + 1;
            },
        }
    }
    lo
}

/// The first open borrow order, among those whose lower bound exceeds the lend
/// order's, in range order, whose range overlaps the lend order's range.
pub fn match_lend<'a>(borrow_orderbook: &'a OrderBook, lend_order: &'a Order) -> (r: Option<
    &'a Order,
>)
    requires
        borrow_orderbook.wf(),
        book_comparable(borrow_orderbook.orders(), *lend_order),
    ensures
        borrow_orderbook.orders().len() == 0 ==> r is None,
        match r {
            Some(o) => exists|j: int|
                0 <= j < borrow_orderbook.orders().len() && borrow_orderbook.orders()[j] == *o
                    && !min_at_most(borrow_orderbook.orders(), j, lend_order.vtl_range.min)
                    && is_match(*o, *lend_order) && forall|k: int|
                    0 <= k < j && !min_at_most(
                        borrow_orderbook.orders(),
                        k,
                        lend_order.vtl_range.min,
                    ) ==> !is_match(#[trigger] borrow_orderbook.orders()[k], *lend_order),
            None => forall|j: int|
                0 <= j < borrow_orderbook.orders().len() && !min_at_most(
                    borrow_orderbook.orders(),
                    j,
                    lend_order.vtl_range.min,
                ) ==> !is_match(#[trigger] borrow_orderbook.orders()[j], *lend_order),
        },
{
    let ghost s = borrow_orderbook.orders();
    let x = &lend_order.vtl_range.min;
    assert forall|j: int| 0 <= j < s.len() implies cmp_fits(#[trigger] s[j].vtl_range.min, *x) by {
        assert(comparable(s[j].vtl_range, lend_order.vtl_range));
    }
    let idx = partition_point(borrow_orderbook, x);
    let orders = borrow_orderbook.iter_orders_by_vtl();
    let n = orders.len();
    let mut j: usize = idx;
    while j < n
        invariant
            idx <= j <= n == s.len(),
            orders@ == s,
            s == borrow_orderbook.orders(),
            *x == lend_order.vtl_range.min,
            book_comparable(s, *lend_order),
            forall|i: int| 0 <= i < idx ==> min_at_most(s, i, *x),
            forall|i: int| idx <= i < n ==> !min_at_most(s, i, *x),
            forall|k: int| idx <= k < j ==> !is_match(#[trigger] s[k], *lend_order),
        decreases n - j,
    {
        let o = &orders[j];
        assert(comparable(s[j as int].vtl_range, lend_order.vtl_range));
        if o.status == OrderStatus::OPEN {
            if o.vtl_range.intersect(&lend_order.vtl_range).is_some() {
                proof {
                    assert forall|k: int|
                        0 <= k < j && !min_at_most(s, k, *x) implies !is_match(
                        #[trigger] s[k],
                        *lend_order,
                    ) by {
                        if k < idx {
                            assert(min_at_most(s, k, *x));
                        }
                    }
                    assert(s[j as int] == *o);
                    assert(!min_at_most(s, j as int, *x));
                }
                return Some(o);
            }
        }
        j = j + 1;
    }
    None
}

/// The lend order whose lower bound is the last one at or below the borrow
/// order's, when it is open and its range overlaps the borrow order's range.
pub fn match_borrow<'a>(lend_orderbook: &'a OrderBook, borrow_order: &'a Order) -> (r: Option<
    &'a Order,
>)
    requires
        lend_orderbook.wf(),
        book_comparable(lend_orderbook.orders(), *borrow_order),
    ensures
        lend_orderbook.orders().len() == 0 ==> r is None,
        match r {
            Some(o) => exists|j: int|
                last_at_most(lend_orderbook.orders(), j, borrow_order.vtl_range.min)
                    && lend_orderbook.orders()[j] == *o && is_match(*o, *borrow_order),
            None => forall|j: int|
                last_at_most(lend_orderbook.orders(), j, borrow_order.vtl_range.min)
                    ==> !is_match(#[trigger] lend_orderbook.orders()[j], *borrow_order),
        },
{
    let ghost s = lend_orderbook.orders();
    let x = &borrow_order.vtl_range.min;
    assert forall|j: int| 0 <= j < s.len() implies cmp_fits(#[trigger] s[j].vtl_range.min, *x) by {
        assert(comparable(s[j].vtl_range, borrow_order.vtl_range));
    }
    let idx = partition_point(lend_orderbook, x);
    if idx == 0 {
        return None;
    }
    let orders = lend_orderbook.iter_orders_by_vtl();
    let o = &orders[idx - 1];
    assert(last_at_most(s, idx - 1, *x));
    assert forall|j: int| last_at_most(s, j, *x) implies j == idx - 1 by {
        if j < idx - 1 {
            assert(min_at_most(s, j + 1, *x));
        }
    }
    if o.status != OrderStatus::OPEN {
        return None;
    }
    assert(comparable(s[idx - 1].vtl_range, borrow_order.vtl_range));
    if o.vtl_range.intersect(&borrow_order.vtl_range).is_none() {
        return None;
    }
    Some(o)
}

} // verus!
