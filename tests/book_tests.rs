use vtl_orderbook::error::Error;
use vtl_orderbook::interval::Interval;
use vtl_orderbook::matching::{match_borrow, match_lend};
use vtl_orderbook::order::{
    compare_text, MarketOrderBooks, Order, OrderBook, OrderStatus, OrderType, MAX_ORDERS,
};
use vtl_orderbook::rational::Rational;
use std::cmp::Ordering;

fn range(lo: &str, hi: &str) -> Interval<Rational> {
    Interval::<Rational>::from_strs(lo, hi).unwrap()
}

fn order(id: &str, t: OrderType, lo: &str, hi: &str) -> Order {
    Order::new(id, t, "USDC", 0, 100, range(lo, hi)).unwrap()
}

#[test]
fn interval_validity() {
    assert_eq!(Interval::<u128>::new(5, 3), Err(Error::RangeInverted));
    let iv = Interval::<u128>::new(3, 5).unwrap();
    assert_eq!((iv.min, iv.max), (3, 5));
    assert_eq!(Interval::<u128>::from_ints(7, 7).map(|i| (i.min, i.max)), Ok((7, 7)));
}

#[test]
fn interval_of_rationals_validity() {
    let five = Rational::new(5, 1).unwrap();
    let three = Rational::new(3, 1).unwrap();
    assert_eq!(Interval::<Rational>::new(five, three), Err(Error::RangeInverted));
    let iv = Interval::<Rational>::new(three, five).unwrap();
    assert_eq!((iv.min, iv.max), (three, five));
}

#[test]
fn interval_from_integer_strings() {
    let iv = Interval::<u128>::from_strs("3", "+5").unwrap();
    assert_eq!((iv.min, iv.max), (3, 5));
    assert_eq!(Interval::<u128>::from_strs("x", "5"), Err(Error::InvalidMinInteger));
    assert_eq!(Interval::<u128>::from_strs("3", "-5"), Err(Error::InvalidMaxInteger));
    assert_eq!(Interval::<u128>::from_strs("9", "5"), Err(Error::RangeInverted));
    let big = Interval::<u128>::from_strs("0", "340282366920938463463374607431768211455").unwrap();
    assert_eq!(big.max, u128::MAX);
    assert_eq!(
        Interval::<u128>::from_strs("0", "340282366920938463463374607431768211456"),
        Err(Error::InvalidMaxInteger)
    );
}

#[test]
fn interval_from_decimal_strings() {
    let iv = range("0.05", "0.10");
    assert_eq!(iv.min, Rational::new(1, 20).unwrap());
    assert_eq!(iv.max, Rational::new(1, 10).unwrap());
    assert_eq!(Interval::<Rational>::from_strs("0.2", "0.1"), Err(Error::RangeInverted));
    assert_eq!(Interval::<Rational>::from_strs("a", "0.1"), Err(Error::InvalidInteger));
    assert_eq!(Interval::<Rational>::from_strs("0.1", "1.b"), Err(Error::InvalidFractionalPart));
}

#[test]
fn interval_lexicographic_order() {
    assert_eq!(range("1", "5").try_cmp(&range("2", "3")), Ok(Ordering::Less));
    assert_eq!(range("1", "5").try_cmp(&range("1", "3")), Ok(Ordering::Greater));
    assert_eq!(range("1", "5").try_cmp(&range("1", "5")), Ok(Ordering::Equal));
}

#[test]
fn overlap_correctness() {
    let a = range("1", "5");
    let b = range("4", "10");
    let c = range("6", "10");
    let ab = a.intersect(&b).unwrap();
    assert_eq!((ab.min, ab.max), (Rational::new(4, 1).unwrap(), Rational::new(5, 1).unwrap()));
    assert!(a.intersect(&c).is_none());
    let touch = a.intersect(&range("5", "9")).unwrap();
    assert_eq!(touch.min, touch.max);
}

#[test]
fn order_new_initialises_fields() {
    let o = Order::new("L1", OrderType::LEND, "BTC", 7, 100, range("0.05", "0.10")).unwrap();
    assert_eq!(o.order_id, "L1");
    assert_eq!(o.asset, "BTC");
    assert_eq!(o.status, OrderStatus::OPEN);
    assert_eq!(o.remaining_amount, 100);
    assert_eq!(o.collateral, 7);
}

#[test]
fn order_new_checks_lengths() {
    let id32 = "a".repeat(32);
    let id33 = "a".repeat(33);
    assert!(Order::new(&id32, OrderType::LEND, "X", 0, 1, range("0", "1")).is_ok());
    assert_eq!(
        Order::new(&id33, OrderType::LEND, "X", 0, 1, range("0", "1")).map(|o| o.order_id),
        Err(Error::OrderIdTooLong)
    );
    assert_eq!(
        Order::new("id", OrderType::LEND, &id33, 0, 1, range("0", "1")).map(|o| o.asset),
        Err(Error::AssetTooLong)
    );
    // eleven three-byte characters: 33 bytes
    let wide = "\u{20ac}".repeat(11);
    assert_eq!(
        Order::new(&wide, OrderType::LEND, "X", 0, 1, range("0", "1")).map(|o| o.order_id),
        Err(Error::OrderIdTooLong)
    );
}

#[test]
fn text_comparison() {
    assert_eq!(compare_text("abc", "abd"), Ordering::Less);
    assert_eq!(compare_text("ab", "abc"), Ordering::Less);
    assert_eq!(compare_text("b", "abc"), Ordering::Greater);
    assert_eq!(compare_text("", ""), Ordering::Equal);
}

#[test]
fn book_keeps_range_order() {
    let mut book = OrderBook::new();
    book.add_order(order("C", OrderType::LEND, "0.03", "0.04")).unwrap();
    book.add_order(order("A", OrderType::LEND, "0.01", "0.09")).unwrap();
    book.add_order(order("B2", OrderType::LEND, "0.01", "0.02")).unwrap();
    book.add_order(order("B1", OrderType::LEND, "0.01", "0.02")).unwrap();
    let ids: Vec<&str> = book.iter_orders_by_vtl().iter().map(|o| o.order_id.as_str()).collect();
    assert_eq!(ids, vec!["B1", "B2", "A", "C"]);
    assert_eq!(book.len(), 4);
    assert_eq!(book.iter_orders_by_id().len(), 4);
}

#[test]
fn book_rejects_duplicate_id() {
    let mut book = OrderBook::new();
    book.add_order(order("A", OrderType::LEND, "0.01", "0.02")).unwrap();
    assert_eq!(
        book.add_order(order("A", OrderType::LEND, "0.05", "0.06")),
        Err(Error::DuplicateOrderId)
    );
    assert_eq!(book.len(), 1);
}

#[test]
fn book_reports_comparison_overflow() {
    let mut book = OrderBook::new();
    let big = Rational::new(i64::MAX, 1).unwrap();
    let tiny = Rational::new(1, i64::MAX).unwrap();
    let a = Order::new("A", OrderType::LEND, "X", 0, 1, Interval::<Rational>::new(big, big).unwrap()).unwrap();
    let b = Order::new("B", OrderType::LEND, "X", 0, 1, Interval::<Rational>::new(tiny, tiny).unwrap()).unwrap();
    book.add_order(a).unwrap();
    assert_eq!(book.add_order(b), Err(Error::Overflow));
    assert_eq!(book.len(), 1);
}

#[test]
fn capacity_boundary() {
    let mut book = OrderBook::new();
    for i in 0..MAX_ORDERS {
        let id = format!("O{}", i);
        book.add_order(order(&id, OrderType::BORROW, "0.01", "0.02")).unwrap();
    }
    assert_eq!(book.len(), MAX_ORDERS);
    assert_eq!(
        book.add_order(order("extra", OrderType::BORROW, "0.01", "0.02")),
        Err(Error::BookFull)
    );
    assert_eq!(book.len(), MAX_ORDERS);
    assert!(book.get_order_by_id("extra").is_none());
}

#[test]
fn get_and_remove_by_id() {
    let mut book = OrderBook::new();
    book.add_order(order("A", OrderType::LEND, "0.01", "0.02")).unwrap();
    book.add_order(order("B", OrderType::LEND, "0.03", "0.04")).unwrap();
    assert_eq!(book.get_order_by_id("B").unwrap().order_id, "B");
    assert!(book.get_order_by_id("Z").is_none());
    let removed = book.remove_order("A").unwrap();
    assert_eq!(removed.order_id, "A");
    assert!(book.get_order_by_id("A").is_none());
    assert_eq!(book.iter_orders_by_vtl().len(), 1);
    assert!(book.remove_order("A").is_none());
}

#[test]
fn end_to_end_match_borrow() {
    let mut lend_book = OrderBook::new();
    lend_book.add_order(order("L1", OrderType::LEND, "0.05", "0.10")).unwrap();
    let borrow = order("B", OrderType::BORROW, "0.06", "0.08");
    let m = match_borrow(&lend_book, &borrow).unwrap();
    assert_eq!(m.order_id, "L1");
    assert_eq!(m.amount, 100);
}

#[test]
fn match_borrow_inspects_only_predecessor() {
    let mut lend_book = OrderBook::new();
    lend_book.add_order(order("L1", OrderType::LEND, "0.01", "0.10")).unwrap();
    lend_book.add_order(order("L2", OrderType::LEND, "0.02", "0.03")).unwrap();
    let borrow = order("B", OrderType::BORROW, "0.05", "0.08");
    assert!(match_borrow(&lend_book, &borrow).is_none());
    let early = order("B0", OrderType::BORROW, "0.001", "0.5");
    assert!(match_borrow(&lend_book, &early).is_none());
}

#[test]
fn end_to_end_match_lend_skips_closed() {
    let mut borrow_book = OrderBook::new();
    let mut b1 = order("B1", OrderType::BORROW, "0.01", "0.03");
    b1.status = OrderStatus::EXPIRED;
    borrow_book.add_order(b1).unwrap();
    borrow_book.add_order(order("B2", OrderType::BORROW, "0.02", "0.09")).unwrap();
    let lend = order("L", OrderType::LEND, "0.005", "0.05");
    assert_eq!(match_lend(&borrow_book, &lend).unwrap().order_id, "B2");
}

#[test]
fn match_lend_scans_only_above_lend_min() {
    let mut borrow_book = OrderBook::new();
    let mut b1 = order("B1", OrderType::BORROW, "0.01", "0.03");
    b1.status = OrderStatus::EXPIRED;
    borrow_book.add_order(b1).unwrap();
    borrow_book.add_order(order("B2", OrderType::BORROW, "0.02", "0.09")).unwrap();
    let lend = order("L", OrderType::LEND, "0.02", "0.05");
    assert!(match_lend(&borrow_book, &lend).is_none());
}

#[test]
fn end_to_end_empty_book() {
    let borrow_book = OrderBook::new();
    let lend = order("L", OrderType::LEND, "0.02", "0.05");
    assert!(match_lend(&borrow_book, &lend).is_none());
    assert!(match_borrow(&borrow_book, &lend).is_none());
}

#[test]
fn market_books_pair() {
    let mut m = MarketOrderBooks { lender_book: OrderBook::new(), borrower_book: OrderBook::new() };
    m.lender_book.add_order(order("L", OrderType::LEND, "0.01", "0.02")).unwrap();
    assert_eq!(m.lender_book.len(), 1);
    assert_eq!(m.borrower_book.len(), 0);
}

#[test]
fn error_messages() {
    assert_eq!(Error::InvalidDenominator.message(), "Denominator cannot be zero");
    assert_eq!(Error::BookFull.message(), "order book full");
}
