use orderbook::{BidorAsk, Limit, Order, OrderBook, Price, PRICE_SCALAR};

fn sizes(limit: &Limit) -> Vec<u64> {
    limit.orders().iter().map(|o| o.size()).collect()
}

#[test]
fn price_components_and_scalar() {
    let p = Price::new(101, 23456);
    assert_eq!(p.integral(), 101);
    assert_eq!(p.fractional(), 23456);
    assert_eq!(p.scalar(), 100000);
    assert_eq!(PRICE_SCALAR, 100000);
}

#[test]
fn price_construction_is_repeatable() {
    assert_eq!(Price::new(1, 99999), Price::new(1, 99999));
    assert_eq!(Price::new(2, 0), Price::new(2, 0));
    assert_ne!(Price::new(2, 0), Price::new(1, 99999));
    assert_ne!(Price::new(100, 1), Price::new(100, 0));
}

#[test]
fn order_keeps_side_and_size() {
    let o = Order::new(BidorAsk::Ask, 7);
    assert_eq!(o.side(), BidorAsk::Ask);
    assert_eq!(o.size(), 7);
}

#[test]
fn limit_appends_in_arrival_order() {
    let mut l = Limit::new(Price::new(5, 50000));
    assert!(l.orders().is_empty());
    l.add_order(Order::new(BidorAsk::Bid, 3));
    l.add_order(Order::new(BidorAsk::Bid, 1));
    l.add_order(Order::new(BidorAsk::Bid, 2));
    assert_eq!(l.price(), Price::new(5, 50000));
    assert_eq!(sizes(&l), vec![3, 1, 2]);
}

#[test]
fn new_book_is_empty() {
    let b = OrderBook::new();
    assert_eq!(b.limit_count(BidorAsk::Bid), 0);
    assert_eq!(b.limit_count(BidorAsk::Ask), 0);
    assert!(b.limit(BidorAsk::Bid, Price::new(1, 0)).is_none());
}

#[test]
fn bid_never_touches_asks() {
    let mut b = OrderBook::new();
    let p = Price::new(100, 0);
    b.add_order(p, Order::new(BidorAsk::Bid, 4));
    assert_eq!(b.limit_count(BidorAsk::Bid), 1);
    assert_eq!(b.limit_count(BidorAsk::Ask), 0);
    assert!(b.limit(BidorAsk::Ask, p).is_none());
}

#[test]
fn ask_never_touches_bids() {
    let mut b = OrderBook::new();
    let p = Price::new(99, 50000);
    b.add_order(p, Order::new(BidorAsk::Ask, 4));
    assert_eq!(b.limit_count(BidorAsk::Ask), 1);
    assert_eq!(b.limit_count(BidorAsk::Bid), 0);
    assert!(b.limit(BidorAsk::Bid, p).is_none());
}

#[test]
fn same_price_reuses_one_limit() {
    let mut b = OrderBook::new();
    let p = Price::new(42, 10);
    b.add_order(p, Order::new(BidorAsk::Ask, 8));
    b.add_order(p, Order::new(BidorAsk::Ask, 9));
    assert_eq!(b.limit_count(BidorAsk::Ask), 1);
    let l = b.limit(BidorAsk::Ask, p).unwrap();
    assert_eq!(l.price(), p);
    assert_eq!(sizes(l), vec![8, 9]);
}

#[test]
fn distinct_prices_get_distinct_limits() {
    let mut b = OrderBook::new();
    b.add_order(Price::new(42, 10), Order::new(BidorAsk::Bid, 1));
    b.add_order(Price::new(42, 11), Order::new(BidorAsk::Bid, 2));
    b.add_order(Price::new(42, 10), Order::new(BidorAsk::Bid, 3));
    assert_eq!(b.limit_count(BidorAsk::Bid), 2);
    assert_eq!(sizes(b.limit(BidorAsk::Bid, Price::new(42, 10)).unwrap()), vec![1, 3]);
    assert_eq!(sizes(b.limit(BidorAsk::Bid, Price::new(42, 11)).unwrap()), vec![2]);
}

#[test]
fn many_orders_keep_submission_order() {
    let mut b = OrderBook::new();
    let p = Price::new(7, 77777);
    let submitted: Vec<u64> = (1..=20).map(|k| (k * 37) % 23).collect();
    for s in &submitted {
        b.add_order(p, Order::new(BidorAsk::Bid, *s));
    }
    assert_eq!(b.limit_count(BidorAsk::Bid), 1);
    assert_eq!(sizes(b.limit(BidorAsk::Bid, p).unwrap()), submitted);
}

#[test]
fn crossed_book_is_representable() {
    let mut b = OrderBook::new();
    let p = Price::new(100, 0);
    b.add_order(p, Order::new(BidorAsk::Bid, 1));
    b.add_order(p, Order::new(BidorAsk::Ask, 2));
    assert_eq!(b.limit_count(BidorAsk::Bid), 1);
    assert_eq!(b.limit_count(BidorAsk::Ask), 1);
    let bid = b.limit(BidorAsk::Bid, p).unwrap();
    let ask = b.limit(BidorAsk::Ask, p).unwrap();
    assert_eq!(bid.price(), ask.price());
    assert_eq!(sizes(bid), vec![1]);
    assert_eq!(sizes(ask), vec![2]);
    assert_eq!(bid.orders()[0].side(), BidorAsk::Bid);
    assert_eq!(ask.orders()[0].side(), BidorAsk::Ask);
}

#[test]
fn two_bids_at_one_price_end_to_end() {
    let mut b = OrderBook::new();
    let p = Price::new(101, 23456);
    b.add_order(p, Order::new(BidorAsk::Bid, 10));
    b.add_order(p, Order::new(BidorAsk::Bid, 5));
    assert_eq!(b.limit_count(BidorAsk::Bid), 1);
    assert_eq!(b.limit_count(BidorAsk::Ask), 0);
    let l = b.limit(BidorAsk::Bid, p).unwrap();
    assert_eq!(l.price().integral(), 101);
    assert_eq!(l.price().fractional(), 23456);
    assert_eq!(l.price().scalar(), 100000);
    assert_eq!(sizes(l), vec![10, 5]);
}
