use openquanter::engine::book::{Book, Resting};
use openquanter::types::{
    limit_order, market_order, Offset, OrderId, PriceTicks, QtyLots, Side, Stamp, Working,
};

fn limit(id: u64, side: Side, price: i64, qty: i64) -> Working {
    limit_order(OrderId::new(id), side, PriceTicks(price), QtyLots(qty), Stamp::synthetic(0), Offset::Open)
}

fn market(id: u64, side: Side, qty: i64) -> Working {
    market_order(OrderId::new(id), side, QtyLots(qty), Stamp::synthetic(0), Offset::Open)
}

#[test]
fn bids_are_best_first_and_asks_are_best_first() {
    let mut book = Book::new();
    book.insert(limit(1, Side::Buy, 100, 1));
    book.insert(limit(2, Side::Buy, 120, 1));
    book.insert(limit(3, Side::Buy, 110, 1));
    book.insert(limit(4, Side::Sell, 200, 1));
    book.insert(limit(5, Side::Sell, 180, 1));

    assert_eq!(book.best_bid(), Some(PriceTicks(120)));
    assert_eq!(book.best_ask(), Some(PriceTicks(180)));
    let bid_prices: Vec<_> = book.bids().iter().filter_map(Resting::price).collect();
    assert_eq!(
        bid_prices,
        vec![PriceTicks(120), PriceTicks(110), PriceTicks(100)]
    );
}

#[test]
fn equal_prices_keep_arrival_order() {
    let mut book = Book::new();
    book.insert(limit(1, Side::Buy, 100, 1));
    book.insert(limit(2, Side::Buy, 100, 1));
    book.insert(limit(3, Side::Buy, 100, 1));
    let ids: Vec<_> = book.bids().iter().map(Resting::id).collect();
    assert_eq!(
        ids,
        vec![OrderId::new(1), OrderId::new(2), OrderId::new(3)],
        "price-time priority: first in, first in line"
    );
}

#[test]
fn market_orders_are_kept_apart_from_the_price_ordering() {
    let mut book = Book::new();
    book.insert(market(1, Side::Buy, 1));
    book.insert(limit(2, Side::Buy, 100, 1));
    assert_eq!(book.market_buys().len(), 1);
    assert_eq!(book.bids().len(), 1);
    assert_eq!(book.best_bid(), Some(PriceTicks(100)));
}

#[test]
fn remove_finds_orders_on_any_side() {
    let mut book = Book::new();
    book.insert(limit(1, Side::Buy, 100, 1));
    book.insert(limit(2, Side::Sell, 200, 1));
    book.insert(market(3, Side::Sell, 1));
    assert!(book.remove(OrderId::new(2)).is_some());
    assert!(book.remove(OrderId::new(3)).is_some());
    assert!(book.remove(OrderId::new(99)).is_none());
    assert_eq!(book.len(), 1);
}

#[test]
fn a_partial_fill_keeps_its_queue_position() {
    let mut book = Book::new();
    book.insert(limit(1, Side::Buy, 100, 10));
    book.insert(limit(2, Side::Buy, 100, 10));

    let first = book.bids()[0].order;
    let still = Working {
        remaining: QtyLots(first.remaining().0 - 4),
        ..first
    };
    book.replace(OrderId::new(1), Some(still));

    let ids: Vec<_> = book.bids().iter().map(Resting::id).collect();
    assert_eq!(ids, vec![OrderId::new(1), OrderId::new(2)]);
    assert_eq!(book.bids()[0].order.remaining(), QtyLots(6));
}
