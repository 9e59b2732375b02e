use gw2_arbitrage::api;
use gw2_arbitrage::listings::{ItemListings, Listing};
use gw2_arbitrage::money::Money;

fn level(unit_price: u32, quantity: u32) -> Listing {
    Listing { unit_price, quantity }
}

fn book() -> ItemListings {
    ItemListings {
        id: 1,
        // best bid last
        buys: vec![level(80, 5), level(90, 2)],
        // best ask last
        sells: vec![level(120, 4), level(100, 3)],
        pending_buy_quantity: 0,
        pending_sell_quantity: 0,
    }
}

#[test]
fn instant_purchases_start_with_the_cheapest_ask() {
    let mut b = book();
    assert_eq!(b.buy(4), Some((420, 100, 120)));
    assert_eq!(b.sells, vec![level(120, 3)]);
    assert_eq!(b.buys, book().buys);
    assert_eq!(b.buy(4), None);
}

#[test]
fn instant_sales_start_with_the_highest_bid() {
    let mut b = book();
    let (revenue, min) = b.sell(3).unwrap();
    assert!(revenue.equals(&Money::from_copper(260).trading_post_sale_revenue()));
    assert_eq!(min, 80);
    assert_eq!(b.buys, vec![level(80, 4)]);
    assert!(b.sell(5).is_none());
}

#[test]
fn patient_orders_use_the_other_side() {
    let mut b = book();
    assert_eq!(b.buy_at_bid(3), Some((260, 90, 80)));
    let mut b = book();
    let (revenue, max) = b.sell_at_ask(4).unwrap();
    assert!(revenue.equals(&Money::from_copper(420).trading_post_sale_revenue()));
    assert_eq!(max, 120);
    let mut instant = book();
    let mut patient = book();
    assert_eq!(instant.buy_with_mode(1, false), Some((100, 100, 100)));
    assert_eq!(patient.buy_with_mode(1, true), Some((90, 90, 90)));
    assert_eq!(instant.sell_with_mode(1, false).unwrap().1, 90);
    assert_eq!(patient.sell_with_mode(1, true).unwrap().1, 100);
}

#[test]
fn prices_lie_between_the_cheapest_and_the_dearest_unit() {
    let b = book();
    assert_eq!(b.price_range(4, false), (100, 120));
    assert_eq!(b.price_range(3, true), (80, 90));
    assert_eq!(b.price_range(2, true), (90, 90));
    assert_eq!(b.price_range(0, true), (0, 0));
    assert_eq!(b.price_range(99, true), (80, 90));
    let mut mixed = book();
    mixed.sells = vec![level(5, 1), level(0, 0), level(10, 1), level(7, 1)];
    assert_eq!(mixed.price_range(3, false), (5, 10));
    mixed.sells = vec![level(9, 1), level(0, 1)];
    assert_eq!(mixed.price_range(2, false), (0, 9));
}

#[test]
fn bids_are_filled_from_the_dearest_down() {
    let mut b = book();
    assert_eq!(b.buy_at_bid(1), Some((90, 90, 90)));
    assert_eq!(b.buy_at_bid(2), Some((170, 90, 80)));
    assert_eq!(b.buy_at_bid(4), Some((320, 80, 80)));
    assert_eq!(b.buy_at_bid(1), None);
}

#[test]
fn nothing_is_traded_for_free() {
    let mut b = book();
    assert_eq!(b.buy(0), Some((0, 0, 0)));
    let (revenue, min) = b.sell(0).unwrap();
    assert!(revenue.is_zero());
    assert_eq!(min, 0);
}

#[test]
fn offers_skip_reserved_units() {
    let mut b = book();
    assert_eq!(b.lowest_sell_offer(4), Some(420));
    b.pending_buy_quantity = 2;
    assert_eq!(b.lowest_sell_offer(2), Some(220));
    assert_eq!(b.lowest_sell_offer(6), None);
    b.pending_sell_quantity = 1;
    assert_eq!(b.highest_buy_offer(3), Some(250));
    assert_eq!(b.best_offer_with_mode(1, false), Some(100));
    assert_eq!(b.best_offer_with_mode(2, true), Some(170));
}

#[test]
fn an_offer_is_what_buying_behind_the_reserved_units_costs() {
    for reserved in 0..4u32 {
        for count in 1..4u32 {
            let mut quoted = book();
            quoted.pending_buy_quantity = reserved;
            let mut bought = book();
            bought.buy(reserved);
            let cost = bought.buy(count).map(|b| b.0);
            assert_eq!(quoted.lowest_sell_offer(count), cost);
        }
    }
}

#[test]
fn buying_in_two_goes_costs_the_same() {
    let mut once = book();
    let mut twice = book();
    let total = once.buy(5).unwrap().0;
    let first = twice.buy(2).unwrap().0;
    let second = twice.buy(3).unwrap().0;
    assert_eq!(total, first + second);
    assert_eq!(once.sells, twice.sells);
}

#[test]
fn possible_trades_are_recognised() {
    let mut b = book();
    assert!(b.purchase_is_possible(7, false));
    assert!(b.purchase_is_possible(8, false));
    assert!(b.sale_is_possible(7, false));
    b.sells.push(level(10, 0));
    assert!(!b.purchase_is_possible(1, false));
    assert!(!b.sale_is_possible(1, true));
    b.buys.push(level(u32::MAX, 2));
    assert!(!b.purchase_is_possible(2, true));
    assert!(b.purchase_is_possible(1, true));
}

#[test]
fn reported_books_are_converted_and_turned_round() {
    let mut reported = api::ItemListings {
        id: 7,
        buys: vec![
            api::Listing { listings: 1, unit_price: 90, quantity: 2 },
            api::Listing { listings: 2, unit_price: 80, quantity: 5 },
        ],
        sells: vec![
            api::Listing { listings: 1, unit_price: 100, quantity: 3 },
            api::Listing { listings: 1, unit_price: 120, quantity: 4 },
        ],
    };
    reported.best_offers_last();
    let b = ItemListings::from(&reported);
    assert_eq!(b.id, 7);
    assert_eq!(b.buys, book().buys);
    assert_eq!(b.sells, book().sells);
    assert_eq!((b.pending_buy_quantity, b.pending_sell_quantity), (0, 0));
    assert_eq!(reported.duplicate().sells, reported.sells);
}
