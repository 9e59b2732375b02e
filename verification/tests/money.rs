use gw2_arbitrage::money::Money;

fn copper(n: i32) -> Money {
    Money::from_copper(n)
}

#[test]
fn a_sale_leaves_eighty_five_percent() {
    let m = copper(100).trading_post_sale_revenue();
    assert!(m.equals(&copper(85)));
}

#[test]
fn fees_never_round() {
    let m = copper(1).trading_post_sale_revenue();
    assert_eq!((m.numerator(), m.denominator()), (17, 20));
    assert_eq!(m.to_copper_value(), 0);
    assert!(m.times(20).equals(&copper(17)));
}

#[test]
fn listing_price_undoes_the_fees() {
    for n in [-30, 0, 1, 7, 85, 12_345] {
        let price = copper(n).trading_post_listing_price();
        assert!(price.trading_post_sale_revenue().equals(&copper(n)));
    }
    assert!(copper(85).trading_post_listing_price().equals(&copper(100)));
}

#[test]
fn higher_prices_leave_more() {
    assert!(copper(10).trading_post_sale_revenue().less_than(&copper(11).trading_post_sale_revenue()));
    assert!(Money::zero().less_than(&copper(1).trading_post_sale_revenue()));
}

#[test]
fn listing_fee_is_five_percent() {
    assert!(copper(100).increase_by_listing_fee().equals(&copper(105)));
    let m = copper(1).increase_by_listing_fee();
    assert_eq!((m.numerator(), m.denominator()), (21, 20));
}

#[test]
fn copper_is_rounded_towards_zero() {
    let m = copper(7).divided_by(2);
    assert_eq!(m.to_copper_value(), 3);
    assert_eq!(Money::zero().minus(m).to_copper_value(), -3);
    assert_eq!(copper(-1).divided_by(3).to_copper_value(), 0);
    assert_eq!(copper(10).copper_share(2, 3), 6);
    assert_eq!(copper(-10).copper_share(2, 3), -6);
}

#[test]
fn amounts_compare_by_value() {
    let third = copper(1).divided_by(3);
    assert!(third.plus(third).plus(third).equals(&copper(1)));
    assert!(third.less_than(&copper(1).divided_by(2)));
    assert!(!copper(2).less_than(&copper(2)));
    assert!(copper(3).min(copper(2)).equals(&copper(2)));
    assert!(copper(3).max(copper(2)).equals(&copper(3)));
    assert!(Money::zero().is_zero());
    assert!(!third.is_zero());
    assert_eq!(copper(2).divided_by(4), copper(1).divided_by(2));
}

#[test]
fn sums_that_cannot_be_held_are_refused() {
    let big = Money::whole_copper(i64::MAX);
    assert!(big.checked_plus(copper(1)).is_none());
    assert!(big.checked_plus(copper(-1)).is_some());
    assert!(big.checked_times(2).is_none());
    assert!(Money::sum(&vec![big, copper(1), copper(-1)]).is_none());
    let sum = Money::sum(&vec![copper(1), copper(2).divided_by(3), copper(-4)]);
    assert!(sum.unwrap().equals(&copper(-7).divided_by(3)));
    assert!(Money::sum(&vec![]).unwrap().is_zero());
}

#[test]
fn revenue_of_whole_sales() {
    assert!(Money::sale_revenue_of(200).equals(&copper(170)));
    assert!(Money::checked_sale_revenue_of(i64::MAX).is_none());
}

#[test]
fn amounts_are_shown_as_gold_silver_and_copper() {
    assert_eq!(copper(1234).render(), "0.12.34g");
    assert_eq!(copper(1_020_304).render(), "102.03.04g");
    assert_eq!(copper(-5).render(), "-0.00.05g");
    assert_eq!(Money::zero().render(), "0c");
    assert_eq!(copper(1).divided_by(2).render(), "0.00.00g");
    assert_eq!(copper(100).render_share(21, 20), "0.01.05g");
    assert_eq!(copper(100).render_share(0, 20), "0c");
}
