use radau_rs::error::RadauError;
use radau_rs::tableau::{binomial, radau_generator_coefficients, TableauShape};

#[test]
fn supported_orders_have_expected_stage_counts() {
    let t5 = TableauShape::for_order(5).unwrap();
    let t9 = TableauShape::for_order(9).unwrap();
    let t13 = TableauShape::for_order(13).unwrap();

    assert_eq!(t5.order, 5);
    assert_eq!(t5.stages, 3);
    assert_eq!(t9.order, 9);
    assert_eq!(t9.stages, 5);
    assert_eq!(t13.order, 13);
    assert_eq!(t13.stages, 7);
}

#[test]
fn invalid_order_errors() {
    assert!(matches!(TableauShape::for_order(4), Err(RadauError::InvalidOrder(4))));
    assert!(matches!(TableauShape::for_order(6), Err(RadauError::InvalidOrder(6))));
}

#[test]
fn orders_below_three_are_invalid() {
    assert_eq!(TableauShape::for_order(0), Err(RadauError::InvalidOrder(0)));
    assert_eq!(TableauShape::for_order(1), Err(RadauError::InvalidOrder(1)));
    assert_eq!(TableauShape::for_order(2), Err(RadauError::InvalidOrder(2)));
}

#[test]
fn every_odd_order_from_three_is_accepted() {
    let t3 = TableauShape::for_order(3).unwrap();
    assert_eq!((t3.order, t3.stages, t3.embedded_order), (3, 2, 2));
    let t7 = TableauShape::for_order(7).unwrap();
    assert_eq!((t7.order, t7.stages, t7.embedded_order), (7, 4, 4));
    let t25 = TableauShape::for_order(25).unwrap();
    assert_eq!((t25.order, t25.stages, t25.embedded_order), (25, 13, 13));
}

#[test]
fn largest_odd_order_does_not_overflow() {
    let t = TableauShape::for_order(usize::MAX).unwrap();
    assert_eq!(t.stages, usize::MAX / 2 + 1);
    assert_eq!(t.order, usize::MAX);
}

#[test]
fn stage_count_roundtrips_through_order() {
    for s in 2..40usize {
        let t = TableauShape::for_order(2 * s - 1).unwrap();
        assert_eq!(t.stages, s);
        assert_eq!(t.embedded_order, s);
    }
}

#[test]
fn binomial_small_values() {
    assert_eq!(binomial(0, 0), 1);
    assert_eq!(binomial(5, 0), 1);
    assert_eq!(binomial(5, 2), 10);
    assert_eq!(binomial(5, 3), 10);
    assert_eq!(binomial(5, 5), 1);
    assert_eq!(binomial(10, 3), 120);
    assert_eq!(binomial(13, 6), 1716);
}

#[test]
fn binomial_is_zero_past_n() {
    assert_eq!(binomial(4, 5), 0);
    assert_eq!(binomial(0, 1), 0);
}

#[test]
fn binomial_is_symmetric() {
    for n in 0..40usize {
        for k in 0..=n {
            assert_eq!(binomial(n, k), binomial(n, n - k));
        }
    }
}

#[test]
fn binomial_satisfies_pascal_rule() {
    for n in 1..40usize {
        for k in 1..=n {
            assert_eq!(binomial(n, k), binomial(n - 1, k - 1) + binomial(n - 1, k));
        }
    }
}

#[test]
fn binomial_large_central_coefficient() {
    // C(49, 24), whose numerator 49!/25! still fits in a u128.
    assert_eq!(binomial(49, 24), 63205303218876);
    assert_eq!(binomial(49, 25), 63205303218876);
}

#[test]
fn generator_coefficients_for_three_stages() {
    // x^2 (x - 1)^3 = x^5 - 3x^4 + 3x^3 - x^2
    assert_eq!(radau_generator_coefficients(3), vec![0, 0, -1, 3, -3, 1]);
}

#[test]
fn generator_coefficients_for_one_and_two_stages() {
    // (x - 1) and x (x - 1)^2 = x^3 - 2x^2 + x
    assert_eq!(radau_generator_coefficients(1), vec![-1, 1]);
    assert_eq!(radau_generator_coefficients(2), vec![0, 1, -2, 1]);
}

#[test]
fn generator_polynomial_vanishes_at_one() {
    for s in 1..30usize {
        let p = radau_generator_coefficients(s);
        assert_eq!(p.len(), 2 * s);
        assert_eq!(p.iter().sum::<i128>(), 0);
    }
}

use radau_rs::tableau::TableauCache;
use std::cell::Cell;

#[test]
fn cache_returns_same_pointer_for_same_order() {
    let mut cache: TableauCache<TableauShape> = TableauCache::default();
    let p1 = format!("{:p}", cache.get(5, TableauShape::for_order).unwrap());
    let p2 = format!("{:p}", cache.get(5, TableauShape::for_order).unwrap());
    assert_eq!(p1, p2);
}

#[test]
fn cache_holds_multiple_orders_independently() {
    let mut cache: TableauCache<TableauShape> = TableauCache::default();
    let p5 = format!("{:p}", cache.get(5, TableauShape::for_order).unwrap());
    let p9 = format!("{:p}", cache.get(9, TableauShape::for_order).unwrap());
    let p13 = format!("{:p}", cache.get(13, TableauShape::for_order).unwrap());
    assert_ne!(p5, p9);
    assert_ne!(p9, p13);
    assert_eq!(cache.get(9, TableauShape::for_order).unwrap().stages, 5);
}

#[test]
fn cache_builds_each_order_once() {
    let builds = Cell::new(0usize);
    let build = |order: usize| {
        builds.set(builds.get() + 1);
        TableauShape::for_order(order)
    };
    let mut cache: TableauCache<TableauShape> = TableauCache::new();
    assert_eq!(cache.get(5, &build).unwrap().stages, 3);
    assert_eq!(cache.get(5, &build).unwrap().stages, 3);
    assert_eq!(cache.get(9, &build).unwrap().stages, 5);
    assert_eq!(cache.get(5, &build).unwrap().stages, 3);
    assert_eq!(builds.get(), 2);
}

#[test]
fn cache_passes_build_errors_through_and_retries() {
    let builds = Cell::new(0usize);
    let build = |order: usize| {
        builds.set(builds.get() + 1);
        TableauShape::for_order(order)
    };
    let mut cache: TableauCache<TableauShape> = TableauCache::new();
    assert_eq!(cache.get(4, &build).err(), Some(RadauError::InvalidOrder(4)));
    assert_eq!(cache.get(4, &build).err(), Some(RadauError::InvalidOrder(4)));
    assert_eq!(builds.get(), 2);
}
