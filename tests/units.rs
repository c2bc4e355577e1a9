use shopping_list::{Measure, Unit, QUANTITY_SCALE};

fn m(quantity: i64, unit: Unit) -> Measure {
    Measure { quantity, unit }
}

const ALL: [Unit; 5] = [Unit::Pinch, Unit::Teaspoons, Unit::Tablespoons, Unit::Ounces, Unit::Cups];

#[test]
fn ascending_steps_follow_the_table() {
    assert_eq!(Unit::Pinch.next_biggest(), (1, 4, Unit::Teaspoons));
    assert_eq!(Unit::Teaspoons.next_biggest(), (33, 100, Unit::Tablespoons));
    assert_eq!(Unit::Tablespoons.next_biggest(), (1, 2, Unit::Ounces));
    assert_eq!(Unit::Ounces.next_biggest(), (1, 8, Unit::Cups));
    assert_eq!(Unit::Cups.next_biggest(), (1, 1, Unit::Cups));
    assert_eq!(Unit::Whole.next_biggest(), (1, 1, Unit::Whole));
}

#[test]
fn descending_steps_follow_the_table() {
    assert_eq!(Unit::Cups.next_smallest(), (8, Unit::Ounces));
    assert_eq!(Unit::Ounces.next_smallest(), (2, Unit::Tablespoons));
    assert_eq!(Unit::Tablespoons.next_smallest(), (3, Unit::Teaspoons));
    assert_eq!(Unit::Teaspoons.next_smallest(), (4, Unit::Pinch));
    assert_eq!(Unit::Pinch.next_smallest(), (1, Unit::Pinch));
    assert_eq!(Unit::Whole.next_smallest(), (1, Unit::Whole));
}

#[test]
fn new_measure_is_zero() {
    assert_eq!(Measure::new(Unit::Ounces), m(0, Unit::Ounces));
}

#[test]
fn converts_down_exactly() {
    assert_eq!(m(QUANTITY_SCALE, Unit::Cups).convert_to(Unit::Ounces), m(8 * QUANTITY_SCALE, Unit::Ounces));
    assert_eq!(m(QUANTITY_SCALE, Unit::Cups).convert_to(Unit::Pinch), m(192 * QUANTITY_SCALE, Unit::Pinch));
    assert_eq!(m(QUANTITY_SCALE, Unit::Tablespoons).convert_to(Unit::Teaspoons), m(3 * QUANTITY_SCALE, Unit::Teaspoons));
}

#[test]
fn converts_up_with_the_approximate_teaspoon_ratio() {
    assert_eq!(m(QUANTITY_SCALE, Unit::Teaspoons).convert_to(Unit::Tablespoons), m(330_000, Unit::Tablespoons));
    assert_eq!(m(QUANTITY_SCALE, Unit::Teaspoons).convert_to(Unit::Cups), m(20_625, Unit::Cups));
    assert_eq!(m(4 * QUANTITY_SCALE, Unit::Ounces).convert_to(Unit::Cups), m(500_000, Unit::Cups));
    // 0.25 * 0.33 * 0.5 * 0.125 = 0.00515625, rounded toward zero in millionths.
    assert_eq!(m(QUANTITY_SCALE, Unit::Pinch).convert_to(Unit::Cups), m(5_156, Unit::Cups));
    assert_eq!(m(-QUANTITY_SCALE, Unit::Pinch).convert_to(Unit::Cups), m(-5_156, Unit::Cups));
}

#[test]
fn converting_to_the_same_unit_changes_nothing() {
    for u in ALL {
        assert_eq!(m(1_234_567, u).convert_to(u), m(1_234_567, u));
    }
}

#[test]
fn whole_measures_are_never_converted() {
    for u in ALL {
        assert_eq!(m(3 * QUANTITY_SCALE, Unit::Whole).convert_to(u), m(3 * QUANTITY_SCALE, Unit::Whole));
        assert_eq!(m(3 * QUANTITY_SCALE, u).convert_to(Unit::Whole), m(3 * QUANTITY_SCALE, u));
    }
}

#[test]
fn round_trips_stay_within_the_known_bound() {
    let quantities = [0, 1, 7, QUANTITY_SCALE, 5 * QUANTITY_SCALE + 3, -2 * QUANTITY_SCALE - 1];
    for u in ALL {
        for v in ALL {
            for q in quantities {
                let back = m(q, u).convert_to(v).convert_to(u);
                assert_eq!(back.unit, u);
                let err = (back.quantity - q).abs();
                assert!(100 * err <= q.abs() + 19_200, "{:?} -> {:?} -> {:?}: {} vs {}", u, v, u, back.quantity, q);
            }
        }
    }
}

#[test]
fn teaspoon_round_trip_loses_one_hundredth() {
    let back = m(QUANTITY_SCALE, Unit::Teaspoons).convert_to(Unit::Tablespoons).convert_to(Unit::Teaspoons);
    assert_eq!(back, m(990_000, Unit::Teaspoons));
}

#[test]
fn round_trip_down_and_up_is_exact_within_one_side() {
    let back = m(QUANTITY_SCALE, Unit::Cups).convert_to(Unit::Tablespoons).convert_to(Unit::Cups);
    assert_eq!(back, m(QUANTITY_SCALE, Unit::Cups));
    let back = m(7, Unit::Teaspoons).convert_to(Unit::Pinch).convert_to(Unit::Teaspoons);
    assert_eq!(back, m(7, Unit::Teaspoons));
}

#[test]
fn addition_keeps_the_left_unit() {
    let cup = m(QUANTITY_SCALE, Unit::Cups);
    let ounces = m(4 * QUANTITY_SCALE, Unit::Ounces);
    assert_eq!(cup.add(&ounces), m(1_500_000, Unit::Cups));
    assert_eq!(ounces.add(&cup), m(12 * QUANTITY_SCALE, Unit::Ounces));
}

#[test]
fn addition_with_whole_adds_raw_quantities() {
    let whole = m(2 * QUANTITY_SCALE, Unit::Whole);
    let cup = m(QUANTITY_SCALE, Unit::Cups);
    assert_eq!(whole.add(&cup), m(3 * QUANTITY_SCALE, Unit::Whole));
    assert_eq!(cup.add(&whole), m(3 * QUANTITY_SCALE, Unit::Cups));
}

#[test]
fn addition_of_negative_quantities_passes_through() {
    let a = m(-QUANTITY_SCALE, Unit::Tablespoons);
    let b = m(QUANTITY_SCALE, Unit::Tablespoons);
    assert_eq!(a.add(&b), m(0, Unit::Tablespoons));
}

#[test]
fn checked_addition_keeps_the_left_unit_or_refuses() {
    let cup = m(QUANTITY_SCALE, Unit::Cups);
    let ounces = m(4 * QUANTITY_SCALE, Unit::Ounces);
    assert_eq!(cup.checked_add(&ounces), Some(m(1_500_000, Unit::Cups)));
    assert_eq!(ounces.checked_add(&cup), Some(m(12 * QUANTITY_SCALE, Unit::Ounces)));
    let whole = m(2 * QUANTITY_SCALE, Unit::Whole);
    assert_eq!(whole.checked_add(&cup), Some(m(3 * QUANTITY_SCALE, Unit::Whole)));
    assert_eq!(cup.checked_add(&whole), Some(m(3 * QUANTITY_SCALE, Unit::Cups)));
    assert_eq!(m(i64::MAX, Unit::Cups).checked_add(&m(1, Unit::Cups)), None);
    assert_eq!(m(0, Unit::Pinch).checked_add(&m(i64::MAX / 100, Unit::Cups)), None);
}

#[test]
fn crossing_round_trip_keeps_ninety_nine_hundredths() {
    for (u, v) in [(Unit::Pinch, Unit::Cups), (Unit::Teaspoons, Unit::Ounces), (Unit::Cups, Unit::Teaspoons)] {
        let q = 10 * QUANTITY_SCALE;
        let back = m(q, u).convert_to(v).convert_to(u).quantity;
        assert!((100 * back - 99 * q).abs() < 100 * 192, "{:?} {:?} {}", u, v, back);
    }
}
