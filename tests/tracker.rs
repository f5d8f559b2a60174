use inflation_tracker::comparison::{compare_inflation, InflationComparison};
use inflation_tracker::tracker::InflationTracker;

const STARTING_YEAR: usize = 1993;

const CZECH_RATES: [i64; 30] = [
    280000, 100000, 91000, 88000, 85000, 107000, 21000, 39000, 47000, 18000, 1000, 28000, 19000,
    25000, 28000, 63000, 10000, 15000, 19000, 33000, 14000, 4000, 3000, 7000, 25000, 21000, 28000,
    32000, 38000, 151000,
];

const SLOVAK_RATES: [i64; 30] = [
    232000, 134000, 99000, 58000, 61000, 67000, 106000, 120000, 73000, 33000, 85000, 75000, 27000,
    45000, 28000, 46000, 16000, 10000, 39000, 36000, 14000, -1000, -3000, -5000, 13000, 25000,
    27000, 19000, 32000, 128000,
];

/// Five million, in millionths of a unit.
const PRINCIPAL: i64 = 5_000_000_000_000;

fn filled(name: &str, rates: &[i64; 30]) -> InflationTracker {
    let mut t = InflationTracker::new(name);
    for (i, r) in rates.iter().enumerate() {
        t.insert(STARTING_YEAR + i, *r);
    }
    t
}

fn to_cents(micro: i64) -> i64 {
    (micro + 5_000) / 10_000
}

#[test]
fn czech_thirty_year_future_value() {
    let t = filled("Czech Republic", &CZECH_RATES);
    let fv = t.get_future_val(PRINCIPAL, 1993, 2023);
    assert_eq!(fv.value, Some(1_078_343_794_352));
    assert_eq!(to_cents(fv.value.unwrap()), 107_834_379);
    assert!(!fv.no_data);
    assert!(!fv.start_out_of_range);
    assert!(!fv.end_out_of_range);
    assert!(!fv.start_not_before_end);
}

#[test]
fn slovak_thirty_year_future_value() {
    let t = filled("Slovak Republic", &SLOVAK_RATES);
    let fv = t.get_future_val(PRINCIPAL, 1993, 2023);
    assert_eq!(fv.value, Some(885_311_862_929));
    assert_eq!(to_cents(fv.value.unwrap()), 88_531_186);
}

#[test]
fn czech_extremes() {
    let t = filled("Czech Republic", &CZECH_RATES);
    assert_eq!(t.get_max(), (1993, 280000));
    assert_eq!(t.get_min(), (2003, 1000));
}

#[test]
fn slovak_extremes_include_deflation() {
    let t = filled("Slovak Republic", &SLOVAK_RATES);
    assert_eq!(t.get_max(), (1993, 232000));
    assert_eq!(t.get_min(), (2016, -5000));
}

#[test]
fn extremes_bound_every_entry() {
    let t = filled("Slovak Republic", &SLOVAK_RATES);
    let (_, hi) = t.get_max();
    let (_, lo) = t.get_min();
    for (_, r) in t.describe() {
        assert!(lo <= r && r <= hi);
    }
}

#[test]
fn equal_extremes_resolve_to_the_first_entry() {
    let mut t = InflationTracker::new("X");
    t.insert(2001, 50);
    t.insert(2002, 90);
    t.insert(2003, 10);
    t.insert(2004, 90);
    t.insert(2005, 10);
    assert_eq!(t.get_max(), (2002, 90));
    assert_eq!(t.get_min(), (2003, 10));
}

#[test]
fn reinserting_a_year_keeps_its_position() {
    let mut t = InflationTracker::new("X");
    t.insert(2000, 1);
    t.insert(2001, 2);
    t.insert(2002, 3);
    t.insert(2001, 20);
    t.insert(2001, 200);
    assert_eq!(t.describe(), vec![(2000, 1), (2001, 200), (2002, 3)]);
}

#[test]
fn insert_appends_new_years_in_order() {
    let mut t = InflationTracker::new("X");
    t.insert(2010, 5);
    t.insert(2005, 7);
    assert_eq!(t.describe(), vec![(2010, 5), (2005, 7)]);
}

#[test]
fn clear_empties_the_series_and_keeps_the_name() {
    let mut t = filled("Czech Republic", &CZECH_RATES);
    t.clear();
    assert!(t.describe().is_empty());
    assert_eq!(t.country_name(), "Czech Republic");
    let fv = t.get_future_val(PRINCIPAL, 1993, 2023);
    assert!(fv.no_data);
    assert_eq!(fv.value, Some(PRINCIPAL));
}

#[test]
fn renaming_keeps_the_entries() {
    let mut t = filled("Czech Republic", &CZECH_RATES);
    t.change_country_name("Slovak Republic");
    assert_eq!(t.country_name(), "Slovak Republic");
    assert_eq!(t.describe().len(), 30);
}

#[test]
fn equal_start_and_end_keep_the_principal() {
    let t = filled("Czech Republic", &CZECH_RATES);
    let fv = t.get_future_val(1234, 2000, 2000);
    assert_eq!(fv.value, Some(1234));
    assert!(fv.start_not_before_end);
    assert!(!fv.no_data);
}

#[test]
fn uniform_rate_compounds_exactly() {
    let mut t = InflationTracker::new("X");
    t.insert(2000, 100_000);
    t.insert(2001, 100_000);
    t.insert(2002, 100_000);
    assert_eq!(t.get_future_val(1000, 2000, 2003).value, Some(729));
}

#[test]
fn only_years_in_the_window_apply() {
    let mut t = InflationTracker::new("X");
    t.insert(2000, 500_000);
    t.insert(2001, 100_000);
    t.insert(2002, 500_000);
    assert_eq!(t.get_future_val(1000, 2001, 2002).value, Some(900));
}

#[test]
fn negative_amounts_round_down() {
    let mut t = InflationTracker::new("X");
    t.insert(2000, -500_000);
    t.insert(2001, -500_000);
    t.insert(2002, -500_000);
    assert_eq!(t.get_future_val(-7, 2000, 2003).value, Some(-26));
}

#[test]
fn range_warnings() {
    let t = filled("Czech Republic", &CZECH_RATES);
    let early = t.get_future_val(100, 1990, 2000);
    assert!(early.start_out_of_range);
    assert!(!early.end_out_of_range);
    let late = t.get_future_val(100, 2000, 2030);
    assert!(!late.start_out_of_range);
    assert!(late.end_out_of_range);
    let inverted = t.get_future_val(100, 2010, 2000);
    assert!(inverted.start_not_before_end);
    assert_eq!(inverted.value, Some(100));
    let at_end = t.get_future_val(100, 1993, 2023);
    assert!(!at_end.end_out_of_range);
    let zero_end = t.get_future_val(100, 0, 0);
    assert!(!zero_end.end_out_of_range);
}

#[test]
fn empty_series_warns_and_keeps_the_principal() {
    let t = InflationTracker::new("X");
    let fv = t.get_future_val(500, 1993, 2023);
    assert!(fv.no_data);
    assert!(!fv.start_out_of_range);
    assert!(!fv.end_out_of_range);
    assert_eq!(fv.value, Some(500));
}

#[test]
fn overflowing_projection_gives_no_value() {
    let mut t = InflationTracker::new("X");
    t.insert(2000, -999_000_000);
    t.insert(2001, -999_000_000);
    t.insert(2002, -999_000_000);
    assert_eq!(t.get_future_val(i64::MAX / 2, 2000, 2003).value, None);
}

#[test]
fn comparison_names_the_country_that_kept_less() {
    let cz = filled("Czech Republic", &CZECH_RATES).get_future_val(PRINCIPAL, 1993, 2023);
    let sk = filled("Slovak Republic", &SLOVAK_RATES).get_future_val(PRINCIPAL, 1993, 2023);
    let (a, b) = (cz.value.unwrap(), sk.value.unwrap());
    assert_eq!(compare_inflation(a, b), InflationComparison::SecondHigher);
    assert_eq!(compare_inflation(b, a), InflationComparison::FirstHigher);
    assert_eq!(compare_inflation(a, a), InflationComparison::Same);
}

#[test]
fn range_warnings_use_the_earliest_and_latest_years() {
    let mut t = InflationTracker::new("X");
    t.insert(2001, 10_000);
    t.insert(2000, 20_000);
    let inside = t.get_future_val(100, 2000, 2002);
    assert!(!inside.start_out_of_range);
    assert!(!inside.end_out_of_range);
    let outside = t.get_future_val(100, 1999, 2003);
    assert!(outside.start_out_of_range);
    assert!(outside.end_out_of_range);
}

#[test]
fn uniform_rate_ignores_years_outside_the_window() {
    let mut t = InflationTracker::new("X");
    t.insert(1999, 900_000);
    t.insert(2000, 100_000);
    t.insert(2001, 100_000);
    t.insert(2005, -400_000);
    assert_eq!(t.get_future_val(1000, 2000, 2002).value, Some(810));
}

#[test]
fn higher_rates_leave_no_more_money() {
    let mut a = InflationTracker::new("A");
    let mut b = InflationTracker::new("B");
    a.insert(2000, 50_000);
    a.insert(2001, 30_000);
    b.insert(2000, 40_000);
    b.insert(2001, 30_000);
    let va = a.get_future_val(10_000, 2000, 2002).value.unwrap();
    let vb = b.get_future_val(10_000, 2000, 2002).value.unwrap();
    assert_eq!((va, vb), (9215, 9312));
    assert_eq!(compare_inflation(va, vb), InflationComparison::FirstHigher);
}
