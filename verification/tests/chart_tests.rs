use tickerdash::chart::{
    aggregate, bucket_key, ceil_to_multiple, floor_to_multiple, split_series, x_bounds, y_bounds,
    Bucket, TkrChart, TEN_PRICE_UNITS,
};
use tickerdash::models::{TkrData, TkrResult};
use tickerdash::price::parse_decimal;
use tickerdash::ring::DataList;

fn msg(price: &str, t: i64) -> TkrResult {
    let mut d = TkrData::default();
    d.a = price.to_string();
    d.t = t;
    TkrResult {
        tkr: "BTC".to_string(),
        subscription: "ticker.BTC".to_string(),
        channel: "ticker".to_string(),
        data: vec![d],
    }
}

#[test]
fn bucket_key_rounds_half_away_from_zero() {
    assert_eq!(bucket_key(0), 0);
    assert_eq!(bucket_key(2499), 0);
    assert_eq!(bucket_key(2500), 1);
    assert_eq!(bucket_key(7499), 1);
    assert_eq!(bucket_key(7500), 2);
    assert_eq!(bucket_key(-2499), 0);
    assert_eq!(bucket_key(-2500), -1);
    assert_eq!(bucket_key(1_700_000_002_600), 340_000_001);
}

#[test]
fn parse_decimal_scales_by_ten_thousand() {
    assert_eq!(parse_decimal("100"), 1_000_000);
    assert_eq!(parse_decimal("100.5"), 1_005_000);
    assert_eq!(parse_decimal("-3.14"), -31_400);
    assert_eq!(parse_decimal("-0.5"), -5_000);
    assert_eq!(parse_decimal("0.12345"), 1_234);
    assert_eq!(parse_decimal("0"), 0);
}

#[test]
fn parse_decimal_rejects_what_is_not_a_plain_decimal() {
    assert_eq!(parse_decimal(""), 0);
    assert_eq!(parse_decimal("abc"), 0);
    assert_eq!(parse_decimal("5."), 0);
    assert_eq!(parse_decimal(".5"), 0);
    assert_eq!(parse_decimal("1e5"), 0);
    assert_eq!(parse_decimal("12.3.4"), 0);
    assert_eq!(parse_decimal("--5"), 0);
    assert_eq!(parse_decimal("-"), 0);
    assert_eq!(parse_decimal("99999999999999999999"), 0);
}

#[test]
fn aggregate_tracks_open_and_close_per_bucket() {
    let points = vec![(3, 100), (3, 90), (4, 50)];
    let buckets = aggregate(&points);
    assert_eq!(buckets.len(), 2);
    assert_eq!(buckets[0], Bucket { key: 3, open_price: 100, close_price: 90 });
    assert_eq!(buckets[1], Bucket { key: 4, open_price: 50, close_price: 50 });
}

#[test]
fn falling_bucket_goes_to_upticks_at_open() {
    // prices 100 then 90 in one bucket: open 100, close 90, close < open,
    // routed to the uptick series at the open value
    let points = vec![(3, 100), (3, 90)];
    let buckets = aggregate(&points);
    assert_eq!(buckets[0].open_price, 100);
    assert_eq!(buckets[0].close_price, 90);
    assert!(buckets[0].close_price < buckets[0].open_price);
    let (up, down) = split_series(&buckets);
    assert_eq!(up, vec![(3, 100)]);
    assert_eq!(down, vec![]);
}

#[test]
fn rising_bucket_goes_to_downticks_at_close() {
    let points = vec![(3, 90), (3, 100)];
    let (up, down) = split_series(&aggregate(&points));
    assert_eq!(up, vec![]);
    assert_eq!(down, vec![(3, 100)]);
}

#[test]
fn single_tick_bucket_is_an_uptick_with_open_equal_close() {
    let points = vec![(7, 55)];
    let buckets = aggregate(&points);
    assert_eq!(buckets[0].open_price, buckets[0].close_price);
    let (up, down) = split_series(&buckets);
    assert_eq!(up, vec![(7, 55)]);
    assert_eq!(down, vec![]);
}

#[test]
fn chart_from_buffer_buckets_two_ticks_of_one_window() {
    // capacity 3 leaves room for both ticks in the traversal; both fall in
    // bucket 0 (timestamps 1000 and 2000), prices 100 then 90
    let mut dl = DataList::new(3);
    dl.insert(&msg("100", 1000));
    dl.insert(&msg("90", 2000));
    let chart = TkrChart::new(&dl);
    assert_eq!(chart.upticks, vec![(0, 1_000_000)]);
    assert_eq!(chart.downticks, vec![]);
}

#[test]
fn x_bounds_is_fifty_back_from_the_largest_key() {
    let up = vec![(10, 5), (30, 5)];
    let down = vec![(20, 7)];
    assert_eq!(x_bounds(&up, &down), Some((-20, 30)));
    assert_eq!(x_bounds(&Vec::new(), &Vec::new()), None);
}

#[test]
fn y_bounds_rounds_out_to_price_tens_and_ignores_zero() {
    // prices 97 and 123 (scaled by 10000), one zero sentinel: the viewport
    // is prices 90 to 130
    let up = vec![(1, 970_000), (2, 0)];
    let down = vec![(3, 1_230_000)];
    assert_eq!(y_bounds(&up, &down), Some((900_000, 1_300_000)));
    // a single price 97 spans the whole ten around it: 90 to 100
    let single = vec![(1, 970_000)];
    assert_eq!(y_bounds(&single, &Vec::new()), Some((900_000, 1_000_000)));
    let zeros = vec![(1, 0)];
    assert_eq!(y_bounds(&zeros, &Vec::new()), None);
}

#[test]
fn rounding_to_multiples_handles_negatives_and_exact_multiples() {
    assert_eq!(floor_to_multiple(-7, 10), -10);
    assert_eq!(ceil_to_multiple(-7, 10), 0);
    assert_eq!(floor_to_multiple(40, 10), 40);
    assert_eq!(ceil_to_multiple(40, 10), 40);
    assert_eq!(floor_to_multiple(41, 10), 40);
    assert_eq!(ceil_to_multiple(41, 10), 50);
    // one whole ten of price is ten times the fixed-point scale
    assert_eq!(TEN_PRICE_UNITS, 100_000);
    assert_eq!(floor_to_multiple(970_000, TEN_PRICE_UNITS), 900_000);
    assert_eq!(ceil_to_multiple(970_000, TEN_PRICE_UNITS), 1_000_000);
    assert_eq!(ceil_to_multiple(900_000, TEN_PRICE_UNITS), 900_000);
    assert_eq!(floor_to_multiple(-970_000, TEN_PRICE_UNITS), -1_000_000);
    assert_eq!(ceil_to_multiple(-970_000, TEN_PRICE_UNITS), -900_000);
}
