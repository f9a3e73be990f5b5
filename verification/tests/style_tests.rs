use tickerdash::models::{TkrData, TkrResult};
use tickerdash::ring::DataList;
use tickerdash::style::{row_style, row_style_at, CellTone, RowTone};

fn full_msg(price: &str, qty: &str, bid: &str, ask: &str, t: i64) -> TkrResult {
    let mut d = TkrData::default();
    d.a = price.to_string();
    d.v = qty.to_string();
    d.b = bid.to_string();
    d.k = ask.to_string();
    d.t = t;
    TkrResult {
        tkr: "BTC".to_string(),
        subscription: "ticker.BTC".to_string(),
        channel: "ticker".to_string(),
        data: vec![d],
    }
}

#[test]
fn rising_quantity_highlights_the_row_by_price_direction() {
    let gain = row_style(20, 10, 105, 100, 0, 0, 0, 0);
    assert_eq!(gain.row, RowTone::Gain);
    assert_eq!(gain.bid, CellTone::Emphasis);
    assert_eq!(gain.ask, CellTone::Emphasis);
    let loss = row_style(20, 10, 100, 100, 5, 1, 9, 1);
    assert_eq!(loss.row, RowTone::Loss);
    assert_eq!(loss.bid, CellTone::Emphasis);
    assert_eq!(loss.ask, CellTone::Emphasis);
}

#[test]
fn flat_quantity_tones_cells_by_their_own_movement() {
    let st = row_style(10, 10, 100, 100, 7, 5, 3, 4);
    assert_eq!(st.row, RowTone::Plain);
    assert_eq!(st.bid, CellTone::Up);
    assert_eq!(st.ask, CellTone::Down);
    let st = row_style(5, 10, 100, 100, 5, 5, 4, 4);
    assert_eq!(st.row, RowTone::Plain);
    assert_eq!(st.bid, CellTone::Unchanged);
    assert_eq!(st.ask, CellTone::Unchanged);
}

#[test]
fn row_style_at_compares_with_the_predecessor_slot() {
    let mut dl = DataList::new(3);
    dl.insert(&full_msg("100", "10", "99", "101", 1000));
    dl.insert(&full_msg("105", "12", "104", "106", 2000));
    // slot 1 (newest) against its predecessor slot 0: quantity rose on a
    // rising price
    let st = row_style_at(&dl, 1);
    assert_eq!(st.row, RowTone::Gain);
    assert_eq!(st.bid, CellTone::Emphasis);
    // slot 0 against its predecessor slot 2 (a placeholder): quantity rose
    let st0 = row_style_at(&dl, 0);
    assert_eq!(st0.row, RowTone::Gain);
}
