use tickerdash::models::{TkrData, TkrResult};
use tickerdash::ring::DataList;

fn tick(price: &str, t: i64) -> TkrData {
    let mut d = TkrData::default();
    d.a = price.to_string();
    d.i = "TEST".to_string();
    d.t = t;
    d
}

fn msg(tkr: &str, price: &str, t: i64) -> TkrResult {
    TkrResult {
        tkr: tkr.to_string(),
        subscription: format!("ticker.{}", tkr),
        channel: "ticker".to_string(),
        data: vec![tick(price, t)],
    }
}

#[test]
fn fresh_buffer_holds_placeholders() {
    let dl = DataList::new(4);
    assert_eq!(dl.capacity, 4);
    assert_eq!(dl.curr_i, 0);
    assert_eq!(dl.data.len(), 4);
    for d in dl.data.iter() {
        assert_eq!(d.a, "");
        assert_eq!(d.t, 0);
    }
}

#[test]
fn insert_overwrites_write_cursor_and_tracks_newest() {
    let mut dl = DataList::new(3);
    dl.insert(&msg("BTC", "10", 1));
    assert_eq!(dl.data[0].a, "10");
    assert_eq!(dl.curr_i, 0);
    dl.insert(&msg("BTC", "11", 2));
    assert_eq!(dl.data[1].a, "11");
    assert_eq!(dl.curr_i, 1);
    dl.insert(&msg("BTC", "12", 3));
    dl.insert(&msg("BTC", "13", 4));
    // wrapped: the fourth insert lands in slot 0 again
    assert_eq!(dl.data[0].a, "13");
    assert_eq!(dl.curr_i, 0);
}

#[test]
fn newest_is_last_inserted() {
    let mut dl = DataList::new(5);
    dl.insert(&msg("BTC", "7", 1));
    dl.insert(&msg("BTC", "8", 2));
    assert_eq!(dl.newest().a, "8");
}

#[test]
fn window_after_overfill_is_newest_to_oldest() {
    // capacity 4, six inserts: traversal shows t6, t5, t4
    let mut dl = DataList::new(4);
    for (n, p) in ["1", "2", "3", "4", "5", "6"].iter().enumerate() {
        dl.insert(&msg("BTC", p, n as i64 + 1));
    }
    let order = dl.get_order();
    assert_eq!(order.len(), 3);
    let shown: Vec<String> = order.iter().map(|&i| dl.data[i].a.clone()).collect();
    assert_eq!(shown, vec!["6".to_string(), "5".to_string(), "4".to_string()]);
}

#[test]
fn predecessor_formula_cycles_back_after_capacity_steps() {
    let capacity: usize = 5;
    for start in 0..capacity {
        let mut i = start;
        for _ in 0..capacity {
            i = (capacity - 1) - ((capacity - i) % capacity);
        }
        assert_eq!(i, start);
    }
}

#[test]
fn exactly_capacity_inserts_fill_every_slot() {
    let mut dl = DataList::new(3);
    dl.insert(&msg("BTC", "100", 1));
    dl.insert(&msg("BTC", "101", 2));
    dl.insert(&msg("BTC", "102", 3));
    assert_eq!(dl.data[0].a, "100");
    assert_eq!(dl.data[1].a, "101");
    assert_eq!(dl.data[2].a, "102");
    // distinct ticks everywhere, no placeholder left
    for d in dl.data.iter() {
        assert_ne!(d.a, "");
    }
}

#[test]
fn get_order_starts_at_newest_and_steps_backward() {
    let mut dl = DataList::new(4);
    dl.insert(&msg("BTC", "1", 1));
    dl.insert(&msg("BTC", "2", 2));
    let order = dl.get_order();
    assert_eq!(order, vec![1, 0, 3]);
}
