use tickerdash::channel::FeedChannel;
use tickerdash::dashboard::{AppState, Dashboard, KeyPress};
use tickerdash::models::{TkrData, TkrResult};
use tickerdash::price::parse_decimal;
use tickerdash::tabs::SelectedTab;

fn msg(tkr: &str, price: &str, t: i64) -> TkrResult {
    let mut d = TkrData::default();
    d.a = price.to_string();
    d.i = tkr.to_string();
    d.t = t;
    TkrResult {
        tkr: tkr.to_string(),
        subscription: format!("ticker.{}", tkr),
        channel: "ticker".to_string(),
        data: vec![d],
    }
}

#[test]
fn channel_preserves_send_order() {
    // ticks for "A", "B", "A" drain in exactly that order
    let mut ch = FeedChannel::new(5);
    assert!(ch.send(msg("A", "1", 1)).is_ok());
    assert!(ch.send(msg("B", "2", 2)).is_ok());
    assert!(ch.send(msg("A", "3", 3)).is_ok());
    let drained: Vec<String> = std::iter::from_fn(|| ch.try_recv()).map(|m| m.tkr).collect();
    assert_eq!(
        drained,
        vec!["A".to_string(), "B".to_string(), "A".to_string()]
    );
}

#[test]
fn full_channel_refuses_and_returns_the_message() {
    let mut ch = FeedChannel::new(2);
    assert!(ch.send(msg("A", "1", 1)).is_ok());
    assert!(ch.send(msg("A", "2", 2)).is_ok());
    let refused = ch.send(msg("A", "3", 3));
    match refused {
        Err(m) => assert_eq!(m.data[0].a, "3"),
        Ok(()) => panic!("a full channel must refuse the message"),
    }
    assert_eq!(ch.len(), 2);
}

#[test]
fn empty_channel_yields_none() {
    let mut ch = FeedChannel::new(3);
    assert!(ch.try_recv().is_none());
    assert!(ch.send(msg("A", "1", 1)).is_ok());
    assert!(ch.try_recv().is_some());
    assert!(ch.try_recv().is_none());
}

#[test]
fn end_to_end_seven_ticks_keep_the_five_most_recent() {
    // watchlist ["BTC", "ETH"], capacity 5; seven BTC ticks with increasing
    // timestamps and strictly increasing prices
    let watchlist = vec!["BTC".to_string(), "ETH".to_string()];
    let mut dash = Dashboard::new(&watchlist, 5);
    for n in 1..=7i64 {
        let price = format!("{}", 100 + n);
        dash.handle_message(&msg("BTC", &price, n * 1000));
    }
    let btc = &dash.tkr_data[0].data_list;
    // the five most recent ticks remain: prices 103..=107
    let mut prices: Vec<String> = btc.data.iter().map(|d| d.a.clone()).collect();
    prices.sort();
    assert_eq!(
        prices,
        vec![
            "103".to_string(),
            "104".to_string(),
            "105".to_string(),
            "106".to_string(),
            "107".to_string()
        ]
    );
    // newest_index points at tick #7's slot (inserts went 0,1,2,3,4,0,1)
    assert_eq!(btc.curr_i, 1);
    // the summary's displayed price is tick #7's
    assert_eq!(btc.newest().a, "107");
    assert_eq!(parse_decimal(&btc.newest().a), 1_070_000);
    // ETH was never touched
    for d in dash.tkr_data[1].data_list.data.iter() {
        assert_eq!(d.a, "");
        assert_eq!(d.t, 0);
    }
}

#[test]
fn unknown_instrument_is_dropped_without_change() {
    let watchlist = vec!["BTC".to_string(), "ETH".to_string()];
    let mut dash = Dashboard::new(&watchlist, 4);
    dash.handle_message(&msg("BTC", "100", 1000));
    dash.handle_message(&msg("XRP", "9", 2000));
    assert_eq!(dash.state, AppState::Running);
    let btc = &dash.tkr_data[0].data_list;
    assert_eq!(btc.data[0].a, "100");
    assert_eq!(btc.curr_i, 0);
    for d in btc.data.iter().skip(1) {
        assert_eq!(d.a, "");
    }
    for d in dash.tkr_data[1].data_list.data.iter() {
        assert_eq!(d.a, "");
    }
}

#[test]
fn quit_key_stops_the_loop() {
    let watchlist = vec!["BTC".to_string()];
    let mut dash = Dashboard::new(&watchlist, 2);
    assert!(dash.is_running());
    dash.handle_key(KeyPress::Other);
    assert!(dash.is_running());
    dash.handle_key(KeyPress::Quit);
    assert!(!dash.is_running());
    assert_eq!(dash.state, AppState::Quitting);
}

#[test]
fn numeric_keys_select_tabs_and_out_of_range_is_a_no_op() {
    let watchlist = vec!["BTC".to_string(), "ETH".to_string()];
    let mut dash = Dashboard::new(&watchlist, 2);
    assert_eq!(dash.tkr_tabs.selected_tab, SelectedTab::Tab1);
    dash.handle_key(KeyPress::Digit(2));
    assert_eq!(dash.tkr_tabs.selected_tab, SelectedTab::Tab2);
    dash.handle_key(KeyPress::Digit(9));
    assert_eq!(dash.tkr_tabs.selected_tab, SelectedTab::Tab2);
    dash.handle_key(KeyPress::Digit(1));
    assert_eq!(dash.tkr_tabs.selected_tab, SelectedTab::Tab1);
    assert_eq!(dash.tkr_tabs.selected_tab.tab_index(), 0);
}

#[test]
fn drain_step_routes_the_oldest_pending_payload() {
    let watchlist = vec!["BTC".to_string()];
    let mut dash = Dashboard::new(&watchlist, 3);
    let mut ch = FeedChannel::new(5);
    assert!(ch.send(msg("BTC", "100", 1000)).is_ok());
    assert!(ch.send(msg("BTC", "101", 2000)).is_ok());
    dash.drain_one(&mut ch);
    assert_eq!(ch.len(), 1);
    assert_eq!(dash.tkr_data[0].data_list.newest().a, "100");
    dash.drain_one(&mut ch);
    assert_eq!(ch.len(), 0);
    assert_eq!(dash.tkr_data[0].data_list.newest().a, "101");
    // an empty channel changes nothing
    dash.drain_one(&mut ch);
    assert_eq!(dash.tkr_data[0].data_list.newest().a, "101");
}
