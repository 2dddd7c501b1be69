use orderbook::{BookRecord, Error, OrderBook, Side, NIL_ID, UNIT_SCALE};

/// Fixed-point units of a decimal amount given in hundredths.
fn cents(hundredths: u64) -> u64 {
    hundredths * (UNIT_SCALE / 100)
}

fn rec(price: u64, size: u64, id: u128) -> BookRecord {
    BookRecord { price, size, id }
}

fn units(x: u64) -> f64 {
    x as f64 / UNIT_SCALE as f64
}

fn sizes(v: Vec<u128>) -> String {
    v.into_iter()
        .map(|x| (x as f64 / UNIT_SCALE as f64).to_string())
        .collect::<Vec<_>>()
        .join(",")
}

/// The diagnostic line: twenty bid levels, the touch prices, twenty ask levels.
fn render(ob: &OrderBook) -> String {
    match (ob.bid(), ob.ask()) {
        (Some(bid), Some(ask)) => format!(
            "OB: {} | {:.2}   {:.2} | {}",
            sizes(ob.bids(20).unwrap()),
            units(bid),
            units(ask),
            sizes(ob.asks(20).unwrap())
        ),
        _ => "OB: empty".to_string(),
    }
}

/// Bids 3994.96 x 0.3 (id1) and 3995.00 x 0.5 (id2); asks 4005.00 x 0.4 and 4005.02 x 0.2.
fn fixture(id1: u128, id2: u128) -> OrderBook {
    let mut ob = OrderBook::new();
    ob.reload(
        vec![rec(cents(399496), 30_000_000, id1), rec(cents(399500), 50_000_000, id2)],
        vec![rec(cents(400500), 40_000_000, 0x31), rec(cents(400502), 20_000_000, 0x32)],
    )
    .unwrap();
    ob
}

#[test]
fn test_display() {
    let mut ob = fixture(0x11, 0x12);
    ob.open(Side::Buy, rec(cents(399496), 20_000_000, 0x13)).unwrap();
    assert_eq!(
        render(&ob),
        "OB: 0,0,0,0,0,0,0,0,0,0,0,0,0,0,0,0.5,0,0,0,0.5 | 3995.00   4005.00 | 0.4,0,0.2,0,0,0,0,0,0,0,0,0,0,0,0,0,0,0,0,0"
    );
}

#[test]
fn test_match() {
    let (id1, id2) = (0x11, 0x12);
    let mut ob = fixture(id1, id2);
    ob.open(Side::Buy, rec(cents(399496), 20_000_000, 0x13)).unwrap();
    ob.match_order(cents(399500), 50_000_000, id2).unwrap();
    assert_eq!(
        render(&ob),
        "OB: 0,0,0,0,0,0,0,0,0,0,0,0,0,0,0,0,0,0,0,0.5 | 3994.96   4005.00 | 0.4,0,0.2,0,0,0,0,0,0,0,0,0,0,0,0,0,0,0,0,0"
    );
}

#[test]
fn test_done() {
    let (id1, id2) = (0x11, 0x12);
    let mut ob = fixture(id1, id2);
    ob.done(cents(399496), id1).unwrap();
    assert_eq!(
        render(&ob),
        "OB: 0,0,0,0,0,0,0,0,0,0,0,0,0,0,0,0,0,0,0,0.5 | 3995.00   4005.00 | 0.4,0,0.2,0,0,0,0,0,0,0,0,0,0,0,0,0,0,0,0,0"
    );
}

#[test]
fn fixture_touch_and_depth() {
    let mut ob = fixture(0x11, 0x12);
    ob.open(Side::Buy, rec(cents(399496), 20_000_000, 0x13)).unwrap();
    assert_eq!(ob.bid(), Some(cents(399500)));
    assert_eq!(ob.ask(), Some(cents(400500)));
    let bids = ob.bids(20).unwrap();
    assert_eq!(bids.len(), 20);
    assert_eq!(bids[15], 50_000_000);
    assert_eq!(bids[19], 50_000_000);
    assert_eq!(bids.iter().sum::<u128>(), 100_000_000);
    assert_eq!(ob.asks(3), Some(vec![40_000_000, 0, 20_000_000]));
}

#[test]
fn done_on_one_of_two_orders_leaves_the_other() {
    let mut ob = fixture(0x11, 0x12);
    ob.open(Side::Buy, rec(cents(399496), 20_000_000, 0x13)).unwrap();
    ob.done(cents(399496), 0x11).unwrap();
    assert_eq!(ob.bids(5), Some(vec![20_000_000, 0, 0, 0, 50_000_000]));
    assert_eq!(ob.bid(), Some(cents(399500)));
}

#[test]
fn empty_book_has_no_touch() {
    let ob = OrderBook::new();
    assert_eq!(ob.bid(), None);
    assert_eq!(ob.ask(), None);
    assert_eq!(ob.bids(1), None);
    assert_eq!(ob.asks(1), None);
    assert_eq!(render(&ob), "OB: empty");
}

#[test]
fn out_of_range_price_is_rejected_without_change() {
    let mut ob = fixture(0x11, 0x12);
    let before = render(&ob);
    let far = cents(100_000_000);
    assert_eq!(ob.open(Side::Sell, rec(far, 1, 0x40)), Err(Error::Range));
    assert_eq!(ob.match_order(far, 1, 0x40), Err(Error::Range));
    assert_eq!(ob.done(far, 0x40), Err(Error::Range));
    assert_eq!(ob.change(far, 5, 0x40), Err(Error::Range));
    assert_eq!(ob.test_match(far), Err(Error::Range));
    assert_eq!(render(&ob), before);
}

#[test]
fn last_level_of_grid_is_in_range() {
    let mut ob = OrderBook::with_grid(10, 100);
    assert_eq!(ob.open(Side::Sell, rec(999, 4, 0x1)), Ok(()));
    assert_eq!(ob.ask(), Some(900));
    assert_eq!(ob.open(Side::Sell, rec(1000, 4, 0x2)), Err(Error::Range));
    assert_eq!(ob.asks(1), Some(vec![4]));
    assert_eq!(ob.asks(2), None);
}

#[test]
fn price_is_quantized_down() {
    let mut ob = OrderBook::with_grid(10, 100);
    ob.open(Side::Buy, rec(399, 1, 0x1)).unwrap();
    ob.open(Side::Buy, rec(300, 2, 0x2)).unwrap();
    assert_eq!(ob.bid(), Some(300));
    assert_eq!(ob.bids(1), Some(vec![3]));
}

#[test]
fn repeated_match_is_a_mismatch() {
    let (id1, id2) = (0x11, 0x12);
    let mut ob = fixture(id1, id2);
    ob.open(Side::Buy, rec(cents(399496), 20_000_000, 0x13)).unwrap();
    ob.match_order(cents(399500), 50_000_000, id2).unwrap();
    let before = render(&ob);
    assert_eq!(ob.match_order(cents(399500), 50_000_000, id2), Err(Error::MatchMismatch));
    assert_eq!(ob.match_order(cents(399496), 10_000_000, 0x13), Err(Error::MatchMismatch));
    assert_eq!(render(&ob), before);
}

#[test]
fn partial_matches_act_on_the_head() {
    let mut ob = OrderBook::with_grid(10, 100);
    ob.open(Side::Buy, rec(500, 10, 0xa)).unwrap();
    ob.open(Side::Buy, rec(500, 7, 0xb)).unwrap();
    ob.match_order(500, 4, 0xa).unwrap();
    assert_eq!(ob.bids(1), Some(vec![13]));
    ob.match_order(500, 4, 0xa).unwrap();
    assert_eq!(ob.bids(1), Some(vec![9]));
    assert_eq!(ob.match_order(500, 1, 0xb), Err(Error::MatchMismatch));
    ob.match_order(500, 2, 0xa).unwrap();
    assert_eq!(ob.bids(1), Some(vec![7]));
    ob.match_order(500, 7, 0xb).unwrap();
    assert_eq!(ob.bid(), None);
}

#[test]
fn change_keeps_queue_position() {
    let mut ob = OrderBook::with_grid(10, 100);
    ob.open(Side::Sell, rec(700, 10, 0xa)).unwrap();
    ob.open(Side::Sell, rec(700, 5, 0xb)).unwrap();
    ob.change(700, 3, 0xa).unwrap();
    assert_eq!(ob.asks(1), Some(vec![8]));
    assert_eq!(ob.match_order(700, 1, 0xb), Err(Error::MatchMismatch));
    ob.match_order(700, 3, 0xa).unwrap();
    assert_eq!(ob.asks(1), Some(vec![5]));
    ob.change(700, 9, 0xc).unwrap();
    assert_eq!(ob.asks(1), Some(vec![5]));
}

#[test]
fn change_to_zero_cancels() {
    let mut ob = OrderBook::with_grid(10, 100);
    ob.open(Side::Sell, rec(700, 10, 0xa)).unwrap();
    ob.open(Side::Sell, rec(800, 5, 0xb)).unwrap();
    ob.change(700, 0, 0xa).unwrap();
    assert_eq!(ob.ask(), Some(800));
}

#[test]
fn done_twice_is_done_once() {
    let mut ob = fixture(0x11, 0x12);
    assert_eq!(ob.done(cents(399500), 0x12), Ok(()));
    let once = render(&ob);
    assert_eq!(ob.bid(), Some(cents(399496)));
    assert_eq!(ob.done(cents(399500), 0x12), Ok(()));
    assert_eq!(render(&ob), once);
}

#[test]
fn cancelling_a_whole_side_empties_it() {
    let mut ob = fixture(0x11, 0x12);
    ob.done(cents(399500), 0x12).unwrap();
    ob.done(cents(399496), 0x11).unwrap();
    assert_eq!(ob.bid(), None);
    assert_eq!(ob.ask(), Some(cents(400500)));
    ob.done(cents(400500), 0x31).unwrap();
    assert_eq!(ob.ask(), Some(cents(400502)));
    ob.done(cents(400502), 0x32).unwrap();
    assert_eq!(ob.ask(), None);
}

#[test]
fn crossing_order_is_rejected() {
    let mut ob = fixture(0x11, 0x12);
    let before = render(&ob);
    assert_eq!(ob.open(Side::Buy, rec(cents(400500), 1, 0x50)), Err(Error::CrossedBook));
    assert_eq!(ob.open(Side::Sell, rec(cents(399500), 1, 0x51)), Err(Error::CrossedBook));
    assert_eq!(render(&ob), before);
    assert_eq!(ob.open(Side::Buy, rec(cents(400000), 1, 0x52)), Ok(()));
    assert_eq!(ob.bid(), Some(cents(400000)));
    assert_eq!(ob.open(Side::Sell, rec(cents(400001), 1, 0x53)), Ok(()));
    assert_eq!(ob.ask(), Some(cents(400001)));
}

#[test]
fn reload_ignores_prior_state() {
    let mut used = fixture(0x11, 0x12);
    used.open(Side::Buy, rec(cents(390000), 7, 0x60)).unwrap();
    used.done(cents(399500), 0x12).unwrap();
    let bids = vec![rec(cents(100), 1, 0x1), rec(cents(300), 2, 0x2), rec(cents(200), 3, 0x3)];
    let asks = vec![rec(cents(900), 1, 0x4), rec(cents(500), 2, 0x5), rec(cents(700), 3, 0x6)];
    used.reload(bids.clone(), asks.clone()).unwrap();
    let mut fresh = OrderBook::new();
    fresh.reload(bids, asks).unwrap();
    assert_eq!(used.bid(), Some(cents(300)));
    assert_eq!(used.ask(), Some(cents(500)));
    assert_eq!(render(&used), render(&fresh));
    assert_eq!(used.bids(300), fresh.bids(300));
    assert_eq!(used.asks(500), fresh.asks(500));
}

#[test]
fn failed_reload_leaves_book_unchanged() {
    let mut ob = fixture(0x11, 0x12);
    let before = render(&ob);
    let crossed = ob.reload(vec![rec(cents(500), 1, 0x1)], vec![rec(cents(400), 1, 0x2)]);
    assert_eq!(crossed, Err(Error::CrossedBook));
    let far = ob.reload(vec![rec(cents(100_000_000), 1, 0x1)], vec![]);
    assert_eq!(far, Err(Error::Range));
    assert_eq!(render(&ob), before);
}

#[test]
fn reload_keeps_input_order_as_priority() {
    let mut ob = OrderBook::with_grid(10, 100);
    ob.reload(vec![rec(200, 1, 0xa), rec(200, 2, 0xb)], vec![]).unwrap();
    assert_eq!(ob.match_order(200, 2, 0xb), Err(Error::MatchMismatch));
    ob.match_order(200, 1, 0xa).unwrap();
    ob.match_order(200, 2, 0xb).unwrap();
    assert_eq!(ob.bid(), None);
}

#[test]
fn nil_head_is_taken_by_test_match() {
    let mut ob = OrderBook::with_grid(10, 100);
    assert_eq!(ob.test_match(300), Err(Error::MatchMismatch));
    ob.open(Side::Buy, rec(300, 1, NIL_ID)).unwrap();
    ob.open(Side::Buy, rec(300, 2, 0x9)).unwrap();
    assert_eq!(ob.test_match(300), Ok(true));
    assert_eq!(ob.bids(1), Some(vec![2]));
    assert_eq!(ob.test_match(300), Ok(false));
    assert_eq!(ob.bids(1), Some(vec![2]));
}

#[test]
fn grid_dimensions() {
    let ob = OrderBook::new();
    assert_eq!(ob.capacity(), 1_000_000);
    assert_eq!(ob.tick(), UNIT_SCALE / 100);
}
