use stocktrader::alert::{latest_change, should_alert};
use stocktrader::grid::{grid_search, make_grid, run_cell};
use stocktrader::rat::Rat;
use stocktrader::sim::{Error, Params, Quote};
use stocktrader::stream::build_stream;
use stocktrader::worth::{buy_and_hold, net_worth};

fn q(ticker: &str, timestamp: u64, close: u64) -> Quote {
    Quote { ticker: ticker.to_string(), timestamp, close }
}

fn pct(num: u128, den: u128) -> Rat {
    Rat { num, den }
}

#[test]
fn stream_is_sorted_and_stable() {
    let a = vec![q("A", 10, 1), q("A", 30, 2)];
    let b = vec![q("B", 10, 3), q("B", 20, 4)];
    let s = build_stream(vec![a, b]).unwrap();
    let got: Vec<(String, u64)> = s.iter().map(|x| (x.ticker.clone(), x.timestamp)).collect();
    // Sorted by timestamp; A's quote at 10 stays ahead of B's, since it
    // came first in the input.
    assert_eq!(
        got,
        vec![
            ("A".to_string(), 10),
            ("B".to_string(), 10),
            ("B".to_string(), 20),
            ("A".to_string(), 30),
        ]
    );
}

#[test]
fn empty_series_is_data_unavailable() {
    let a = vec![q("A", 10, 1)];
    assert!(matches!(build_stream(vec![a, vec![]]), Err(Error::DataUnavailable)));
}

#[test]
fn net_worth_values_holdings_at_snapshot() {
    // Simulate a buy, then value the open position at a snapshot price.
    let stream = vec![q("A", 0, 100), q("A", 1, 95)];
    let p = Params {
        buy_drop_pct: pct(4, 1),
        sell_rise_pct: pct(20, 1),
        buy_increment_cash: 1000,
        cash_limit: 100000,
        holding_period: 0,
    };
    let st = stocktrader::sim::simulate(&stream, &p).unwrap();
    let closes = vec![("A".to_string(), 114u64)];
    let w = net_worth(&st, &closes).unwrap();
    assert_eq!(w.spent, 1000);
    // assets = 1000/95 * 114 = 1200
    assert!(w.assets.num * 1 == 1200 * w.assets.den);
}

#[test]
fn net_worth_fails_without_price_for_held_ticker() {
    let stream = vec![q("A", 0, 100), q("A", 1, 95)];
    let p = Params {
        buy_drop_pct: pct(4, 1),
        sell_rise_pct: pct(20, 1),
        buy_increment_cash: 1000,
        cash_limit: 100000,
        holding_period: 0,
    };
    let st = stocktrader::sim::simulate(&stream, &p).unwrap();
    let closes: Vec<(String, u64)> = vec![("B".to_string(), 7)];
    assert_eq!(net_worth(&st, &closes), Err(Error::InvalidSignal));
}

#[test]
fn flat_price_buy_and_hold_returns_starting_cash() {
    let firsts = vec![("A".to_string(), 100u64)];
    let closes = vec![("A".to_string(), 100u64)];
    let w = buy_and_hold(&firsts, &closes, 100000).unwrap();
    assert_eq!(w.spent, 0);
    assert!(w.assets.num == 100000 * w.assets.den);
}

#[test]
fn buy_and_hold_splits_cash_across_tickers() {
    // 1000 split over two tickers; A doubles, B halves:
    // 500/100*200 + 500/50*25 = 1000 + 250 = 1250.
    let firsts = vec![("A".to_string(), 100u64), ("B".to_string(), 50u64)];
    let closes = vec![("A".to_string(), 200u64), ("B".to_string(), 25u64)];
    let w = buy_and_hold(&firsts, &closes, 1000).unwrap();
    assert!(w.assets.num == 1250 * w.assets.den);
}

#[test]
fn buy_and_hold_without_tickers_is_data_unavailable() {
    let none: Vec<(String, u64)> = vec![];
    let closes: Vec<(String, u64)> = vec![];
    assert_eq!(buy_and_hold(&none, &closes, 1000), Err(Error::DataUnavailable));
}

#[test]
fn grid_enumerates_the_cross_product() {
    let buys = vec![pct(1, 1), pct(2, 1)];
    let sells = vec![pct(3, 1), pct(4, 1)];
    let incs = vec![10u64, 20u64];
    let cells = make_grid(&buys, &sells, &incs, 500, 7);
    assert_eq!(cells.len(), 8);
    assert_eq!(cells[0].buy_drop_pct, pct(1, 1));
    assert_eq!(cells[0].sell_rise_pct, pct(3, 1));
    assert_eq!(cells[0].buy_increment_cash, 10);
    // Lexicographic position: [b][s][c] at b*4 + s*2 + c.
    assert_eq!(cells[1 * 4 + 0 * 2 + 1].buy_drop_pct, pct(2, 1));
    assert_eq!(cells[1 * 4 + 0 * 2 + 1].sell_rise_pct, pct(3, 1));
    assert_eq!(cells[1 * 4 + 0 * 2 + 1].buy_increment_cash, 20);
    assert_eq!(cells[7].cash_limit, 500);
    assert_eq!(cells[7].holding_period, 7);
}

#[test]
fn grid_search_finds_the_maximum_and_counts_failures() {
    // Cell 0 buys and then cannot be valued (no snapshot price): a
    // contained failure. Cell 1 never buys and values to zero.
    let stream = vec![q("A", 0, 100), q("A", 1, 95)];
    let closes: Vec<(String, u64)> = vec![];
    let buy = Params {
        buy_drop_pct: pct(4, 1),
        sell_rise_pct: pct(20, 1),
        buy_increment_cash: 1000,
        cash_limit: 100000,
        holding_period: 0,
    };
    let hold = Params { buy_drop_pct: pct(90, 1), ..buy };
    let cells = vec![buy, hold];
    let (best, failed) = grid_search(&stream, &closes, &cells).unwrap();
    let (i, w) = best.unwrap();
    assert_eq!(i, 1);
    assert_eq!(failed, 1);
    assert_eq!(w.spent, 0);
    assert!(w.assets.num == 0);
}

#[test]
fn grid_search_ties_go_to_the_first_cell() {
    let stream = vec![q("A", 0, 100), q("A", 1, 95), q("A", 2, 130)];
    let closes = vec![("A".to_string(), 130u64)];
    let p = Params {
        buy_drop_pct: pct(4, 1),
        sell_rise_pct: pct(20, 1),
        buy_increment_cash: 1000,
        cash_limit: 100000,
        holding_period: 0,
    };
    let cells = vec![p, p];
    let (best, failed) = grid_search(&stream, &closes, &cells).unwrap();
    assert_eq!(failed, 0);
    assert_eq!(best.unwrap().0, 0);
}

#[test]
fn grid_search_matches_cells_run_alone() {
    let stream = vec![q("A", 0, 100), q("A", 1, 95), q("A", 2, 130)];
    let closes = vec![("A".to_string(), 130u64)];
    let p = Params {
        buy_drop_pct: pct(4, 1),
        sell_rise_pct: pct(20, 1),
        buy_increment_cash: 1000,
        cash_limit: 100000,
        holding_period: 0,
    };
    let cells = vec![p];
    let (best, _) = grid_search(&stream, &closes, &cells).unwrap();
    let alone = run_cell(&stream, &closes, &p).unwrap();
    assert_eq!(best.unwrap().1, alone);
    // cash_made - cash_spent = 130000/95 - 1000 ~= 368.42 with no holdings
    assert_eq!(alone.spent, 1000);
    assert!(alone.assets.num * 95 == 130000 * alone.assets.den);
}

#[test]
fn latest_change_reports_signed_magnitude() {
    let d = latest_change(100, 95).unwrap();
    assert!(!d.rise);
    assert!(d.mag.num * 100 == 500 * d.mag.den);
    let r = latest_change(100, 130).unwrap();
    assert!(r.rise);
    assert!(r.mag.num * 100 == 3000 * r.mag.den);
    assert_eq!(latest_change(0, 50), Err(Error::InvalidSignal));
}

#[test]
fn alert_fires_on_either_threshold() {
    let drop5 = latest_change(100, 95).unwrap();
    let rise30 = latest_change(100, 130).unwrap();
    assert!(should_alert(drop5, pct(4, 1), pct(20, 1)).unwrap());
    assert!(!should_alert(drop5, pct(6, 1), pct(20, 1)).unwrap());
    assert!(should_alert(rise30, pct(4, 1), pct(20, 1)).unwrap());
    assert!(!should_alert(rise30, pct(4, 1), pct(40, 1)).unwrap());
    let flat = latest_change(100, 100).unwrap();
    assert!(!should_alert(flat, pct(1, 1), pct(1, 1)).unwrap());
    assert!(should_alert(flat, pct(0, 1), pct(1, 1)).unwrap());
}
