use stocktrader::rat::Rat;
use stocktrader::sim::{simulate, Error, Params, PortfolioState, Quote};

fn q(ticker: &str, timestamp: u64, close: u64) -> Quote {
    Quote { ticker: ticker.to_string(), timestamp, close }
}

fn params(bw_num: u128, sw_num: u128, inc: u64, limit: u64, hp: u64) -> Params {
    Params {
        buy_drop_pct: Rat { num: bw_num, den: 1 },
        sell_rise_pct: Rat { num: sw_num, den: 1 },
        buy_increment_cash: inc,
        cash_limit: limit,
        holding_period: hp,
    }
}

fn book<'a>(state: &'a PortfolioState, ticker: &str) -> &'a stocktrader::sim::Book {
    state.books.iter().find(|b| b.ticker == ticker).expect("ticker has a book")
}

/// Quantities are unreduced fractions; compare them as values.
fn rat_eq(a: Rat, num: u128, den: u128) -> bool {
    a.num * den == num * a.den
}

#[test]
fn dip_buy_then_matured_sell() {
    // A drop of 5% buys a lot; the later rise of ~36.8% sells it, since the
    // holding period is zero.
    let stream = vec![q("A", 0, 100), q("A", 86400, 95), q("A", 172800, 130)];
    let p = params(4, 20, 1000, 100000, 0);
    let st = simulate(&stream, &p).unwrap();
    let b = book(&st, "A");
    assert!(rat_eq(b.holdings, 0, 1));
    assert!(b.lots.is_empty());
    assert_eq!(st.cash_spent, 1000);
    // 1000 / 95 shares sold at 130: 130000 / 95 ~= 1368.42
    assert!(st.cash_made.num * 95 == 130000 * st.cash_made.den);
}

#[test]
fn dip_buy_creates_exact_lot() {
    // After the first two quotes the lot of 1000/95 shares is open.
    let stream = vec![q("A", 0, 100), q("A", 86400, 95)];
    let p = params(4, 20, 1000, 100000, 0);
    let st = simulate(&stream, &p).unwrap();
    let b = book(&st, "A");
    assert_eq!(b.lots.len(), 1);
    assert_eq!(b.lots[0].acquired_at, 86400);
    assert!(rat_eq(b.lots[0].quantity, 1000, 95));
    assert!(rat_eq(b.holdings, 1000, 95));
    assert_eq!(st.cash_spent, 1000);
    assert!(st.cash_made.num == 0);
}

#[test]
fn young_lot_is_not_sold() {
    // Same rise, but a one-year holding period: the sell signal fires and
    // must leave the one-day-old lot untouched.
    let stream = vec![q("A", 0, 100), q("A", 86400, 95), q("A", 172800, 130)];
    let p = params(4, 20, 1000, 100000, 60 * 60 * 24 * 365);
    let st = simulate(&stream, &p).unwrap();
    let b = book(&st, "A");
    assert_eq!(b.lots.len(), 1);
    assert!(rat_eq(b.holdings, 1000, 95));
    assert!(st.cash_made.num == 0);
    assert_eq!(st.cash_spent, 1000);
}

#[test]
fn matured_lot_sells_on_later_rise() {
    // The lot is too young at the first rise and mature at the second.
    let day = 86400u64;
    let stream = vec![
        q("A", 0, 100),
        q("A", day, 95),
        q("A", 2 * day, 130),
        q("A", 40 * day, 100),
        q("A", 41 * day, 130),
    ];
    let p = params(4, 20, 1000, 100000, 30 * day);
    let st = simulate(&stream, &p).unwrap();
    let b = book(&st, "A");
    // The drop to 100 at day 40 buys a second lot; the rise at day 41
    // sells only the matured day-1 lot and leaves the fresh one open.
    assert_eq!(b.lots.len(), 1);
    assert_eq!(b.lots[0].acquired_at, 40 * day);
    assert!(rat_eq(b.holdings, 1000, 100));
    assert_eq!(st.cash_spent, 2000);
    assert!(st.cash_made.num * 95 == 130000 * st.cash_made.den);
}

#[test]
fn single_quote_never_signals() {
    // A ticker with one quote establishes a baseline and nothing else.
    let stream = vec![q("A", 0, 100)];
    let p = params(4, 20, 1000, 100000, 0);
    let st = simulate(&stream, &p).unwrap();
    let b = book(&st, "A");
    assert!(b.lots.is_empty());
    assert!(rat_eq(b.holdings, 0, 1));
    assert_eq!(st.cash_spent, 0);
    assert!(st.cash_made.num == 0);
}

#[test]
fn first_observation_only_sets_baseline() {
    // A huge drop on the second ticker's first quote is no signal.
    let stream = vec![q("A", 0, 100), q("B", 10, 1000), q("B", 20, 10)];
    let p = params(4, 20, 1000, 100000, 0);
    let st = simulate(&stream, &p).unwrap();
    // B's 99% drop from its own previous close buys one lot.
    let b = book(&st, "B");
    assert_eq!(b.lots.len(), 1);
    assert!(rat_eq(b.holdings, 1000, 10));
    // A saw one quote only.
    let a = book(&st, "A");
    assert!(a.lots.is_empty());
}

#[test]
fn cash_limit_blocks_purchase() {
    // A second buy would push deployed capital past the limit.
    let stream = vec![q("A", 0, 100), q("A", 1, 90), q("A", 2, 80)];
    let p = params(4, 200, 1000, 1500, 0);
    let st = simulate(&stream, &p).unwrap();
    assert_eq!(st.cash_spent, 1000);
    let b = book(&st, "A");
    assert_eq!(b.lots.len(), 1);
}

#[test]
fn zero_previous_close_is_invalid_signal() {
    let stream = vec![q("A", 0, 0), q("A", 1, 50)];
    let p = params(4, 20, 1000, 100000, 0);
    assert!(matches!(simulate(&stream, &p), Err(Error::InvalidSignal)));
}

#[test]
fn runaway_denominators_overflow() {
    // Repeated buys at huge coprime-ish closes overflow the exact
    // representation, which is reported, never silently rounded.
    let c = 1u64 << 62;
    let stream = vec![
        q("A", 0, c),
        q("A", 1, c / 2),
        q("A", 2, c / 4),
        q("A", 3, c / 8),
        q("A", 4, c / 16),
    ];
    let p = params(4, 10000, 1000, u64::MAX, 0);
    assert!(matches!(simulate(&stream, &p), Err(Error::Overflow)));
}

#[test]
fn simulate_is_deterministic() {
    let stream = vec![q("A", 0, 100), q("B", 5, 60), q("A", 86400, 95), q("B", 90000, 70)];
    let p = params(4, 20, 1000, 100000, 0);
    let s1 = simulate(&stream, &p).unwrap();
    let s2 = simulate(&stream, &p).unwrap();
    assert_eq!(s1.cash_spent, s2.cash_spent);
    assert_eq!(s1.cash_made, s2.cash_made);
    assert_eq!(s1.books.len(), s2.books.len());
    for (a, b) in s1.books.iter().zip(s2.books.iter()) {
        assert_eq!(a.ticker, b.ticker);
        assert_eq!(a.holdings, b.holdings);
        assert_eq!(a.lots, b.lots);
    }
}

#[test]
fn holdings_track_lot_sums() {
    // The invariant: holdings equal the sum of the open lots, checked here
    // on a run with two open lots of different denominators.
    let stream = vec![q("A", 0, 100), q("A", 1, 90), q("A", 2, 80)];
    let p = params(4, 200, 1000, 100000, 0);
    let st = simulate(&stream, &p).unwrap();
    let b = book(&st, "A");
    assert_eq!(b.lots.len(), 2);
    // 1000/90 + 1000/80 = (1000*80 + 1000*90) / 7200
    assert!(rat_eq(b.holdings, 1000 * 80 + 1000 * 90, 7200));
}
