//! The simulation engine: one backtest run of the dip-buy / rise-sell
//! strategy over a chronological multi-ticker quote stream.
//!
//! The whole run is specified by `spec_simulate`, a step-by-step
//! interpretation of the stream at the spec level; the executable `simulate`
//! returns exactly what `spec_simulate` says, including which error is
//! raised on which input. Prices are integer minor units; quantities and
//! realized cash are exact rationals.

use vstd::prelude::*;
use crate::rat::Rat;

verus! {

/// One closing quote for one ticker. `close` is a price in integer minor
/// units; `timestamp` is in seconds.
#[derive(Clone, Debug)]
pub struct Quote {
    pub ticker: String,
    pub timestamp: u64,
    pub close: u64,
}

/// One discrete purchase, tracked for holding-period eligibility.
#[derive(Clone, Copy, Debug, PartialEq, Eq, Structural)]
pub struct Lot {
    pub acquired_at: u64,
    pub quantity: Rat,
}

/// Strategy parameters for one simulation run. The thresholds are percent
/// values; `holding_period` is in seconds.
#[derive(Clone, Copy, Debug)]
pub struct Params {
    pub buy_drop_pct: Rat,
    pub sell_rise_pct: Rat,
    pub buy_increment_cash: u64,
    pub cash_limit: u64,
    pub holding_period: u64,
}

impl Params {
    pub open spec fn wf(self) -> bool {
        self.buy_drop_pct.wf() && self.sell_rise_pct.wf()
    }
}

/// Errors a run can raise. `InvalidSignal` is a division by a zero close;
/// `Overflow` is a value that left the exactly-representable range;
/// `DataUnavailable` is an absent or empty price history.
#[derive(Clone, Copy, Debug, PartialEq, Eq, Structural)]
pub enum Error {
    DataUnavailable,
    InvalidSignal,
    Overflow,
}

/// Per-ticker simulation state: the last close seen, the quantity held and
/// the open lots.
#[derive(Clone, Debug)]
pub struct Book {
    pub ticker: String,
    pub prev_close: u64,
    pub holdings: Rat,
    pub lots: Vec<Lot>,
}

/// Spec-level model of a `Book`.
#[verifier::ext_equal]
pub struct BookV {
    pub ticker: Seq<char>,
    pub prev_close: u64,
    pub holdings: Rat,
    pub lots: Seq<Lot>,
}

impl View for Book {
    type V = BookV;

    open spec fn view(&self) -> BookV {
        BookV {
            ticker: self.ticker@,
            prev_close: self.prev_close,
            holdings: self.holdings,
            lots: self.lots@,
        }
    }
}

impl BookV {
    pub open spec fn wf(self) -> bool {
        &&& self.holdings.wf()
        &&& forall|j: int|
            0 <= j < self.lots.len() ==> (#[trigger] self.lots[j]).quantity.wf()
    }
}

/// The full state of one simulation run.
#[derive(Clone, Debug)]
pub struct PortfolioState {
    pub books: Vec<Book>,
    pub cash_spent: u64,
    pub cash_made: Rat,
}

/// Spec-level model of a `PortfolioState`.
#[verifier::ext_equal]
pub struct StateV {
    pub books: Seq<BookV>,
    pub cash_spent: u64,
    pub cash_made: Rat,
}

impl View for PortfolioState {
    type V = StateV;

    open spec fn view(&self) -> StateV {
        StateV {
            books: self.books@.map_values(|b: Book| b@),
            cash_spent: self.cash_spent,
            cash_made: self.cash_made,
        }
    }
}

impl StateV {
    pub open spec fn wf(self) -> bool {
        &&& self.cash_made.wf()
        &&& forall|i: int| 0 <= i < self.books.len() ==> (#[trigger] self.books[i]).wf()
    }
}

/// The empty state every run starts from.
pub open spec fn spec_init() -> StateV {
    StateV { books: Seq::empty(), cash_spent: 0, cash_made: Rat { num: 0, den: 1 } }
}

/// Index of the first book for ticker `t`, or `-1` if there is none.
pub open spec fn find_book(books: Seq<BookV>, t: Seq<char>) -> int
    decreases books.len(),
{
    if books.len() == 0 {
        -1
    } else if books[0].ticker == t {
        0
    } else {
        let r = find_book(books.drop_first(), t);
        if r < 0 {
            -1
        } else {
            r + 1
        }
    }
}

pub proof fn lemma_find_book(books: Seq<BookV>, t: Seq<char>)
    ensures
        ({
            let i = find_book(books, t);
            &&& -1 <= i < books.len()
            &&& i >= 0 ==> books[i].ticker == t && (forall|j: int|
                0 <= j < i ==> (#[trigger] books[j]).ticker != t)
            &&& i == -1 ==> forall|j: int| 0 <= j < books.len() ==> (#[trigger] books[j]).ticker != t
        }),
    decreases books.len(),
{
    if books.len() > 0 && books[0].ticker != t {
        lemma_find_book(books.drop_first(), t);
        assert forall|j: int| 1 <= j < books.len() implies books.drop_first()[j - 1] == books[j] by {}
    }
}

/// Index of the first lot acquired at `ts`, or `-1` if there is none.
pub open spec fn find_lot(lots: Seq<Lot>, ts: u64) -> int
    decreases lots.len(),
{
    if lots.len() == 0 {
        -1
    } else if lots[0].acquired_at == ts {
        0
    } else {
        let r = find_lot(lots.drop_first(), ts);
        if r < 0 {
            -1
        } else {
            r + 1
        }
    }
}

pub proof fn lemma_find_lot(lots: Seq<Lot>, ts: u64)
    ensures
        ({
            let i = find_lot(lots, ts);
            &&& -1 <= i < lots.len()
            &&& i >= 0 ==> lots[i].acquired_at == ts && (forall|j: int|
                0 <= j < i ==> (#[trigger] lots[j]).acquired_at != ts)
            &&& i == -1 ==> forall|j: int| 0 <= j < lots.len() ==> (#[trigger] lots[j]).acquired_at != ts
        }),
    decreases lots.len(),
{
    if lots.len() > 0 && lots[0].acquired_at != ts {
        lemma_find_lot(lots.drop_first(), ts);
        assert forall|j: int| 1 <= j < lots.len() implies lots.drop_first()[j - 1] == lots[j] by {}
    }
}

/// Whether the single-step percent change from `prev` to `close` is at or
/// below `-bw` percent, i.e. `(close - prev) / prev * 100 <= -bw`; `None`
/// where a cross product would not fit in a `u128`. Meaningful for
/// `prev >= 1`.
pub open spec fn spec_buy_signal(prev: u64, close: u64, bw: Rat) -> Option<bool> {
    if close > prev {
        Some(false)
    } else {
        if (prev - close) * 100 * bw.den <= u128::MAX && bw.num * prev <= u128::MAX {
            Some((prev - close) * 100 * bw.den >= bw.num * prev)
        } else {
            None
        }
    }
}

/// Whether the single-step percent change from `prev` to `close` is at or
/// above `sw` percent; `None` where a cross product would not fit.
pub open spec fn spec_sell_signal(prev: u64, close: u64, sw: Rat) -> Option<bool> {
    if close < prev {
        Some(false)
    } else {
        if (close - prev) * 100 * sw.den <= u128::MAX && sw.num * prev <= u128::MAX {
            Some((close - prev) * 100 * sw.den >= sw.num * prev)
        } else {
            None
        }
    }
}

/// Whether a further purchase of `inc` keeps the deployed capital
/// (`cash_spent + inc - cash_made`) strictly below `limit`; `None` where a
/// product would not fit.
pub open spec fn spec_cash_ok(cash_spent: u64, inc: u64, made: Rat, limit: u64) -> Option<bool> {
    if (cash_spent + inc) * made.den <= u128::MAX && limit * made.den + made.num <= u128::MAX {
        Some((cash_spent + inc) * made.den < limit * made.den + made.num)
    } else {
        None
    }
}

/// The buy leg of one step, after the buy signal and the cash check have
/// passed for the book at index `i`: spend `buy_increment_cash`, add
/// `buy_increment_cash / close` shares, and record the lot under the
/// current timestamp — replacing a lot already keyed by the same timestamp.
pub open spec fn spec_buy(s: StateV, i: int, q: Quote, p: Params) -> Result<StateV, Error> {
    if q.close == 0 {
        Err(Error::InvalidSignal)
    } else if s.cash_spent + p.buy_increment_cash > u64::MAX {
        Err(Error::Overflow)
    } else {
        let qty = Rat { num: p.buy_increment_cash as u128, den: q.close as u128 };
        let b = s.books[i];
        match b.holdings.spec_add(qty) {
            None => Err(Error::Overflow),
            Some(h) => {
                let lot = Lot { acquired_at: q.timestamp, quantity: qty };
                let j = find_lot(b.lots, q.timestamp);
                let lots2 = if j >= 0 {
                    b.lots.update(j, lot)
                } else {
                    b.lots.push(lot)
                };
                Ok(
                    StateV {
                        books: s.books.update(
                            i,
                            BookV {
                                ticker: b.ticker,
                                prev_close: b.prev_close,
                                holdings: h,
                                lots: lots2,
                            },
                        ),
                        cash_spent: (s.cash_spent + p.buy_increment_cash) as u64,
                        cash_made: s.cash_made,
                    },
                )
            },
        }
    }
}

/// The buy leg of one step: evaluate the signal, then the cash check, then
/// apply the purchase.
pub open spec fn spec_buy_leg(s: StateV, i: int, q: Quote, p: Params) -> Result<StateV, Error> {
    match spec_buy_signal(s.books[i].prev_close, q.close, p.buy_drop_pct) {
        None => Err(Error::Overflow),
        Some(false) => Ok(s),
        Some(true) => match spec_cash_ok(
            s.cash_spent,
            p.buy_increment_cash,
            s.cash_made,
            p.cash_limit,
        ) {
            None => Err(Error::Overflow),
            Some(false) => Ok(s),
            Some(true) => spec_buy(s, i, q, p),
        },
    }
}

/// Walk the lots front to back: each lot whose age has reached the holding
/// period is sold at `close` (its proceeds added to `made`, its quantity
/// taken out of `holdings`); younger lots are kept in order after `kept`.
pub open spec fn spec_sell_lots(
    lots: Seq<Lot>,
    close: u64,
    now: u64,
    hp: u64,
    kept: Seq<Lot>,
    holdings: Rat,
    made: Rat,
) -> Result<(Seq<Lot>, Rat, Rat), Error>
    decreases lots.len(),
{
    if lots.len() == 0 {
        Ok((kept, holdings, made))
    } else {
        let l = lots[0];
        if l.acquired_at + hp <= now {
            match l.quantity.spec_mul_nat(close) {
                None => Err(Error::Overflow),
                Some(proceeds) => match made.spec_add(proceeds) {
                    None => Err(Error::Overflow),
                    Some(made2) => match holdings.spec_sub(l.quantity) {
                        None => Err(Error::Overflow),
                        Some(h2) => spec_sell_lots(
                            lots.drop_first(),
                            close,
                            now,
                            hp,
                            kept,
                            h2,
                            made2,
                        ),
                    },
                },
            }
        } else {
            spec_sell_lots(lots.drop_first(), close, now, hp, kept.push(l), holdings, made)
        }
    }
}

/// The sell leg of one step: if the rise signal fires, liquidate every
/// matured lot of the book at index `i`.
pub open spec fn spec_sell_leg(s: StateV, i: int, q: Quote, p: Params) -> Result<StateV, Error> {
    match spec_sell_signal(s.books[i].prev_close, q.close, p.sell_rise_pct) {
        None => Err(Error::Overflow),
        Some(false) => Ok(s),
        Some(true) => {
            let b = s.books[i];
            match spec_sell_lots(
                b.lots,
                q.close,
                q.timestamp,
                p.holding_period,
                Seq::empty(),
                b.holdings,
                s.cash_made,
            ) {
                Err(e) => Err(e),
                Ok(r) => Ok(
                    StateV {
                        books: s.books.update(
                            i,
                            BookV {
                                ticker: b.ticker,
                                prev_close: b.prev_close,
                                holdings: r.1,
                                lots: r.0,
                            },
                        ),
                        cash_spent: s.cash_spent,
                        cash_made: r.2,
                    },
                ),
            }
        },
    }
}

/// One step of the simulation: the first quote of a ticker only records its
/// close as the baseline; any later quote is evaluated for a buy and then a
/// sell against the previous close, which is then updated unconditionally.
pub open spec fn spec_step(s: StateV, q: Quote, p: Params) -> Result<StateV, Error> {
    let i = find_book(s.books, q.ticker@);
    if i < 0 {
        Ok(
            StateV {
                books: s.books.push(
                    BookV {
                        ticker: q.ticker@,
                        prev_close: q.close,
                        holdings: Rat { num: 0, den: 1 },
                        lots: Seq::empty(),
                    },
                ),
                cash_spent: s.cash_spent,
                cash_made: s.cash_made,
            },
        )
    } else if s.books[i].prev_close == 0 {
        Err(Error::InvalidSignal)
    } else {
        match spec_buy_leg(s, i, q, p) {
            Err(e) => Err(e),
            Ok(s1) => match spec_sell_leg(s1, i, q, p) {
                Err(e) => Err(e),
                Ok(s2) => {
                    let b = s2.books[i];
                    Ok(
                        StateV {
                            books: s2.books.update(
                                i,
                                BookV {
                                    ticker: b.ticker,
                                    prev_close: q.close,
                                    holdings: b.holdings,
                                    lots: b.lots,
                                },
                            ),
                            cash_spent: s2.cash_spent,
                            cash_made: s2.cash_made,
                        },
                    )
                },
            },
        }
    }
}

/// The whole run: fold `spec_step` over the stream in order, starting from
/// the empty state; the first failing step decides the error.
pub open spec fn spec_simulate(stream: Seq<Quote>, p: Params) -> Result<StateV, Error>
    decreases stream.len(),
{
    if stream.len() == 0 {
        Ok(spec_init())
    } else {
        match spec_simulate(stream.drop_last(), p) {
            Err(e) => Err(e),
            Ok(s) => spec_step(s, stream.last(), p),
        }
    }
}

/// If a prefix of the stream already fails, the whole stream fails with the
/// same error.
pub proof fn lemma_simulate_prefix_err(stream: Seq<Quote>, p: Params, i: int)
    requires
        0 <= i <= stream.len(),
        spec_simulate(stream.take(i), p) is Err,
    ensures
        spec_simulate(stream, p) == spec_simulate(stream.take(i), p),
    decreases stream.len() - i,
{
    if i < stream.len() {
        assert(stream.take(i + 1).drop_last() =~= stream.take(i));
        lemma_simulate_prefix_err(stream, p, i + 1);
    } else {
        assert(stream.take(i) =~= stream);
    }
}

/// First book for the ticker `t`, as an index into `books`.
pub fn find_book_exec(books: &Vec<Book>, t: &String) -> (r: Option<usize>)
    ensures
        ({
            let i = find_book(books@.map_values(|b: Book| b@), t@);
            match r {
                Some(k) => k < books.len() && k as int == i,
                None => i == -1,
            }
        }),
{
    proof {
        lemma_find_book(books@.map_values(|b: Book| b@), t@);
    }
    let ghost bv = books@.map_values(|b: Book| b@);
    let n = books.len();
    let mut k: usize = 0;
    while k < n
        invariant
            k <= n,
            n == books.len(),
            bv == books@.map_values(|b: Book| b@),
            forall|j: int| 0 <= j < k ==> (#[trigger] bv[j]).ticker != t@,
        decreases n - k,
    {
        if books[k].ticker == *t {
            proof {
                assert(bv[k as int] == books@[k as int]@);
                assert(bv[k as int].ticker == t@);
                lemma_find_book(bv, t@);
            }
            return Some(k);
        }
        k += 1;
    }
    proof {
        lemma_find_book(bv, t@);
    }
    None
}

/// First lot acquired at `ts`, as an index into `lots`.
pub fn find_lot_exec(lots: &Vec<Lot>, ts: u64) -> (r: Option<usize>)
    ensures
        ({
            let i = find_lot(lots@, ts);
            match r {
                Some(k) => k < lots.len() && k as int == i,
                None => i == -1,
            }
        }),
{
    let n = lots.len();
    let mut k: usize = 0;
    while k < n
        invariant
            k <= n,
            n == lots.len(),
            forall|j: int| 0 <= j < k ==> (#[trigger] lots@[j]).acquired_at != ts,
        decreases n - k,
    {
        if lots[k].acquired_at == ts {
            proof {
                lemma_find_lot(lots@, ts);
            }
            return Some(k);
        }
        k += 1;
    }
    proof {
        lemma_find_lot(lots@, ts);
    }
    None
}

/// Checked evaluation of the buy signal.
pub fn buy_signal(prev: u64, close: u64, bw: Rat) -> (r: Option<bool>)
    requires
        bw.wf(),
    ensures
        r == spec_buy_signal(prev, close, bw),
{
    if close > prev {
        Some(false)
    } else {
        let lhs: u128 = ((prev - close) as u128) * 100;
        match (lhs.checked_mul(bw.den), bw.num.checked_mul(prev as u128)) {
            (Some(a), Some(b)) => Some(a >= b),
            _ => None,
        }
    }
}

/// Checked evaluation of the sell signal.
pub fn sell_signal(prev: u64, close: u64, sw: Rat) -> (r: Option<bool>)
    requires
        sw.wf(),
    ensures
        r == spec_sell_signal(prev, close, sw),
{
    if close < prev {
        Some(false)
    } else {
        let lhs: u128 = ((close - prev) as u128) * 100;
        match (lhs.checked_mul(sw.den), sw.num.checked_mul(prev as u128)) {
            (Some(a), Some(b)) => Some(a >= b),
            _ => None,
        }
    }
}

/// Checked evaluation of the capital constraint.
pub fn cash_ok(cash_spent: u64, inc: u64, made: Rat, limit: u64) -> (r: Option<bool>)
    requires
        made.wf(),
    ensures
        r == spec_cash_ok(cash_spent, inc, made, limit),
{
    let s: u128 = cash_spent as u128 + inc as u128;
    match (s.checked_mul(made.den), (limit as u128).checked_mul(made.den)) {
        (Some(a), Some(b)) => match b.checked_add(made.num) {
            Some(rhs) => Some(a < rhs),
            None => None,
        },
        _ => None,
    }
}

/// Process one quote: exactly what `spec_step` says, including the error.
#[verifier::loop_isolation(false)]
pub fn step(s: PortfolioState, q: &Quote, p: &Params) -> (r: Result<PortfolioState, Error>)
    requires
        s@.wf(),
        p.wf(),
    ensures
        r matches Ok(s2) ==> spec_step(s@, *q, *p) matches Ok(sv) && s2@ == sv && s2@.wf(),
        r matches Err(e) ==> spec_step(s@, *q, *p) matches Err(e2) && e == e2,
{
    let ghost sv0 = s@;
    match find_book_exec(&s.books, &q.ticker) {
        None => {
            let mut s = s;
            s.books.push(
                Book {
                    ticker: q.ticker.clone(),
                    prev_close: q.close,
                    holdings: Rat::zero(),
                    lots: Vec::new(),
                },
            );
            proof {
                assert(s@.books =~~= sv0.books.push(
                    BookV {
                        ticker: q.ticker@,
                        prev_close: q.close,
                        holdings: Rat { num: 0, den: 1 },
                        lots: Seq::empty(),
                    },
                ));
                assert(spec_step(sv0, *q, *p) matches Ok(sv) && s@ =~~= sv);
            }
            Ok(s)
        },
        Some(i) => {
            let prev = s.books[i].prev_close;
            if prev == 0 {
                return Err(Error::InvalidSignal);
            }
            let mut s = s;
            let mut b = s.books.remove(i);
            proof {
                assert(s@.books =~~= sv0.books.remove(i as int));
                assert(b@ == sv0.books[i as int]);
            }
            // Buy leg.
            match buy_signal(prev, q.close, p.buy_drop_pct) {
                None => {
                    return Err(Error::Overflow);
                },
                Some(false) => {},
                Some(true) => {
                    match cash_ok(s.cash_spent, p.buy_increment_cash, s.cash_made, p.cash_limit) {
                        None => {
                            return Err(Error::Overflow);
                        },
                        Some(false) => {},
                        Some(true) => {
                            if q.close == 0 {
                                return Err(Error::InvalidSignal);
                            }
                            match s.cash_spent.checked_add(p.buy_increment_cash) {
                                None => {
                                    return Err(Error::Overflow);
                                },
                                Some(cs2) => {
                                    let qty = Rat {
                                        num: p.buy_increment_cash as u128,
                                        den: q.close as u128,
                                    };
                                    match b.holdings.add(qty) {
                                        None => {
                                            return Err(Error::Overflow);
                                        },
                                        Some(h) => {
                                            b.holdings = h;
                                            s.cash_spent = cs2;
                                            let lot = Lot {
                                                acquired_at: q.timestamp,
                                                quantity: qty,
                                            };
                                            match find_lot_exec(&b.lots, q.timestamp) {
                                                Some(j) => {
                                                    let _ = b.lots.remove(j);
                                                    b.lots.insert(j, lot);
                                                    proof {
                                                        assert(b@.lots =~~= sv0.books[i as int].lots.update(
                                                            find_lot(
                                                                sv0.books[i as int].lots,
                                                                q.timestamp,
                                                            ),
                                                            lot,
                                                        ));
                                                    }
                                                },
                                                None => {
                                                    b.lots.push(lot);
                                                },
                                            }
                                        },
                                    }
                                },
                            }
                        },
                    }
                },
            }
            let ghost s1v = StateV {
                books: sv0.books.update(i as int, b@),
                cash_spent: s.cash_spent,
                cash_made: s.cash_made,
            };
            proof {
                assert(sv0.books.update(i as int, sv0.books[i as int]) =~= sv0.books);
                assert(spec_buy_leg(sv0, i as int, *q, *p) matches Ok(x) && x =~~= s1v);
            }
            // Sell leg.
            match sell_signal(prev, q.close, p.sell_rise_pct) {
                None => {
                    return Err(Error::Overflow);
                },
                Some(false) => {},
                Some(true) => {
                    let ghost lots0 = b@.lots;
                    let ghost hold0 = b.holdings;
                    let ghost made0 = s.cash_made;
                    let mut kept: Vec<Lot> = Vec::new();
                    let mut holdings = b.holdings;
                    let mut made = s.cash_made;
                    proof {
                        assert(lots0.skip(0) =~= lots0);
                        assert(kept@ =~= Seq::<Lot>::empty());
                    }
                    let n = b.lots.len();
                    let mut k: usize = 0;
                    while k < n
                        invariant
                            k <= n,
                            holdings.wf(),
                            made.wf(),
                            forall|j: int| 0 <= j < kept@.len() ==> (#[trigger] kept@[j]).quantity.wf(),
                            spec_sell_lots(
                                lots0,
                                q.close,
                                q.timestamp,
                                p.holding_period,
                                Seq::empty(),
                                hold0,
                                made0,
                            ) == spec_sell_lots(
                                lots0.skip(k as int),
                                q.close,
                                q.timestamp,
                                p.holding_period,
                                kept@,
                                holdings,
                                made,
                            ),
                        decreases n - k,
                    {
                        proof {
                            assert(lots0.skip(k as int).drop_first() =~= lots0.skip(k as int + 1));
                            assert(lots0.skip(k as int)[0] == lots0[k as int]);
                        }
                        let l = b.lots[k];
                        if (l.acquired_at as u128) + (p.holding_period as u128) <= (
                        q.timestamp as u128) {
                            match l.quantity.mul_nat(q.close) {
                                None => {
                                    return Err(Error::Overflow);
                                },
                                Some(proceeds) => match made.add(proceeds) {
                                    None => {
                                        return Err(Error::Overflow);
                                    },
                                    Some(m2) => match holdings.sub(l.quantity) {
                                        None => {
                                            return Err(Error::Overflow);
                                        },
                                        Some(h2) => {
                                            made = m2;
                                            holdings = h2;
                                        },
                                    },
                                },
                            }
                        } else {
                            kept.push(l);
                        }
                        k += 1;
                    }
                    proof {
                        assert(lots0.skip(n as int) =~= Seq::<Lot>::empty());
                    }
                    b.lots = kept;
                    b.holdings = holdings;
                    s.cash_made = made;
                },
            }
            let ghost s2v = StateV {
                books: sv0.books.update(i as int, b@),
                cash_spent: s.cash_spent,
                cash_made: s.cash_made,
            };
            proof {
                assert(s1v.books[i as int] == b@ || spec_sell_signal(
                    prev,
                    q.close,
                    p.sell_rise_pct,
                ) == Some(true));
                assert(s1v.books.update(i as int, b@) =~~= s2v.books);
                assert(spec_sell_leg(s1v, i as int, *q, *p) matches Ok(x) && x =~~= s2v);
            }
            // Record the close as the new baseline, unconditionally.
            b.prev_close = q.close;
            s.books.insert(i, b);
            proof {
                assert(s@.books =~~= sv0.books.remove(i as int).insert(i as int, b@));
                assert(s@.books =~~= s2v.books.update(
                    i as int,
                    BookV {
                        ticker: s2v.books[i as int].ticker,
                        prev_close: q.close,
                        holdings: s2v.books[i as int].holdings,
                        lots: s2v.books[i as int].lots,
                    },
                ));
                assert(spec_step(sv0, *q, *p) matches Ok(sv) && s@ =~~= sv);
            }
            Ok(s)
        },
    }
}

/// Run the whole simulation: exactly what `spec_simulate` says of the
/// stream, the parameters and the error raised, if any.
#[verifier::loop_isolation(false)]
pub fn simulate(stream: &Vec<Quote>, p: &Params) -> (r: Result<PortfolioState, Error>)
    requires
        p.wf(),
    ensures
        r matches Ok(st) ==> spec_simulate(stream@, *p) matches Ok(sv) && st@ == sv && sv.wf(),
        r matches Err(e) ==> spec_simulate(stream@, *p) matches Err(e2) && e == e2,
{
    let mut st = PortfolioState { books: Vec::new(), cash_spent: 0, cash_made: Rat::zero() };
    proof {
        assert(st@ =~~= spec_init());
        assert(stream@.take(0) =~= Seq::<Quote>::empty());
    }
    let n = stream.len();
    let mut k: usize = 0;
    while k < n
        invariant
            k <= n,
            spec_simulate(stream@.take(k as int), *p) matches Ok(sv) && st@ == sv && st@.wf(),
        decreases n - k,
    {
        proof {
            assert(stream@.take(k as int + 1).drop_last() =~= stream@.take(k as int));
            assert(stream@.take(k as int + 1).last() == stream@[k as int]);
        }
        let q = &stream[k];
        match step(st, q, p) {
            Ok(s2) => {
                st = s2;
            },
            Err(e) => {
                proof {
                    lemma_simulate_prefix_err(stream@, *p, k as int + 1);
                }
                return Err(e);
            },
        }
        k += 1;
    }
    proof {
        assert(stream@.take(n as int) =~= stream@);
    }
    Ok(st)
}

} // verus!
