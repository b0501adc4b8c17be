//! Valuation: reduce a portfolio state and a price snapshot to one net
//! worth, and the buy-and-hold baseline built from the same valuation.
//!
//! A net worth is `assets - spent`, with `assets` an exact rational and
//! `spent` the integer cash laid out, so it may denote a negative value
//! without a signed rational type.

use vstd::prelude::*;
use crate::rat::Rat;
use crate::sim::{Book, BookV, Error, PortfolioState, StateV};

verus! {

/// A simulation outcome reduced to one number: the value `assets - spent`.
#[derive(Clone, Copy, Debug, PartialEq, Eq, Structural)]
pub struct NetWorth {
    pub assets: Rat,
    pub spent: u64,
}

impl NetWorth {
    pub open spec fn wf(self) -> bool {
        self.assets.wf()
    }

    /// Value order: `self.assets - self.spent <= other.assets - other.spent`,
    /// cross-multiplied by the two positive denominators.
    pub open spec fn le_val(self, other: NetWorth) -> bool {
        self.assets.num * other.assets.den + other.spent * self.assets.den * other.assets.den
            <= other.assets.num * self.assets.den + self.spent * self.assets.den
            * other.assets.den
    }

    /// Strict value order.
    pub open spec fn lt_val(self, other: NetWorth) -> bool {
        self.assets.num * other.assets.den + other.spent * self.assets.den * other.assets.den
            < other.assets.num * self.assets.den + self.spent * self.assets.den * other.assets.den
    }

    /// Equal value, possibly under different representations.
    pub open spec fn eq_val(self, other: NetWorth) -> bool {
        self.le_val(other) && other.le_val(self)
    }

    /// What `lt` returns: the strict value order, or `None` where a product
    /// would not fit in a `u128`.
    pub open spec fn spec_lt(self, other: NetWorth) -> Option<bool> {
        if self.assets.den * other.assets.den <= u128::MAX && self.assets.num * other.assets.den
            <= u128::MAX && other.assets.num * self.assets.den <= u128::MAX && other.spent
            * (self.assets.den * other.assets.den) <= u128::MAX && self.spent * (self.assets.den
            * other.assets.den) <= u128::MAX && self.assets.num * other.assets.den + other.spent
            * (self.assets.den * other.assets.den) <= u128::MAX && other.assets.num
            * self.assets.den + self.spent * (self.assets.den * other.assets.den) <= u128::MAX {
            Some(self.lt_val(other))
        } else {
            None
        }
    }

    /// Checked strict value order.
    pub fn lt(self, other: NetWorth) -> (r: Option<bool>)
        requires
            self.wf(),
            other.wf(),
        ensures
            r == self.spec_lt(other),
    {
        let dd = match self.assets.den.checked_mul(other.assets.den) {
            Some(v) => v,
            None => {
                return None;
            },
        };
        let a1 = match self.assets.num.checked_mul(other.assets.den) {
            Some(v) => v,
            None => {
                return None;
            },
        };
        let b1 = match other.assets.num.checked_mul(self.assets.den) {
            Some(v) => v,
            None => {
                return None;
            },
        };
        let a2 = match (other.spent as u128).checked_mul(dd) {
            Some(v) => v,
            None => {
                return None;
            },
        };
        let b2 = match (self.spent as u128).checked_mul(dd) {
            Some(v) => v,
            None => {
                return None;
            },
        };
        match (a1.checked_add(a2), b1.checked_add(b2)) {
            (Some(lhs), Some(rhs)) => {
                proof {
                    assert(other.spent * self.assets.den * other.assets.den == a2) by (
                    nonlinear_arith)
                        requires
                            a2 == (other.spent as u128) * dd,
                            dd == self.assets.den * other.assets.den,
                    ;
                    assert(self.spent * self.assets.den * other.assets.den == b2) by (
                    nonlinear_arith)
                        requires
                            b2 == (self.spent as u128) * dd,
                            dd == self.assets.den * other.assets.den,
                    ;
                }
                Some(lhs < rhs)
            },
            _ => None,
        }
    }
}

/// Index of the first snapshot entry for ticker `t`, or `-1`.
pub open spec fn find_close(closes: Seq<(String, u64)>, t: Seq<char>) -> int
    decreases closes.len(),
{
    if closes.len() == 0 {
        -1
    } else if closes[0].0@ == t {
        0
    } else {
        let r = find_close(closes.drop_first(), t);
        if r < 0 {
            -1
        } else {
            r + 1
        }
    }
}

pub proof fn lemma_find_close(closes: Seq<(String, u64)>, t: Seq<char>)
    ensures
        ({
            let i = find_close(closes, t);
            &&& -1 <= i < closes.len()
            &&& i >= 0 ==> closes[i].0@ == t && (forall|j: int|
                0 <= j < i ==> (#[trigger] closes[j]).0@ != t)
            &&& i == -1 ==> forall|j: int| 0 <= j < closes.len() ==> (#[trigger] closes[j]).0@ != t
        }),
    decreases closes.len(),
{
    if closes.len() > 0 && closes[0].0@ != t {
        lemma_find_close(closes.drop_first(), t);
        assert forall|j: int| 1 <= j < closes.len() implies closes.drop_first()[j - 1]
            == closes[j] by {}
    }
}

/// Walk the books front to back, adding `holdings * close` to `acc` for
/// every book with nonzero holdings; a book with nonzero holdings and no
/// snapshot price is an `InvalidSignal` failure.
pub open spec fn spec_total_assets(
    books: Seq<BookV>,
    closes: Seq<(String, u64)>,
    acc: Rat,
) -> Result<Rat, Error>
    decreases books.len(),
{
    if books.len() == 0 {
        Ok(acc)
    } else {
        let b = books[0];
        if b.holdings.num == 0 {
            spec_total_assets(books.drop_first(), closes, acc)
        } else {
            let j = find_close(closes, b.ticker);
            if j < 0 {
                Err(Error::InvalidSignal)
            } else {
                match b.holdings.spec_mul_nat(closes[j].1) {
                    None => Err(Error::Overflow),
                    Some(v) => match acc.spec_add(v) {
                        None => Err(Error::Overflow),
                        Some(acc2) => spec_total_assets(books.drop_first(), closes, acc2),
                    },
                }
            }
        }
    }
}

/// The net worth of a state under a price snapshot:
/// `(cash_made - cash_spent) + sum of holdings * close`.
pub open spec fn spec_net_worth(s: StateV, closes: Seq<(String, u64)>) -> Result<NetWorth, Error> {
    match spec_total_assets(s.books, closes, s.cash_made) {
        Err(e) => Err(e),
        Ok(assets) => Ok(NetWorth { assets, spent: s.cash_spent }),
    }
}

/// First snapshot entry for the ticker `t`, as an index into `closes`.
pub fn find_close_exec(closes: &Vec<(String, u64)>, t: &String) -> (r: Option<usize>)
    ensures
        ({
            let i = find_close(closes@, t@);
            match r {
                Some(k) => k < closes.len() && k as int == i,
                None => i == -1,
            }
        }),
{
    let n = closes.len();
    let mut k: usize = 0;
    while k < n
        invariant
            k <= n,
            n == closes.len(),
            forall|j: int| 0 <= j < k ==> (#[trigger] closes@[j]).0@ != t@,
        decreases n - k,
    {
        if closes[k].0 == *t {
            proof {
                lemma_find_close(closes@, t@);
            }
            return Some(k);
        }
        k += 1;
    }
    proof {
        lemma_find_close(closes@, t@);
    }
    None
}

/// Value a state against a price snapshot: exactly what `spec_net_worth`
/// says, including which failure is raised.
#[verifier::loop_isolation(false)]
pub fn net_worth(state: &PortfolioState, closes: &Vec<(String, u64)>) -> (r: Result<
    NetWorth,
    Error,
>)
    requires
        state@.wf(),
    ensures
        r == spec_net_worth(state@, closes@),
        r matches Ok(w) ==> w.wf(),
{
    let ghost books0 = state@.books;
    let mut acc = state.cash_made;
    proof {
        assert(books0.skip(0) =~= books0);
    }
    let n = state.books.len();
    let mut k: usize = 0;
    while k < n
        invariant
            k <= n,
            n == state.books.len(),
            acc.wf(),
            spec_total_assets(books0, closes@, state@.cash_made) == spec_total_assets(
                books0.skip(k as int),
                closes@,
                acc,
            ),
        decreases n - k,
    {
        proof {
            assert(books0.skip(k as int)[0] == books0[k as int]);
            assert(books0.skip(k as int).drop_first() =~= books0.skip(k as int + 1));
        }
        let b = &state.books[k];
        if b.holdings.num != 0 {
            match find_close_exec(closes, &b.ticker) {
                None => {
                    return Err(Error::InvalidSignal);
                },
                Some(j) => {
                    let v = match b.holdings.mul_nat(closes[j].1) {
                        None => {
                            return Err(Error::Overflow);
                        },
                        Some(v) => v,
                    };
                    acc = match acc.add(v) {
                        None => {
                            return Err(Error::Overflow);
                        },
                        Some(a) => a,
                    };
                },
            }
        }
        k += 1;
    }
    proof {
        assert(books0.skip(n as int) =~= Seq::<BookV>::empty());
    }
    Ok(NetWorth { assets: acc, spent: state.cash_spent })
}

/// The books of the buy-and-hold portfolio: each ticker gets
/// `cash / n` spent on it at its first close, so
/// `cash / (n * close)` shares; a zero first close is an `InvalidSignal`
/// failure.
pub open spec fn spec_baseline_books(
    firsts: Seq<(String, u64)>,
    n: u64,
    cash: u64,
    acc: Seq<BookV>,
) -> Result<Seq<BookV>, Error>
    decreases firsts.len(),
{
    if firsts.len() == 0 {
        Ok(acc)
    } else {
        let (t, c) = firsts[0];
        if c == 0 {
            Err(Error::InvalidSignal)
        } else {
            let qty = Rat { num: cash as u128, den: (n * c) as u128 };
            let b = BookV { ticker: t@, prev_close: c, holdings: qty, lots: Seq::empty() };
            spec_baseline_books(firsts.drop_first(), n, cash, acc.push(b))
        }
    }
}

/// The buy-and-hold baseline: split `cash` equally across the tickers,
/// buy each at its first close, and value the static holdings at the
/// snapshot closes. An empty ticker list is `DataUnavailable`.
pub open spec fn spec_buy_and_hold(
    firsts: Seq<(String, u64)>,
    closes: Seq<(String, u64)>,
    cash: u64,
) -> Result<NetWorth, Error> {
    if firsts.len() == 0 || firsts.len() > u64::MAX {
        Err(Error::DataUnavailable)
    } else {
        match spec_baseline_books(firsts, firsts.len() as u64, cash, Seq::empty()) {
            Err(e) => Err(e),
            Ok(books) => spec_net_worth(
                StateV { books, cash_spent: 0, cash_made: Rat { num: 0, den: 1 } },
                closes,
            ),
        }
    }
}

/// Build and value the buy-and-hold portfolio: exactly what
/// `spec_buy_and_hold` says.
#[verifier::loop_isolation(false)]
pub fn buy_and_hold(firsts: &Vec<(String, u64)>, closes: &Vec<(String, u64)>, cash: u64) -> (r:
    Result<NetWorth, Error>)
    ensures
        r == spec_buy_and_hold(firsts@, closes@, cash),
        r matches Ok(w) ==> w.wf(),
{
    let n = firsts.len();
    if n == 0 {
        return Err(Error::DataUnavailable);
    }
    let n64 = n as u64;
    let mut books: Vec<Book> = Vec::new();
    proof {
        assert(firsts@.skip(0) =~= firsts@);
        assert(books@.map_values(|b: Book| b@) =~= Seq::<BookV>::empty());
    }
    let mut k: usize = 0;
    while k < n
        invariant
            k <= n,
            n == firsts.len(),
            spec_baseline_books(firsts@, n64, cash, Seq::empty()) == spec_baseline_books(
                firsts@.skip(k as int),
                n64,
                cash,
                books@.map_values(|b: Book| b@),
            ),
            forall|i: int|
                0 <= i < books@.len() ==> (#[trigger] books@[i])@.wf() && books@[i]@.lots.len()
                    == 0,
        decreases n - k,
    {
        proof {
            assert(firsts@.skip(k as int)[0] == firsts@[k as int]);
            assert(firsts@.skip(k as int).drop_first() =~= firsts@.skip(k as int + 1));
        }
        let c = firsts[k].1;
        if c == 0 {
            return Err(Error::InvalidSignal);
        }
        proof {
            assert((n64 as u128) * (c as u128) <= u128::MAX) by (nonlinear_arith)
                requires
                    (n64 as u128) < 0x1_0000_0000_0000_0000,
                    (c as u128) < 0x1_0000_0000_0000_0000,
            ;
        }
        let den: u128 = (n64 as u128) * (c as u128);
        let qty = Rat { num: cash as u128, den };
        let b = Book {
            ticker: firsts[k].0.clone(),
            prev_close: c,
            holdings: qty,
            lots: Vec::new(),
        };
        let ghost before = books@.map_values(|bb: Book| bb@);
        books.push(b);
        proof {
            assert(n64 * c == den) by (nonlinear_arith)
                requires
                    den == (n64 as u128) * (c as u128),
            ;
            assert(den >= 1) by (nonlinear_arith)
                requires
                    den == (n64 as u128) * (c as u128),
                    n64 >= 1,
                    c >= 1,
            ;
            assert(books@.map_values(|bb: Book| bb@) =~= before.push(
                BookV {
                    ticker: firsts@[k as int].0@,
                    prev_close: c,
                    holdings: qty,
                    lots: Seq::empty(),
                },
            ));
        }
        k += 1;
    }
    proof {
        assert(firsts@.skip(n as int) =~= Seq::<(String, u64)>::empty());
    }
    let st = PortfolioState { books, cash_spent: 0, cash_made: Rat::zero() };
    let r = net_worth(&st, closes);
    proof {
        assert(spec_baseline_books(firsts@, n64, cash, Seq::empty()) matches Ok(bs) && st@.books
            =~~= bs);
    }
    r
}

} // verus!
