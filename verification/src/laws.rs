//! The library's laws: properties of whole simulation runs, proved once
//! and for all over the spec-level interpreter that the executable engine
//! is verified against.

use vstd::prelude::*;
use crate::rat::Rat;
use crate::sim::{
    find_book,
    lemma_find_book,
    spec_buy,
    spec_buy_leg,
    spec_cash_ok,
    spec_init,
    spec_sell_leg,
    spec_sell_lots,
    spec_simulate,
    spec_step,
    BookV,
    Error,
    Lot,
    Params,
    Quote,
    StateV,
};
use crate::worth::{
    find_close,
    spec_baseline_books,
    spec_buy_and_hold,
    spec_net_worth,
    spec_total_assets,
    NetWorth,
};
use crate::grid::{count_failed, lemma_grid_search_max, spec_grid_search, spec_run_cell};

verus! {

// ------------------------------------------------------------------
// Determinism
// ------------------------------------------------------------------

/// For a fixed stream and fixed parameters the simulation is a function of
/// its inputs alone: any two outcomes that satisfy `simulate`'s contract
/// are one and the same, whatever scheduling produced them.
pub proof fn lemma_simulate_deterministic(
    stream: Seq<Quote>,
    p: Params,
    r1: Result<StateV, Error>,
    r2: Result<StateV, Error>,
)
    requires
        r1 == spec_simulate(stream, p),
        r2 == spec_simulate(stream, p),
    ensures
        r1 == r2,
{
}

// ------------------------------------------------------------------
// Well-formedness of every reachable state
// ------------------------------------------------------------------

pub proof fn lemma_sell_lots_wf(
    lots: Seq<Lot>,
    close: u64,
    now: u64,
    hp: u64,
    kept: Seq<Lot>,
    holdings: Rat,
    made: Rat,
)
    requires
        forall|j: int| 0 <= j < lots.len() ==> (#[trigger] lots[j]).quantity.wf(),
        forall|j: int| 0 <= j < kept.len() ==> (#[trigger] kept[j]).quantity.wf(),
        holdings.wf(),
        made.wf(),
    ensures
        spec_sell_lots(lots, close, now, hp, kept, holdings, made) matches Ok(r) ==> (forall|
            j: int,
        |
            0 <= j < r.0.len() ==> (#[trigger] r.0[j]).quantity.wf()) && r.1.wf() && r.2.wf(),
    decreases lots.len(),
{
    if lots.len() > 0 {
        let l = lots[0];
        assert(forall|j: int|
            0 <= j < lots.drop_first().len() ==> (#[trigger] lots.drop_first()[j]).quantity.wf());
        if l.acquired_at + hp <= now {
            if l.quantity.spec_mul_nat(close) is Some {
                let proceeds = l.quantity.spec_mul_nat(close)->0;
                made.lemma_spec_add_wf(proceeds);
                holdings.lemma_spec_sub_wf(l.quantity);
                if made.spec_add(proceeds) is Some && holdings.spec_sub(l.quantity) is Some {
                    let made2 = made.spec_add(proceeds)->0;
                    let h2 = holdings.spec_sub(l.quantity)->0;
                    lemma_sell_lots_wf(lots.drop_first(), close, now, hp, kept, h2, made2);
                }
            }
        } else {
            assert(forall|j: int|
                0 <= j < kept.push(l).len() ==> (#[trigger] kept.push(l)[j]).quantity.wf());
            lemma_sell_lots_wf(lots.drop_first(), close, now, hp, kept.push(l), holdings, made);
        }
    }
}

pub proof fn lemma_buy_leg_wf(s: StateV, i: int, q: Quote, p: Params)
    requires
        s.wf(),
        0 <= i < s.books.len(),
    ensures
        spec_buy_leg(s, i, q, p) matches Ok(s1) ==> s1.wf(),
{
    let b = s.books[i];
    assert(b.wf());
    if spec_buy_leg(s, i, q, p) is Ok {
        let s1 = spec_buy_leg(s, i, q, p)->Ok_0;
        if buy_leg_fired(s, i, q, p) {
            let qty = Rat { num: p.buy_increment_cash as u128, den: q.close as u128 };
            b.holdings.lemma_spec_add_wf(qty);
            let j0 = crate::sim::find_lot(b.lots, q.timestamp);
            crate::sim::lemma_find_lot(b.lots, q.timestamp);
            assert forall|j: int| 0 <= j < s1.books.len() implies (#[trigger] s1.books[j]).wf() by {
                if j != i {
                    assert(s.books[j].wf());
                } else {
                    assert forall|m: int|
                        0 <= m
                            < s1.books[i].lots.len() implies (#[trigger] s1.books[i].lots[m]).quantity.wf() by {
                        if j0 >= 0 {
                            if m != j0 {
                                assert(s1.books[i].lots[m] == b.lots[m]);
                            }
                        } else {
                            if m < b.lots.len() {
                                assert(s1.books[i].lots[m] == b.lots[m]);
                            }
                        }
                    }
                }
            }
        }
    }
}

pub proof fn lemma_step_wf(s: StateV, q: Quote, p: Params)
    requires
        s.wf(),
    ensures
        spec_step(s, q, p) matches Ok(s2) ==> s2.wf(),
{
    let i = find_book(s.books, q.ticker@);
    lemma_find_book(s.books, q.ticker@);
    if i < 0 {
        if spec_step(s, q, p) is Ok {
            let s2 = spec_step(s, q, p)->Ok_0;
            assert forall|j: int| 0 <= j < s2.books.len() implies (#[trigger] s2.books[j]).wf() by {
                if j < s.books.len() {
                    assert(s.books[j].wf());
                }
            }
        }
    } else if s.books[i].prev_close != 0 {
        let b = s.books[i];
        assert(b.wf());
        if spec_buy_leg(s, i, q, p) is Ok {
            let s1 = spec_buy_leg(s, i, q, p)->Ok_0;
            lemma_buy_leg_wf(s, i, q, p);
            if spec_sell_leg(s1, i, q, p) is Ok {
                let s2 = spec_sell_leg(s1, i, q, p)->Ok_0;
                assert(s2.wf()) by {
                    let b1 = s1.books[i];
                    lemma_sell_lots_wf(
                        b1.lots,
                        q.close,
                        q.timestamp,
                        p.holding_period,
                        Seq::empty(),
                        b1.holdings,
                        s1.cash_made,
                    );
                    assert forall|j: int|
                        0 <= j < s2.books.len() implies (#[trigger] s2.books[j]).wf() by {
                        if j != i {
                            assert(s1.books[j].wf());
                        }
                    }
                }
                if spec_step(s, q, p) is Ok {
                    let s3 = spec_step(s, q, p)->Ok_0;
                    assert forall|j: int|
                        0 <= j < s3.books.len() implies (#[trigger] s3.books[j]).wf() by {
                        if j != i {
                            assert(s2.books[j].wf());
                        } else {
                            assert(s2.books[i].wf());
                        }
                    }
                }
            }
        }
    }
}

/// Whether the buy signal and the cash check both passed in this step.
pub open spec fn buy_leg_fired(s: StateV, i: int, q: Quote, p: Params) -> bool {
    crate::sim::spec_buy_signal(s.books[i].prev_close, q.close, p.buy_drop_pct) == Some(true)
        && spec_cash_ok(s.cash_spent, p.buy_increment_cash, s.cash_made, p.cash_limit) == Some(
        true,
    )
}

/// Every state a run can end in is well-formed.
pub proof fn lemma_simulate_wf(stream: Seq<Quote>, p: Params)
    ensures
        spec_simulate(stream, p) matches Ok(s) ==> s.wf(),
    decreases stream.len(),
{
    if stream.len() > 0 {
        lemma_simulate_wf(stream.drop_last(), p);
        if spec_simulate(stream.drop_last(), p) is Ok {
            lemma_step_wf(spec_simulate(stream.drop_last(), p)->Ok_0, stream.last(), p);
        }
    }
}

pub proof fn lemma_total_assets_wf(books: Seq<BookV>, closes: Seq<(String, u64)>, acc: Rat)
    requires
        acc.wf(),
        forall|i: int| 0 <= i < books.len() ==> (#[trigger] books[i]).holdings.wf(),
    ensures
        spec_total_assets(books, closes, acc) matches Ok(a) ==> a.wf(),
    decreases books.len(),
{
    if books.len() > 0 {
        let b = books[0];
        assert(b.holdings.wf());
        assert(forall|i: int|
            0 <= i < books.drop_first().len() ==> (#[trigger] books.drop_first()[i]).holdings.wf());
        if b.holdings.num == 0 {
            lemma_total_assets_wf(books.drop_first(), closes, acc);
        } else {
            let j = find_close(closes, b.ticker);
            if j >= 0 {
                if b.holdings.spec_mul_nat(closes[j].1) is Some {
                    let v = b.holdings.spec_mul_nat(closes[j].1)->0;
                    acc.lemma_spec_add_wf(v);
                    if acc.spec_add(v) is Some {
                        lemma_total_assets_wf(books.drop_first(), closes, acc.spec_add(v)->0);
                    }
                }
            }
        }
    }
}

/// Every net worth a grid cell can report is well-formed.
pub proof fn lemma_run_cell_wf(stream: Seq<Quote>, closes: Seq<(String, u64)>, p: Params)
    ensures
        spec_run_cell(stream, closes, p) matches Ok(w) ==> w.wf(),
{
    lemma_simulate_wf(stream, p);
    if spec_simulate(stream, p) is Ok {
        let s = spec_simulate(stream, p)->Ok_0;
        lemma_total_assets_wf(s.books, closes, s.cash_made);
    }
}

// ------------------------------------------------------------------
// The grid search reports the maximum
// ------------------------------------------------------------------

/// On success the grid search reports the maximum net worth over all
/// succeeding cells — at least every cell's value, attained by the first
/// cell attaining it — `None` exactly when every cell failed, and the
/// exact count of failing cells. The maximum of a fixed set of values
/// does not depend on the order they are visited in, so a parallel run
/// over the same cells reports the same value as the sequential one.
pub proof fn lemma_grid_search_reports_max(
    stream: Seq<Quote>,
    closes: Seq<(String, u64)>,
    cells: Seq<Params>,
)
    requires
        cells.len() <= usize::MAX,
        spec_grid_search(stream, closes, cells) is Ok,
    ensures
        ({
            let out = spec_grid_search(stream, closes, cells)->Ok_0;
            &&& out.0 matches Some(p) ==> p.0 < cells.len() && spec_run_cell(
                stream,
                closes,
                cells[p.0 as int],
            ) == Ok::<NetWorth, Error>(p.1) && (forall|j: int|
                0 <= j < cells.len() ==> ((#[trigger] spec_run_cell(stream, closes, cells[j]))
                    matches Ok(w) ==> w.le_val(p.1))) && (forall|j: int|
                0 <= j < p.0 ==> ((#[trigger] spec_run_cell(stream, closes, cells[j])) matches Ok(
                w) ==> w.lt_val(p.1)))
            &&& out.0 is None ==> forall|j: int|
                0 <= j < cells.len() ==> (#[trigger] spec_run_cell(stream, closes, cells[j]))
                    is Err
            &&& out.1 == count_failed(stream, closes, cells, 0)
        }),
{
    assert forall|j: int|
        0 <= j < cells.len() implies ((#[trigger] spec_run_cell(stream, closes, cells[j]))
        matches Ok(w) ==> w.wf()) by {
        lemma_run_cell_wf(stream, closes, cells[j]);
    }
    lemma_grid_search_max(stream, closes, cells, 0, None, 0);
}

// ------------------------------------------------------------------
// The cash limit is never breached
// ------------------------------------------------------------------

/// The deployed capital `cash_spent - cash_made` is at most `limit`:
/// cross-multiplied by the positive denominator of `cash_made`.
pub open spec fn deployed_within(s: StateV, limit: u64) -> bool {
    s.cash_spent * s.cash_made.den <= limit * s.cash_made.den + s.cash_made.num
}

/// Immediately after a buy is applied, the deployed capital is strictly
/// below the limit: the check happens before the lot is created.
pub proof fn lemma_buy_keeps_limit(s: StateV, i: int, q: Quote, p: Params)
    requires
        spec_cash_ok(s.cash_spent, p.buy_increment_cash, s.cash_made, p.cash_limit) == Some(true),
    ensures
        spec_buy(s, i, q, p) matches Ok(s1) ==> s1.cash_spent * s1.cash_made.den < p.cash_limit
            * s1.cash_made.den + s1.cash_made.num,
{
}

pub proof fn lemma_sell_lots_limit(
    lots: Seq<Lot>,
    close: u64,
    now: u64,
    hp: u64,
    kept: Seq<Lot>,
    holdings: Rat,
    made: Rat,
    cash_spent: u64,
    limit: u64,
)
    requires
        made.wf(),
        forall|j: int| 0 <= j < lots.len() ==> (#[trigger] lots[j]).quantity.wf(),
        cash_spent * made.den <= limit * made.den + made.num,
    ensures
        spec_sell_lots(lots, close, now, hp, kept, holdings, made) matches Ok(r) ==> cash_spent
            * r.2.den <= limit * r.2.den + r.2.num,
    decreases lots.len(),
{
    if lots.len() > 0 {
        let l = lots[0];
        assert(l.quantity.wf());
        assert(forall|j: int|
            0 <= j < lots.drop_first().len() ==> (#[trigger] lots.drop_first()[j]).quantity.wf());
        if l.acquired_at + hp <= now {
            if l.quantity.spec_mul_nat(close) is Some {
                let proceeds = l.quantity.spec_mul_nat(close)->0;
                if made.spec_add(proceeds) is Some {
                    let made2 = made.spec_add(proceeds)->0;
                    assert(cash_spent * made2.den <= limit * made2.den + made2.num) by (
                    nonlinear_arith)
                        requires
                            made2.num == made.num * proceeds.den + proceeds.num * made.den,
                            made2.den == made.den * proceeds.den,
                            cash_spent * made.den <= limit * made.den + made.num,
                            made.den >= 1,
                            proceeds.den >= 1,
                            proceeds.num >= 0,
                    ;
                    made.lemma_spec_add_wf(proceeds);
                    if holdings.spec_sub(l.quantity) is Some {
                        lemma_sell_lots_limit(
                            lots.drop_first(),
                            close,
                            now,
                            hp,
                            kept,
                            holdings.spec_sub(l.quantity)->0,
                            made2,
                            cash_spent,
                            limit,
                        );
                    }
                }
            }
        } else {
            lemma_sell_lots_limit(
                lots.drop_first(),
                close,
                now,
                hp,
                kept.push(l),
                holdings,
                made,
                cash_spent,
                limit,
            );
        }
    }
}

pub proof fn lemma_step_limit(s: StateV, q: Quote, p: Params)
    requires
        s.wf(),
        deployed_within(s, p.cash_limit),
    ensures
        spec_step(s, q, p) matches Ok(s2) ==> deployed_within(s2, p.cash_limit),
{
    let i = find_book(s.books, q.ticker@);
    lemma_find_book(s.books, q.ticker@);
    if 0 <= i && s.books[i].prev_close != 0 {
        if spec_buy_leg(s, i, q, p) is Ok {
            let s1 = spec_buy_leg(s, i, q, p)->Ok_0;
            lemma_buy_leg_wf(s, i, q, p);
            assert(deployed_within(s1, p.cash_limit));
            if spec_sell_leg(s1, i, q, p) is Ok {
                let b1 = s1.books[i];
                assert(b1.wf());
                lemma_sell_lots_limit(
                    b1.lots,
                    q.close,
                    q.timestamp,
                    p.holding_period,
                    Seq::empty(),
                    b1.holdings,
                    s1.cash_made,
                    s1.cash_spent,
                    p.cash_limit,
                );
            }
        }
    }
}

/// The capital constraint holds of every state a run can end in:
/// `cash_spent - cash_made` never exceeds the cash limit, since the check
/// happens before each purchase and sales only reduce the deployed amount.
pub proof fn lemma_simulate_within_limit(stream: Seq<Quote>, p: Params)
    ensures
        spec_simulate(stream, p) matches Ok(s) ==> deployed_within(s, p.cash_limit),
    decreases stream.len(),
{
    if stream.len() == 0 {
        assert(deployed_within(spec_init(), p.cash_limit));
    } else {
        lemma_simulate_wf(stream.drop_last(), p);
        lemma_simulate_within_limit(stream.drop_last(), p);
        if spec_simulate(stream.drop_last(), p) is Ok {
            lemma_step_limit(spec_simulate(stream.drop_last(), p)->Ok_0, stream.last(), p);
        }
    }
}

// ------------------------------------------------------------------
// No lot is sold before it matures
// ------------------------------------------------------------------

/// The lots of `lots` still too young to sell at `now`, in order.
pub open spec fn young_lots(lots: Seq<Lot>, now: u64, hp: u64) -> Seq<Lot>
    decreases lots.len(),
{
    if lots.len() == 0 {
        Seq::empty()
    } else if lots[0].acquired_at + hp <= now {
        young_lots(lots.drop_first(), now, hp)
    } else {
        seq![lots[0]] + young_lots(lots.drop_first(), now, hp)
    }
}

/// The sell walk keeps exactly the young lots, in order, after `kept`.
pub proof fn lemma_sell_lots_exact(
    lots: Seq<Lot>,
    close: u64,
    now: u64,
    hp: u64,
    kept: Seq<Lot>,
    holdings: Rat,
    made: Rat,
)
    ensures
        spec_sell_lots(lots, close, now, hp, kept, holdings, made) matches Ok(r) ==> r.0 == kept
            + young_lots(lots, now, hp),
    decreases lots.len(),
{
    if lots.len() == 0 {
        assert(kept + young_lots(lots, now, hp) =~= kept);
    } else {
        let l = lots[0];
        if l.acquired_at + hp <= now {
            if l.quantity.spec_mul_nat(close) is Some {
                let proceeds = l.quantity.spec_mul_nat(close)->0;
                if made.spec_add(proceeds) is Some && holdings.spec_sub(l.quantity) is Some {
                    lemma_sell_lots_exact(
                        lots.drop_first(),
                        close,
                        now,
                        hp,
                        kept,
                        holdings.spec_sub(l.quantity)->0,
                        made.spec_add(proceeds)->0,
                    );
                }
            }
        } else {
            lemma_sell_lots_exact(
                lots.drop_first(),
                close,
                now,
                hp,
                kept.push(l),
                holdings,
                made,
            );
            assert(kept.push(l) + young_lots(lots.drop_first(), now, hp) =~= kept + (seq![l]
                + young_lots(lots.drop_first(), now, hp)));
        }
    }
}

/// Every still-young lot survives the sell walk.
pub proof fn lemma_young_contains(lots: Seq<Lot>, now: u64, hp: u64)
    ensures
        forall|m: int|
            0 <= m < lots.len() && (#[trigger] lots[m]).acquired_at + hp > now ==> young_lots(
                lots,
                now,
                hp,
            ).contains(lots[m]),
    decreases lots.len(),
{
    if lots.len() > 0 {
        lemma_young_contains(lots.drop_first(), now, hp);
        assert forall|m: int|
            0 <= m < lots.len() && (#[trigger] lots[m]).acquired_at + hp > now implies young_lots(
            lots,
            now,
            hp,
        ).contains(lots[m]) by {
            let y = young_lots(lots, now, hp);
            let yr = young_lots(lots.drop_first(), now, hp);
            if m == 0 {
                assert(y[0] == lots[0]);
            } else {
                assert(lots.drop_first()[m - 1] == lots[m]);
                assert(yr.contains(lots[m]));
                let w = choose|w: int| 0 <= w < yr.len() && yr[w] == lots[m];
                if lots[0].acquired_at + hp <= now {
                    assert(y[w] == lots[m]);
                } else {
                    assert(y[w + 1] == lots[m]);
                }
            }
        }
    }
}

/// No lot is ever sold before its age reaches the holding period: a lot
/// present before a step either survives the step, or was mature at the
/// step's timestamp, or was replaced by a repurchase keyed to the very
/// same timestamp (the same-day overwrite, which is no sale).
pub proof fn lemma_step_no_early_sale(s: StateV, q: Quote, p: Params)
    ensures
        spec_step(s, q, p) matches Ok(s2) ==> forall|i: int, m: int|
            0 <= i < s.books.len() && 0 <= m < s.books[i].lots.len() ==> (#[trigger] s2.books[i].lots.contains(
                s.books[i].lots[m],
            )) || s.books[i].lots[m].acquired_at + p.holding_period <= q.timestamp
                || s.books[i].lots[m].acquired_at == q.timestamp,
{
    let idx = find_book(s.books, q.ticker@);
    lemma_find_book(s.books, q.ticker@);
    if spec_step(s, q, p) is Ok {
        let s2 = spec_step(s, q, p)->Ok_0;
        if idx < 0 {
            assert forall|i: int, m: int|
                0 <= i < s.books.len() && 0 <= m < s.books[i].lots.len() implies (
            #[trigger] s2.books[i].lots.contains(s.books[i].lots[m])) || s.books[i].lots[m].acquired_at
                + p.holding_period <= q.timestamp || s.books[i].lots[m].acquired_at
                == q.timestamp by {
                assert(s2.books[i].lots[m] == s.books[i].lots[m]);
            }
        } else if s.books[idx].prev_close != 0 {
            let s1 = spec_buy_leg(s, idx, q, p)->Ok_0;
            let s2m = spec_sell_leg(s1, idx, q, p)->Ok_0;
            let b = s.books[idx];
            let lots1 = s1.books[idx].lots;
            let j0 = crate::sim::find_lot(b.lots, q.timestamp);
            crate::sim::lemma_find_lot(b.lots, q.timestamp);
            let hp = p.holding_period;
            assert forall|i: int, m: int|
                0 <= i < s.books.len() && 0 <= m < s.books[i].lots.len() implies (
            #[trigger] s2.books[i].lots.contains(s.books[i].lots[m])) || s.books[i].lots[m].acquired_at
                + hp <= q.timestamp || s.books[i].lots[m].acquired_at == q.timestamp by {
                let l = s.books[i].lots[m];
                if i != idx {
                    assert(s2.books[i] == s.books[i]);
                    assert(s2.books[i].lots[m] == l);
                } else {
                    let bought = buy_leg_fired(s, idx, q, p);
                    if bought && j0 == m {
                        assert(l.acquired_at == q.timestamp);
                    } else {
                        assert(lots1[m] == l);
                        if crate::sim::spec_sell_signal(
                            s1.books[idx].prev_close,
                            q.close,
                            p.sell_rise_pct,
                        ) == Some(true) {
                            lemma_sell_lots_exact(
                                lots1,
                                q.close,
                                q.timestamp,
                                hp,
                                Seq::empty(),
                                s1.books[idx].holdings,
                                s1.cash_made,
                            );
                            lemma_young_contains(lots1, q.timestamp, hp);
                            if l.acquired_at + hp > q.timestamp {
                                let y = young_lots(lots1, q.timestamp, hp);
                                assert(y.contains(l));
                                assert(s2m.books[idx].lots =~= y) by {
                                    assert(Seq::<Lot>::empty() + y =~= y);
                                }
                                let w = choose|w: int| 0 <= w < y.len() && y[w] == l;
                                assert(s2.books[idx].lots[w] == l);
                            }
                        } else {
                            assert(s2.books[idx].lots[m] == l);
                        }
                    }
                }
            }
        }
    }
}

// ------------------------------------------------------------------
// Holdings always equal the sum of the open lots
// ------------------------------------------------------------------

/// Denominator of the exact sum of the lots' quantities.
pub open spec fn lots_den(lots: Seq<Lot>) -> int
    decreases lots.len(),
{
    if lots.len() == 0 {
        1
    } else {
        lots_den(lots.drop_last()) * lots.last().quantity.den
    }
}

/// Numerator of the exact sum of the lots' quantities, over `lots_den`.
pub open spec fn lots_num(lots: Seq<Lot>) -> int
    decreases lots.len(),
{
    if lots.len() == 0 {
        0
    } else {
        lots_num(lots.drop_last()) * lots.last().quantity.den + lots.last().quantity.num
            * lots_den(lots.drop_last())
    }
}

/// The book's holdings equal the sum of its open lots, as rationals.
pub open spec fn book_balanced(b: BookV) -> bool {
    b.holdings.num * lots_den(b.lots) == lots_num(b.lots) * b.holdings.den
}

/// Every book of the state is balanced.
pub open spec fn balanced(s: StateV) -> bool {
    forall|i: int| 0 <= i < s.books.len() ==> book_balanced(#[trigger] s.books[i])
}

/// Summing a concatenation multiplies the denominators and cross-adds the
/// numerators.
pub proof fn lemma_concat_sum(a: Seq<Lot>, b: Seq<Lot>)
    ensures
        lots_den(a + b) == lots_den(a) * lots_den(b),
        lots_num(a + b) == lots_num(a) * lots_den(b) + lots_num(b) * lots_den(a),
    decreases b.len(),
{
    if b.len() == 0 {
        assert(a + b =~= a);
    } else {
        lemma_concat_sum(a, b.drop_last());
        assert((a + b).drop_last() =~= a + b.drop_last());
        assert((a + b).last() == b.last());
        let da = lots_den(a);
        let na = lots_num(a);
        let db = lots_den(b.drop_last());
        let nb = lots_num(b.drop_last());
        let ld = b.last().quantity.den as int;
        let ln = b.last().quantity.num as int;
        assert(lots_den(a + b) == da * (db * ld)) by (nonlinear_arith)
            requires
                lots_den(a + b) == (da * db) * ld,
        ;
        assert(lots_num(a + b) == (na * db + nb * da) * ld + ln * (da * db));
        assert((na * db + nb * da) * ld == na * db * ld + nb * da * ld) by (nonlinear_arith);
        assert(ln * (da * db) == ln * db * da) by (nonlinear_arith);
        assert(na * (db * ld) == na * db * ld) by (nonlinear_arith);
        assert((nb * ld + ln * db) * da == nb * ld * da + ln * db * da) by (nonlinear_arith);
        assert(nb * da * ld == nb * ld * da) by (nonlinear_arith);
        assert((na * db + nb * da) * ld + ln * (da * db) == na * (db * ld) + (nb * ld + ln * db)
            * da);
    }
}

/// Every lot of every book was acquired at the timestamp of some already
/// processed quote of that book's ticker.
pub open spec fn books_from(s: StateV, prefix: Seq<Quote>) -> bool {
    forall|i: int, m: int|
        0 <= i < s.books.len() && 0 <= m < s.books[i].lots.len() ==> exists|k: int|
            0 <= k < prefix.len() && prefix[k].ticker@ == s.books[i].ticker && (#[trigger] prefix[k]).timestamp
                == (#[trigger] s.books[i].lots[m]).acquired_at
}

/// No two quotes of one ticker share a timestamp.
pub open spec fn per_ticker_distinct(stream: Seq<Quote>) -> bool {
    forall|i: int, j: int|
        0 <= i < j < stream.len() && (#[trigger] stream[i]).ticker@ == (#[trigger] stream[j]).ticker@
            ==> stream[i].timestamp != stream[j].timestamp
}

/// The sell walk keeps the accumulated holdings equal to the sum of the
/// kept and the not-yet-visited lots.
pub proof fn lemma_sell_lots_balanced(
    lots: Seq<Lot>,
    close: u64,
    now: u64,
    hp: u64,
    kept: Seq<Lot>,
    holdings: Rat,
    made: Rat,
)
    requires
        holdings.wf(),
        forall|j: int| 0 <= j < lots.len() ==> (#[trigger] lots[j]).quantity.wf(),
        holdings.num * (lots_den(kept) * lots_den(lots)) == (lots_num(kept) * lots_den(lots)
            + lots_num(lots) * lots_den(kept)) * holdings.den,
    ensures
        spec_sell_lots(lots, close, now, hp, kept, holdings, made) matches Ok(r) ==> r.1.num
            * lots_den(r.0) == lots_num(r.0) * r.1.den,
    decreases lots.len(),
{
    if lots.len() == 0 {
        if spec_sell_lots(lots, close, now, hp, kept, holdings, made) is Ok {
            let r = spec_sell_lots(lots, close, now, hp, kept, holdings, made)->Ok_0;
            assert(holdings.num * (lots_den(kept) * 1) == (lots_num(kept) * 1 + 0 * lots_den(kept))
                * holdings.den);
        }
    } else {
        let l = lots[0];
        let rest = lots.drop_first();
        assert(lots =~= seq![l] + rest);
        lemma_concat_sum(seq![l], rest);
        assert(seq![l].drop_last() =~= Seq::<Lot>::empty());
        let ld = l.quantity.den as int;
        let ln = l.quantity.num as int;
        assert(lots_den(Seq::<Lot>::empty()) == 1);
        assert(lots_num(Seq::<Lot>::empty()) == 0);
        assert(lots_den(seq![l]) == 1 * ld);
        assert(lots_num(seq![l]) == 0 * ld + ln * 1);
        let rd = lots_den(rest);
        let rn = lots_num(rest);
        let kd = lots_den(kept);
        let kn = lots_num(kept);
        let hn = holdings.num as int;
        let hd = holdings.den as int;
        assert(lots_den(lots) == ld * rd) by (nonlinear_arith)
            requires
                lots_den(lots) == (1 * ld) * rd,
        ;
        assert(lots_num(lots) == ln * rd + rn * ld) by (nonlinear_arith)
            requires
                lots_num(lots) == (0 * ld + ln * 1) * rd + rn * (1 * ld),
        ;
        if l.acquired_at + hp <= now {
            if l.quantity.spec_mul_nat(close) is Some {
                let proceeds = l.quantity.spec_mul_nat(close)->0;
                if made.spec_add(proceeds) is Some && holdings.spec_sub(l.quantity) is Some {
                    let made2 = made.spec_add(proceeds)->0;
                    let h2 = holdings.spec_sub(l.quantity)->0;
                    assert(h2.num == hn * ld - ln * hd && h2.den == hd * ld);
                    assert(hn * (kd * (ld * rd)) == hn * ld * kd * rd) by (nonlinear_arith);
                    assert((kn * (ld * rd) + (ln * rd + rn * ld) * kd) * hd == (kn * (ld * rd))
                        * hd + ((ln * rd + rn * ld) * kd) * hd) by (nonlinear_arith);
                    assert((kn * (ld * rd)) * hd == kn * ld * rd * hd) by (nonlinear_arith);
                    assert(((ln * rd + rn * ld) * kd) * hd == (ln * rd) * (kd * hd) + (rn * ld) * (
                    kd * hd)) by (nonlinear_arith);
                    assert((ln * rd) * (kd * hd) == ln * hd * kd * rd) by (nonlinear_arith);
                    assert((rn * ld) * (kd * hd) == rn * ld * kd * hd) by (nonlinear_arith);
                    assert(hn * ld * kd * rd == kn * ld * rd * hd + ln * hd * kd * rd + rn * ld
                        * kd * hd);
                    assert((hn * ld - ln * hd) * (kd * rd) == hn * ld * kd * rd - ln * hd * kd
                        * rd) by (nonlinear_arith);
                    assert((kn * rd + rn * kd) * (hd * ld) == (kn * rd) * (hd * ld) + (rn * kd) * (
                    hd * ld)) by (nonlinear_arith);
                    assert((kn * rd) * (hd * ld) == kn * ld * rd * hd) by (nonlinear_arith);
                    assert((rn * kd) * (hd * ld) == rn * ld * kd * hd) by (nonlinear_arith);
                    assert(h2.num * (kd * rd) == (kn * rd + rn * kd) * h2.den);
                    assert(forall|j: int|
                        0 <= j < rest.len() ==> (#[trigger] rest[j]).quantity.wf());
                    holdings.lemma_spec_sub_wf(l.quantity);
                    lemma_sell_lots_balanced(rest, close, now, hp, kept, h2, made2);
                }
            }
        } else {
            assert(kept.push(l) =~= kept + seq![l]);
            lemma_concat_sum(kept, seq![l]);
            assert(lots_den(kept.push(l)) == kd * ld) by (nonlinear_arith)
                requires
                    lots_den(kept.push(l)) == kd * (1 * ld),
            ;
            assert(lots_num(kept.push(l)) == kn * ld + ln * kd) by (nonlinear_arith)
                requires
                    lots_num(kept.push(l)) == kn * (1 * ld) + (0 * ld + ln * 1) * kd,
            ;
            assert(hn * ((kd * ld) * rd) == hn * (kd * (ld * rd))) by (nonlinear_arith);
            assert((kn * (ld * rd) + (ln * rd + rn * ld) * kd) * hd == (kn * (ld * rd)) * hd + ((ln
                * rd + rn * ld) * kd) * hd) by (nonlinear_arith);
            assert((kn * (ld * rd)) * hd == (kn * ld) * rd * hd) by (nonlinear_arith);
            assert(((ln * rd + rn * ld) * kd) * hd == ((ln * rd) * kd) * hd + ((rn * ld) * kd)
                * hd) by (nonlinear_arith);
            assert(((ln * rd) * kd) * hd == (ln * kd) * rd * hd) by (nonlinear_arith);
            assert(((rn * ld) * kd) * hd == rn * (kd * ld) * hd) by (nonlinear_arith);
            assert(((ln * rd + rn * ld) * kd) * hd == (ln * kd) * rd * hd + rn * (kd * ld) * hd);
            assert(((kn * ld + ln * kd) * rd + rn * (kd * ld)) * hd == (kn * ld) * rd * hd + (ln
                * kd) * rd * hd + rn * (kd * ld) * hd) by (nonlinear_arith);
            assert(hn * ((kd * ld) * rd) == ((kn * ld + ln * kd) * rd + rn * (kd * ld)) * hd);
            assert(forall|j: int| 0 <= j < rest.len() ==> (#[trigger] rest[j]).quantity.wf());
            lemma_sell_lots_balanced(rest, close, now, hp, kept.push(l), holdings, made);
        }
    }
}

/// One step preserves the balance and the provenance of every lot, when
/// the step's timestamp is new for its ticker.
pub proof fn lemma_step_balanced(s: StateV, q: Quote, p: Params, prefix: Seq<Quote>)
    requires
        s.wf(),
        balanced(s),
        books_from(s, prefix),
        forall|k: int|
            0 <= k < prefix.len() && (#[trigger] prefix[k]).ticker@ == q.ticker@ ==> prefix[k].timestamp
                != q.timestamp,
    ensures
        spec_step(s, q, p) matches Ok(s2) ==> s2.wf() && balanced(s2) && books_from(
            s2,
            prefix.push(q),
        ),
{
    let idx = find_book(s.books, q.ticker@);
    lemma_find_book(s.books, q.ticker@);
    lemma_step_wf(s, q, p);
    if spec_step(s, q, p) is Ok {
        let s2 = spec_step(s, q, p)->Ok_0;
        assert forall|i: int, m: int|
            0 <= i < s2.books.len() && 0 <= m < s2.books[i].lots.len() implies exists|k: int|
            0 <= k < prefix.push(q).len() && prefix.push(q)[k].ticker@ == s2.books[i].ticker && (
            #[trigger] prefix.push(q)[k]).timestamp == (#[trigger] s2.books[i].lots[m]).acquired_at by {
            lemma_step_provenance_witness(s, q, p, prefix, i, m);
        }
        assert forall|i: int| 0 <= i < s2.books.len() implies book_balanced(
            #[trigger] s2.books[i],
        ) by {
            lemma_step_balance_at(s, q, p, prefix, i);
        }
    }
}

/// Provenance of one lot of the post-step state.
proof fn lemma_step_provenance_witness(s: StateV, q: Quote, p: Params, prefix: Seq<Quote>, i: int, m: int)
    requires
        s.wf(),
        books_from(s, prefix),
        spec_step(s, q, p) is Ok,
        0 <= i < spec_step(s, q, p)->Ok_0.books.len(),
        0 <= m < spec_step(s, q, p)->Ok_0.books[i].lots.len(),
    ensures
        exists|k: int|
            0 <= k < prefix.push(q).len() && prefix.push(q)[k].ticker@ == spec_step(
                s,
                q,
                p,
            )->Ok_0.books[i].ticker && (#[trigger] prefix.push(q)[k]).timestamp == spec_step(
                s,
                q,
                p,
            )->Ok_0.books[i].lots[m].acquired_at,
{
    let s2 = spec_step(s, q, p)->Ok_0;
    let idx = find_book(s.books, q.ticker@);
    lemma_find_book(s.books, q.ticker@);
    let ext = prefix.push(q);
    assert(forall|k: int| 0 <= k < prefix.len() ==> ext[k] == prefix[k]);
    assert(ext[prefix.len() as int] == q);
    if idx < 0 {
        if i < s.books.len() {
            assert(s2.books[i] == s.books[i]);
            let k = choose|k: int|
                0 <= k < prefix.len() && prefix[k].ticker@ == s.books[i].ticker && (
                #[trigger] prefix[k]).timestamp == s.books[i].lots[m].acquired_at;
            assert(ext[k].ticker@ == s2.books[i].ticker && ext[k].timestamp
                == s2.books[i].lots[m].acquired_at);
        }
    } else {
        if i != idx {
            assert(s2.books[i] == s.books[i]);
            let k = choose|k: int|
                0 <= k < prefix.len() && prefix[k].ticker@ == s.books[i].ticker && (
                #[trigger] prefix[k]).timestamp == s.books[i].lots[m].acquired_at;
            assert(ext[k].ticker@ == s2.books[i].ticker && ext[k].timestamp
                == s2.books[i].lots[m].acquired_at);
        } else {
            let b = s.books[idx];
            assert(b.ticker == q.ticker@);
            assert(s2.books[idx].ticker == b.ticker);
            let l = s2.books[idx].lots[m];
            lemma_step_lot_origin(s, q, p, m);
            if l.acquired_at == q.timestamp {
                assert(ext[prefix.len() as int].ticker@ == s2.books[i].ticker && ext[prefix.len() as int].timestamp
                    == l.acquired_at);
            } else {
                let m0 = choose|m0: int| 0 <= m0 < b.lots.len() && b.lots[m0] == l;
                let k = choose|k: int|
                    0 <= k < prefix.len() && prefix[k].ticker@ == b.ticker && (
                    #[trigger] prefix[k]).timestamp == b.lots[m0].acquired_at;
                assert(ext[k].ticker@ == s2.books[i].ticker && ext[k].timestamp
                    == l.acquired_at);
            }
        }
    }
}

/// Any lot of the processed ticker's post-step book either carries the
/// step's timestamp or already stood in the pre-step book.
proof fn lemma_step_lot_origin(s: StateV, q: Quote, p: Params, m: int)
    requires
        s.wf(),
        spec_step(s, q, p) is Ok,
        0 <= find_book(s.books, q.ticker@) < s.books.len(),
        0 <= m < spec_step(s, q, p)->Ok_0.books[find_book(s.books, q.ticker@)].lots.len(),
    ensures
        ({
            let idx = find_book(s.books, q.ticker@);
            let l = spec_step(s, q, p)->Ok_0.books[idx].lots[m];
            l.acquired_at == q.timestamp || s.books[idx].lots.contains(l)
        }),
{
    let idx = find_book(s.books, q.ticker@);
    let s2 = spec_step(s, q, p)->Ok_0;
    let l = s2.books[idx].lots[m];
    let b = s.books[idx];
    let s1 = spec_buy_leg(s, idx, q, p)->Ok_0;
    let lots1 = s1.books[idx].lots;
    let j0 = crate::sim::find_lot(b.lots, q.timestamp);
    crate::sim::lemma_find_lot(b.lots, q.timestamp);
    // every lot of the post-buy book is the new lot or an old lot
    assert forall|w: int| 0 <= w < lots1.len() implies lots1[w].acquired_at == q.timestamp
        || b.lots.contains(#[trigger] lots1[w]) by {
        if buy_leg_fired(s, idx, q, p) {
            if j0 >= 0 {
                if w != j0 {
                    assert(lots1[w] == b.lots[w]);
                }
            } else {
                if w < b.lots.len() {
                    assert(lots1[w] == b.lots[w]);
                }
            }
        } else {
            assert(lots1[w] == b.lots[w]);
        }
    }
    let s2m = spec_sell_leg(s1, idx, q, p)->Ok_0;
    if crate::sim::spec_sell_signal(s1.books[idx].prev_close, q.close, p.sell_rise_pct) == Some(
        true,
    ) {
        lemma_sell_lots_exact(
            lots1,
            q.close,
            q.timestamp,
            p.holding_period,
            Seq::empty(),
            s1.books[idx].holdings,
            s1.cash_made,
        );
        let y = young_lots(lots1, q.timestamp, p.holding_period);
        assert(Seq::<Lot>::empty() + y =~= y);
        lemma_young_sub(lots1, q.timestamp, p.holding_period);
        assert(y.contains(l));
        let w = choose|w: int| 0 <= w < lots1.len() && lots1[w] == l;
    } else {
        assert(s2m.books[idx].lots == lots1);
    }
}

/// Every young lot comes from the walked sequence.
pub proof fn lemma_young_sub(lots: Seq<Lot>, now: u64, hp: u64)
    ensures
        forall|w: int|
            0 <= w < young_lots(lots, now, hp).len() ==> lots.contains(
                #[trigger] young_lots(lots, now, hp)[w],
            ),
    decreases lots.len(),
{
    if lots.len() > 0 {
        lemma_young_sub(lots.drop_first(), now, hp);
        let y = young_lots(lots, now, hp);
        let yr = young_lots(lots.drop_first(), now, hp);
        assert forall|w: int| 0 <= w < y.len() implies lots.contains(#[trigger] y[w]) by {
            if lots[0].acquired_at + hp <= now {
                assert(y[w] == yr[w]);
                let v = choose|v: int| 0 <= v < lots.drop_first().len() && lots.drop_first()[v] == yr[w];
                assert(lots[v + 1] == y[w]);
            } else {
                if w == 0 {
                    assert(y[0] == lots[0]);
                } else {
                    assert(y[w] == yr[w - 1]);
                    let v = choose|v: int|
                        0 <= v < lots.drop_first().len() && lots.drop_first()[v] == yr[w - 1];
                    assert(lots[v + 1] == y[w]);
                }
            }
        }
    }
}

/// Balance of one book of the post-step state.
proof fn lemma_step_balance_at(s: StateV, q: Quote, p: Params, prefix: Seq<Quote>, i: int)
    requires
        s.wf(),
        balanced(s),
        books_from(s, prefix),
        forall|k: int|
            0 <= k < prefix.len() && (#[trigger] prefix[k]).ticker@ == q.ticker@ ==> prefix[k].timestamp
                != q.timestamp,
        spec_step(s, q, p) is Ok,
        0 <= i < spec_step(s, q, p)->Ok_0.books.len(),
    ensures
        book_balanced(spec_step(s, q, p)->Ok_0.books[i]),
{
    let s2 = spec_step(s, q, p)->Ok_0;
    let idx = find_book(s.books, q.ticker@);
    lemma_find_book(s.books, q.ticker@);
    if idx < 0 {
        if i < s.books.len() {
            assert(s2.books[i] == s.books[i]);
        } else {
            assert(s2.books[i].lots =~= Seq::<Lot>::empty());
        }
    } else if i != idx {
        assert(s2.books[i] == s.books[i]);
    } else {
        let b = s.books[idx];
        assert(b.ticker == q.ticker@);
        assert(book_balanced(b));
        let s1 = spec_buy_leg(s, idx, q, p)->Ok_0;
        let b1 = s1.books[idx];
        // the buy leg preserves balance
        assert(book_balanced(b1)) by {
            if buy_leg_fired(s, idx, q, p) {
                let j0 = crate::sim::find_lot(b.lots, q.timestamp);
                crate::sim::lemma_find_lot(b.lots, q.timestamp);
                if j0 >= 0 {
                    // a lot keyed to this very timestamp would contradict
                    // the freshness of the step's timestamp
                    let k = choose|k: int|
                        0 <= k < prefix.len() && prefix[k].ticker@ == b.ticker && (
                        #[trigger] prefix[k]).timestamp == b.lots[j0].acquired_at;
                    assert(false);
                } else {
                    let qty = Rat { num: p.buy_increment_cash as u128, den: q.close as u128 };
                    let lot = Lot { acquired_at: q.timestamp, quantity: qty };
                    assert(b1.lots == b.lots.push(lot));
                    assert(b.lots.push(lot).drop_last() =~= b.lots);
                    let hn = b.holdings.num as int;
                    let hd = b.holdings.den as int;
                    let dn = lots_num(b.lots);
                    let dd = lots_den(b.lots);
                    let qn = qty.num as int;
                    let qd = qty.den as int;
                    assert(b1.holdings.num == hn * qd + qn * hd && b1.holdings.den == hd * qd);
                    assert((hn * qd + qn * hd) * (dd * qd) == (hn * qd) * (dd * qd) + (qn * hd)
                        * (dd * qd)) by (nonlinear_arith);
                    assert((hn * qd) * (dd * qd) == (hn * dd) * (qd * qd)) by (nonlinear_arith);
                    assert((dn * qd + qn * dd) * (hd * qd) == (dn * qd) * (hd * qd) + (qn * dd) * (
                    hd * qd)) by (nonlinear_arith);
                    assert((dn * qd) * (hd * qd) == (dn * hd) * (qd * qd)) by (nonlinear_arith);
                    assert((qn * hd) * (dd * qd) == (qn * dd) * (hd * qd)) by (nonlinear_arith);
                    assert((hn * qd + qn * hd) * (dd * qd) == (dn * qd + qn * dd) * (hd * qd));
                }
            } else {
                assert(b1 == b);
            }
        }
        let s2m = spec_sell_leg(s1, idx, q, p)->Ok_0;
        assert(book_balanced(s2m.books[idx])) by {
            if crate::sim::spec_sell_signal(s1.books[idx].prev_close, q.close, p.sell_rise_pct)
                == Some(true) {
                assert(Seq::<Lot>::empty() + b1.lots =~= b1.lots);
                lemma_buy_leg_wf(s, idx, q, p);
                assert(b1.wf());
                assert(b1.holdings.num * (lots_den(Seq::<Lot>::empty()) * lots_den(b1.lots)) == (
                lots_num(Seq::<Lot>::empty()) * lots_den(b1.lots) + lots_num(b1.lots) * lots_den(
                    Seq::<Lot>::empty(),
                )) * b1.holdings.den) by (nonlinear_arith)
                    requires
                        b1.holdings.num * lots_den(b1.lots) == lots_num(b1.lots)
                            * b1.holdings.den,
                        lots_den(Seq::<Lot>::empty()) == 1,
                        lots_num(Seq::<Lot>::empty()) == 0,
                ;
                lemma_sell_lots_balanced(
                    b1.lots,
                    q.close,
                    q.timestamp,
                    p.holding_period,
                    Seq::empty(),
                    b1.holdings,
                    s1.cash_made,
                );
            } else {
                assert(s2m.books[idx] == b1);
            }
        }
        assert(s2.books[idx].holdings == s2m.books[idx].holdings);
        assert(s2.books[idx].lots == s2m.books[idx].lots);
    }
}

/// Invariant: at every point a run can reach, `holdings == sum of the open
/// lots' quantities` for every ticker, provided no two quotes of one
/// ticker share a timestamp.
pub proof fn lemma_simulate_balanced(stream: Seq<Quote>, p: Params)
    requires
        per_ticker_distinct(stream),
    ensures
        spec_simulate(stream, p) matches Ok(s) ==> balanced(s),
{
    lemma_simulate_balanced_aux(stream, p);
}

proof fn lemma_simulate_balanced_aux(stream: Seq<Quote>, p: Params)
    requires
        per_ticker_distinct(stream),
    ensures
        spec_simulate(stream, p) matches Ok(s) ==> s.wf() && balanced(s) && books_from(s, stream),
    decreases stream.len(),
{
    if stream.len() > 0 {
        let prefix = stream.drop_last();
        assert(per_ticker_distinct(prefix)) by {
            assert(forall|k: int| 0 <= k < prefix.len() ==> prefix[k] == stream[k]);
        }
        lemma_simulate_balanced_aux(prefix, p);
        if spec_simulate(prefix, p) is Ok {
            let s = spec_simulate(prefix, p)->Ok_0;
            let q = stream.last();
            assert(forall|k: int| 0 <= k < prefix.len() ==> prefix[k] == stream[k]);
            assert forall|k: int|
                0 <= k < prefix.len() && (#[trigger] prefix[k]).ticker@
                    == q.ticker@ implies prefix[k].timestamp != q.timestamp by {
                assert(stream[k].ticker@ == stream[stream.len() - 1].ticker@);
            }
            lemma_step_balanced(s, q, p, prefix);
            assert(prefix.push(q) =~= stream);
        }
    }
}

// ------------------------------------------------------------------
// The buy-and-hold identity on an unmoved price
// ------------------------------------------------------------------

/// Buy-and-hold on a single ticker whose price does not move returns
/// exactly the starting cash: nothing is spent outside the purchase and
/// the holdings are worth what they cost.
pub proof fn lemma_buy_and_hold_flat(t: String, c: u64, cash: u64)
    requires
        c >= 1,
    ensures
        spec_buy_and_hold(seq![(t, c)], seq![(t, c)], cash) matches Ok(w) && w.spent == 0
            && w.assets.num == cash * w.assets.den,
{
    let firsts: Seq<(String, u64)> = seq![(t, c)];
    assert(firsts.drop_first() =~= Seq::<(String, u64)>::empty());
    assert((1 as u64) * c == c) by (nonlinear_arith);
    let qty = Rat { num: cash as u128, den: c as u128 };
    let book = BookV { ticker: t@, prev_close: c, holdings: qty, lots: Seq::empty() };
    let acc1 = Seq::<BookV>::empty().push(book);
    assert(spec_baseline_books(firsts.drop_first(), 1, cash, acc1) == Ok::<Seq<BookV>, Error>(
        acc1,
    ));
    assert(spec_baseline_books(firsts, 1, cash, Seq::empty()) == Ok::<Seq<BookV>, Error>(acc1));
    let books = acc1;
    assert(books.drop_first() =~= Seq::<BookV>::empty());
    let acc0 = Rat { num: 0, den: 1 };
    if cash == 0 {
        assert(spec_total_assets(books.drop_first(), firsts, acc0) == Ok::<Rat, Error>(acc0));
        assert(spec_total_assets(books, firsts, acc0) == Ok::<Rat, Error>(acc0));
        assert(spec_net_worth(
            StateV { books, cash_spent: 0, cash_made: acc0 },
            firsts,
        ) == Ok::<NetWorth, Error>(NetWorth { assets: acc0, spent: 0 }));
    } else {
        assert(find_close(firsts, book.ticker) == 0);
        assert(cash * c <= u128::MAX) by (nonlinear_arith)
            requires
                (cash as u128) < 0x1_0000_0000_0000_0000,
                (c as u128) < 0x1_0000_0000_0000_0000,
        ;
        let v = Rat { num: (cash * c) as u128, den: c as u128 };
        assert(qty.spec_mul_nat(c) == Some(v));
        assert(0 * v.den + v.num * 1 == v.num) by (nonlinear_arith);
        assert(1 * v.den == v.den) by (nonlinear_arith);
        assert(acc0.spec_add(v) == Some(v));
        assert(spec_total_assets(books.drop_first(), firsts, v) == Ok::<Rat, Error>(v));
        assert(spec_total_assets(books, firsts, acc0) == Ok::<Rat, Error>(v));
        assert(v.num == cash * v.den);
    }
}

} // verus!
