//! The grid-search orchestrator: run one simulation plus valuation per
//! parameter combination, contain per-cell failures, and reduce to the
//! best net worth. The result is characterized order-independently: the
//! winning value is the maximum over all succeeding cells, so any
//! evaluation order — sequential or parallel — yields the same value.

use vstd::prelude::*;
use crate::rat::Rat;
use crate::sim::{spec_simulate, simulate, Error, Params, Quote};
use crate::worth::{net_worth, spec_net_worth, NetWorth};

verus! {

/// One grid cell: simulate under `p` and value the outcome.
pub open spec fn spec_run_cell(
    stream: Seq<Quote>,
    closes: Seq<(String, u64)>,
    p: Params,
) -> Result<NetWorth, Error> {
    match spec_simulate(stream, p) {
        Err(e) => Err(e),
        Ok(s) => spec_net_worth(s, closes),
    }
}

/// Run one grid cell: exactly what `spec_run_cell` says.
pub fn run_cell(stream: &Vec<Quote>, closes: &Vec<(String, u64)>, p: &Params) -> (r: Result<
    NetWorth,
    Error,
>)
    requires
        p.wf(),
    ensures
        r == spec_run_cell(stream@, closes@, *p),
        r matches Ok(w) ==> w.wf(),
{
    match simulate(stream, p) {
        Err(e) => Err(e),
        Ok(st) => net_worth(&st, closes),
    }
}

/// Walk the cells from index `k` on, keeping the first strictly-best
/// succeeding cell and counting the failing ones; a comparison whose cross
/// products leave `u128` aborts the whole search with `Overflow`.
pub open spec fn spec_grid_from(
    stream: Seq<Quote>,
    closes: Seq<(String, u64)>,
    cells: Seq<Params>,
    k: int,
    best: Option<(usize, NetWorth)>,
    failed: usize,
) -> Result<(Option<(usize, NetWorth)>, usize), Error>
    decreases cells.len() - k,
{
    if k < 0 || k >= cells.len() {
        Ok((best, failed))
    } else {
        match spec_run_cell(stream, closes, cells[k]) {
            Err(_) => spec_grid_from(
                stream,
                closes,
                cells,
                k + 1,
                best,
                if failed < usize::MAX {
                    (failed + 1) as usize
                } else {
                    failed
                },
            ),
            Ok(w) => match best {
                None => spec_grid_from(stream, closes, cells, k + 1, Some((k as usize, w)), failed),
                Some((bi, bw)) => match bw.spec_lt(w) {
                    None => Err(Error::Overflow),
                    Some(true) => spec_grid_from(
                        stream,
                        closes,
                        cells,
                        k + 1,
                        Some((k as usize, w)),
                        failed,
                    ),
                    Some(false) => spec_grid_from(stream, closes, cells, k + 1, best, failed),
                },
            },
        }
    }
}

/// The whole search, from the first cell with nothing found yet.
pub open spec fn spec_grid_search(
    stream: Seq<Quote>,
    closes: Seq<(String, u64)>,
    cells: Seq<Params>,
) -> Result<(Option<(usize, NetWorth)>, usize), Error> {
    spec_grid_from(stream, closes, cells, 0, None, 0)
}

/// Whether every parameter set in `cells` is well-formed.
pub open spec fn cells_wf(cells: Seq<Params>) -> bool {
    forall|i: int| 0 <= i < cells.len() ==> (#[trigger] cells[i]).wf()
}

/// Run the whole grid sequentially: exactly what `spec_grid_search` says.
/// On success the pair holds the first best cell (its index and net worth)
/// — or `None` where every cell failed — and the count of failed cells.
#[verifier::loop_isolation(false)]
pub fn grid_search(stream: &Vec<Quote>, closes: &Vec<(String, u64)>, cells: &Vec<Params>) -> (r:
    Result<(Option<(usize, NetWorth)>, usize), Error>)
    requires
        cells_wf(cells@),
    ensures
        r == spec_grid_search(stream@, closes@, cells@),
{
    let n = cells.len();
    let mut best: Option<(usize, NetWorth)> = None;
    let mut failed: usize = 0;
    let mut k: usize = 0;
    while k < n
        invariant
            k <= n,
            n == cells.len(),
            failed <= k,
            best matches Some(p) ==> p.1.wf(),
            spec_grid_search(stream@, closes@, cells@) == spec_grid_from(
                stream@,
                closes@,
                cells@,
                k as int,
                best,
                failed,
            ),
        decreases n - k,
    {
        match run_cell(stream, closes, &cells[k]) {
            Err(_) => {
                failed += 1;
            },
            Ok(w) => match best {
                None => {
                    best = Some((k, w));
                },
                Some((bi, bw)) => match bw.lt(w) {
                    None => {
                        return Err(Error::Overflow);
                    },
                    Some(true) => {
                        best = Some((k, w));
                    },
                    Some(false) => {},
                },
            },
        }
        k += 1;
    }
    Ok((best, failed))
}

/// How many of the cells from `k` on fail.
pub open spec fn count_failed(
    stream: Seq<Quote>,
    closes: Seq<(String, u64)>,
    cells: Seq<Params>,
    k: int,
) -> int
    decreases cells.len() - k,
{
    if k < 0 || k >= cells.len() {
        0
    } else {
        (if spec_run_cell(stream, closes, cells[k]) is Err {
            1int
        } else {
            0int
        }) + count_failed(stream, closes, cells, k + 1)
    }
}

/// The grid search finds the maximum: on success the winning net worth is
/// at least the value of every succeeding cell, comes from the first cell
/// attaining it, and `None` means every cell failed; the failure count is
/// the number of failing cells. The maximum of a set of values does not
/// depend on the order they are visited in, so a parallel run over the same
/// cells can only report the same value.
pub proof fn lemma_grid_search_max(
    stream: Seq<Quote>,
    closes: Seq<(String, u64)>,
    cells: Seq<Params>,
    k: int,
    best: Option<(usize, NetWorth)>,
    failed: usize,
)
    requires
        cells.len() <= usize::MAX,
        0 <= k <= cells.len(),
        failed <= k,
        forall|j: int|
            0 <= j < cells.len() ==> ((#[trigger] spec_run_cell(stream, closes, cells[j]))
                matches Ok(w) ==> w.wf()),
        spec_grid_from(stream, closes, cells, k, best, failed) is Ok,
        best matches Some(p) ==> p.0 < k && spec_run_cell(stream, closes, cells[p.0 as int])
            == Ok::<NetWorth, Error>(p.1) && (forall|j: int|
            0 <= j < k ==> ((#[trigger] spec_run_cell(stream, closes, cells[j])) matches Ok(w)
                ==> w.le_val(p.1))) && (forall|j: int|
            0 <= j < p.0 ==> ((#[trigger] spec_run_cell(stream, closes, cells[j])) matches Ok(w)
                ==> w.lt_val(p.1))),
        best is None ==> forall|j: int|
            0 <= j < k ==> (#[trigger] spec_run_cell(stream, closes, cells[j])) is Err,
        failed == count_failed(stream, closes, cells, 0) - count_failed(stream, closes, cells, k),
    ensures
        ({
            let out = spec_grid_from(stream, closes, cells, k, best, failed)->Ok_0;
            &&& out.0 matches Some(p) ==> p.0 < cells.len() && spec_run_cell(
                stream,
                closes,
                cells[p.0 as int],
            ) == Ok::<NetWorth, Error>(p.1) && (forall|j: int|
                0 <= j < cells.len() ==> ((#[trigger] spec_run_cell(stream, closes, cells[j]))
                    matches Ok(w) ==> w.le_val(p.1))) && (forall|j: int|
                0 <= j < p.0 ==> ((#[trigger] spec_run_cell(stream, closes, cells[j])) matches Ok(
                w) ==> w.lt_val(p.1)))
            &&& out.0 is None ==> forall|j: int|
                0 <= j < cells.len() ==> (#[trigger] spec_run_cell(stream, closes, cells[j]))
                    is Err
            &&& out.1 == count_failed(stream, closes, cells, 0)
        }),
    decreases cells.len() - k,
{
    if k < cells.len() {
        match spec_run_cell(stream, closes, cells[k]) {
            Err(_) => {
                assert(count_failed(stream, closes, cells, k) == 1 + count_failed(
                    stream,
                    closes,
                    cells,
                    k + 1,
                ));
                lemma_grid_search_max(stream, closes, cells, k + 1, best, (failed + 1) as usize);
            },
            Ok(w) => {
                assert(count_failed(stream, closes, cells, k) == count_failed(
                    stream,
                    closes,
                    cells,
                    k + 1,
                ));
                assert(w.le_val(w)) by (nonlinear_arith);
                match best {
                    None => {
                        lemma_grid_search_max(
                            stream,
                            closes,
                            cells,
                            k + 1,
                            Some((k as usize, w)),
                            failed,
                        );
                    },
                    Some((bi, bw)) => match bw.spec_lt(w) {
                        None => {},
                        Some(true) => {
                            assert forall|j: int|
                                0 <= j < k && (#[trigger] spec_run_cell(
                                    stream,
                                    closes,
                                    cells[j],
                                )) is Ok implies (spec_run_cell(stream, closes, cells[j])->Ok_0).lt_val(
                                w,
                            ) by {
                                let v = spec_run_cell(stream, closes, cells[j])->Ok_0;
                                assert(v.le_val(bw) && bw.lt_val(w) ==> v.lt_val(w)) by (
                                nonlinear_arith)
                                    requires
                                        bw.assets.den >= 1,
                                        v.assets.den >= 1,
                                        w.assets.den >= 1,
                                ;
                            }
                            assert forall|j: int|
                                0 <= j < k + 1 && (#[trigger] spec_run_cell(
                                    stream,
                                    closes,
                                    cells[j],
                                )) is Ok implies (spec_run_cell(stream, closes, cells[j])->Ok_0).le_val(
                                w,
                            ) by {
                                let v = spec_run_cell(stream, closes, cells[j])->Ok_0;
                                assert(v.lt_val(w) ==> v.le_val(w)) by (nonlinear_arith);
                            }
                            lemma_grid_search_max(
                                stream,
                                closes,
                                cells,
                                k + 1,
                                Some((k as usize, w)),
                                failed,
                            );
                        },
                        Some(false) => {
                            assert(!bw.lt_val(w));
                            assert(w.le_val(bw)) by (nonlinear_arith)
                                requires
                                    !bw.lt_val(w),
                                    bw.assets.den >= 1,
                                    w.assets.den >= 1,
                            ;
                            lemma_grid_search_max(stream, closes, cells, k + 1, best, failed);
                        },
                    },
                }
            },
        }
    } else {
        assert(count_failed(stream, closes, cells, k) == 0);
    }
}

/// The failure count over a suffix is between 0 and the suffix length.
pub proof fn lemma_count_failed_bounds(
    stream: Seq<Quote>,
    closes: Seq<(String, u64)>,
    cells: Seq<Params>,
    k: int,
)
    requires
        0 <= k <= cells.len(),
    ensures
        0 <= count_failed(stream, closes, cells, k) <= cells.len() - k,
    decreases cells.len() - k,
{
    if k < cells.len() {
        lemma_count_failed_bounds(stream, closes, cells, k + 1);
    }
}

/// Two values that are each at least every succeeding cell's value, and are
/// each attained by some cell, denote the same number: the reported maximum
/// is unique whatever order the cells were visited in.
pub proof fn lemma_max_value_unique(a: NetWorth, b: NetWorth)
    requires
        a.le_val(b),
        b.le_val(a),
    ensures
        a.eq_val(b),
{
}

/// Enumerate the full cross product of the threshold and increment choices
/// with the fixed limit and holding period: every combination appears
/// exactly once, in lexicographic position.
#[verifier::loop_isolation(false)]
pub fn make_grid(
    buys: &Vec<Rat>,
    sells: &Vec<Rat>,
    incs: &Vec<u64>,
    cash_limit: u64,
    holding_period: u64,
) -> (r: Vec<Params>)
    requires
        buys@.len() * sells@.len() * incs@.len() <= usize::MAX,
        forall|i: int| 0 <= i < buys@.len() ==> (#[trigger] buys@[i]).wf(),
        forall|i: int| 0 <= i < sells@.len() ==> (#[trigger] sells@[i]).wf(),
    ensures
        r@.len() == buys@.len() * sells@.len() * incs@.len(),
        cells_wf(r@),
        forall|b: int, s: int, c: int|
            0 <= b < buys@.len() && 0 <= s < sells@.len() && 0 <= c < incs@.len()
                ==> #[trigger] r@[b * (sells@.len() * incs@.len()) + s * incs@.len() + c]
                == (Params {
                buy_drop_pct: buys@[b],
                sell_rise_pct: sells@[s],
                buy_increment_cash: incs@[c],
                cash_limit,
                holding_period,
            }),
{
    let nb = buys.len();
    let ns = sells.len();
    let nc = incs.len();
    let mut r: Vec<Params> = Vec::new();
    let mut b: usize = 0;
    proof {
        assert(nb * (ns * nc) <= usize::MAX) by (nonlinear_arith)
            requires
                nb * ns * nc <= usize::MAX,
                nb >= 0,
                ns >= 0,
                nc >= 0,
        ;
        assert forall|bi: int, si: int, ci: int|
            0 <= bi < nb && 0 <= si < ns && 0 <= ci < nc && bi * (ns * nc) + si * nc + ci
                < r@.len() implies #[trigger] r@[bi * (ns * nc) + si * nc + ci] == (Params {
            buy_drop_pct: buys@[bi],
            sell_rise_pct: sells@[si],
            buy_increment_cash: incs@[ci],
            cash_limit,
            holding_period,
        }) by {
            assert(bi * (ns * nc) + si * nc + ci >= 0) by (nonlinear_arith)
                requires
                    0 <= bi,
                    0 <= si,
                    0 <= ci,
                    0 <= ns,
                    0 <= nc,
            ;
        }
    }
    while b < nb
        invariant
            b <= nb,
            nb == buys@.len(),
            ns == sells@.len(),
            nc == incs@.len(),
            r@.len() == b * (ns * nc),
            cells_wf(r@),
            forall|bi: int, si: int, ci: int|
                0 <= bi < nb && 0 <= si < ns && 0 <= ci < nc && bi * (ns * nc) + si * nc + ci
                    < r@.len() ==> #[trigger] r@[bi * (ns * nc) + si * nc + ci] == (Params {
                    buy_drop_pct: buys@[bi],
                    sell_rise_pct: sells@[si],
                    buy_increment_cash: incs@[ci],
                    cash_limit,
                    holding_period,
                }),
        decreases nb - b,
    {
        let mut s: usize = 0;
        while s < ns
            invariant
                b < nb,
                s <= ns,
                nb == buys@.len(),
                ns == sells@.len(),
                nc == incs@.len(),
                r@.len() == b * (ns * nc) + s * nc,
                cells_wf(r@),
                forall|bi: int, si: int, c: int|
                    0 <= bi < nb && 0 <= si < ns && 0 <= c < nc && bi * (ns * nc) + si * nc + c
                        < r@.len() ==> #[trigger] r@[bi * (ns * nc) + si * nc + c] == (Params {
                        buy_drop_pct: buys@[bi],
                        sell_rise_pct: sells@[si],
                        buy_increment_cash: incs@[c],
                        cash_limit,
                        holding_period,
                    }),
            decreases ns - s,
        {
            let mut c: usize = 0;
            while c < nc
                invariant
                    b < nb,
                    s < ns,
                    c <= nc,
                    nb == buys@.len(),
                    ns == sells@.len(),
                    nc == incs@.len(),
                    r@.len() == b * (ns * nc) + s * nc + c,
                    cells_wf(r@),
                    forall|bi: int, si: int, ci: int|
                        0 <= bi < nb && 0 <= si < ns && 0 <= ci < nc && bi * (ns * nc) + si * nc
                            + ci < r@.len() ==> #[trigger] r@[bi * (ns * nc) + si * nc + ci]
                            == (Params {
                            buy_drop_pct: buys@[bi],
                            sell_rise_pct: sells@[si],
                            buy_increment_cash: incs@[ci],
                            cash_limit,
                            holding_period,
                        }),
                decreases nc - c,
            {
                proof {
                    assert(b * (ns * nc) + s * nc + c < nb * (ns * nc)) by (nonlinear_arith)
                        requires
                            0 <= b < nb,
                            0 <= s < ns,
                            0 <= c < nc,
                    ;
                    assert(nb * (ns * nc) <= usize::MAX) by (nonlinear_arith)
                        requires
                            nb * ns * nc <= usize::MAX,
                            nb >= 0,
                            ns >= 0,
                            nc >= 0,
                    ;
                }
                r.push(
                    Params {
                        buy_drop_pct: buys[b],
                        sell_rise_pct: sells[s],
                        buy_increment_cash: incs[c],
                        cash_limit,
                        holding_period,
                    },
                );
                c += 1;
                proof {
                    assert forall|bi: int, si: int, ci: int|
                        0 <= bi < nb && 0 <= si < ns && 0 <= ci < nc && bi * (ns * nc) + si * nc
                            + ci < r@.len() implies #[trigger] r@[bi * (ns * nc) + si * nc + ci]
                        == (Params {
                        buy_drop_pct: buys@[bi],
                        sell_rise_pct: sells@[si],
                        buy_increment_cash: incs@[ci],
                        cash_limit,
                        holding_period,
                    }) by {
                        let idx = bi * (ns * nc) + si * nc + ci;
                        if idx + 1 == r@.len() {
                            assert(bi == b && si == s && ci == c - 1) by (nonlinear_arith)
                                requires
                                    0 <= bi < nb,
                                    0 <= si < ns,
                                    0 <= ci < nc,
                                    0 <= b < nb,
                                    0 <= s < ns,
                                    0 < c <= nc,
                                    bi * (ns * nc) + si * nc + ci == b * (ns * nc) + s * nc + (c
                                        - 1),
                            ;
                        } else {
                            assert(idx < r@.len() - 1);
                        }
                    }
                }
            }
            proof {
                assert(b * (ns * nc) + (s + 1) * nc == b * (ns * nc) + s * nc + nc) by (
                nonlinear_arith);
            }
            s += 1;
        }
        proof {
            assert(b * (ns * nc) + ns * nc == (b + 1) * (ns * nc)) by (nonlinear_arith);
        }
        b += 1;
    }
    proof {
        assert(nb * (ns * nc) == nb * ns * nc) by (nonlinear_arith);
        assert forall|bi: int, si: int, ci: int|
            0 <= bi < buys@.len() && 0 <= si < sells@.len() && 0 <= ci < incs@.len() implies
        #[trigger] r@[bi * (sells@.len() * incs@.len()) + si * incs@.len() + ci] == (Params {
            buy_drop_pct: buys@[bi],
            sell_rise_pct: sells@[si],
            buy_increment_cash: incs@[ci],
            cash_limit,
            holding_period,
        }) by {
            assert(bi * (ns * nc) + si * nc + ci < nb * (ns * nc)) by (nonlinear_arith)
                requires
                    0 <= bi < nb,
                    0 <= si < ns,
                    0 <= ci < nc,
            ;
        }
    }
    r
}

} // verus!
