//! The quote-stream builder: merge per-ticker histories into one stream,
//! sorted ascending by timestamp with a stable insertion sort, so that
//! quotes sharing a timestamp keep their input order and the merge is
//! deterministic.

use vstd::prelude::*;
use vstd::multiset::Multiset;
use vstd::seq_lib::group_to_multiset_ensures;
use crate::sim::{Error, Quote};

verus! {

/// Ascending by timestamp.
pub open spec fn sorted_by_ts(s: Seq<Quote>) -> bool {
    forall|i: int, j: int| 0 <= i < j < s.len() ==> s[i].timestamp <= s[j].timestamp
}

/// Insert `q` after every quote whose timestamp is at most `q`'s: the
/// stable insertion position.
pub open spec fn spec_insert_sorted(s: Seq<Quote>, q: Quote) -> Seq<Quote>
    decreases s.len(),
{
    if s.len() == 0 {
        seq![q]
    } else if q.timestamp < s.last().timestamp {
        spec_insert_sorted(s.drop_last(), q).push(s.last())
    } else {
        s.push(q)
    }
}

/// Stable insertion sort by timestamp, inserting front to back.
pub open spec fn spec_sort(s: Seq<Quote>) -> Seq<Quote>
    decreases s.len(),
{
    if s.len() == 0 {
        Seq::empty()
    } else {
        spec_insert_sorted(spec_sort(s.drop_last()), s.last())
    }
}

/// The concatenation of the per-ticker series, in order.
pub open spec fn spec_concat(ss: Seq<Vec<Quote>>) -> Seq<Quote>
    decreases ss.len(),
{
    if ss.len() == 0 {
        Seq::empty()
    } else {
        spec_concat(ss.drop_last()) + ss.last()@
    }
}

pub proof fn lemma_insert_sorted(s: Seq<Quote>, q: Quote)
    ensures
        spec_insert_sorted(s, q).len() == s.len() + 1,
        spec_insert_sorted(s, q).to_multiset() =~= s.to_multiset().insert(q),
        sorted_by_ts(s) ==> sorted_by_ts(spec_insert_sorted(s, q)),
    decreases s.len(),
{
    broadcast use group_to_multiset_ensures;

    let r = spec_insert_sorted(s, q);
    if s.len() == 0 {
        assert(r =~= Seq::empty().push(q));
        assert(Seq::<Quote>::empty().to_multiset() =~= Multiset::empty());
    } else if q.timestamp < s.last().timestamp {
        lemma_insert_sorted(s.drop_last(), q);
        let u = spec_insert_sorted(s.drop_last(), q);
        assert(s =~= s.drop_last().push(s.last()));
        assert(s.to_multiset() =~= s.drop_last().to_multiset().insert(s.last()));
        assert(r.to_multiset() =~= u.to_multiset().insert(s.last()));
        assert(r.to_multiset() =~= s.to_multiset().insert(q));
        if sorted_by_ts(s) {
            assert(sorted_by_ts(s.drop_last()));
            assert forall|i: int| 0 <= i < u.len() implies u[i].timestamp
                <= s.last().timestamp by {
                assert(u.contains(u[i]));
                assert(u.to_multiset().count(u[i]) > 0);
                if s.drop_last().to_multiset().count(u[i]) > 0 {
                    assert(s.drop_last().contains(u[i]));
                    let j = choose|j: int|
                        0 <= j < s.drop_last().len() && s.drop_last()[j] == u[i];
                    assert(s[j].timestamp <= s.last().timestamp);
                } else {
                    assert(u[i] == q);
                }
            }
            assert(sorted_by_ts(r));
        }
    } else {
        assert(r =~= s.push(q));
        if sorted_by_ts(s) {
            assert forall|i: int| 0 <= i < s.len() implies s[i].timestamp <= q.timestamp by {
                assert(s[i].timestamp <= s.last().timestamp);
            }
            assert(sorted_by_ts(r));
        }
    }
}

pub proof fn lemma_sort(s: Seq<Quote>)
    ensures
        spec_sort(s).len() == s.len(),
        spec_sort(s).to_multiset() =~= s.to_multiset(),
        sorted_by_ts(spec_sort(s)),
    decreases s.len(),
{
    broadcast use group_to_multiset_ensures;

    if s.len() > 0 {
        lemma_sort(s.drop_last());
        lemma_insert_sorted(spec_sort(s.drop_last()), s.last());
        assert(s =~= s.drop_last().push(s.last()));
        assert(s.to_multiset() =~= s.drop_last().to_multiset().insert(s.last()));
    }
}

/// Insert one quote into an already-built prefix, at the stable position.
fn insert_sorted(out: &mut Vec<Quote>, q: Quote)
    ensures
        final (out)@ == spec_insert_sorted(old(out)@, q),
{
    let ghost orig = out@;
    let mut j = out.len();
    proof {
        assert(orig.skip(j as int) =~= Seq::empty());
        assert(orig.take(j as int) =~= orig);
    }
    while j > 0 && q.timestamp < out[j - 1].timestamp
        invariant
            j <= out.len(),
            out@ == orig,
            forall|m: int| j <= m < orig.len() ==> q.timestamp < (#[trigger] orig[m]).timestamp,
            spec_insert_sorted(orig, q) == spec_insert_sorted(orig.take(j as int), q) + orig.skip(
                j as int,
            ),
        decreases j,
    {
        proof {
            assert(orig.take(j as int).last() == orig[j as int - 1]);
            assert(orig.take(j as int).drop_last() =~= orig.take(j as int - 1));
            assert(spec_insert_sorted(orig.take(j as int - 1), q).push(orig[j as int - 1])
                + orig.skip(j as int) =~= spec_insert_sorted(orig.take(j as int - 1), q)
                + orig.skip(j as int - 1));
        }
        j -= 1;
    }
    proof {
        if j > 0 {
            assert(orig.take(j as int).last() == orig[j as int - 1]);
        }
        assert(spec_insert_sorted(orig.take(j as int), q) == orig.take(j as int).push(q));
    }
    out.insert(j, q);
    proof {
        assert(out@ =~= orig.take(j as int).push(q) + orig.skip(j as int));
    }
}

/// Build the chronological stream: concatenate the per-ticker series and
/// sort by timestamp, stably. Fails with `DataUnavailable` if any series is
/// empty; the result is exactly the stable sort of the concatenation.
#[verifier::loop_isolation(false)]
pub fn build_stream(series: Vec<Vec<Quote>>) -> (r: Result<Vec<Quote>, Error>)
    ensures
        r matches Ok(v) ==> {
            &&& v@ == spec_sort(spec_concat(series@))
            &&& sorted_by_ts(v@)
            &&& v@.to_multiset() == spec_concat(series@).to_multiset()
            &&& forall|i: int| 0 <= i < series@.len() ==> (#[trigger] series@[i])@.len() > 0
        },
        r matches Err(e) ==> e == Error::DataUnavailable && exists|i: int|
            0 <= i < series@.len() && (#[trigger] series@[i])@.len() == 0,
{
    let ghost orig = series@;
    let mut series = series;
    let mut flat: Vec<Quote> = Vec::new();
    proof {
        assert(spec_concat(orig.take(0)) =~= flat@);
        assert(orig.skip(0) =~= orig);
    }
    let n = series.len();
    let mut k: usize = 0;
    while k < n
        invariant
            k <= n,
            n == orig.len(),
            series@ == orig.skip(k as int),
            flat@ == spec_concat(orig.take(k as int)),
            forall|i: int| 0 <= i < k ==> (#[trigger] orig[i])@.len() > 0,
        decreases n - k,
    {
        let mut inner = series.remove(0);
        proof {
            assert(orig.skip(k as int)[0] == orig[k as int]);
            assert(orig.skip(k as int).drop_first() =~= orig.skip(k as int + 1));
        }
        if inner.len() == 0 {
            return Err(Error::DataUnavailable);
        }
        flat.append(&mut inner);
        proof {
            assert(orig.take(k as int + 1).drop_last() =~= orig.take(k as int));
            assert(orig.take(k as int + 1).last() == orig[k as int]);
        }
        k += 1;
    }
    proof {
        assert(orig.take(n as int) =~= orig);
    }
    let ghost all = spec_concat(orig);
    let mut out: Vec<Quote> = Vec::new();
    proof {
        assert(all.take(0) =~= Seq::empty());
        assert(out@ =~= spec_sort(all.take(0)));
    }
    let m = flat.len();
    let mut t: usize = 0;
    while t < m
        invariant
            t <= m,
            m == all.len(),
            flat@ == all.skip(t as int),
            out@ == spec_sort(all.take(t as int)),
        decreases m - t,
    {
        let q = flat.remove(0);
        proof {
            assert(all.skip(t as int)[0] == all[t as int]);
            assert(all.skip(t as int).drop_first() =~= all.skip(t as int + 1));
        }
        insert_sorted(&mut out, q);
        proof {
            assert(all.take(t as int + 1).drop_last() =~= all.take(t as int));
            assert(all.take(t as int + 1).last() == all[t as int]);
        }
        t += 1;
    }
    proof {
        assert(all.take(m as int) =~= all);
        lemma_sort(all);
    }
    Ok(out)
}

} // verus!
