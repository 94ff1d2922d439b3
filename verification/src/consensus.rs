use vstd::prelude::*;
use vstd::pervasive::VecAdditionalExecFns;

use crate::addr::IpAddress;
use crate::config::Method;
use crate::error::Error;
use crate::error::ErrorSource;

verus! {

// ---------------------------------------------------------------------------
// The vote model
//
// From the per-source outcomes, the resolved entries survive in configured
// order as (address, weight) pairs. An address's tally is the sum of the
// weights of its entries; the winner is the address with the greatest tally,
// and among equal tallies the one whose first entry comes earliest.
// ---------------------------------------------------------------------------

/// The resolved entry of one outcome: empty when the source failed.
pub open spec fn unit_of(x: (Method, Result<IpAddress, Error>)) -> Seq<(IpAddress, u64)> {
    match x.1 {
        Ok(a) => seq![(a, x.0.spec_weight())],
        Err(_) => seq![],
    }
}

/// The surviving entries of an outcome list, in configured order.
pub open spec fn resolved_of(list: Seq<(Method, Result<IpAddress, Error>)>) -> Seq<
    (IpAddress, u64),
>
    decreases list.len(),
{
    if list.len() == 0 {
        seq![]
    } else {
        unit_of(list[0]) + resolved_of(list.drop_first())
    }
}

/// The summed weight of the entries for `a`.
pub open spec fn tally(rs: Seq<(IpAddress, u64)>, a: IpAddress) -> int
    decreases rs.len(),
{
    if rs.len() == 0 {
        0
    } else {
        (if rs[0].0 == a {
            rs[0].1 as int
        } else {
            0
        }) + tally(rs.drop_first(), a)
    }
}

/// The summed weight of all entries.
pub open spec fn total_weight(rs: Seq<(IpAddress, u64)>) -> int
    decreases rs.len(),
{
    if rs.len() == 0 {
        0
    } else {
        rs[0].1 + total_weight(rs.drop_first())
    }
}

/// Whether `a` has an entry.
pub open spec fn appears(rs: Seq<(IpAddress, u64)>, a: IpAddress) -> bool {
    exists|i: int| 0 <= i < rs.len() && rs[i].0 == a
}

/// The index of the first entry for `a`.
pub open spec fn first_idx(rs: Seq<(IpAddress, u64)>, a: IpAddress) -> int
    decreases rs.len(),
{
    if rs.len() == 0 {
        0
    } else if rs[0].0 == a {
        0
    } else {
        1 + first_idx(rs.drop_first(), a)
    }
}

/// `w` wins: it has an entry, no address tallies higher, and no address of
/// equal tally has an earlier first entry.
pub open spec fn is_winner(rs: Seq<(IpAddress, u64)>, w: IpAddress) -> bool {
    &&& appears(rs, w)
    &&& forall|i: int| 0 <= i < rs.len() ==> tally(rs, (#[trigger] rs[i]).0) <= tally(rs, w)
    &&& forall|i: int|
        0 <= i < rs.len() && tally(rs, (#[trigger] rs[i]).0) == tally(rs, w) ==> first_idx(rs, w)
            <= first_idx(rs, rs[i].0)
}

// ---------------------------------------------------------------------------
// Facts about the model
// ---------------------------------------------------------------------------

pub proof fn lemma_resolved_push(s: Seq<(Method, Result<IpAddress, Error>)>, x: (
    Method,
    Result<IpAddress, Error>,
))
    ensures
        resolved_of(s.push(x)) == resolved_of(s) + unit_of(x),
    decreases s.len(),
{
    if s.len() == 0 {
        assert(s.push(x).drop_first() =~= Seq::<(Method, Result<IpAddress, Error>)>::empty());
        assert(s.push(x)[0] == x);
        assert(resolved_of(Seq::<(Method, Result<IpAddress, Error>)>::empty())
            == Seq::<(IpAddress, u64)>::empty());
        assert(resolved_of(s.push(x)) =~= resolved_of(s) + unit_of(x));
    } else {
        assert(s.push(x).drop_first() =~= s.drop_first().push(x));
        assert(s.push(x)[0] == s[0]);
        lemma_resolved_push(s.drop_first(), x);
        assert(resolved_of(s.push(x)) =~= resolved_of(s) + unit_of(x));
    }
}

proof fn lemma_tally_push(rs: Seq<(IpAddress, u64)>, e: (IpAddress, u64), a: IpAddress)
    ensures
        tally(rs.push(e), a) == tally(rs, a) + (if e.0 == a {
            e.1 as int
        } else {
            0
        }),
    decreases rs.len(),
{
    if rs.len() == 0 {
        assert(rs.push(e).drop_first() =~= Seq::<(IpAddress, u64)>::empty());
        assert(rs.push(e)[0] == e);
        assert(tally(Seq::<(IpAddress, u64)>::empty(), a) == 0);
    } else {
        assert(rs.push(e).drop_first() =~= rs.drop_first().push(e));
        assert(rs.push(e)[0] == rs[0]);
        lemma_tally_push(rs.drop_first(), e, a);
    }
}

proof fn lemma_total_push(rs: Seq<(IpAddress, u64)>, e: (IpAddress, u64))
    ensures
        total_weight(rs.push(e)) == total_weight(rs) + e.1,
    decreases rs.len(),
{
    if rs.len() == 0 {
        assert(rs.push(e).drop_first() =~= Seq::<(IpAddress, u64)>::empty());
        assert(rs.push(e)[0] == e);
        assert(total_weight(Seq::<(IpAddress, u64)>::empty()) == 0);
    } else {
        assert(rs.push(e).drop_first() =~= rs.drop_first().push(e));
        assert(rs.push(e)[0] == rs[0]);
        lemma_total_push(rs.drop_first(), e);
    }
}

proof fn lemma_first_idx_push(rs: Seq<(IpAddress, u64)>, e: (IpAddress, u64), a: IpAddress)
    ensures
        appears(rs, a) ==> first_idx(rs.push(e), a) == first_idx(rs, a),
        !appears(rs, a) && e.0 == a ==> first_idx(rs.push(e), a) == rs.len(),
        appears(rs.push(e), a) == (appears(rs, a) || e.0 == a),
    decreases rs.len(),
{
    if rs.len() == 0 {
        assert(rs.push(e).drop_first() =~= Seq::<(IpAddress, u64)>::empty());
        assert(rs.push(e)[0] == e);
        if e.0 == a {
            assert(rs.push(e)[0].0 == a);
        }
    } else {
        assert(rs.push(e).drop_first() =~= rs.drop_first().push(e));
        assert(rs.push(e)[0] == rs[0]);
        lemma_first_idx_push(rs.drop_first(), e, a);
        if rs[0].0 == a {
            assert(appears(rs, a));
        } else {
            assert(appears(rs, a) == appears(rs.drop_first(), a)) by {
                if appears(rs, a) {
                    let i = choose|i: int| 0 <= i < rs.len() && rs[i].0 == a;
                    assert(i >= 1 && rs.drop_first()[i - 1].0 == a);
                }
                if appears(rs.drop_first(), a) {
                    let i = choose|i: int|
                        0 <= i < rs.drop_first().len() && rs.drop_first()[i].0 == a;
                    assert(rs[i + 1].0 == a);
                }
            }
        }
        assert(appears(rs.push(e), a) == (appears(rs, a) || e.0 == a)) by {
            if appears(rs.push(e), a) {
                let i = choose|i: int| 0 <= i < rs.push(e).len() && rs.push(e)[i].0 == a;
                if i < rs.len() {
                    assert(rs[i].0 == a);
                } else {
                    assert(e.0 == a);
                }
            }
            if appears(rs, a) {
                let i = choose|i: int| 0 <= i < rs.len() && rs.push(e)[i].0 == a;
                assert(appears(rs.push(e), a));
            }
            if e.0 == a {
                assert(rs.push(e)[rs.len() as int].0 == a);
            }
        }
    }
}

/// The first entry for an address that appears: in range, holding it, first.
pub proof fn lemma_appears_first(rs: Seq<(IpAddress, u64)>, a: IpAddress)
    requires
        appears(rs, a),
    ensures
        0 <= first_idx(rs, a) < rs.len(),
        rs[first_idx(rs, a)].0 == a,
        forall|p: int| 0 <= p < first_idx(rs, a) ==> (#[trigger] rs[p]).0 != a,
    decreases rs.len(),
{
    if rs[0].0 == a {
    } else {
        let t = rs.drop_first();
        assert(appears(t, a)) by {
            let i = choose|i: int| 0 <= i < rs.len() && rs[i].0 == a;
            assert(t[i - 1].0 == a);
        }
        lemma_appears_first(t, a);
        assert(forall|p: int| 0 <= p < first_idx(rs, a) ==> (#[trigger] rs[p]).0 != a) by {
            assert(forall|p: int| 1 <= p < rs.len() ==> rs[p] == t[p - 1]);
        }
    }
}

proof fn lemma_tally_absent(rs: Seq<(IpAddress, u64)>, a: IpAddress)
    requires
        !appears(rs, a),
    ensures
        tally(rs, a) == 0,
    decreases rs.len(),
{
    if rs.len() > 0 {
        let t = rs.drop_first();
        assert(!appears(t, a)) by {
            if appears(t, a) {
                let i = choose|i: int| 0 <= i < t.len() && t[i].0 == a;
                assert(rs[i + 1].0 == a);
            }
        }
        assert(rs[0].0 != a);
        lemma_tally_absent(t, a);
    }
}

proof fn lemma_tally_le_total(rs: Seq<(IpAddress, u64)>, a: IpAddress)
    ensures
        0 <= tally(rs, a) <= total_weight(rs),
    decreases rs.len(),
{
    if rs.len() > 0 {
        lemma_tally_le_total(rs.drop_first(), a);
    }
}

proof fn lemma_resolved_prefix_weight(list: Seq<(Method, Result<IpAddress, Error>)>, i: int)
    requires
        0 <= i <= list.len(),
    ensures
        total_weight(resolved_of(list.subrange(0, i))) <= total_weight(resolved_of(list)),
    decreases list.len() - i,
{
    if i == list.len() {
        assert(list.subrange(0, i) =~= list);
    } else {
        assert(list.subrange(0, i + 1) =~= list.subrange(0, i).push(list[i]));
        lemma_resolved_push(list.subrange(0, i), list[i]);
        lemma_resolved_prefix_weight(list, i + 1);
        let pre = resolved_of(list.subrange(0, i));
        match list[i].1 {
            Ok(a) => {
                let e = (a, list[i].0.spec_weight());
                assert(pre + unit_of(list[i]) =~= pre.push(e));
                lemma_total_push(pre, e);
            },
            Err(_) => {
                assert(pre + unit_of(list[i]) =~= pre);
            },
        }
    }
}

// ---------------------------------------------------------------------------
// The resolver
// ---------------------------------------------------------------------------

/// Reconciles the per-source outcomes into one winning address by weighted
/// vote. Failed sources are discarded; with no survivor the run fails; among
/// survivors the greatest summed weight wins, and a tie goes to the address
/// first resolved in configured order.
pub fn process_fetch_result(list: Vec<(Method, Result<IpAddress, Error>)>) -> (r: Result<
    IpAddress,
    Error,
>)
    requires
        total_weight(resolved_of(list@)) <= u64::MAX,
    ensures
        match r {
            Ok(w) => resolved_of(list@).len() > 0 && is_winner(resolved_of(list@), w),
            Err(e) => resolved_of(list@).len() == 0 && e.source == ErrorSource::General,
        },
{
    let ghost full = resolved_of(list@);
    let mut tv: Vec<(IpAddress, u64)> = Vec::new();
    let mut i: usize = 0;
    while i < list.len()
        invariant
            0 <= i <= list.len(),
            total_weight(resolved_of(list@)) <= u64::MAX,
            full == resolved_of(list@),
            ({
                let rs = resolved_of(list@.subrange(0, i as int));
                &&& forall|p: int, q: int|
                    0 <= p < q < tv@.len() ==> (#[trigger] tv@[p]).0 != (#[trigger] tv@[q]).0
                &&& forall|p: int|
                    0 <= p < tv@.len() ==> (#[trigger] tv@[p]).1 as int == tally(rs, tv@[p].0)
                &&& forall|p: int| 0 <= p < tv@.len() ==> appears(rs, (#[trigger] tv@[p]).0)
                &&& forall|a: IpAddress|
                    #[trigger] appears(rs, a) ==> exists|p: int|
                        0 <= p < tv@.len() && tv@[p].0 == a
                &&& forall|p: int, q: int|
                    0 <= p < q < tv@.len() ==> first_idx(rs, (#[trigger] tv@[p]).0) < first_idx(
                        rs,
                        (#[trigger] tv@[q]).0,
                    )
                &&& rs.len() > 0 ==> tv@.len() > 0
            }),
        decreases list.len() - i,
    {
        let ghost rs = resolved_of(list@.subrange(0, i as int));
        proof {
            assert(list@.subrange(0, (i + 1) as int) =~= list@.subrange(0, i as int).push(
                list@[i as int],
            ));
            lemma_resolved_push(list@.subrange(0, i as int), list@[i as int]);
        }
        let ghost rs2 = resolved_of(list@.subrange(0, (i + 1) as int));
        let entry = &list[i];
        match &entry.1 {
            Err(_) => {
                proof {
                    assert(rs2 =~= rs);
                }
            },
            Ok(addr) => {
                let a = *addr;
                let w = entry.0.weight();
                let ghost e = (a, w);
                proof {
                    assert(rs2 =~= rs.push(e));
                    lemma_resolved_prefix_weight(list@, (i + 1) as int);
                    lemma_tally_push(rs, e, a);
                    lemma_tally_le_total(rs2, a);
                    lemma_first_idx_push(rs, e, a);
                    assert forall|b: IpAddress| tv_keeps(rs, rs2, e, b) by {
                        lemma_tally_push(rs, e, b);
                        lemma_first_idx_push(rs, e, b);
                    }
                }
                let mut j: usize = 0;
                let mut found = false;
                while j < tv.len() && !found
                    invariant
                        0 <= j <= tv@.len(),
                        !found ==> forall|p: int| 0 <= p < j ==> (#[trigger] tv@[p]).0 != a,
                        found ==> j < tv@.len() && tv@[j as int].0 == a,
                    decreases tv@.len() - j + (if found {
                        0int
                    } else {
                        1int
                    }),
                {
                    if tv[j].0 == a {
                        found = true;
                    } else {
                        j = j + 1;
                    }
                }
                if found {
                    let old_w = tv[j].1;
                    let ghost oldtv = tv@;
                    proof {
                        assert(tally(rs, a) == old_w as int);
                        assert(tally(rs2, a) == old_w as int + w as int);
                        assert(tally(rs2, a) <= total_weight(rs2));
                        assert(total_weight(rs2) <= total_weight(full));
                    }
                    tv.set(j, (a, old_w + w));
                    proof {
                        assert(appears(rs, a));
                        assert forall|p: int|
                            0 <= p < tv@.len() implies (#[trigger] tv@[p]).1 as int == tally(
                            rs2,
                            tv@[p].0,
                        ) by {
                            assert(tv_keeps(rs, rs2, e, tv@[p].0));
                            if p != j {
                                assert(tv@[p].0 != a);
                            }
                        }
                        assert forall|p: int, q: int|
                            0 <= p < q < tv@.len() implies first_idx(rs2, (#[trigger] tv@[p]).0)
                            < first_idx(rs2, (#[trigger] tv@[q]).0) by {
                            assert(tv_keeps(rs, rs2, e, tv@[p].0));
                            assert(tv_keeps(rs, rs2, e, tv@[q].0));
                        }
                        assert forall|b: IpAddress| #[trigger]
                            appears(rs2, b) implies exists|p: int|
                            0 <= p < tv@.len() && tv@[p].0 == b by {
                            assert(tv_keeps(rs, rs2, e, b));
                            if b == a {
                                assert(tv@[j as int].0 == b);
                            } else {
                                assert(appears(rs, b));
                                let p = choose|p: int| 0 <= p < oldtv.len() && oldtv[p].0 == b;
                                assert(tv@[p].0 == b);
                            }
                        }
                        assert forall|p: int|
                            0 <= p < tv@.len() implies appears(rs2, (#[trigger] tv@[p]).0) by {
                            assert(tv_keeps(rs, rs2, e, tv@[p].0));
                        }
                    }
                } else {
                    proof {
                        assert(forall|p: int| 0 <= p < tv@.len() ==> (#[trigger] tv@[p]).0 != a);
                        assert(!appears(rs, a)) by {
                            if appears(rs, a) {
                                let p = choose|p: int| 0 <= p < tv@.len() && tv@[p].0 == a;
                                assert(tv@[p].0 != a);
                            }
                        }
                        lemma_tally_absent(rs, a);
                        assert(first_idx(rs2, a) == rs.len());
                    }
                    let ghost oldtv = tv@;
                    tv.push((a, w));
                    proof {
                        assert(tv@ =~= oldtv.push((a, w)));
                        assert forall|p: int|
                            0 <= p < tv@.len() implies (#[trigger] tv@[p]).1 as int == tally(
                            rs2,
                            tv@[p].0,
                        ) by {
                            assert(tv_keeps(rs, rs2, e, tv@[p].0));
                            if p < tv@.len() - 1 {
                                assert(tv@[p].0 != a);
                            } else {
                                assert(tally(rs2, a) == 0 + w as int);
                            }
                        }
                        assert forall|p: int, q: int|
                            0 <= p < q < tv@.len() implies first_idx(rs2, (#[trigger] tv@[p]).0)
                            < first_idx(rs2, (#[trigger] tv@[q]).0) by {
                            assert(tv_keeps(rs, rs2, e, tv@[p].0));
                            assert(tv_keeps(rs, rs2, e, tv@[q].0));
                            if q < tv@.len() - 1 {
                            } else {
                                lemma_appears_first(rs, tv@[p].0);
                                assert(first_idx(rs, tv@[p].0) < rs.len());
                            }
                        }
                        assert forall|b: IpAddress| #[trigger]
                            appears(rs2, b) implies exists|p: int|
                            0 <= p < tv@.len() && tv@[p].0 == b by {
                            assert(tv_keeps(rs, rs2, e, b));
                            if b == a {
                                assert(tv@[tv@.len() - 1].0 == b);
                            } else {
                                assert(appears(rs, b));
                                let p = choose|p: int| 0 <= p < oldtv.len() && oldtv[p].0 == b;
                                assert(tv@[p].0 == b);
                            }
                        }
                        assert forall|p: int|
                            0 <= p < tv@.len() implies appears(rs2, (#[trigger] tv@[p]).0) by {
                            assert(tv_keeps(rs, rs2, e, tv@[p].0));
                        }
                    }
                }
            },
        }
        i = i + 1;
    }
    proof {
        assert(list@.subrange(0, list@.len() as int) =~= list@);
    }
    if tv.len() == 0 {
        proof {
            if full.len() > 0 {
                assert(false);
            }
        }
        return Err(
            Error::new(
                "process_fetch_result: Global IP address not found".to_owned(),
                ErrorSource::General,
            ),
        );
    }
    let mut best: usize = 0;
    let mut j: usize = 1;
    while j < tv.len()
        invariant
            0 <= best < j <= tv@.len(),
            tv@.len() > 0,
            forall|p: int| 0 <= p < j ==> (#[trigger] tv@[p]).1 <= tv@[best as int].1,
            forall|p: int| 0 <= p < best ==> (#[trigger] tv@[p]).1 < tv@[best as int].1,
        decreases tv@.len() - j,
    {
        if tv[j].1 > tv[best].1 {
            best = j;
        }
        j = j + 1;
    }
    let w = tv[best].0;
    proof {
        let rs = full;
        assert forall|i2: int|
            0 <= i2 < rs.len() implies tally(rs, (#[trigger] rs[i2]).0) <= tally(rs, w) by {
            assert(appears(rs, rs[i2].0));
            let p = choose|p: int| 0 <= p < tv@.len() && tv@[p].0 == rs[i2].0;
            assert(tv@[p].1 <= tv@[best as int].1);
        }
        assert forall|i2: int|
            0 <= i2 < rs.len() && tally(rs, (#[trigger] rs[i2]).0) == tally(rs, w) implies
            first_idx(rs, w) <= first_idx(rs, rs[i2].0) by {
            assert(appears(rs, rs[i2].0));
            let p = choose|p: int| 0 <= p < tv@.len() && tv@[p].0 == rs[i2].0;
            if p < best {
                assert(tv@[p].1 < tv@[best as int].1);
                assert(false);
            } else if p == best {
            } else {
                assert(first_idx(rs, tv@[best as int].0) < first_idx(rs, tv@[p].0));
            }
        }
    }
    Ok(w)
}

// ---------------------------------------------------------------------------
// Laws of the vote
// ---------------------------------------------------------------------------

/// Two winners over the same entries are the same address.
pub proof fn lemma_winner_unique(rs: Seq<(IpAddress, u64)>, u: IpAddress, v: IpAddress)
    requires
        is_winner(rs, u),
        is_winner(rs, v),
    ensures
        u == v,
{
    lemma_appears_first(rs, u);
    lemma_appears_first(rs, v);
    let iu = first_idx(rs, u);
    let iv = first_idx(rs, v);
    assert(rs[iu].0 == u && rs[iv].0 == v);
    assert(tally(rs, u) <= tally(rs, v));
    assert(tally(rs, v) <= tally(rs, u));
    assert(first_idx(rs, u) <= first_idx(rs, v));
    assert(first_idx(rs, v) <= first_idx(rs, u));
}

/// When one address's summed weight strictly exceeds every other's, that
/// address is the winner, and the only one.
pub proof fn lemma_unique_max_wins(rs: Seq<(IpAddress, u64)>, w: IpAddress)
    requires
        appears(rs, w),
        forall|i: int|
            0 <= i < rs.len() && (#[trigger] rs[i]).0 != w ==> tally(rs, rs[i].0) < tally(rs, w),
    ensures
        is_winner(rs, w),
        forall|v: IpAddress| is_winner(rs, v) ==> v == w,
{
    assert forall|i: int|
        0 <= i < rs.len() implies tally(rs, (#[trigger] rs[i]).0) <= tally(rs, w) by {
        if rs[i].0 != w {
        }
    }
    assert forall|i: int|
        0 <= i < rs.len() && tally(rs, (#[trigger] rs[i]).0) == tally(rs, w) implies first_idx(
        rs,
        w,
    ) <= first_idx(rs, rs[i].0) by {
        assert(rs[i].0 == w);
    }
    assert forall|v: IpAddress| is_winner(rs, v) implies v == w by {
        lemma_winner_unique(rs, w, v);
    }
}

/// Between two addresses tied at the maximal summed weight, the one first
/// resolved in configured order wins: the later one cannot be the winner.
pub proof fn lemma_tie_earliest_wins(rs: Seq<(IpAddress, u64)>, w: IpAddress, v: IpAddress)
    requires
        appears(rs, w),
        appears(rs, v),
        tally(rs, w) == tally(rs, v),
        forall|i: int| 0 <= i < rs.len() ==> tally(rs, (#[trigger] rs[i]).0) <= tally(rs, w),
        first_idx(rs, w) < first_idx(rs, v),
    ensures
        !is_winner(rs, v),
        forall|u: IpAddress| is_winner(rs, u) ==> u != v,
{
    lemma_appears_first(rs, w);
    lemma_appears_first(rs, v);
    let iw = first_idx(rs, w);
    assert(rs[iw].0 == w);
    if is_winner(rs, v) {
        assert(tally(rs, rs[iw].0) == tally(rs, v));
        assert(first_idx(rs, v) <= first_idx(rs, w));
        assert(false);
    }
}

/// How one appended entry `e` moves the model from `rs` to `rs2`, for any
/// address `b`: the facts each loop step needs.
spec fn tv_keeps(
    rs: Seq<(IpAddress, u64)>,
    rs2: Seq<(IpAddress, u64)>,
    e: (IpAddress, u64),
    b: IpAddress,
) -> bool {
    &&& tally(rs2, b) == tally(rs, b) + (if e.0 == b {
        e.1 as int
    } else {
        0
    })
    &&& (appears(rs, b) ==> first_idx(rs2, b) == first_idx(rs, b))
    &&& (!appears(rs, b) && e.0 == b ==> first_idx(rs2, b) == rs.len())
    &&& appears(rs2, b) == (appears(rs, b) || e.0 == b)
}

} // verus!
