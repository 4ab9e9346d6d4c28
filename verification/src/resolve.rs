use vstd::prelude::*;
use crate::types::PlanError;
use crate::types::RenameOp;
use crate::tempname::get_temp_filename;
use crate::strutil::str_eq;

verus! {

/// No two operations move from the same path.
pub open spec fn sources_distinct(r: Seq<(Seq<char>, Seq<char>)>) -> bool {
    forall|a: int, b: int| 0 <= a < b < r.len() ==> (#[trigger] r[a]).0 != (#[trigger] r[b]).0
}

/// No two operations write to the same path.
pub open spec fn dsts_distinct(r: Seq<(Seq<char>, Seq<char>)>) -> bool {
    forall|a: int, b: int| 0 <= a < b < r.len() ==> (#[trigger] r[a]).1 != (#[trigger] r[b]).1
}

/// No operation moves a path onto itself.
pub open spec fn no_self_moves(r: Seq<(Seq<char>, Seq<char>)>) -> bool {
    forall|a: int| 0 <= a < r.len() ==> (#[trigger] r[a]).0 != (#[trigger] r[a]).1
}

/// The destination of the operation at `i` is still needed as the source
/// of a later operation, so writing it directly would destroy content.
pub open spec fn deferral_needed(orig: Seq<(Seq<char>, Seq<char>)>, i: int) -> bool {
    exists|j: int| i < j < orig.len() && (#[trigger] orig[j]).0 == orig[i].1
}

/// The operation at `i` of `res` either writes its original destination
/// directly, or writes a placeholder that exactly one appended operation
/// later drains into the original destination.
pub open spec fn routed(
    orig: Seq<(Seq<char>, Seq<char>)>,
    res: Seq<(Seq<char>, Seq<char>)>,
    i: int,
) -> bool {
    res[i].1 == orig[i].1 || exists|j: int|
        orig.len() <= j < res.len() && (#[trigger] res[j]).0 == res[i].1 && res[j].1 == orig[i].1
}

/// The appended operation at `j` of `res` drains the placeholder written by
/// some original-position operation into that operation's destination.
pub open spec fn appended_entry_covered(
    orig: Seq<(Seq<char>, Seq<char>)>,
    res: Seq<(Seq<char>, Seq<char>)>,
    j: int,
) -> bool {
    exists|i: int|
        0 <= i < orig.len() && (#[trigger] res[i]).1 == res[j].0 && res[j].1 == orig[i].1
}

/// `res` is a safe rewrite of the rename list `orig`: the first `orig.len()`
/// operations keep their sources in order, every deferred destination is
/// reached through exactly one appended hop out of a fresh placeholder (a
/// path absent from `avoid`), and an operation that writes its original
/// destination directly never writes over a source that has not yet been
/// moved away.
pub open spec fn resolved_from(
    orig: Seq<(Seq<char>, Seq<char>)>,
    res: Seq<(Seq<char>, Seq<char>)>,
    avoid: Seq<Seq<char>>,
) -> bool {
    let n = orig.len();
    &&& res.len() >= n
    &&& forall|i: int| 0 <= i < n ==> (#[trigger] res[i]).0 == orig[i].0
    &&& sources_distinct(res)
    &&& dsts_distinct(res)
    &&& no_self_moves(res)
    &&& forall|i: int| 0 <= i < n ==> #[trigger] routed(orig, res, i)
    &&& forall|j: int| n <= j < res.len() ==> #[trigger] appended_entry_covered(orig, res, j)
    &&& forall|i: int, j: int|
        0 <= i < n && (#[trigger] res[i]).1 == orig[i].1 && i < j < n ==> (#[trigger] orig[j]).0
            != orig[i].1
    &&& forall|j: int| n <= j < res.len() ==> !avoid.contains((#[trigger] res[j]).0)
    &&& forall|i: int|
        0 <= i < n && (#[trigger] res[i]).1 != orig[i].1 ==> !avoid.contains(res[i].1)
    &&& forall|i: int|
        0 <= i < n && (#[trigger] res[i]).1 != orig[i].1 ==> deferral_needed(orig, i)
}

/// The deferred head entry at `k` has exactly one tail entry draining its
/// placeholder into the original destination.
spec fn head_deferred_matches(
    hv: Seq<(Seq<char>, Seq<char>)>,
    tv: Seq<(Seq<char>, Seq<char>)>,
    ov: Seq<(Seq<char>, Seq<char>)>,
    k: int,
) -> bool {
    exists|a: int| 0 <= a < tv.len() && (#[trigger] tv[a]).0 == hv[k].1 && tv[a].1 == ov[k].1
}

/// The tail entry at `a` drains the placeholder of some deferred head entry.
spec fn tail_matches(
    hv: Seq<(Seq<char>, Seq<char>)>,
    tv: Seq<(Seq<char>, Seq<char>)>,
    ov: Seq<(Seq<char>, Seq<char>)>,
    i: int,
    a: int,
) -> bool {
    exists|k: int| 0 <= k < i && (#[trigger] hv[k]).1 == tv[a].0 && tv[a].1 == ov[k].1
}

/// The working state of the resolver after the first `i` original
/// operations have been examined: `hv` is the rewritten prefix, `tv` the
/// appended second hops, `tseq` the placeholders issued so far.
spec fn resolver_state(
    ov: Seq<(Seq<char>, Seq<char>)>,
    hv: Seq<(Seq<char>, Seq<char>)>,
    tv: Seq<(Seq<char>, Seq<char>)>,
    tseq: Seq<Seq<char>>,
    av0: Seq<Seq<char>>,
    i: int,
) -> bool {
    let n = ov.len();
    &&& 0 <= i <= n
    &&& sources_distinct(ov)
    &&& dsts_distinct(ov)
    &&& no_self_moves(ov)
    &&& forall|k: int|
        0 <= k < n ==> av0.contains((#[trigger] ov[k]).0) && av0.contains(ov[k].1)
    &&& hv.len() == i
    &&& forall|k: int| 0 <= k < i ==> (#[trigger] hv[k]).0 == ov[k].0
    &&& forall|k: int|
        0 <= k < i && (#[trigger] hv[k]).1 == ov[k].1 ==> (forall|j: int|
            k < j < n ==> (#[trigger] ov[j]).0 != ov[k].1)
    &&& forall|k: int|
        0 <= k < i && (#[trigger] hv[k]).1 != ov[k].1 ==> head_deferred_matches(hv, tv, ov, k)
    &&& forall|a: int| 0 <= a < tv.len() ==> #[trigger] tail_matches(hv, tv, ov, i, a)
    &&& tseq.len() == tv.len()
    &&& forall|a: int| 0 <= a < tseq.len() ==> #[trigger] tseq[a] == tv[a].0
    &&& forall|a: int| 0 <= a < tseq.len() ==> !av0.contains(#[trigger] tseq[a])
    &&& forall|a: int, b: int| 0 <= a < b < tseq.len() ==> tseq[a] != tseq[b]
    &&& forall|k: int|
        0 <= k < i && (#[trigger] hv[k]).1 != ov[k].1 ==> tseq.contains(hv[k].1)
    &&& forall|a: int, b: int| 0 <= a < b < i ==> (#[trigger] hv[a]).1 != (#[trigger] hv[b]).1
    &&& forall|k: int|
        0 <= k < i && (#[trigger] hv[k]).1 != ov[k].1 ==> deferral_needed(ov, k)
}

proof fn lemma_step_deferred(
    ov: Seq<(Seq<char>, Seq<char>)>,
    hv: Seq<(Seq<char>, Seq<char>)>,
    tv: Seq<(Seq<char>, Seq<char>)>,
    tseq: Seq<Seq<char>>,
    av0: Seq<Seq<char>>,
    i: int,
    t: Seq<char>,
)
    requires
        resolver_state(ov, hv, tv, tseq, av0, i),
        i < ov.len(),
        !av0.contains(t),
        !tseq.contains(t),
        deferral_needed(ov, i),
    ensures
        resolver_state(
            ov,
            hv.push((ov[i].0, t)),
            tv.push((t, ov[i].1)),
            tseq.push(t),
            av0,
            i + 1,
        ),
{
    let n = ov.len();
    let hv2 = hv.push((ov[i].0, t));
    let tv2 = tv.push((t, ov[i].1));
    let ts2 = tseq.push(t);
    assert(av0.contains(ov[i].1));
    assert(hv2[i].1 == t);
    assert(hv2[i].1 != ov[i].1);
    assert forall|k: int|
        0 <= k < i + 1 && (#[trigger] hv2[k]).1 == ov[k].1 implies (forall|j: int|
        k < j < n ==> (#[trigger] ov[j]).0 != ov[k].1) by {
        assert(k < i);
        assert(hv2[k] == hv[k]);
    }
    assert forall|k: int|
        0 <= k < i + 1 && (#[trigger] hv2[k]).1 != ov[k].1 implies head_deferred_matches(
        hv2,
        tv2,
        ov,
        k,
    ) by {
        if k < i {
            assert(hv2[k] == hv[k]);
            let a = choose|a: int|
                0 <= a < tv.len() && (#[trigger] tv[a]).0 == hv[k].1 && tv[a].1 == ov[k].1;
            assert(tv2[a] == tv[a]);
            assert((tv2[a]).0 == hv2[k].1 && tv2[a].1 == ov[k].1);
        } else {
            assert((tv2[tv.len() as int]).0 == hv2[k].1 && tv2[tv.len() as int].1 == ov[k].1);
        }
    }
    assert forall|a: int| 0 <= a < tv2.len() implies #[trigger] tail_matches(
        hv2,
        tv2,
        ov,
        i + 1,
        a,
    ) by {
        if a < tv.len() {
            assert(tail_matches(hv, tv, ov, i, a));
            let k = choose|k: int|
                0 <= k < i && (#[trigger] hv[k]).1 == tv[a].0 && tv[a].1 == ov[k].1;
            assert(tv2[a] == tv[a]);
            assert((hv2[k]).1 == tv2[a].0 && tv2[a].1 == ov[k].1);
        } else {
            assert(tv2[a] == (t, ov[i].1));
            assert((hv2[i]).1 == tv2[a].0 && tv2[a].1 == ov[i].1);
        }
    }
    assert forall|k: int|
        0 <= k < i + 1 && (#[trigger] hv2[k]).1 != ov[k].1 implies ts2.contains(hv2[k].1) by {
        if k < i {
            assert(hv2[k] == hv[k]);
            let w = choose|w: int| 0 <= w < tseq.len() && tseq[w] == hv[k].1;
            assert(ts2[w] == hv[k].1);
        } else {
            assert(ts2[tseq.len() as int] == t);
        }
    }
    assert forall|a: int, b: int| 0 <= a < b < i + 1 implies (#[trigger] hv2[a]).1 != (
    #[trigger] hv2[b]).1 by {
        if b < i {
        } else {
            assert(hv2[b].1 == t);
            if hv2[a].1 == ov[a].1 {
                assert(av0.contains(ov[a].1));
            } else {
                assert(tseq.contains(hv[a].1));
                if hv2[a].1 == t {
                    assert(tseq.contains(t));
                    assert(false);
                }
            }
        }
    }
    assert forall|k: int|
        0 <= k < i + 1 && (#[trigger] hv2[k]).1 != ov[k].1 implies deferral_needed(ov, k) by {
        if k < i {
            assert(hv2[k] == hv[k]);
        }
    }
}

proof fn lemma_step_direct(
    ov: Seq<(Seq<char>, Seq<char>)>,
    hv: Seq<(Seq<char>, Seq<char>)>,
    tv: Seq<(Seq<char>, Seq<char>)>,
    tseq: Seq<Seq<char>>,
    av0: Seq<Seq<char>>,
    i: int,
)
    requires
        resolver_state(ov, hv, tv, tseq, av0, i),
        i < ov.len(),
        forall|j: int| i < j < ov.len() ==> (#[trigger] ov[j]).0 != ov[i].1,
    ensures
        resolver_state(ov, hv.push((ov[i].0, ov[i].1)), tv, tseq, av0, i + 1),
{
    let n = ov.len();
    let hv2 = hv.push((ov[i].0, ov[i].1));
    assert(hv2[i].1 == ov[i].1);
    assert forall|k: int|
        0 <= k < i + 1 && (#[trigger] hv2[k]).1 == ov[k].1 implies (forall|j: int|
        k < j < n ==> (#[trigger] ov[j]).0 != ov[k].1) by {
        if k < i {
            assert(hv2[k] == hv[k]);
        }
    }
    assert forall|k: int|
        0 <= k < i + 1 && (#[trigger] hv2[k]).1 != ov[k].1 implies head_deferred_matches(
        hv2,
        tv,
        ov,
        k,
    ) by {
        assert(k < i);
        assert(hv2[k] == hv[k]);
        let a = choose|a: int|
            0 <= a < tv.len() && (#[trigger] tv[a]).0 == hv[k].1 && tv[a].1 == ov[k].1;
        assert((tv[a]).0 == hv2[k].1 && tv[a].1 == ov[k].1);
    }
    assert forall|a: int| 0 <= a < tv.len() implies #[trigger] tail_matches(
        hv2,
        tv,
        ov,
        i + 1,
        a,
    ) by {
        assert(tail_matches(hv, tv, ov, i, a));
        let k = choose|k: int|
            0 <= k < i && (#[trigger] hv[k]).1 == tv[a].0 && tv[a].1 == ov[k].1;
        assert((hv2[k]).1 == tv[a].0 && tv[a].1 == ov[k].1);
    }
    assert forall|k: int|
        0 <= k < i + 1 && (#[trigger] hv2[k]).1 != ov[k].1 implies tseq.contains(hv2[k].1) by {
        assert(k < i);
        assert(hv2[k] == hv[k]);
    }
    assert forall|a: int, b: int| 0 <= a < b < i + 1 implies (#[trigger] hv2[a]).1 != (
    #[trigger] hv2[b]).1 by {
        if b < i {
        } else {
            assert(hv2[b].1 == ov[i].1);
            if hv2[a].1 == ov[a].1 {
                assert(hv2[a] == hv[a]);
            } else {
                assert(tseq.contains(hv[a].1));
                if hv2[a].1 == ov[i].1 {
                    let w = choose|w: int| 0 <= w < tseq.len() && tseq[w] == hv[a].1;
                    assert(!av0.contains(tseq[w]));
                    assert(av0.contains(ov[i].1));
                    assert(false);
                }
            }
        }
    }
    assert forall|k: int|
        0 <= k < i + 1 && (#[trigger] hv2[k]).1 != ov[k].1 implies deferral_needed(ov, k) by {
        assert(k < i);
        assert(hv2[k] == hv[k]);
    }
}

#[verifier::rlimit(30)]
proof fn lemma_assemble(
    ov: Seq<(Seq<char>, Seq<char>)>,
    hv: Seq<(Seq<char>, Seq<char>)>,
    tv: Seq<(Seq<char>, Seq<char>)>,
    tseq: Seq<Seq<char>>,
    av0: Seq<Seq<char>>,
)
    requires
        resolver_state(ov, hv, tv, tseq, av0, ov.len() as int),
    ensures
        resolved_from(ov, hv + tv, av0),
{
    let n = ov.len() as int;
    let res = hv + tv;
    let m = res.len() as int;
    assert forall|k: int| 0 <= k < m - n implies res[n + k] == tv[k] by {}
    assert forall|i0: int| 0 <= i0 < n implies (#[trigger] res[i0]).0 == ov[i0].0 by {
        assert(res[i0] == hv[i0]);
    }
    assert forall|a: int, b: int| 0 <= a < b < m implies (#[trigger] res[a]).0 != (
    #[trigger] res[b]).0 by {
        if b < n {
            assert(res[a] == hv[a]);
            assert(res[b] == hv[b]);
        } else if a < n {
            assert(res[a].0 == ov[a].0);
            assert(av0.contains(ov[a].0));
            assert(res[b].0 == tv[b - n].0);
            assert(tseq[b - n] == tv[b - n].0);
        } else {
            assert(res[a].0 == tseq[a - n]);
            assert(res[b].0 == tseq[b - n]);
        }
    }
    assert forall|a: int, b: int| 0 <= a < b < m implies (#[trigger] res[a]).1 != (
    #[trigger] res[b]).1 by {
        if b < n {
            assert(res[a] == hv[a]);
            assert(res[b] == hv[b]);
        } else {
            assert(tail_matches(hv, tv, ov, n, b - n));
            let kb = choose|k: int|
                0 <= k < n && (#[trigger] hv[k]).1 == tv[b - n].0 && tv[b - n].1 == ov[k].1;
            assert(res[b].1 == ov[kb].1);
            assert(hv[kb].1 == tv[b - n].0);
            assert(hv[kb].1 == tseq[b - n]);
            assert(!av0.contains(tseq[b - n]));
            assert(hv[kb].1 != ov[kb].1);
            if a < n {
                assert(res[a] == hv[a]);
                if hv[a].1 == ov[a].1 {
                    if a != kb {
                        assert(ov[a].1 != ov[kb].1);
                    } else {
                        assert(false);
                    }
                } else {
                    assert(tseq.contains(hv[a].1));
                    if res[a].1 == res[b].1 {
                        let w = choose|w: int| 0 <= w < tseq.len() && tseq[w] == hv[a].1;
                        assert(!av0.contains(tseq[w]));
                        assert(av0.contains(ov[kb].1));
                        assert(false);
                    }
                }
            } else {
                assert(tail_matches(hv, tv, ov, n, a - n));
                let ka = choose|k: int|
                    0 <= k < n && (#[trigger] hv[k]).1 == tv[a - n].0 && tv[a - n].1 == ov[k].1;
                assert(res[a].1 == ov[ka].1);
                assert(hv[ka].1 == tseq[a - n]);
                if ka == kb {
                    assert(tseq[a - n] == tseq[b - n]);
                    assert(false);
                } else {
                    assert(ov[ka].1 != ov[kb].1);
                }
            }
        }
    }
    assert forall|a: int| 0 <= a < m implies (#[trigger] res[a]).0 != (#[trigger] res[a]).1 by {
        if a < n {
            assert(res[a] == hv[a]);
            if hv[a].1 == ov[a].1 {
                assert(hv[a].0 == ov[a].0);
            } else {
                assert(tseq.contains(hv[a].1));
                assert(av0.contains(ov[a].0));
                if hv[a].0 == hv[a].1 {
                    let w = choose|w: int| 0 <= w < tseq.len() && tseq[w] == hv[a].1;
                    assert(false);
                }
            }
        } else {
            assert(tail_matches(hv, tv, ov, n, a - n));
            let ka = choose|k: int|
                0 <= k < n && (#[trigger] hv[k]).1 == tv[a - n].0 && tv[a - n].1 == ov[k].1;
            assert(res[a].1 == ov[ka].1);
            assert(res[a].0 == tseq[a - n]);
            assert(av0.contains(ov[ka].1));
        }
    }
    assert forall|i0: int| 0 <= i0 < n implies #[trigger] routed(ov, res, i0) by {
        assert(res[i0] == hv[i0]);
        if hv[i0].1 != ov[i0].1 {
            assert(head_deferred_matches(hv, tv, ov, i0));
            let a = choose|a: int|
                0 <= a < tv.len() && (#[trigger] tv[a]).0 == hv[i0].1 && tv[a].1 == ov[i0].1;
            assert(res[n + a] == tv[a]);
            assert(n <= n + a < res.len() && (res[n + a]).0 == res[i0].1 && res[n + a].1 == ov[
                i0
            ].1);
        }
    }
    assert forall|j: int| n <= j < m implies #[trigger] appended_entry_covered(ov, res, j) by {
        assert(tail_matches(hv, tv, ov, n, j - n));
        let k = choose|k: int|
            0 <= k < n && (#[trigger] hv[k]).1 == tv[j - n].0 && tv[j - n].1 == ov[k].1;
        assert(res[k] == hv[k]);
        assert(0 <= k < n && (res[k]).1 == res[j].0 && res[j].1 == ov[k].1);
    }
    assert forall|i0: int, j: int|
        0 <= i0 < n && (#[trigger] res[i0]).1 == ov[i0].1 && i0 < j < n implies (
    #[trigger] ov[j]).0 != ov[i0].1 by {
        assert(res[i0] == hv[i0]);
    }
    assert forall|j: int| n <= j < m implies !av0.contains((#[trigger] res[j]).0) by {
        assert(res[j].0 == tv[j - n].0);
        assert(res[j].0 == tseq[j - n]);
    }
    assert forall|i0: int|
        0 <= i0 < n && (#[trigger] res[i0]).1 != ov[i0].1 implies !av0.contains(res[i0].1) by {
        assert(res[i0] == hv[i0]);
        assert(tseq.contains(hv[i0].1));
        let w = choose|w: int| 0 <= w < tseq.len() && tseq[w] == hv[i0].1;
        assert(!av0.contains(tseq[w]));
    }
}

/// Whether the destination of the operation at `i` is still needed as the
/// source of a later, not yet relocated, operation.
fn has_pending_conflict(renames: &Vec<RenameOp>, i: usize) -> (r: bool)
    requires
        i < renames.len(),
    ensures
        r == exists|j: int|
            i < j < renames.len() && (#[trigger] renames.deep_view()[j]).0
                == renames.deep_view()[i as int].1,
{
    let n = renames.len();
    let mut j: usize = i + 1;
    while j < n
        invariant
            i < j <= n,
            n == renames.len(),
            forall|k: int|
                i < k < j ==> (#[trigger] renames.deep_view()[k]).0 != renames.deep_view()[
                    i as int
                ].1,
        decreases n - j,
    {
        if str_eq(&renames[j].src, &renames[i].dst) {
            assert((renames.deep_view()[j as int]).0 == renames.deep_view()[i as int].1);
            return true;
        }
        j += 1;
    }
    false
}

/// Rewrites the classified rename list into an order that is safe to apply:
/// whenever an operation's destination is still the source of a later
/// operation, the move is deferred through a fresh placeholder path and a
/// second hop is appended after all original operations. `avoid` must hold
/// every path the batch mentions; placeholders are chosen outside it.
pub fn resolve(renames: &Vec<RenameOp>, avoid: Vec<String>) -> (r: Result<Vec<RenameOp>, PlanError>)
    requires
        sources_distinct(renames.deep_view()),
        dsts_distinct(renames.deep_view()),
        no_self_moves(renames.deep_view()),
        forall|k: int|
            0 <= k < renames.len() ==> avoid.deep_view().contains(
                (#[trigger] renames.deep_view()[k]).0,
            ) && avoid.deep_view().contains(renames.deep_view()[k].1),
    ensures
        r matches Ok(res) ==> resolved_from(
            renames.deep_view(),
            res.deep_view(),
            avoid.deep_view(),
        ),
        r matches Err(e) ==> e matches PlanError::TempNameExhausted(_),
        r is Err ==> exists|i: int|
            0 <= i < renames.len() && #[trigger] deferral_needed(renames.deep_view(), i),
{
    let ghost ov = renames.deep_view();
    let ghost av0 = avoid.deep_view();
    let mut avoid = avoid;
    let n = renames.len();
    let mut head: Vec<RenameOp> = Vec::new();
    let mut tail: Vec<RenameOp> = Vec::new();
    let ghost mut tseq: Seq<Seq<char>> = Seq::empty();
    proof {
        assert(avoid.deep_view() =~= av0 + tseq);
    }
    let mut i: usize = 0;
    while i < n
        invariant
            n == renames.len(),
            renames.deep_view() == ov,
            i <= n,
            resolver_state(ov, head.deep_view(), tail.deep_view(), tseq, av0, i as int),
            avoid.deep_view() == av0 + tseq,
        decreases n - i,
    {
        let ghost hv_old = head.deep_view();
        let ghost tv_old = tail.deep_view();
        if has_pending_conflict(renames, i) {
            proof {
                assert(deferral_needed(ov, i as int));
            }
            let t = match get_temp_filename(&renames[i].src, &avoid) {
                Ok(t) => t,
                Err(e) => {
                    return Err(e);
                },
            };
            let ghost tview = t@;
            proof {
                assert(!(av0 + tseq).contains(tview));
                assert(!av0.contains(tview)) by {
                    if av0.contains(tview) {
                        let w = choose|w: int| 0 <= w < av0.len() && av0[w] == tview;
                        assert((av0 + tseq)[w] == tview);
                    }
                }
                assert(!tseq.contains(tview)) by {
                    if tseq.contains(tview) {
                        let w = choose|w: int| 0 <= w < tseq.len() && tseq[w] == tview;
                        assert((av0 + tseq)[av0.len() + w] == tview);
                    }
                }
                lemma_step_deferred(ov, hv_old, tv_old, tseq, av0, i as int, tview);
            }
            let hop1 = RenameOp { src: renames[i].src.clone(), dst: t.clone() };
            let ghost h1 = hop1@;
            head.push(hop1);
            let hop2 = RenameOp { src: t.clone(), dst: renames[i].dst.clone() };
            let ghost h2 = hop2@;
            tail.push(hop2);
            avoid.push(t);
            proof {
                assert(head.deep_view() =~= hv_old.push((ov[i as int].0, tview)));
                assert(tail.deep_view() =~= tv_old.push((tview, ov[i as int].1)));
                assert(avoid.deep_view() =~= (av0 + tseq).push(tview));
                tseq = tseq.push(tview);
                assert(avoid.deep_view() =~= av0 + tseq);
            }
        } else {
            let keep = RenameOp { src: renames[i].src.clone(), dst: renames[i].dst.clone() };
            head.push(keep);
            proof {
                lemma_step_direct(ov, hv_old, tv_old, tseq, av0, i as int);
                assert(head.deep_view() =~= hv_old.push((ov[i as int].0, ov[i as int].1)));
            }
        }
        i += 1;
    }
    let ghost hv = head.deep_view();
    let ghost tv = tail.deep_view();
    let mut tail = tail;
    head.append(&mut tail);
    proof {
        lemma_assemble(ov, hv, tv, tseq, av0);
        assert(head.deep_view() =~= hv + tv);
    }
    Ok(head)
}

} // verus!
