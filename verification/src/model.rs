use vstd::prelude::*;
use crate::resolve::resolved_from;
use crate::resolve::routed;
use crate::resolve::appended_entry_covered;

verus! {

/// A mathematical filesystem: each present path holds one abstract content.
pub type FsModel = Map<Seq<char>, nat>;

/// One rename applied to the model: the content at the source moves to the
/// destination, overwriting whatever was there; a rename whose source is
/// absent changes nothing (the real executor would stop with an error).
pub open spec fn apply_rename(m: FsModel, op: (Seq<char>, Seq<char>)) -> FsModel {
    if m.contains_key(op.0) {
        m.remove(op.0).insert(op.1, m[op.0])
    } else {
        m
    }
}

/// All renames applied in order.
pub open spec fn apply_renames(m: FsModel, ops: Seq<(Seq<char>, Seq<char>)>) -> FsModel
    decreases ops.len(),
{
    if ops.len() == 0 {
        m
    } else {
        apply_renames(apply_rename(m, ops[0]), ops.drop_first())
    }
}

/// All deletions applied in order.
pub open spec fn apply_deletes(m: FsModel, dels: Seq<Seq<char>>) -> FsModel
    decreases dels.len(),
{
    if dels.len() == 0 {
        m
    } else {
        apply_deletes(m.remove(dels[0]), dels.drop_first())
    }
}

/// No operation of `res` moves away from `p`.
pub open spec fn never_moved(res: Seq<(Seq<char>, Seq<char>)>, p: Seq<char>) -> bool {
    forall|t: int| 0 <= t < res.len() ==> (#[trigger] res[t]).0 != p
}

/// No operation of `res` writes to `p`.
pub open spec fn never_written(res: Seq<(Seq<char>, Seq<char>)>, p: Seq<char>) -> bool {
    forall|t: int| 0 <= t < res.len() ==> (#[trigger] res[t]).1 != p
}

/// No operation of `res` reads or writes `p`.
pub open spec fn untouched(res: Seq<(Seq<char>, Seq<char>)>, p: Seq<char>) -> bool {
    never_moved(res, p) && never_written(res, p)
}

proof fn lemma_apply_renames_snoc(m: FsModel, ops: Seq<(Seq<char>, Seq<char>)>, op: (Seq<char>, Seq<char>))
    ensures
        apply_renames(m, ops.push(op)) == apply_rename(apply_renames(m, ops), op),
    decreases ops.len(),
{
    if ops.len() == 0 {
        assert(ops.push(op).drop_first() =~= Seq::<(Seq<char>, Seq<char>)>::empty());
        assert(apply_renames(m, ops.push(op)) == apply_renames(
            apply_rename(m, op),
            Seq::<(Seq<char>, Seq<char>)>::empty(),
        ));
    } else {
        assert(ops.push(op).drop_first() =~= ops.drop_first().push(op));
        lemma_apply_renames_snoc(apply_rename(m, ops[0]), ops.drop_first(), op);
    }
}

/// What a run of deletions leaves present: exactly the paths that were
/// present before and are not deleted, with their contents kept.
pub proof fn lemma_apply_deletes(m: FsModel, dels: Seq<Seq<char>>)
    ensures
        forall|p: Seq<char>|
            apply_deletes(m, dels).contains_key(p) <==> (#[trigger] m.contains_key(p)
                && !dels.contains(p)),
        forall|p: Seq<char>|
            apply_deletes(m, dels).contains_key(p) ==> apply_deletes(m, dels)[p] == #[trigger] m[p],
    decreases dels.len(),
{
    if dels.len() == 0 {
        assert(forall|p: Seq<char>| !dels.contains(p));
    } else {
        let m1 = m.remove(dels[0]);
        let d1 = dels.drop_first();
        lemma_apply_deletes(m1, d1);
        assert(apply_deletes(m, dels) == apply_deletes(m1, d1));
        assert forall|p: Seq<char>|
            apply_deletes(m, dels).contains_key(p) <==> (#[trigger] m.contains_key(p)
                && !dels.contains(p)) by {
            assert(apply_deletes(m1, d1).contains_key(p) <==> (m1.contains_key(p) && !d1.contains(
                p,
            )));
            if dels.contains(p) {
                let w = choose|w: int| 0 <= w < dels.len() && dels[w] == p;
                if w == 0 {
                    assert(!m1.contains_key(p));
                } else {
                    assert(d1[w - 1] == p);
                    assert(d1.contains(p));
                }
            } else {
                assert(forall|w: int| 0 <= w < d1.len() ==> #[trigger] d1[w] != p) by {
                    assert(forall|w: int| 0 <= w < d1.len() ==> d1[w] == dels[w + 1]);
                }
                assert(!d1.contains(p));
                assert(dels[0] != p);
            }
        }
        assert forall|p: Seq<char>|
            apply_deletes(m, dels).contains_key(p) implies apply_deletes(m, dels)[p] == #[trigger] m[p] by {
            assert(apply_deletes(m1, d1).contains_key(p) ==> apply_deletes(m1, d1)[p] == m1[p]);
            assert(m1.contains_key(p) ==> p != dels[0]);
        }
    }
}


/// The resolved rename list together with the fact that `av` names every
/// original source and destination.
pub open spec fn plan_shape(
    orig: Seq<(Seq<char>, Seq<char>)>,
    res: Seq<(Seq<char>, Seq<char>)>,
    av: Seq<Seq<char>>,
) -> bool {
    &&& resolved_from(orig, res, av)
    &&& forall|k: int|
        0 <= k < orig.len() ==> av.contains((#[trigger] orig[k]).0) && av.contains(orig[k].1)
}

/// The position of the appended hop that drains the placeholder written by
/// the deferred operation at `i`.
spec fn hop_of(
    orig: Seq<(Seq<char>, Seq<char>)>,
    res: Seq<(Seq<char>, Seq<char>)>,
    i: int,
) -> int {
    choose|j: int|
        orig.len() <= j < res.len() && (#[trigger] res[j]).0 == res[i].1 && res[j].1 == orig[i].1
}

proof fn lemma_hop_props(
    orig: Seq<(Seq<char>, Seq<char>)>,
    res: Seq<(Seq<char>, Seq<char>)>,
    av: Seq<Seq<char>>,
    i: int,
)
    requires
        plan_shape(orig, res, av),
        0 <= i < orig.len(),
        res[i].1 != orig[i].1,
    ensures
        orig.len() <= hop_of(orig, res, i) < res.len(),
        res[hop_of(orig, res, i)].0 == res[i].1,
        res[hop_of(orig, res, i)].1 == orig[i].1,
{
    assert(routed(orig, res, i));
}

/// Where the content originally at `orig[i].0` sits after the first `k`
/// operations of `res` have run: still at its source, parked at its
/// placeholder, or at its final destination.
spec fn loc(
    orig: Seq<(Seq<char>, Seq<char>)>,
    res: Seq<(Seq<char>, Seq<char>)>,
    k: int,
    i: int,
) -> Seq<char> {
    if k <= i {
        orig[i].0
    } else if res[i].1 == orig[i].1 {
        orig[i].1
    } else if k <= hop_of(orig, res, i) {
        res[i].1
    } else {
        orig[i].1
    }
}

/// After `k` steps the content of a processed index sits at the destination
/// of a unique operation of `res`.
proof fn lemma_loc_processed(
    orig: Seq<(Seq<char>, Seq<char>)>,
    res: Seq<(Seq<char>, Seq<char>)>,
    av: Seq<Seq<char>>,
    k: int,
    i: int,
) -> (pos: int)
    requires
        plan_shape(orig, res, av),
        0 <= i < orig.len(),
        i < k,
    ensures
        0 <= pos < res.len(),
        loc(orig, res, k, i) == res[pos].1,
        pos == i || (orig.len() <= pos && res[pos].0 == res[i].1 && res[pos].1 == orig[i].1
            && res[i].1 != orig[i].1),
{
    if res[i].1 == orig[i].1 {
        i
    } else {
        lemma_hop_props(orig, res, av, i);
        if k <= hop_of(orig, res, i) {
            i
        } else {
            hop_of(orig, res, i)
        }
    }
}

proof fn lemma_loc_distinct(
    orig: Seq<(Seq<char>, Seq<char>)>,
    res: Seq<(Seq<char>, Seq<char>)>,
    av: Seq<Seq<char>>,
    k: int,
    i1: int,
    i2: int,
)
    requires
        plan_shape(orig, res, av),
        0 <= i1 < orig.len(),
        0 <= i2 < orig.len(),
        i1 != i2,
    ensures
        loc(orig, res, k, i1) != loc(orig, res, k, i2),
{
    let n = orig.len() as int;
    if k <= i1 && k <= i2 {
        assert(res[i1].0 == orig[i1].0 && res[i2].0 == orig[i2].0);
    } else if k <= i1 {
        lemma_loc_src_vs_processed(orig, res, av, k, i1, i2);
    } else if k <= i2 {
        lemma_loc_src_vs_processed(orig, res, av, k, i2, i1);
    } else {
        let p1 = lemma_loc_processed(orig, res, av, k, i1);
        let p2 = lemma_loc_processed(orig, res, av, k, i2);
        if p1 == p2 {
            if p1 == i1 {
                assert(false);
            } else if p2 == i2 {
                assert(false);
            } else {
                assert(res[p1].0 == res[i1].1 && res[p2].0 == res[i2].1);
                assert(res[i1].1 == res[i2].1);
                assert(false);
            }
        }
    }
}

/// The content still waiting at `orig[iS].0` never shares a path with the
/// content of an already processed index.
proof fn lemma_loc_src_vs_processed(
    orig: Seq<(Seq<char>, Seq<char>)>,
    res: Seq<(Seq<char>, Seq<char>)>,
    av: Seq<Seq<char>>,
    k: int,
    i_s: int,
    i_p: int,
)
    requires
        plan_shape(orig, res, av),
        0 <= i_s < orig.len(),
        0 <= i_p < orig.len(),
        i_s != i_p,
        k <= i_s,
        i_p < k,
    ensures
        loc(orig, res, k, i_s) != loc(orig, res, k, i_p),
{
    let n = orig.len() as int;
    assert(loc(orig, res, k, i_s) == orig[i_s].0);
    assert(res[i_s].0 == orig[i_s].0);
    if res[i_p].1 == orig[i_p].1 {
        assert(i_p < i_s);
        assert(orig[i_s].0 != orig[i_p].1);
    } else {
        lemma_hop_props(orig, res, av, i_p);
        let h = hop_of(orig, res, i_p);
        if k <= h {
            assert(loc(orig, res, k, i_p) == res[i_p].1);
            assert(res[h].0 == res[i_p].1);
            assert(res[i_s].0 != res[h].0);
        } else {
            assert(h < k <= i_s && n <= h);
            assert(false);
        }
    }
}

/// The filesystem facts the execution argument starts from: every original
/// source is present, no placeholder path is.
pub open spec fn fs_premises(
    orig: Seq<(Seq<char>, Seq<char>)>,
    res: Seq<(Seq<char>, Seq<char>)>,
    m0: FsModel,
) -> bool {
    &&& forall|i: int| 0 <= i < orig.len() ==> m0.contains_key((#[trigger] orig[i]).0)
    &&& forall|j: int| orig.len() <= j < res.len() ==> !m0.contains_key((#[trigger] res[j]).0)
}

/// After `k` operations, the content originally at `orig[i].0` sits at its
/// tracked location.
spec fn content_tracked(
    orig: Seq<(Seq<char>, Seq<char>)>,
    res: Seq<(Seq<char>, Seq<char>)>,
    m0: FsModel,
    k: int,
    i: int,
) -> bool {
    apply_renames(m0, res.take(k)).contains_key(loc(orig, res, k, i)) && apply_renames(
        m0,
        res.take(k),
    )[loc(orig, res, k, i)] == m0[orig[i].0]
}

/// After `k` operations, the path `p` is exactly as it was at the start.
spec fn preserved_at(
    m0: FsModel,
    res: Seq<(Seq<char>, Seq<char>)>,
    k: int,
    p: Seq<char>,
) -> bool {
    apply_renames(m0, res.take(k)).contains_key(p) == m0.contains_key(p) && (m0.contains_key(p)
        ==> apply_renames(m0, res.take(k))[p] == m0[p])
}

/// The execution invariant after `k` operations of `res` have run.
spec fn exec_inv(
    orig: Seq<(Seq<char>, Seq<char>)>,
    res: Seq<(Seq<char>, Seq<char>)>,
    m0: FsModel,
    k: int,
) -> bool {
    &&& forall|i: int| 0 <= i < orig.len() ==> #[trigger] content_tracked(orig, res, m0, k, i)
    &&& forall|j: int|
        orig.len() <= j < k ==> !apply_renames(m0, res.take(k)).contains_key(
            (#[trigger] res[j]).0,
        )
    &&& forall|p: Seq<char>| #[trigger] untouched(res, p) ==> preserved_at(m0, res, k, p)
    &&& forall|i: int|
        0 <= i < orig.len() && i < k && never_written(res, (#[trigger] orig[i]).0)
            ==> !apply_renames(m0, res.take(k)).contains_key(orig[i].0)
}

proof fn lemma_exec_base(
    orig: Seq<(Seq<char>, Seq<char>)>,
    res: Seq<(Seq<char>, Seq<char>)>,
    m0: FsModel,
)
    requires
        fs_premises(orig, res, m0),
    ensures
        exec_inv(orig, res, m0, 0),
{
    assert(res.take(0) =~= Seq::<(Seq<char>, Seq<char>)>::empty());
    assert(apply_renames(m0, res.take(0)) == m0);
    assert forall|i: int| 0 <= i < orig.len() implies #[trigger] content_tracked(
        orig,
        res,
        m0,
        0,
        i,
    ) by {
        assert(loc(orig, res, 0, i) == orig[i].0);
    }
}

#[verifier::rlimit(100)]
proof fn lemma_exec_step(
    orig: Seq<(Seq<char>, Seq<char>)>,
    res: Seq<(Seq<char>, Seq<char>)>,
    av: Seq<Seq<char>>,
    m0: FsModel,
    k: int,
)
    requires
        plan_shape(orig, res, av),
        fs_premises(orig, res, m0),
        0 <= k < res.len(),
        exec_inv(orig, res, m0, k),
    ensures
        exec_inv(orig, res, m0, k + 1),
{
    let n = orig.len() as int;
    let m = apply_renames(m0, res.take(k));
    let op = res[k];
    assert(res.take(k + 1) =~= res.take(k).push(op));
    lemma_apply_renames_snoc(m0, res.take(k), op);
    let m2 = apply_renames(m0, res.take(k + 1));
    assert(m2 == apply_rename(m, op));
    // identify the index whose content this operation moves
    let mu: int = if k < n {
        k
    } else {
        assert(appended_entry_covered(orig, res, k));
        choose|i: int|
            0 <= i < orig.len() && (#[trigger] res[i]).1 == res[k].0 && res[k].1 == orig[i].1
    };
    if k < n {
        assert(loc(orig, res, k, mu) == orig[k].0);
        assert(orig[k].0 == res[k].0);
        if res[k].1 != orig[k].1 {
            lemma_hop_props(orig, res, av, k);
            assert(hop_of(orig, res, k) >= n);
            assert(loc(orig, res, k + 1, k) == res[k].1);
        } else {
            assert(loc(orig, res, k + 1, k) == orig[k].1);
        }
        assert(loc(orig, res, k + 1, mu) == op.1);
    } else {
        // an appended hop: the moved index is deferred and this is its hop
        assert(0 <= mu < n && res[mu].1 == res[k].0 && res[k].1 == orig[mu].1);
        assert(res[mu].1 != orig[mu].1) by {
            if res[mu].1 == orig[mu].1 {
                assert(av.contains(orig[mu].1));
                assert(!av.contains(res[k].0));
            }
        }
        lemma_hop_props(orig, res, av, mu);
        let h = hop_of(orig, res, mu);
        assert(h == k) by {
            assert(res[h].0 == res[mu].1 && res[k].0 == res[mu].1);
            if h != k {
                assert(res[h].0 != res[k].0);
            }
        }
        assert(loc(orig, res, k, mu) == res[mu].1);
        assert(loc(orig, res, k, mu) == op.0);
        assert(loc(orig, res, k + 1, mu) == orig[mu].1);
        assert(loc(orig, res, k + 1, mu) == op.1);
    }
    assert(content_tracked(orig, res, m0, k, mu));
    assert(m.contains_key(op.0) && m[op.0] == m0[orig[mu].0]);
    assert(m2 == m.remove(op.0).insert(op.1, m[op.0]));
    // locations of the other indices do not move in this step
    assert forall|i: int| 0 <= i < n && i != mu implies loc(orig, res, k + 1, i) == loc(
        orig,
        res,
        k,
        i,
    ) by {
        if k + 1 <= i {
        } else if k <= i {
            // i == k < n, but then i == mu
            assert(false);
        } else {
            if res[i].1 != orig[i].1 {
                lemma_hop_props(orig, res, av, i);
                let h = hop_of(orig, res, i);
                if h == k {
                    assert(res[k].0 == res[i].1);
                    if k < n {
                        assert(n <= h);
                        assert(false);
                    } else {
                        assert(res[mu].1 == res[k].0);
                        assert(res[i].1 == res[mu].1);
                        if i != mu {
                            assert(res[i].1 != res[mu].1);
                        }
                        assert(false);
                    }
                }
            }
        }
    }
    // the invariant clauses at k + 1
    assert forall|i: int| 0 <= i < orig.len() implies #[trigger] content_tracked(
        orig,
        res,
        m0,
        k + 1,
        i,
    ) by {
        if i == mu {
            assert(m2.contains_key(op.1) && m2[op.1] == m0[orig[mu].0]);
        } else {
            lemma_loc_distinct(orig, res, av, k, i, mu);
            lemma_loc_distinct(orig, res, av, k + 1, i, mu);
            assert(loc(orig, res, k + 1, i) == loc(orig, res, k, i));
            assert(loc(orig, res, k, i) != op.0);
            assert(loc(orig, res, k + 1, i) != op.1);
            assert(content_tracked(orig, res, m0, k, i));
        }
    }
    assert forall|j: int| orig.len() <= j < k + 1 implies !m2.contains_key(
        (#[trigger] res[j]).0,
    ) by {
        if j == k {
            assert(op.0 != op.1);
        } else {
            assert(!m.contains_key(res[j].0));
            // the destination written now is never an appended source
            assert(op.1 != res[j].0) by {
                if k < n {
                    if res[k].1 == orig[k].1 {
                        assert(av.contains(orig[k].1));
                        assert(!av.contains(res[j].0));
                    } else {
                        lemma_hop_props(orig, res, av, k);
                        let h = hop_of(orig, res, k);
                        assert(res[h].0 == res[k].1);
                        if op.1 == res[j].0 {
                            assert(h != j ==> res[h].0 != res[j].0);
                            assert(h == j ==> n <= j < k + 1 && k + 1 <= h);
                            assert(false);
                        }
                    }
                } else {
                    assert(op.1 == orig[mu].1);
                    assert(av.contains(orig[mu].1));
                    assert(!av.contains(res[j].0));
                }
            }
        }
    }
    assert forall|p: Seq<char>| #[trigger] untouched(res, p) implies preserved_at(
        m0,
        res,
        k + 1,
        p,
    ) by {
        assert(preserved_at(m0, res, k, p));
        assert(op.0 != p && op.1 != p);
    }
    assert forall|i: int|
        0 <= i < orig.len() && i < k + 1 && never_written(res, (#[trigger] orig[i]).0)
            implies !m2.contains_key(orig[i].0) by {
        assert(op.1 != orig[i].0);
        if i == k {
            assert(op.0 == orig[k].0);
        } else {
            assert(i < k);
            assert(!m.contains_key(orig[i].0));
        }
    }
}

proof fn lemma_exec_upto(
    orig: Seq<(Seq<char>, Seq<char>)>,
    res: Seq<(Seq<char>, Seq<char>)>,
    av: Seq<Seq<char>>,
    m0: FsModel,
    k: int,
)
    requires
        plan_shape(orig, res, av),
        fs_premises(orig, res, m0),
        0 <= k <= res.len(),
    ensures
        exec_inv(orig, res, m0, k),
    decreases k,
{
    if k == 0 {
        lemma_exec_base(orig, res, m0);
    } else {
        lemma_exec_upto(orig, res, av, m0, k - 1);
        lemma_exec_step(orig, res, av, m0, k - 1);
    }
}

/// Running the whole resolved rename list moves every original content to
/// its requested destination, leaves no placeholder path behind, clears
/// every source that nothing writes back to, and touches nothing else.
pub proof fn lemma_renames_execute(
    orig: Seq<(Seq<char>, Seq<char>)>,
    res: Seq<(Seq<char>, Seq<char>)>,
    av: Seq<Seq<char>>,
    m0: FsModel,
)
    requires
        plan_shape(orig, res, av),
        fs_premises(orig, res, m0),
    ensures
        forall|i: int|
            0 <= i < orig.len() ==> apply_renames(m0, res).contains_key((#[trigger] orig[i]).1)
                && apply_renames(m0, res)[orig[i].1] == m0[orig[i].0],
        forall|j: int|
            orig.len() <= j < res.len() ==> !apply_renames(m0, res).contains_key(
                (#[trigger] res[j]).0,
            ),
        forall|p: Seq<char>|
            #[trigger] untouched(res, p) ==> (apply_renames(m0, res).contains_key(p)
                == m0.contains_key(p) && (m0.contains_key(p) ==> apply_renames(m0, res)[p]
                == m0[p])),
        forall|i: int|
            0 <= i < orig.len() && never_written(res, (#[trigger] orig[i]).0) ==> !apply_renames(
                m0,
                res,
            ).contains_key(orig[i].0),
{
    let nn = res.len() as int;
    lemma_exec_upto(orig, res, av, m0, nn);
    assert(res.take(nn) =~= res);
    assert forall|i: int|
        0 <= i < orig.len() implies apply_renames(m0, res).contains_key((#[trigger] orig[i]).1)
            && apply_renames(m0, res)[orig[i].1] == m0[orig[i].0] by {
        assert(content_tracked(orig, res, m0, nn, i));
        if res[i].1 != orig[i].1 {
            lemma_hop_props(orig, res, av, i);
        }
        assert(loc(orig, res, nn, i) == orig[i].1);
    }
    assert forall|p: Seq<char>| #[trigger] untouched(res, p) implies (apply_renames(
        m0,
        res,
    ).contains_key(p) == m0.contains_key(p) && (m0.contains_key(p) ==> apply_renames(m0, res)[p]
        == m0[p])) by {
        assert(preserved_at(m0, res, nn, p));
    }
}

} // verus!
