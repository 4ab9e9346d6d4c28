use vstd::prelude::*;
use crate::resolve::sources_distinct;
use crate::resolve::dsts_distinct;
use crate::resolve::no_self_moves;
use crate::types::DeletionMarker;
use crate::types::OutputSpec;
use crate::types::OutputSpecV;
use crate::types::PathState;
use crate::types::PlanError;
use crate::types::RenameOp;
use crate::types::spec_is_deletion;
use crate::validate::spec_output_of;
use crate::strutil::vec_contains;

verus! {

/// The deletions that the classified pairs emit, in input order.
pub open spec fn spec_deletes(inputs: Seq<Seq<char>>, specs: Seq<OutputSpecV>) -> Seq<Seq<char>>
    recommends
        inputs.len() == specs.len(),
    decreases specs.len(),
{
    if specs.len() == 0 {
        Seq::empty()
    } else {
        let pre = spec_deletes(inputs.drop_last(), specs.drop_last());
        match specs.last() {
            OutputSpecV::Delete => pre.push(inputs[specs.len() - 1]),
            _ => pre,
        }
    }
}

/// The renames that the classified pairs emit, in input order, before cycle
/// resolution.
pub open spec fn spec_renames(inputs: Seq<Seq<char>>, specs: Seq<OutputSpecV>) -> Seq<
    (Seq<char>, Seq<char>),
>
    recommends
        inputs.len() == specs.len(),
    decreases specs.len(),
{
    if specs.len() == 0 {
        Seq::empty()
    } else {
        let pre = spec_renames(inputs.drop_last(), specs.drop_last());
        match specs.last() {
            OutputSpecV::Target(t) => pre.push((inputs[specs.len() - 1], t)),
            _ => pre,
        }
    }
}

/// The pair at position `i` passes classification under the given flags and
/// the current state of its destination path.
pub open spec fn pair_ok(
    inputs: Seq<Seq<char>>,
    specs: Seq<OutputSpecV>,
    states: Seq<PathState>,
    force: bool,
    delete: bool,
    i: int,
) -> bool {
    match specs[i] {
        OutputSpecV::Unchanged => true,
        OutputSpecV::Delete => delete,
        OutputSpecV::Target(t) => match states[i] {
            PathState::IsDir => inputs.contains(t),
            PathState::IsFile => inputs.contains(t) || force,
            PathState::Missing => true,
        },
    }
}

/// The error that the failing pair at position `i` must produce.
pub open spec fn pair_fail_matches(
    inputs: Seq<Seq<char>>,
    specs: Seq<OutputSpecV>,
    states: Seq<PathState>,
    e: PlanError,
    i: int,
) -> bool {
    match specs[i] {
        OutputSpecV::Unchanged => false,
        OutputSpecV::Delete => e matches PlanError::DeleteNotEnabled(nm) && nm@ == inputs[i],
        OutputSpecV::Target(t) => match states[i] {
            PathState::IsDir => e matches PlanError::DirectoryOverwrite(nm) && nm@ == t,
            PathState::IsFile => e matches PlanError::OverwriteNotForced(nm) && nm@ == t,
            PathState::Missing => false,
        },
    }
}

/// The rename at `k` stems from the pair at some index `i`: its source is
/// that input and its destination that pair's requested target.
pub open spec fn rename_covered(
    inputs: Seq<Seq<char>>,
    specs: Seq<OutputSpecV>,
    k: int,
) -> bool {
    exists|i: int|
        0 <= i < specs.len() && (#[trigger] specs[i]) == OutputSpecV::Target(
            spec_renames(inputs, specs)[k].1,
        ) && spec_renames(inputs, specs)[k].0 == inputs[i]
}

/// With distinct inputs and distinct non-deletion lines, the classified
/// rename list moves every path at most once, writes every destination at
/// most once, never moves a path onto itself, and draws each operation from
/// one input/target pair.
pub proof fn lemma_renames_wf(
    inputs: Seq<Seq<char>>,
    lines: Seq<Seq<char>>,
    specs: Seq<OutputSpecV>,
    marker: DeletionMarker,
)
    requires
        specs.len() == inputs.len(),
        lines.len() == inputs.len(),
        forall|i: int|
            0 <= i < specs.len() ==> #[trigger] specs[i] == spec_output_of(
                inputs[i],
                lines[i],
                marker,
            ),
        forall|i: int, j: int| 0 <= i < j < inputs.len() ==> inputs[i] != inputs[j],
        forall|i: int, j: int|
            0 <= i < j < lines.len() && !spec_is_deletion(lines[i], marker) && !spec_is_deletion(
                lines[j],
                marker,
            ) ==> lines[i] != lines[j],
    ensures
        sources_distinct(spec_renames(inputs, specs)),
        dsts_distinct(spec_renames(inputs, specs)),
        no_self_moves(spec_renames(inputs, specs)),
        forall|k: int|
            0 <= k < spec_renames(inputs, specs).len() ==> #[trigger] rename_covered(
                inputs,
                specs,
                k,
            ),
    decreases specs.len(),
{
    let rr = spec_renames(inputs, specs);
    if specs.len() == 0 {
    } else {
        let n = specs.len() as int;
        let ip = inputs.drop_last();
        let lp = lines.drop_last();
        let sp = specs.drop_last();
        lemma_renames_wf(ip, lp, sp, marker);
        let pre = spec_renames(ip, sp);
        assert forall|k: int| 0 <= k < pre.len() implies #[trigger] rename_covered(
            inputs,
            specs,
            k,
        ) by {
            assert(rename_covered(ip, sp, k));
            let i = choose|i: int|
                0 <= i < sp.len() && (#[trigger] sp[i]) == OutputSpecV::Target(pre[k].1)
                    && pre[k].0 == ip[i];
            assert(rr[k] == pre[k]);
            assert(specs[i] == sp[i]);
            assert(inputs[i] == ip[i]);
        }
        match specs[n - 1] {
            OutputSpecV::Target(t) => {
                assert(rr == pre.push((inputs[n - 1], t)));
                assert(specs[n - 1] == spec_output_of(inputs[n - 1], lines[n - 1], marker));
                assert(t == lines[n - 1]);
                assert(!spec_is_deletion(lines[n - 1], marker));
                assert(t != inputs[n - 1]);
                assert forall|k: int| 0 <= k < rr.len() implies #[trigger] rename_covered(
                    inputs,
                    specs,
                    k,
                ) by {
                    if k < pre.len() {
                    } else {
                        assert(rr[k] == (inputs[n - 1], t));
                        assert((#[trigger] specs[n - 1]) == OutputSpecV::Target(rr[k].1));
                    }
                }
                assert forall|a: int, b: int| 0 <= a < b < rr.len() implies (#[trigger] rr[a]).0
                    != (#[trigger] rr[b]).0 by {
                    if b < pre.len() {
                        assert(rr[a] == pre[a] && rr[b] == pre[b]);
                    } else {
                        assert(rr[b].0 == inputs[n - 1]);
                        assert(rename_covered(inputs, specs, a));
                        let i = choose|i: int|
                            0 <= i < specs.len() && (#[trigger] specs[i]) == OutputSpecV::Target(
                                rr[a].1,
                            ) && rr[a].0 == inputs[i];
                        if i == n - 1 {
                            assert(rr[a] == pre[a]);
                            assert(rename_covered(ip, sp, a));
                            let i0 = choose|i0: int|
                                0 <= i0 < sp.len() && (#[trigger] sp[i0]) == OutputSpecV::Target(
                                    pre[a].1,
                                ) && pre[a].0 == ip[i0];
                            assert(inputs[i0] == ip[i0]);
                            assert(rr[a].0 == inputs[i0]);
                            if rr[a].0 == rr[b].0 {
                                assert(inputs[i0] == inputs[n - 1]);
                                assert(false);
                            }
                        } else {
                            if rr[a].0 == rr[b].0 {
                                assert(inputs[i] == inputs[n - 1]);
                                assert(false);
                            }
                        }
                    }
                }
                assert forall|a: int, b: int| 0 <= a < b < rr.len() implies (#[trigger] rr[a]).1
                    != (#[trigger] rr[b]).1 by {
                    if b < pre.len() {
                        assert(rr[a] == pre[a] && rr[b] == pre[b]);
                    } else {
                        assert(rr[b].1 == t);
                        assert(rr[a] == pre[a]);
                        assert(rename_covered(ip, sp, a));
                        let i0 = choose|i0: int|
                            0 <= i0 < sp.len() && (#[trigger] sp[i0]) == OutputSpecV::Target(
                                pre[a].1,
                            ) && pre[a].0 == ip[i0];
                        assert(sp[i0] == spec_output_of(ip[i0], lp[i0], marker));
                        assert(pre[a].1 == lp[i0]);
                        assert(lines[i0] == lp[i0]);
                        assert(!spec_is_deletion(lines[i0], marker));
                        if rr[a].1 == rr[b].1 {
                            assert(lines[i0] == lines[n - 1]);
                            assert(false);
                        }
                    }
                }
                assert forall|a: int| 0 <= a < rr.len() implies (#[trigger] rr[a]).0 != (
                #[trigger] rr[a]).1 by {
                    if a < pre.len() {
                        assert(rr[a] == pre[a]);
                    } else {
                        assert(rr[a] == (inputs[n - 1], t));
                    }
                }
            },
            OutputSpecV::Unchanged => {
                assert(rr == pre);
            },
            OutputSpecV::Delete => {
                assert(rr == pre);
            },
        }
    }
}

/// The deletion at `d` stems from the pair at some index `i`.
pub open spec fn delete_covered(inputs: Seq<Seq<char>>, specs: Seq<OutputSpecV>, d: int) -> bool {
    exists|i: int|
        0 <= i < specs.len() && (#[trigger] specs[i]) is Delete && spec_deletes(inputs, specs)[d]
            == inputs[i]
}

/// Every emitted deletion comes from a pair marked for deletion, and every
/// pair marked for deletion is emitted.
pub proof fn lemma_deletes_wf(inputs: Seq<Seq<char>>, specs: Seq<OutputSpecV>)
    requires
        inputs.len() == specs.len(),
    ensures
        forall|d: int|
            0 <= d < spec_deletes(inputs, specs).len() ==> #[trigger] delete_covered(
                inputs,
                specs,
                d,
            ),
        forall|i: int|
            0 <= i < specs.len() && (#[trigger] specs[i]) is Delete ==> spec_deletes(
                inputs,
                specs,
            ).contains(inputs[i]),
    decreases specs.len(),
{
    let dd = spec_deletes(inputs, specs);
    if specs.len() == 0 {
    } else {
        let n = specs.len() as int;
        let ip = inputs.drop_last();
        let sp = specs.drop_last();
        lemma_deletes_wf(ip, sp);
        let pre = spec_deletes(ip, sp);
        assert forall|d: int| 0 <= d < dd.len() implies #[trigger] delete_covered(
            inputs,
            specs,
            d,
        ) by {
            if d < pre.len() {
                assert(delete_covered(ip, sp, d));
                let i = choose|i: int|
                    0 <= i < sp.len() && (#[trigger] sp[i]) is Delete && pre[d] == ip[i];
                assert(dd[d] == pre[d]);
                assert(specs[i] == sp[i] && inputs[i] == ip[i]);
                assert((#[trigger] specs[i]) is Delete && dd[d] == inputs[i]);
            } else {
                assert(specs[n - 1] is Delete);
                assert(dd[d] == inputs[n - 1]);
            }
        }
        assert forall|i: int|
            0 <= i < specs.len() && (#[trigger] specs[i]) is Delete implies spec_deletes(
            inputs,
            specs,
        ).contains(inputs[i]) by {
            if i < n - 1 {
                assert(sp[i] == specs[i] && ip[i] == inputs[i]);
                assert(pre.contains(ip[i]));
                let w = choose|w: int| 0 <= w < pre.len() && pre[w] == ip[i];
                assert(dd[w] == pre[w]);
            } else {
                assert(dd[dd.len() - 1] == inputs[n - 1]);
            }
        }
    }
}

/// Every pair that asks for a rename is emitted as one.
pub proof fn lemma_renames_complete(inputs: Seq<Seq<char>>, specs: Seq<OutputSpecV>)
    requires
        inputs.len() == specs.len(),
    ensures
        forall|i: int, t: Seq<char>|
            0 <= i < specs.len() && #[trigger] specs[i] == OutputSpecV::Target(t) ==> #[trigger]
            spec_renames(inputs, specs).contains((inputs[i], t)),
    decreases specs.len(),
{
    let rr = spec_renames(inputs, specs);
    if specs.len() == 0 {
    } else {
        let n = specs.len() as int;
        let ip = inputs.drop_last();
        let sp = specs.drop_last();
        lemma_renames_complete(ip, sp);
        let pre = spec_renames(ip, sp);
        assert forall|i: int, t: Seq<char>|
            0 <= i < specs.len() && #[trigger] specs[i] == OutputSpecV::Target(t) implies #[trigger]
            spec_renames(inputs, specs).contains((inputs[i], t)) by {
            if i < n - 1 {
                assert(sp[i] == specs[i] && ip[i] == inputs[i]);
                assert(pre.contains((ip[i], t)));
                let w = choose|w: int| 0 <= w < pre.len() && pre[w] == (ip[i], t);
                assert(rr[w] == pre[w]);
            } else {
                assert(rr[rr.len() - 1] == (inputs[n - 1], t));
            }
        }
    }
}

/// Decides the fate of every pair against the current filesystem state and
/// the `force` and `delete` flags, emitting the deletion list and the rename
/// list. The first failing pair aborts classification.
pub fn classify(
    inputs: &Vec<String>,
    specs: &Vec<OutputSpec>,
    states: &Vec<PathState>,
    force: bool,
    delete: bool,
) -> (r: Result<(Vec<String>, Vec<RenameOp>), PlanError>)
    requires
        specs.len() == inputs.len(),
        states.len() == inputs.len(),
    ensures
        r is Ok <==> (forall|i: int|
            0 <= i < inputs.len() ==> pair_ok(
                inputs.deep_view(),
                specs.deep_view(),
                states@,
                force,
                delete,
                i,
            )),
        r matches Ok(p) ==> p.0.deep_view() == spec_deletes(inputs.deep_view(), specs.deep_view())
            && p.1.deep_view() == spec_renames(inputs.deep_view(), specs.deep_view()),
        r matches Err(e) ==> exists|i: int|
            0 <= i < inputs.len() && !(#[trigger] pair_ok(
                inputs.deep_view(),
                specs.deep_view(),
                states@,
                force,
                delete,
                i,
            )) && (forall|k: int|
                0 <= k < i ==> pair_ok(
                    inputs.deep_view(),
                    specs.deep_view(),
                    states@,
                    force,
                    delete,
                    k,
                )) && pair_fail_matches(inputs.deep_view(), specs.deep_view(), states@, e, i),
{
    let n = inputs.len();
    let mut dels: Vec<String> = Vec::new();
    let mut rens: Vec<RenameOp> = Vec::new();
    let mut i: usize = 0;
    while i < n
        invariant
            i <= n,
            n == inputs.len(),
            specs.len() == n,
            states.len() == n,
            dels.deep_view() == spec_deletes(
                inputs.deep_view().take(i as int),
                specs.deep_view().take(i as int),
            ),
            rens.deep_view() == spec_renames(
                inputs.deep_view().take(i as int),
                specs.deep_view().take(i as int),
            ),
            forall|k: int|
                0 <= k < i ==> pair_ok(
                    inputs.deep_view(),
                    specs.deep_view(),
                    states@,
                    force,
                    delete,
                    k,
                ),
        decreases n - i,
    {
        let ghost iv = inputs.deep_view();
        let ghost sv = specs.deep_view();
        proof {
            assert(iv.take(i + 1).drop_last() =~= iv.take(i as int));
            assert(sv.take(i + 1).drop_last() =~= sv.take(i as int));
            assert(sv.take(i + 1).last() == sv[i as int]);
            assert(iv.take(i + 1)[i as int] == iv[i as int]);
        }
        match &specs[i] {
            OutputSpec::Unchanged => {},
            OutputSpec::Delete => {
                if !delete {
                    let e = PlanError::DeleteNotEnabled(inputs[i].clone());
                    proof {
                        assert(sv[i as int] == specs@[i as int]@);
                        assert(!pair_ok(iv, sv, states@, force, delete, i as int));
                        assert(pair_fail_matches(iv, sv, states@, e, i as int));
                    }
                    return Err(e);
                }
                let ghost old_dv = dels.deep_view();
                dels.push(inputs[i].clone());
                proof {
                    assert(dels.deep_view() =~= old_dv.push(iv[i as int]));
                }
            },
            OutputSpec::Target(t) => {
                let dir_hit = match states[i] {
                    PathState::IsDir => true,
                    _ => false,
                };
                let file_hit = match states[i] {
                    PathState::IsFile => true,
                    _ => false,
                };
                let in_batch = vec_contains(inputs, t);
                proof {
                    assert(sv[i as int] == specs@[i as int]@);
                    assert(sv[i as int] == OutputSpecV::Target(t@));
                }
                if dir_hit && !in_batch {
                    let e = PlanError::DirectoryOverwrite(t.clone());
                    proof {
                        assert(!pair_ok(iv, sv, states@, force, delete, i as int));
                        assert(pair_fail_matches(iv, sv, states@, e, i as int));
                    }
                    return Err(e);
                }
                if file_hit && !in_batch && !force {
                    let e = PlanError::OverwriteNotForced(t.clone());
                    proof {
                        assert(!pair_ok(iv, sv, states@, force, delete, i as int));
                        assert(pair_fail_matches(iv, sv, states@, e, i as int));
                    }
                    return Err(e);
                }
                let ghost old_rv = rens.deep_view();
                let op = RenameOp { src: inputs[i].clone(), dst: t.clone() };
                let ghost opv = op@;
                rens.push(op);
                proof {
                    assert(rens.deep_view() =~= old_rv.push(opv));
                }
            },
        }
        i += 1;
    }
    proof {
        assert(inputs.deep_view().take(n as int) =~= inputs.deep_view());
        assert(specs.deep_view().take(n as int) =~= specs.deep_view());
    }
    Ok((dels, rens))
}

} // verus!
