use vstd::prelude::*;
use crate::types::DeletionMarker;
use crate::types::OutputSpecV;
use crate::types::PathState;
use crate::types::spec_is_deletion;
use crate::validate::listing_valid;
use crate::validate::input_unusable_at;
use crate::validate::spec_output_of;
use crate::classify::spec_deletes;
use crate::classify::spec_renames;
use crate::classify::rename_covered;
use crate::classify::delete_covered;
use crate::classify::lemma_renames_wf;
use crate::classify::lemma_renames_complete;
use crate::classify::lemma_deletes_wf;
use crate::resolve::resolved_from;
use crate::resolve::appended_entry_covered;
use crate::plan::spec_outputs;
use crate::plan::batch_paths;
use crate::model::FsModel;
use crate::model::apply_renames;
use crate::model::apply_deletes;
use crate::model::lemma_renames_execute;
use crate::model::lemma_apply_deletes;
use crate::model::plan_shape;
use crate::model::fs_premises;
use crate::model::untouched;
use crate::model::never_moved;
use crate::model::never_written;

verus! {

/// The filesystem after a plan with deletions `dels` and resolved renames
/// `res` has run against the starting state `m0`.
pub open spec fn final_fs(m0: FsModel, dels: Seq<Seq<char>>, res: Seq<(Seq<char>, Seq<char>)>) -> FsModel {
    apply_renames(apply_deletes(m0, dels), res)
}

/// The path `p` is present in `m` and holds the content `c`.
pub open spec fn content_at(m: FsModel, p: Seq<char>, c: nat) -> bool {
    m.contains_key(p) && m[p] == c
}

/// Executing a plan built from a valid listing realises every requested
/// fate: each renamed input's content ends exactly at its requested target,
/// each unchanged input keeps its path and content, each deleted input's
/// path is gone unless something was renamed onto it, no placeholder path
/// survives, and every path the batch does not mention is untouched. The
/// starting state must hold every input and no placeholder path, which is
/// what the validator's existence checks and the generator's disk probe
/// established at planning time.
pub proof fn lemma_plan_execution(
    inputs: Seq<Seq<char>>,
    input_states: Seq<PathState>,
    lines: Seq<Seq<char>>,
    marker: DeletionMarker,
    dels: Seq<Seq<char>>,
    res: Seq<(Seq<char>, Seq<char>)>,
    m0: FsModel,
)
    requires
        input_states.len() == inputs.len(),
        listing_valid(inputs, input_states, lines, marker),
        dels == spec_deletes(inputs, spec_outputs(inputs, lines, marker)),
        resolved_from(
            spec_renames(inputs, spec_outputs(inputs, lines, marker)),
            res,
            batch_paths(inputs, spec_renames(inputs, spec_outputs(inputs, lines, marker))),
        ),
        forall|i: int| 0 <= i < inputs.len() ==> m0.contains_key(#[trigger] inputs[i]),
        forall|j: int|
            spec_renames(inputs, spec_outputs(inputs, lines, marker)).len() <= j < res.len()
                ==> !m0.contains_key((#[trigger] res[j]).0),
    ensures
        forall|i: int, t: Seq<char>|
            0 <= i < inputs.len() && spec_outputs(inputs, lines, marker)[i]
                == OutputSpecV::Target(t) ==> #[trigger] content_at(
                final_fs(m0, dels, res),
                t,
                m0[inputs[i]],
            ),
        forall|i: int|
            0 <= i < inputs.len() && #[trigger] spec_outputs(inputs, lines, marker)[i]
                is Unchanged ==> final_fs(m0, dels, res).contains_key(inputs[i]) && final_fs(
                m0,
                dels,
                res,
            )[inputs[i]] == m0[inputs[i]],
        forall|i: int|
            0 <= i < inputs.len() && #[trigger] spec_outputs(inputs, lines, marker)[i] is Delete
                && never_written(res, inputs[i]) ==> !final_fs(m0, dels, res).contains_key(
                inputs[i],
            ),
        forall|j: int|
            spec_renames(inputs, spec_outputs(inputs, lines, marker)).len() <= j < res.len()
                ==> !final_fs(m0, dels, res).contains_key((#[trigger] res[j]).0),
        forall|p: Seq<char>|
            #[trigger] untouched(res, p) && !dels.contains(p) ==> (final_fs(
                m0,
                dels,
                res,
            ).contains_key(p) == m0.contains_key(p) && (m0.contains_key(p) ==> final_fs(
                m0,
                dels,
                res,
            )[p] == m0[p])),
        forall|i: int|
            0 <= i < inputs.len() && #[trigger] spec_outputs(inputs, lines, marker)[i] is Target
                && never_written(res, inputs[i]) ==> !final_fs(m0, dels, res).contains_key(
                inputs[i],
            ),
{
    let n = inputs.len() as int;
    let specs = spec_outputs(inputs, lines, marker);
    let orig = spec_renames(inputs, specs);
    let av = batch_paths(inputs, orig);
    let m1 = apply_deletes(m0, dels);
    let mf = final_fs(m0, dels, res);
    assert(lines.len() == n);
    assert(forall|i: int|
        0 <= i < n ==> #[trigger] specs[i] == spec_output_of(inputs[i], lines[i], marker));
    assert forall|i: int, j: int| 0 <= i < j < n implies inputs[i] != inputs[j] by {
        if inputs[i] == inputs[j] {
            assert(false);
        }
    }
    assert forall|i: int, j: int|
        0 <= i < j < n && !spec_is_deletion(lines[i], marker) && !spec_is_deletion(
            lines[j],
            marker,
        ) implies lines[i] != lines[j] by {
        if lines[i] == lines[j] {
            assert(false);
        }
    }
    lemma_renames_wf(inputs, lines, specs, marker);
    lemma_renames_complete(inputs, specs);
    lemma_deletes_wf(inputs, specs);
    lemma_apply_deletes(m0, dels);
    // the avoid set names every batch path
    assert forall|k: int|
        0 <= k < orig.len() implies av.contains((#[trigger] orig[k]).0) && av.contains(
        orig[k].1,
    ) by {
        assert(av[n + k] == orig[k].0);
        assert(av[n + orig.len() + k] == orig[k].1);
    }
    assert forall|i: int| 0 <= i < n implies av.contains(#[trigger] inputs[i]) by {
        assert(av[i] == inputs[i]);
    }
    assert(plan_shape(orig, res, av));
    // no input marked for deletion is a rename source
    assert forall|k: int| 0 <= k < orig.len() implies !dels.contains((#[trigger] orig[k]).0) by {
        assert(rename_covered(inputs, specs, k));
        let i = choose|i: int|
            0 <= i < specs.len() && (#[trigger] specs[i]) == OutputSpecV::Target(orig[k].1)
                && orig[k].0 == inputs[i];
        if dels.contains(orig[k].0) {
            let d = choose|d: int| 0 <= d < dels.len() && dels[d] == orig[k].0;
            assert(delete_covered(inputs, specs, d));
            let i2 = choose|i2: int|
                0 <= i2 < specs.len() && (#[trigger] specs[i2]) is Delete && dels[d] == inputs[i2];
            assert(inputs[i] == inputs[i2]);
            assert(i == i2);
            assert(false);
        }
    }
    assert forall|k: int| 0 <= k < orig.len() implies m1.contains_key((#[trigger] orig[k]).0) by {
        assert(rename_covered(inputs, specs, k));
        let i = choose|i: int|
            0 <= i < specs.len() && (#[trigger] specs[i]) == OutputSpecV::Target(orig[k].1)
                && orig[k].0 == inputs[i];
        assert(m0.contains_key(orig[k].0));
    }
    assert forall|j: int| orig.len() <= j < res.len() implies !m1.contains_key(
        (#[trigger] res[j]).0,
    ) by {
        assert(!m0.contains_key(res[j].0));
    }
    assert(fs_premises(orig, res, m1));
    lemma_renames_execute(orig, res, av, m1);
    // every input marked for deletion stays out of the delete-phase state,
    // and inputs in general keep their contents through the delete phase
    assert forall|i: int|
        0 <= i < n && !(#[trigger] specs[i] is Delete) implies !dels.contains(inputs[i]) by {
        if dels.contains(inputs[i]) {
            let d = choose|d: int| 0 <= d < dels.len() && dels[d] == inputs[i];
            assert(delete_covered(inputs, specs, d));
            let i2 = choose|i2: int|
                0 <= i2 < specs.len() && (#[trigger] specs[i2]) is Delete && dels[d] == inputs[i2];
            assert(i == i2);
            assert(false);
        }
    }
    // requested targets
    assert forall|i: int, t: Seq<char>|
        0 <= i < n && specs[i] == OutputSpecV::Target(t) implies #[trigger] content_at(
        mf,
        t,
        m0[inputs[i]],
    ) by {
        assert(orig.contains((inputs[i], t)));
        let k = choose|k: int| 0 <= k < orig.len() && orig[k] == (inputs[i], t);
        assert(mf.contains_key(orig[k].1) && mf[orig[k].1] == m1[orig[k].0]);
        assert(m1.contains_key(inputs[i]));
        assert(m1[inputs[i]] == m0[inputs[i]]);
    }
    // unchanged inputs are untouched by every operation
    assert forall|i: int|
        0 <= i < n && #[trigger] specs[i] is Unchanged implies mf.contains_key(inputs[i])
            && mf[inputs[i]] == m0[inputs[i]] by {
        assert(lines[i] == inputs[i] && !spec_is_deletion(lines[i], marker));
        assert forall|u: int| 0 <= u < res.len() implies (#[trigger] res[u]).0 != inputs[i] && res[
            u
        ].1 != inputs[i] by {
            if u < orig.len() {
                assert(rename_covered(inputs, specs, u));
                let iu = choose|iu: int|
                    0 <= iu < specs.len() && (#[trigger] specs[iu]) == OutputSpecV::Target(
                        orig[u].1,
                    ) && orig[u].0 == inputs[iu];
                assert(iu != i);
                assert(res[u].0 == orig[u].0);
                assert(orig[u].1 == lines[iu] && !spec_is_deletion(lines[iu], marker));
                if res[u].1 == orig[u].1 {
                    assert(res[u].1 != inputs[i]);
                } else {
                    assert(!av.contains(res[u].1));
                    if res[u].1 == inputs[i] {
                        assert(av.contains(inputs[i]));
                        assert(false);
                    }
                }
            } else {
                assert(!av.contains(res[u].0));
                if res[u].0 == inputs[i] {
                    assert(false);
                }
                assert(appended_entry_covered(orig, res, u));
                let ku = choose|ku: int|
                    0 <= ku < orig.len() && (#[trigger] res[ku]).1 == res[u].0 && res[u].1
                        == orig[ku].1;
                assert(rename_covered(inputs, specs, ku));
                let iu = choose|iu: int|
                    0 <= iu < specs.len() && (#[trigger] specs[iu]) == OutputSpecV::Target(
                        orig[ku].1,
                    ) && orig[ku].0 == inputs[iu];
                assert(iu != i);
                assert(orig[ku].1 == lines[iu] && !spec_is_deletion(lines[iu], marker));
                assert(res[u].1 != inputs[i]);
            }
        }
        assert(untouched(res, inputs[i]));
        assert(!dels.contains(inputs[i]));
        assert(m1.contains_key(inputs[i]) && m1[inputs[i]] == m0[inputs[i]]);
        assert(mf.contains_key(inputs[i]) == m1.contains_key(inputs[i]));
        assert(mf[inputs[i]] == m1[inputs[i]]);
    }
    // deleted inputs vanish unless something is renamed onto their path
    assert forall|i: int|
        0 <= i < n && #[trigger] specs[i] is Delete && never_written(res, inputs[i])
            implies !mf.contains_key(inputs[i]) by {
        assert(dels.contains(inputs[i]));
        assert(!m1.contains_key(inputs[i]));
        assert forall|u: int| 0 <= u < res.len() implies (#[trigger] res[u]).0 != inputs[i] by {
            if u < orig.len() {
                assert(res[u].0 == orig[u].0);
                assert(!dels.contains(orig[u].0));
            } else {
                assert(!av.contains(res[u].0));
                if res[u].0 == inputs[i] {
                    assert(av.contains(inputs[i]));
                    assert(false);
                }
            }
        }
        assert(never_moved(res, inputs[i]));
        assert(untouched(res, inputs[i]));
        assert(mf.contains_key(inputs[i]) == m1.contains_key(inputs[i]));
    }
    // a renamed input's old path is vacated unless something wrote it back
    assert forall|i: int|
        0 <= i < n && #[trigger] specs[i] is Target && never_written(res, inputs[i])
            implies !mf.contains_key(inputs[i]) by {
        let t = specs[i]->Target_0;
        assert(orig.contains((inputs[i], t)));
        let k = choose|k: int| 0 <= k < orig.len() && orig[k] == (inputs[i], t);
        assert(never_written(res, orig[k].0));
        assert(!mf.contains_key(orig[k].0));
    }
    // untouched paths outside the deletion list keep their state
    assert forall|p: Seq<char>|
        #[trigger] untouched(res, p) && !dels.contains(p) implies (mf.contains_key(p)
            == m0.contains_key(p) && (m0.contains_key(p) ==> mf[p] == m0[p])) by {
        assert(m1.contains_key(p) == m0.contains_key(p));
        assert(mf.contains_key(p) == m1.contains_key(p));
    }
}

/// A listing that hands every input back unchanged yields an empty plan:
/// no deletions and no renames.
pub proof fn lemma_identity_listing_empty_plan(
    inputs: Seq<Seq<char>>,
    lines: Seq<Seq<char>>,
    marker: DeletionMarker,
    res: Seq<(Seq<char>, Seq<char>)>,
    av: Seq<Seq<char>>,
)
    requires
        lines.len() == inputs.len(),
        forall|i: int| 0 <= i < inputs.len() ==> #[trigger] lines[i] == inputs[i],
        forall|i: int|
            0 <= i < inputs.len() ==> !spec_is_deletion(#[trigger] inputs[i], marker),
        resolved_from(spec_renames(inputs, spec_outputs(inputs, lines, marker)), res, av),
    ensures
        spec_deletes(inputs, spec_outputs(inputs, lines, marker)) == Seq::<Seq<char>>::empty(),
        spec_renames(inputs, spec_outputs(inputs, lines, marker)) == Seq::<
            (Seq<char>, Seq<char>),
        >::empty(),
        res == Seq::<(Seq<char>, Seq<char>)>::empty(),
{
    let specs = spec_outputs(inputs, lines, marker);
    lemma_all_unchanged_empty(inputs, lines, marker);
    let orig = spec_renames(inputs, specs);
    assert(orig.len() == 0);
    if res.len() > 0 {
        assert(appended_entry_covered(orig, res, 0));
        let i = choose|i: int|
            0 <= i < orig.len() && (#[trigger] res[i]).1 == res[0].0 && res[0].1 == orig[i].1;
        assert(false);
    }
    assert(res =~= Seq::<(Seq<char>, Seq<char>)>::empty());
}

proof fn lemma_all_unchanged_empty(
    inputs: Seq<Seq<char>>,
    lines: Seq<Seq<char>>,
    marker: DeletionMarker,
)
    requires
        lines.len() == inputs.len(),
        forall|i: int| 0 <= i < inputs.len() ==> #[trigger] lines[i] == inputs[i],
        forall|i: int|
            0 <= i < inputs.len() ==> !spec_is_deletion(#[trigger] inputs[i], marker),
    ensures
        spec_deletes(inputs, spec_outputs(inputs, lines, marker)) == Seq::<Seq<char>>::empty(),
        spec_renames(inputs, spec_outputs(inputs, lines, marker)) == Seq::<
            (Seq<char>, Seq<char>),
        >::empty(),
    decreases inputs.len(),
{
    let specs = spec_outputs(inputs, lines, marker);
    if inputs.len() == 0 {
        assert(spec_deletes(inputs, specs) =~= Seq::<Seq<char>>::empty());
        assert(spec_renames(inputs, specs) =~= Seq::<(Seq<char>, Seq<char>)>::empty());
    } else {
        let n = inputs.len() as int;
        let ip = inputs.drop_last();
        let lp = lines.drop_last();
        lemma_all_unchanged_empty(ip, lp, marker);
        assert(specs.drop_last() =~= spec_outputs(ip, lp, marker));
        assert(specs.last() == spec_output_of(inputs[n - 1], lines[n - 1], marker));
        assert(specs.last() is Unchanged);
    }
}

/// Renaming a cycle of distinct existing files one step around leaves every
/// path present, with each path now holding its predecessor's content, and
/// no placeholder path behind.
pub proof fn lemma_cycle_round_trip(
    inputs: Seq<Seq<char>>,
    input_states: Seq<PathState>,
    lines: Seq<Seq<char>>,
    marker: DeletionMarker,
    dels: Seq<Seq<char>>,
    res: Seq<(Seq<char>, Seq<char>)>,
    m0: FsModel,
)
    requires
        input_states.len() == inputs.len(),
        inputs.len() >= 2,
        listing_valid(inputs, input_states, lines, marker),
        forall|i: int| 0 <= i < inputs.len() - 1 ==> #[trigger] lines[i] == inputs[i + 1],
        lines[inputs.len() - 1] == inputs[0],
        dels == spec_deletes(inputs, spec_outputs(inputs, lines, marker)),
        resolved_from(
            spec_renames(inputs, spec_outputs(inputs, lines, marker)),
            res,
            batch_paths(inputs, spec_renames(inputs, spec_outputs(inputs, lines, marker))),
        ),
        forall|i: int| 0 <= i < inputs.len() ==> m0.contains_key(#[trigger] inputs[i]),
        forall|j: int|
            spec_renames(inputs, spec_outputs(inputs, lines, marker)).len() <= j < res.len()
                ==> !m0.contains_key((#[trigger] res[j]).0),
    ensures
        forall|i: int|
            0 <= i < inputs.len() ==> final_fs(m0, dels, res).contains_key(#[trigger] inputs[i]),
        forall|i: int|
            0 <= i < inputs.len() - 1 ==> final_fs(m0, dels, res)[#[trigger] inputs[i + 1]]
                == m0[inputs[i]],
        final_fs(m0, dels, res)[inputs[0]] == m0[inputs[inputs.len() - 1]],
        forall|j: int|
            spec_renames(inputs, spec_outputs(inputs, lines, marker)).len() <= j < res.len()
                ==> !final_fs(m0, dels, res).contains_key((#[trigger] res[j]).0),
{
    let n = inputs.len() as int;
    let specs = spec_outputs(inputs, lines, marker);
    lemma_plan_execution(inputs, input_states, lines, marker, dels, res, m0);
    assert forall|i: int, j: int| 0 <= i < j < n implies inputs[i] != inputs[j] by {
        if inputs[i] == inputs[j] {
            assert(false);
        }
    }
    assert forall|j: int| 0 <= j < n implies !spec_is_deletion(#[trigger] inputs[j], marker) by {
        assert(!input_unusable_at(inputs, input_states, marker, j));
    }
    assert forall|i: int| 0 <= i < n implies #[trigger] specs[i] == OutputSpecV::Target(
        if i < n - 1 {
            inputs[i + 1]
        } else {
            inputs[0]
        },
    ) by {
        let succ = if i < n - 1 {
            inputs[i + 1]
        } else {
            inputs[0]
        };
        assert(lines[i] == succ);
        assert(!spec_is_deletion(inputs[i], marker) && !spec_is_deletion(succ, marker));
        assert(succ != inputs[i]);
        assert(specs[i] == spec_output_of(inputs[i], lines[i], marker));
    }
    assert forall|i: int| 0 <= i < n - 1 implies final_fs(m0, dels, res).contains_key(
        #[trigger] inputs[i + 1],
    ) && final_fs(m0, dels, res)[inputs[i + 1]] == m0[inputs[i]] by {
        assert(specs[i] == OutputSpecV::Target(inputs[i + 1]));
        assert(content_at(final_fs(m0, dels, res), inputs[i + 1], m0[inputs[i]]));
    }
    assert(specs[n - 1] == OutputSpecV::Target(inputs[0]));
    assert(content_at(final_fs(m0, dels, res), inputs[0], m0[inputs[n - 1]]));
    assert forall|i: int| 0 <= i < n implies final_fs(m0, dels, res).contains_key(
        #[trigger] inputs[i],
    ) by {
        if i == 0 {
            assert(content_at(final_fs(m0, dels, res), inputs[0], m0[inputs[n - 1]]));
        } else {
            assert(final_fs(m0, dels, res).contains_key(inputs[(i - 1) + 1]));
        }
    }
}

} // verus!
