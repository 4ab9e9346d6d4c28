use vstd::prelude::*;
use crate::types::DeletionMarker;
use crate::types::OutputSpec;
use crate::types::OutputSpecV;
use crate::types::PathState;
use crate::types::Plan;
use crate::types::PlanError;
use crate::types::RenameOp;
use crate::validate::validate;
use crate::validate::listing_valid;
use crate::validate::spec_output_of;
use crate::validate::count_mismatch;
use crate::validate::has_duplicate;
use crate::validate::has_unusable_input;
use crate::validate::has_output_duplicate;
use crate::validate::has_case_collision;
use crate::classify::classify;
use crate::classify::lemma_renames_wf;
use crate::classify::pair_ok;
use crate::classify::pair_fail_matches;
use crate::classify::spec_deletes;
use crate::classify::spec_renames;
use crate::resolve::resolve;
use crate::resolve::resolved_from;
use crate::resolve::deferral_needed;
use crate::types::spec_is_deletion;
use crate::validate::input_unusable_at;
use crate::strutil::lower_of;

verus! {

/// The fate of every pair, derived positionally from inputs and lines.
pub open spec fn spec_outputs(
    inputs: Seq<Seq<char>>,
    lines: Seq<Seq<char>>,
    marker: DeletionMarker,
) -> Seq<OutputSpecV> {
    Seq::new(inputs.len(), |i: int| spec_output_of(inputs[i], lines[i], marker))
}

/// The paths that a batch mentions: every input, then the source and
/// destination of every classified rename.
pub open spec fn batch_paths(
    inputs: Seq<Seq<char>>,
    rens: Seq<(Seq<char>, Seq<char>)>,
) -> Seq<Seq<char>> {
    inputs + rens.map_values(|p: (Seq<char>, Seq<char>)| p.0) + rens.map_values(
        |p: (Seq<char>, Seq<char>)| p.1,
    )
}

/// Collects the batch paths as an executable vector.
fn collect_batch_paths(inputs: &Vec<String>, rens: &Vec<RenameOp>) -> (r: Vec<String>)
    ensures
        r.deep_view() == batch_paths(inputs.deep_view(), rens.deep_view()),
{
    let mut out: Vec<String> = Vec::new();
    let n = inputs.len();
    let mut i: usize = 0;
    while i < n
        invariant
            i <= n,
            n == inputs.len(),
            out.deep_view().len() == i,
            forall|k: int| 0 <= k < i ==> out.deep_view()[k] == inputs.deep_view()[k],
        decreases n - i,
    {
        let ghost old_dv = out.deep_view();
        out.push(inputs[i].clone());
        proof {
            assert(out.deep_view() =~= old_dv.push(inputs.deep_view()[i as int]));
        }
        i += 1;
    }
    let m = rens.len();
    let mut k: usize = 0;
    while k < m
        invariant
            k <= m,
            m == rens.len(),
            n == inputs.len(),
            out.deep_view().len() == n + k,
            forall|j: int| 0 <= j < n ==> out.deep_view()[j] == inputs.deep_view()[j],
            forall|j: int|
                0 <= j < k ==> out.deep_view()[n + j] == (#[trigger] rens.deep_view()[j]).0,
        decreases m - k,
    {
        let ghost old_dv = out.deep_view();
        out.push(rens[k].src.clone());
        proof {
            assert(out.deep_view() =~= old_dv.push(rens.deep_view()[k as int].0));
        }
        k += 1;
    }
    let mut k2: usize = 0;
    while k2 < m
        invariant
            k2 <= m,
            m == rens.len(),
            n == inputs.len(),
            out.deep_view().len() == n + m + k2,
            forall|j: int| 0 <= j < n ==> out.deep_view()[j] == inputs.deep_view()[j],
            forall|j: int|
                0 <= j < m ==> out.deep_view()[n + j] == (#[trigger] rens.deep_view()[j]).0,
            forall|j: int|
                0 <= j < k2 ==> out.deep_view()[n + m + j] == (#[trigger] rens.deep_view()[j]).1,
        decreases m - k2,
    {
        let ghost old_dv = out.deep_view();
        out.push(rens[k2].dst.clone());
        proof {
            assert(out.deep_view() =~= old_dv.push(rens.deep_view()[k2 as int].1));
        }
        k2 += 1;
    }
    proof {
        assert(out.deep_view() =~= batch_paths(inputs.deep_view(), rens.deep_view()));
    }
    out
}

/// Builds the full plan for one batch: validation, per-pair classification,
/// then cycle resolution. The filesystem is only consulted through the two
/// state vectors and through the temp-name probe; nothing is mutated.
pub fn build_plan(
    inputs: &Vec<String>,
    input_states: &Vec<PathState>,
    lines: &Vec<String>,
    output_states: &Vec<PathState>,
    marker: DeletionMarker,
    force: bool,
    delete: bool,
) -> (r: Result<Plan, PlanError>)
    requires
        input_states.len() == inputs.len(),
        output_states.len() == lines.len(),
    ensures
        r matches Ok(plan) ==> {
            let specs = spec_outputs(inputs.deep_view(), lines.deep_view(), marker);
            &&& listing_valid(inputs.deep_view(), input_states@, lines.deep_view(), marker)
            &&& forall|i: int|
                0 <= i < inputs.len() ==> pair_ok(
                    inputs.deep_view(),
                    specs,
                    output_states@,
                    force,
                    delete,
                    i,
                )
            &&& plan.deletes.deep_view() == spec_deletes(inputs.deep_view(), specs)
            &&& resolved_from(
                spec_renames(inputs.deep_view(), specs),
                plan.renames.deep_view(),
                batch_paths(inputs.deep_view(), spec_renames(inputs.deep_view(), specs)),
            )
        },
        r matches Err(e) ==> {
            let cm = count_mismatch(inputs.deep_view(), lines.deep_view());
            let di = has_duplicate(inputs.deep_view());
            let mi = has_unusable_input(inputs.deep_view(), input_states@, marker);
            let dv = has_output_duplicate(lines.deep_view(), marker);
            let cc = has_case_collision(lines.deep_view(), marker);
            &&& (e is CountMismatch <==> cm)
            &&& (e is DuplicateInput <==> !cm && di)
            &&& (e is MissingInput <==> !cm && !di && mi)
            &&& (e is DuplicateOutput <==> !cm && !di && !mi && dv)
            &&& (e is CaseCollision <==> !cm && !di && !mi && !dv && cc)
        },
        r matches Err(e) ==> !(e is TempNameExhausted) && listing_valid(
            inputs.deep_view(),
            input_states@,
            lines.deep_view(),
            marker,
        ) ==> exists|i: int|
            0 <= i < inputs.len() && !(#[trigger] pair_ok(
                inputs.deep_view(),
                spec_outputs(inputs.deep_view(), lines.deep_view(), marker),
                output_states@,
                force,
                delete,
                i,
            )) && (forall|k: int|
                0 <= k < i ==> pair_ok(
                    inputs.deep_view(),
                    spec_outputs(inputs.deep_view(), lines.deep_view(), marker),
                    output_states@,
                    force,
                    delete,
                    k,
                )) && pair_fail_matches(
                inputs.deep_view(),
                spec_outputs(inputs.deep_view(), lines.deep_view(), marker),
                output_states@,
                e,
                i,
            ),
        r is Err ==> !(listing_valid(inputs.deep_view(), input_states@, lines.deep_view(), marker)
            && (forall|i: int|
            0 <= i < inputs.len() ==> pair_ok(
                inputs.deep_view(),
                spec_outputs(inputs.deep_view(), lines.deep_view(), marker),
                output_states@,
                force,
                delete,
                i,
            ))) || (r matches Err(e) && e is TempNameExhausted),
        r matches Err(PlanError::CountMismatch(a, b)) ==> a == inputs.len() && b == lines.len(),
        r matches Err(PlanError::DuplicateInput(name)) ==> exists|i: int, j: int|
            0 <= i < j < inputs.len() && #[trigger] inputs.deep_view()[i]
                == #[trigger] inputs.deep_view()[j] && inputs.deep_view()[j] == name@,
        r matches Err(PlanError::MissingInput(name)) ==> exists|i: int|
            0 <= i < inputs.len() && #[trigger] input_unusable_at(
                inputs.deep_view(),
                input_states@,
                marker,
                i,
            ) && inputs.deep_view()[i] == name@,
        r matches Err(PlanError::DuplicateOutput(name)) ==> exists|i: int, j: int|
            0 <= i < j < lines.len() && !spec_is_deletion(#[trigger] lines.deep_view()[i], marker)
                && !spec_is_deletion(#[trigger] lines.deep_view()[j], marker)
                && lines.deep_view()[i] == lines.deep_view()[j] && lines.deep_view()[j] == name@,
        r matches Err(PlanError::CaseCollision(name)) ==> exists|i: int, j: int|
            0 <= i < j < lines.len() && !spec_is_deletion(#[trigger] lines.deep_view()[i], marker)
                && !spec_is_deletion(#[trigger] lines.deep_view()[j], marker) && lower_of(
                lines.deep_view()[i],
            ) == lower_of(lines.deep_view()[j]) && lines.deep_view()[i] != lines.deep_view()[j]
                && lines.deep_view()[j] == name@,
        r matches Err(e) ==> e is TempNameExhausted ==> listing_valid(
            inputs.deep_view(),
            input_states@,
            lines.deep_view(),
            marker,
        ) && (forall|i: int|
            0 <= i < inputs.len() ==> pair_ok(
                inputs.deep_view(),
                spec_outputs(inputs.deep_view(), lines.deep_view(), marker),
                output_states@,
                force,
                delete,
                i,
            )) && (exists|i: int|
            0 <= i < spec_renames(
                inputs.deep_view(),
                spec_outputs(inputs.deep_view(), lines.deep_view(), marker),
            ).len() && #[trigger] deferral_needed(
                spec_renames(
                    inputs.deep_view(),
                    spec_outputs(inputs.deep_view(), lines.deep_view(), marker),
                ),
                i,
            )),
{
    let specs = match validate(inputs, input_states, lines, marker) {
        Ok(specs) => specs,
        Err(e) => {
            return Err(e);
        },
    };
    let ghost specsv = spec_outputs(inputs.deep_view(), lines.deep_view(), marker);
    proof {
        assert(specs.deep_view() =~= specsv);
    }
    let (dels, rens) = match classify(inputs, &specs, output_states, force, delete) {
        Ok(p) => p,
        Err(e) => {
            return Err(e);
        },
    };
    proof {
        lemma_renames_wf(inputs.deep_view(), lines.deep_view(), specsv, marker);
    }
    let avoid = collect_batch_paths(inputs, &rens);
    proof {
        let rv = rens.deep_view();
        let av = avoid.deep_view();
        let iv = inputs.deep_view();
        assert forall|k: int|
            0 <= k < rens.len() implies av.contains((#[trigger] rv[k]).0) && av.contains(
            rv[k].1,
        ) by {
            assert(av[iv.len() + k] == rv[k].0);
            assert(av[iv.len() + rv.len() + k] == rv[k].1);
        }
    }
    let resolved = match resolve(&rens, avoid) {
        Ok(res) => res,
        Err(e) => {
            proof {
                let i = choose|i: int|
                    0 <= i < rens.len() && #[trigger] deferral_needed(rens.deep_view(), i);
                assert(rens.deep_view() == spec_renames(inputs.deep_view(), specsv));
                assert(deferral_needed(
                    spec_renames(
                        inputs.deep_view(),
                        spec_outputs(inputs.deep_view(), lines.deep_view(), marker),
                    ),
                    i,
                ));
            }
            return Err(e);
        },
    };
    Ok(Plan { deletes: dels, renames: resolved })
}

} // verus!
