use vstd::prelude::*;
use crate::types::DeletionMarker;
use crate::types::OutputSpec;
use crate::types::OutputSpecV;
use crate::types::PathState;
use crate::types::PlanError;
use crate::types::spec_is_deletion;
use crate::strutil::is_deletion_line;
use crate::strutil::lower_of;
use crate::strutil::lowercase;
use crate::strutil::str_eq;

verus! {

/// The listing does not have exactly one line per input.
pub open spec fn count_mismatch(inputs: Seq<Seq<char>>, lines: Seq<Seq<char>>) -> bool {
    inputs.len() != lines.len()
}

/// Two entries of `v` are identical.
pub open spec fn has_duplicate(v: Seq<Seq<char>>) -> bool {
    exists|i: int, j: int| 0 <= i < j < v.len() && v[i] == v[j]
}

/// The input at position `i` cannot take part in a plan: it is absent from
/// disk, or is itself shaped like a deletion request.
pub open spec fn input_unusable_at(
    inputs: Seq<Seq<char>>,
    states: Seq<PathState>,
    marker: DeletionMarker,
    i: int,
) -> bool {
    states[i] is Missing || spec_is_deletion(inputs[i], marker)
}

/// Some input is absent from disk or shaped like a deletion request.
pub open spec fn has_unusable_input(
    inputs: Seq<Seq<char>>,
    states: Seq<PathState>,
    marker: DeletionMarker,
) -> bool {
    exists|i: int| 0 <= i < inputs.len() && input_unusable_at(inputs, states, marker, i)
}

/// Two non-deletion lines are identical.
pub open spec fn has_output_duplicate(lines: Seq<Seq<char>>, marker: DeletionMarker) -> bool {
    exists|i: int, j: int|
        0 <= i < j < lines.len() && !spec_is_deletion(lines[i], marker) && !spec_is_deletion(
            lines[j],
            marker,
        ) && lines[i] == lines[j]
}

/// Two distinct non-deletion lines coincide once lowercased.
pub open spec fn has_case_collision(lines: Seq<Seq<char>>, marker: DeletionMarker) -> bool {
    exists|i: int, j: int|
        0 <= i < j < lines.len() && !spec_is_deletion(lines[i], marker) && !spec_is_deletion(
            lines[j],
            marker,
        ) && lower_of(lines[i]) == lower_of(lines[j]) && lines[i] != lines[j]
}

/// The fate that a trimmed line assigns to its input.
pub open spec fn spec_output_of(
    input: Seq<char>,
    line: Seq<char>,
    marker: DeletionMarker,
) -> OutputSpecV {
    if spec_is_deletion(line, marker) {
        OutputSpecV::Delete
    } else if line == input {
        OutputSpecV::Unchanged
    } else {
        OutputSpecV::Target(line)
    }
}

/// No validation check fails on this input/listing pair.
pub open spec fn listing_valid(
    inputs: Seq<Seq<char>>,
    states: Seq<PathState>,
    lines: Seq<Seq<char>>,
    marker: DeletionMarker,
) -> bool {
    &&& !count_mismatch(inputs, lines)
    &&& !has_duplicate(inputs)
    &&& !has_unusable_input(inputs, states, marker)
    &&& !has_output_duplicate(lines, marker)
    &&& !has_case_collision(lines, marker)
}

/// Index of the second member of the first identical pair in `v`, if any.
fn find_duplicate(v: &Vec<String>) -> (r: Option<usize>)
    ensures
        r is Some ==> r->0 < v.len() && (exists|i: int|
            0 <= i < r->0 && #[trigger] v.deep_view()[i] == v.deep_view()[r->0 as int]),
        r is None ==> !has_duplicate(v.deep_view()),
{
    let n = v.len();
    let mut j: usize = 1;
    while j < n
        invariant
            1 <= j <= n || n == 0,
            n == v.len(),
            forall|a: int, b: int| 0 <= a < b < j ==> v.deep_view()[a] != v.deep_view()[b],
        decreases n - j,
    {
        let mut i: usize = 0;
        while i < j
            invariant
                0 <= i <= j < n,
                n == v.len(),
                forall|a: int| 0 <= a < i ==> v.deep_view()[a] != v.deep_view()[j as int],
            decreases j - i,
        {
            if str_eq(&v[i], &v[j]) {
                assert(v.deep_view()[i as int] == v.deep_view()[j as int]);
                return Some(j);
            }
            i += 1;
        }
        j += 1;
    }
    None
}

/// Index of the first unusable input, if any.
fn find_unusable_input(
    inputs: &Vec<String>,
    states: &Vec<PathState>,
    marker: DeletionMarker,
) -> (r: Option<usize>)
    requires
        states.len() == inputs.len(),
    ensures
        r is Some ==> r->0 < inputs.len() && input_unusable_at(
            inputs.deep_view(),
            states@,
            marker,
            r->0 as int,
        ),
        r is None ==> !has_unusable_input(inputs.deep_view(), states@, marker),
{
    let n = inputs.len();
    let mut i: usize = 0;
    while i < n
        invariant
            i <= n,
            n == inputs.len(),
            states.len() == inputs.len(),
            forall|k: int|
                0 <= k < i ==> !input_unusable_at(inputs.deep_view(), states@, marker, k),
        decreases n - i,
    {
        let missing = match states[i] {
            PathState::Missing => true,
            _ => false,
        };
        if missing || is_deletion_line(&inputs[i], marker) {
            return Some(i);
        }
        i += 1;
    }
    None
}

/// Second index of the first identical pair of non-deletion lines, if any.
fn find_output_duplicate(lines: &Vec<String>, marker: DeletionMarker) -> (r: Option<usize>)
    ensures
        r is Some ==> r->0 < lines.len() && !spec_is_deletion(
            lines.deep_view()[r->0 as int],
            marker,
        ) && (exists|i: int|
            0 <= i < r->0 && !spec_is_deletion(lines.deep_view()[i], marker)
                && lines.deep_view()[i] == lines.deep_view()[r->0 as int]),
        r is None ==> !has_output_duplicate(lines.deep_view(), marker),
{
    let n = lines.len();
    let mut j: usize = 1;
    while j < n
        invariant
            1 <= j <= n || n == 0,
            n == lines.len(),
            forall|a: int, b: int|
                0 <= a < b < j ==> !(!spec_is_deletion(lines.deep_view()[a], marker)
                    && !spec_is_deletion(lines.deep_view()[b], marker) && lines.deep_view()[a]
                    == lines.deep_view()[b]),
        decreases n - j,
    {
        if !is_deletion_line(&lines[j], marker) {
            let mut i: usize = 0;
            while i < j
                invariant
                    0 <= i <= j < n,
                    n == lines.len(),
                    !spec_is_deletion(lines.deep_view()[j as int], marker),
                    forall|a: int|
                        0 <= a < i ==> !(!spec_is_deletion(lines.deep_view()[a], marker)
                            && lines.deep_view()[a] == lines.deep_view()[j as int]),
                decreases j - i,
            {
                if !is_deletion_line(&lines[i], marker) && str_eq(&lines[i], &lines[j]) {
                    assert(lines.deep_view()[i as int] == lines.deep_view()[j as int]);
                    return Some(j);
                }
                i += 1;
            }
        }
        j += 1;
    }
    None
}

/// Second index of the first pair of distinct non-deletion lines that
/// coincide once lowercased, if any.
fn find_case_collision(lines: &Vec<String>, marker: DeletionMarker) -> (r: Option<usize>)
    ensures
        r is Some ==> r->0 < lines.len() && !spec_is_deletion(
            lines.deep_view()[r->0 as int],
            marker,
        ) && (exists|i: int|
            0 <= i < r->0 && !spec_is_deletion(lines.deep_view()[i], marker) && lower_of(
                lines.deep_view()[i],
            ) == lower_of(lines.deep_view()[r->0 as int]) && lines.deep_view()[i]
                != lines.deep_view()[r->0 as int]),
        r is None ==> !has_case_collision(lines.deep_view(), marker),
{
    let n = lines.len();
    let mut lowered: Vec<String> = Vec::new();
    let mut k: usize = 0;
    while k < n
        invariant
            k <= n,
            n == lines.len(),
            lowered.len() == k,
            forall|a: int| 0 <= a < k ==> lowered.deep_view()[a] == lower_of(lines.deep_view()[a]),
        decreases n - k,
    {
        let ghost old_dv = lowered.deep_view();
        let low = lowercase(&lines[k]);
        lowered.push(low);
        proof {
            assert(lowered.deep_view() =~= old_dv.push(lower_of(lines.deep_view()[k as int])));
        }
        k += 1;
    }
    let mut j: usize = 1;
    while j < n
        invariant
            1 <= j <= n || n == 0,
            n == lines.len(),
            lowered.len() == n,
            forall|a: int| 0 <= a < n ==> lowered.deep_view()[a] == lower_of(lines.deep_view()[a]),
            forall|a: int, b: int|
                0 <= a < b < j ==> !(!spec_is_deletion(lines.deep_view()[a], marker)
                    && !spec_is_deletion(lines.deep_view()[b], marker) && lower_of(
                    lines.deep_view()[a],
                ) == lower_of(lines.deep_view()[b]) && lines.deep_view()[a]
                    != lines.deep_view()[b]),
        decreases n - j,
    {
        if !is_deletion_line(&lines[j], marker) {
            let mut i: usize = 0;
            while i < j
                invariant
                    0 <= i <= j < n,
                    n == lines.len(),
                    lowered.len() == n,
                    !spec_is_deletion(lines.deep_view()[j as int], marker),
                    forall|a: int|
                        0 <= a < n ==> lowered.deep_view()[a] == lower_of(lines.deep_view()[a]),
                    forall|a: int|
                        0 <= a < i ==> !(!spec_is_deletion(lines.deep_view()[a], marker)
                            && lower_of(lines.deep_view()[a]) == lower_of(
                            lines.deep_view()[j as int],
                        ) && lines.deep_view()[a] != lines.deep_view()[j as int]),
                decreases j - i,
            {
                proof {
                    assert(lowered@[i as int]@ == lowered.deep_view()[i as int]);
                    assert(lowered@[j as int]@ == lowered.deep_view()[j as int]);
                }
                if !is_deletion_line(&lines[i], marker) && str_eq(&lowered[i], &lowered[j])
                    && !str_eq(&lines[i], &lines[j]) {
                    assert(lower_of(lines.deep_view()[i as int]) == lower_of(
                        lines.deep_view()[j as int],
                    ));
                    return Some(j);
                }
                i += 1;
            }
        }
        j += 1;
    }
    None
}

/// Checks the input list against the edited listing and, when everything is
/// well-formed, assigns each input its fate. The checks run in a fixed
/// order and the first failure is reported: line count, duplicate inputs,
/// unusable inputs, duplicate outputs, case-insensitive collisions.
pub fn validate(
    inputs: &Vec<String>,
    states: &Vec<PathState>,
    lines: &Vec<String>,
    marker: DeletionMarker,
) -> (r: Result<Vec<OutputSpec>, PlanError>)
    requires
        states.len() == inputs.len(),
    ensures
        r is Ok <==> listing_valid(inputs.deep_view(), states@, lines.deep_view(), marker),
        r matches Ok(specs) ==> specs.deep_view().len() == inputs.len() && (forall|i: int|
            0 <= i < inputs.len() ==> specs.deep_view()[i] == spec_output_of(
                inputs.deep_view()[i],
                lines.deep_view()[i],
                marker,
            )),
        r matches Err(e) ==> {
            let cm = count_mismatch(inputs.deep_view(), lines.deep_view());
            let di = has_duplicate(inputs.deep_view());
            let mi = has_unusable_input(inputs.deep_view(), states@, marker);
            let dv = has_output_duplicate(lines.deep_view(), marker);
            let cc = has_case_collision(lines.deep_view(), marker);
            &&& (e is CountMismatch <==> cm)
            &&& (e is DuplicateInput <==> !cm && di)
            &&& (e is MissingInput <==> !cm && !di && mi)
            &&& (e is DuplicateOutput <==> !cm && !di && !mi && dv)
            &&& (e is CaseCollision <==> !cm && !di && !mi && !dv && cc)
        },
        r matches Err(PlanError::CountMismatch(a, b)) ==> a == inputs.len() && b == lines.len(),
        r matches Err(PlanError::DuplicateInput(name)) ==> exists|i: int, j: int|
            0 <= i < j < inputs.len() && inputs.deep_view()[i] == inputs.deep_view()[j]
                && inputs.deep_view()[j] == name@,
        r matches Err(PlanError::MissingInput(name)) ==> exists|i: int|
            0 <= i < inputs.len() && input_unusable_at(inputs.deep_view(), states@, marker, i)
                && inputs.deep_view()[i] == name@,
        r matches Err(PlanError::DuplicateOutput(name)) ==> exists|i: int, j: int|
            0 <= i < j < lines.len() && !spec_is_deletion(lines.deep_view()[i], marker)
                && !spec_is_deletion(lines.deep_view()[j], marker) && lines.deep_view()[i]
                == lines.deep_view()[j] && lines.deep_view()[j] == name@,
        r matches Err(PlanError::CaseCollision(name)) ==> exists|i: int, j: int|
            0 <= i < j < lines.len() && !spec_is_deletion(lines.deep_view()[i], marker)
                && !spec_is_deletion(lines.deep_view()[j], marker) && lower_of(
                lines.deep_view()[i],
            ) == lower_of(lines.deep_view()[j]) && lines.deep_view()[i] != lines.deep_view()[j]
                && lines.deep_view()[j] == name@,
{
    if lines.len() != inputs.len() {
        return Err(PlanError::CountMismatch(inputs.len(), lines.len()));
    }
    if let Some(j) = find_duplicate(inputs) {
        return Err(PlanError::DuplicateInput(inputs[j].clone()));
    }
    if let Some(i) = find_unusable_input(inputs, states, marker) {
        let name = inputs[i].clone();
        proof {
            assert(inputs.deep_view()[i as int] == name@);
        }
        return Err(PlanError::MissingInput(name));
    }
    if let Some(j) = find_output_duplicate(lines, marker) {
        return Err(PlanError::DuplicateOutput(lines[j].clone()));
    }
    if let Some(j) = find_case_collision(lines, marker) {
        return Err(PlanError::CaseCollision(lines[j].clone()));
    }
    let n = inputs.len();
    let mut specs: Vec<OutputSpec> = Vec::new();
    let mut i: usize = 0;
    while i < n
        invariant
            i <= n,
            n == inputs.len(),
            n == lines.len(),
            specs.deep_view().len() == i,
            forall|k: int|
                0 <= k < i ==> specs.deep_view()[k] == spec_output_of(
                    inputs.deep_view()[k],
                    lines.deep_view()[k],
                    marker,
                ),
        decreases n - i,
    {
        let spec_i = if is_deletion_line(&lines[i], marker) {
            OutputSpec::Delete
        } else if str_eq(&lines[i], &inputs[i]) {
            OutputSpec::Unchanged
        } else {
            OutputSpec::Target(lines[i].clone())
        };
        let ghost old_dv = specs.deep_view();
        let ghost sv = spec_i@;
        specs.push(spec_i);
        proof {
            assert(specs.deep_view() =~= old_dv.push(sv));
        }
        i += 1;
    }
    Ok(specs)
}

} // verus!
