use vimv::build_plan;
use vimv::DeletionMarker;
use vimv::PathState;
use vimv::Plan;
use vimv::PlanError;

fn strs(v: &[&str]) -> Vec<String> {
    v.iter().map(|s| s.to_string()).collect()
}

/// An in-memory filesystem fake: a list of (path, content) pairs.
fn fake_fs(v: &[(&str, &str)]) -> Vec<(String, String)> {
    v.iter().map(|(p, c)| (p.to_string(), c.to_string())).collect()
}

fn fs_get<'a>(fs: &'a [(String, String)], path: &str) -> Option<&'a str> {
    fs.iter().find(|(p, _)| p == path).map(|(_, c)| c.as_str())
}

fn fs_remove(fs: &mut Vec<(String, String)>, path: &str) -> Option<String> {
    let idx = fs.iter().position(|(p, _)| p == path)?;
    Some(fs.remove(idx).1)
}

/// Applies the plan to the fake filesystem: all deletions, then all renames
/// in order, exactly as the executor would.
fn apply_plan(fs: &mut Vec<(String, String)>, plan: &Plan) {
    for d in &plan.deletes {
        fs_remove(fs, d);
    }
    for op in &plan.renames {
        let content = fs_remove(fs, &op.src).expect("rename source must exist");
        fs_remove(fs, &op.dst);
        fs.push((op.dst.clone(), content));
    }
}

fn state_of(fs: &[(String, String)], path: &str) -> PathState {
    if fs_get(fs, path).is_some() {
        PathState::IsFile
    } else {
        PathState::Missing
    }
}

fn plan_for(
    fs: &[(String, String)],
    inputs: &[&str],
    lines: &[&str],
    marker: DeletionMarker,
    force: bool,
    delete: bool,
) -> Result<Plan, PlanError> {
    let input_v = strs(inputs);
    let line_v = strs(lines);
    let input_states: Vec<PathState> = inputs.iter().map(|p| state_of(fs, p)).collect();
    let output_states: Vec<PathState> = lines.iter().map(|p| state_of(fs, p)).collect();
    build_plan(&input_v, &input_states, &line_v, &output_states, marker, force, delete)
}

const HASH: DeletionMarker = DeletionMarker::PrefixSymbol('#');

#[test]
fn simple_rename_moves_content() {
    let mut fs = fake_fs(&[("a.txt", "alpha")]);
    let plan = plan_for(&fs, &["a.txt"], &["b.txt"], HASH, false, false).unwrap();
    assert_eq!(plan.deletes.len(), 0);
    assert_eq!(plan.renames.len(), 1);
    assert_eq!(plan.renames[0].src, "a.txt");
    assert_eq!(plan.renames[0].dst, "b.txt");
    apply_plan(&mut fs, &plan);
    assert_eq!(fs_get(&fs, "b.txt"), Some("alpha"));
    assert_eq!(fs_get(&fs, "a.txt"), None);
}

#[test]
fn swap_resolves_with_one_temporary_hop() {
    let mut fs = fake_fs(&[("a.txt", "alpha"), ("b.txt", "beta")]);
    let plan = plan_for(&fs, &["a.txt", "b.txt"], &["b.txt", "a.txt"], HASH, false, false)
        .unwrap();
    assert_eq!(plan.deletes.len(), 0);
    assert_eq!(plan.renames.len(), 3);
    apply_plan(&mut fs, &plan);
    assert_eq!(fs_get(&fs, "a.txt"), Some("beta"));
    assert_eq!(fs_get(&fs, "b.txt"), Some("alpha"));
    assert_eq!(fs.len(), 2);
    assert!(fs.iter().all(|(p, _)| !p.contains(".vimv_temp_")));
}

#[test]
fn three_cycle_round_trip() {
    let mut fs = fake_fs(&[("a", "1"), ("b", "2"), ("c", "3")]);
    let plan = plan_for(&fs, &["a", "b", "c"], &["b", "c", "a"], HASH, false, false).unwrap();
    apply_plan(&mut fs, &plan);
    assert_eq!(fs_get(&fs, "b"), Some("1"));
    assert_eq!(fs_get(&fs, "c"), Some("2"));
    assert_eq!(fs_get(&fs, "a"), Some("3"));
    assert_eq!(fs.len(), 3);
    assert!(fs.iter().all(|(p, _)| !p.contains(".vimv_temp_")));
}

#[test]
fn chain_rename_preserves_all_content() {
    // a -> b while b -> c: b must be vacated before a's content arrives
    let mut fs = fake_fs(&[("a", "1"), ("b", "2")]);
    let plan = plan_for(&fs, &["a", "b"], &["b", "c"], HASH, false, false).unwrap();
    apply_plan(&mut fs, &plan);
    assert_eq!(fs_get(&fs, "b"), Some("1"));
    assert_eq!(fs_get(&fs, "c"), Some("2"));
    assert_eq!(fs.len(), 2);
}

#[test]
fn identity_listing_gives_empty_plan() {
    let fs = fake_fs(&[("a.txt", "alpha"), ("b.txt", "beta")]);
    let plan = plan_for(&fs, &["a.txt", "b.txt"], &["a.txt", "b.txt"], HASH, false, false)
        .unwrap();
    assert_eq!(plan.deletes.len(), 0);
    assert_eq!(plan.renames.len(), 0);
}

#[test]
fn count_mismatch_fails() {
    let fs = fake_fs(&[("a.txt", "alpha"), ("b.txt", "beta")]);
    let err = plan_for(&fs, &["a.txt", "b.txt"], &["c.txt"], HASH, false, false).unwrap_err();
    match err {
        PlanError::CountMismatch(ins, outs) => {
            assert_eq!(ins, 2);
            assert_eq!(outs, 1);
        },
        other => panic!("expected CountMismatch, got {:?}", other),
    }
}

#[test]
fn case_collision_fails() {
    let fs = fake_fs(&[("a.txt", "alpha"), ("b.txt", "beta")]);
    let err = plan_for(&fs, &["a.txt", "b.txt"], &["File.txt", "file.txt"], HASH, false, false)
        .unwrap_err();
    assert!(matches!(err, PlanError::CaseCollision(_)));
}

#[test]
fn duplicate_input_fails() {
    let fs = fake_fs(&[("a.txt", "alpha")]);
    let err = plan_for(&fs, &["a.txt", "a.txt"], &["b.txt", "c.txt"], HASH, false, false)
        .unwrap_err();
    match err {
        PlanError::DuplicateInput(name) => assert_eq!(name, "a.txt"),
        other => panic!("expected DuplicateInput, got {:?}", other),
    }
}

#[test]
fn missing_input_fails() {
    let fs = fake_fs(&[("a.txt", "alpha")]);
    let err = plan_for(&fs, &["a.txt", "gone.txt"], &["b.txt", "c.txt"], HASH, false, false)
        .unwrap_err();
    match err {
        PlanError::MissingInput(name) => assert_eq!(name, "gone.txt"),
        other => panic!("expected MissingInput, got {:?}", other),
    }
}

#[test]
fn marker_shaped_input_fails() {
    let fs = fake_fs(&[("#a.txt", "alpha")]);
    let err = plan_for(&fs, &["#a.txt"], &["b.txt"], HASH, false, false).unwrap_err();
    assert!(matches!(err, PlanError::MissingInput(_)));
}

#[test]
fn duplicate_output_fails() {
    let fs = fake_fs(&[("a.txt", "alpha"), ("b.txt", "beta")]);
    let err = plan_for(&fs, &["a.txt", "b.txt"], &["c.txt", "c.txt"], HASH, false, false)
        .unwrap_err();
    match err {
        PlanError::DuplicateOutput(name) => assert_eq!(name, "c.txt"),
        other => panic!("expected DuplicateOutput, got {:?}", other),
    }
}

#[test]
fn delete_disabled_fails_and_leaves_input() {
    let fs = fake_fs(&[("x.txt", "keep")]);
    let err = plan_for(&fs, &["x.txt"], &[""], DeletionMarker::EmptyLine, false, false)
        .unwrap_err();
    match err {
        PlanError::DeleteNotEnabled(name) => assert_eq!(name, "x.txt"),
        other => panic!("expected DeleteNotEnabled, got {:?}", other),
    }
    // no plan was produced, so nothing is applied and the file remains
    assert_eq!(fs_get(&fs, "x.txt"), Some("keep"));
}

#[test]
fn delete_enabled_emits_deletion() {
    let mut fs = fake_fs(&[("x.txt", "gone"), ("y.txt", "kept")]);
    let plan = plan_for(&fs, &["x.txt", "y.txt"], &["", "y.txt"], DeletionMarker::EmptyLine,
        false, true).unwrap();
    assert_eq!(plan.deletes, vec!["x.txt".to_string()]);
    assert_eq!(plan.renames.len(), 0);
    apply_plan(&mut fs, &plan);
    assert_eq!(fs_get(&fs, "x.txt"), None);
    assert_eq!(fs_get(&fs, "y.txt"), Some("kept"));
}

#[test]
fn hash_marker_emits_deletion() {
    let fs = fake_fs(&[("x.txt", "gone")]);
    let plan = plan_for(&fs, &["x.txt"], &["#x.txt"], HASH, false, true).unwrap();
    assert_eq!(plan.deletes, vec!["x.txt".to_string()]);
}

#[test]
fn overwrite_requires_force() {
    let fs = fake_fs(&[("a.txt", "alpha"), ("b.txt", "beta")]);
    let err = plan_for(&fs, &["a.txt"], &["b.txt"], HASH, false, false).unwrap_err();
    match err {
        PlanError::OverwriteNotForced(name) => assert_eq!(name, "b.txt"),
        other => panic!("expected OverwriteNotForced, got {:?}", other),
    }
}

#[test]
fn overwrite_with_force_succeeds() {
    let mut fs = fake_fs(&[("a.txt", "alpha"), ("b.txt", "beta")]);
    let plan = plan_for(&fs, &["a.txt"], &["b.txt"], HASH, true, false).unwrap();
    apply_plan(&mut fs, &plan);
    assert_eq!(fs_get(&fs, "b.txt"), Some("alpha"));
    assert_eq!(fs.len(), 1);
}

#[test]
fn directory_overwrite_fails() {
    let fs = fake_fs(&[("a.txt", "alpha")]);
    let input_v = strs(&["a.txt"]);
    let line_v = strs(&["some_dir"]);
    let input_states = vec![PathState::IsFile];
    let output_states = vec![PathState::IsDir];
    let err = build_plan(&input_v, &input_states, &line_v, &output_states, HASH, true, false)
        .unwrap_err();
    match err {
        PlanError::DirectoryOverwrite(name) => assert_eq!(name, "some_dir"),
        other => panic!("expected DirectoryOverwrite, got {:?}", other),
    }
    assert_eq!(fs.len(), 1);
}

#[test]
fn directory_inside_batch_may_be_cycled() {
    // "b" is a directory, but it is itself an input being moved away
    let input_v = strs(&["a", "b"]);
    let line_v = strs(&["b", "c"]);
    let input_states = vec![PathState::IsFile, PathState::IsDir];
    let output_states = vec![PathState::IsDir, PathState::Missing];
    let plan = build_plan(&input_v, &input_states, &line_v, &output_states, HASH, false, false)
        .unwrap();
    // moving "a" onto "b" is deferred through a placeholder until "b" has
    // been moved to "c"
    assert_eq!(plan.renames.len(), 3);
    assert_eq!(plan.renames[0].src, "a");
    assert!(plan.renames[0].dst.contains(".vimv_temp_"));
    assert_eq!(plan.renames[1].src, "b");
    assert_eq!(plan.renames[1].dst, "c");
    assert_eq!(plan.renames[2].src, plan.renames[0].dst);
    assert_eq!(plan.renames[2].dst, "b");
}

#[test]
fn nested_destination_is_planned() {
    let mut fs = fake_fs(&[("old/report.txt", "annual")]);
    let plan = plan_for(&fs, &["old/report.txt"], &["new/sub/report.txt"], HASH, false, false)
        .unwrap();
    assert_eq!(plan.renames.len(), 1);
    assert_eq!(plan.renames[0].src, "old/report.txt");
    assert_eq!(plan.renames[0].dst, "new/sub/report.txt");
    apply_plan(&mut fs, &plan);
    assert_eq!(fs_get(&fs, "new/sub/report.txt"), Some("annual"));
}
