use vimv::parse_listing;
use vimv::get_temp_filename;
use vimv::validate;
use vimv::DeletionMarker;
use vimv::OutputSpec;
use vimv::PathState;

#[test]
fn splits_on_newlines() {
    let text = "a.txt\nb.txt\n".to_string();
    let lines = parse_listing(&text);
    assert_eq!(lines, vec!["a.txt".to_string(), "b.txt".to_string()]);
}

#[test]
fn no_trailing_newline() {
    let text = "a.txt\nb.txt".to_string();
    let lines = parse_listing(&text);
    assert_eq!(lines, vec!["a.txt".to_string(), "b.txt".to_string()]);
}

#[test]
fn trims_each_line() {
    let text = "  a.txt \r\n\tb.txt\n".to_string();
    let lines = parse_listing(&text);
    assert_eq!(lines, vec!["a.txt".to_string(), "b.txt".to_string()]);
}

#[test]
fn empty_text_has_no_lines() {
    let text = String::new();
    let lines = parse_listing(&text);
    assert_eq!(lines.len(), 0);
}

#[test]
fn interior_empty_line_is_kept() {
    let text = "a\n\n".to_string();
    let lines = parse_listing(&text);
    assert_eq!(lines, vec!["a".to_string(), "".to_string()]);
}

#[test]
fn validate_assigns_fates() {
    let inputs = vec!["a.txt".to_string(), "b.txt".to_string(), "c.txt".to_string()];
    let states = vec![PathState::IsFile, PathState::IsFile, PathState::IsFile];
    let lines = vec!["a.txt".to_string(), "#b.txt".to_string(), "d.txt".to_string()];
    let specs = validate(&inputs, &states, &lines, DeletionMarker::PrefixSymbol('#')).unwrap();
    assert!(matches!(specs[0], OutputSpec::Unchanged));
    assert!(matches!(specs[1], OutputSpec::Delete));
    match &specs[2] {
        OutputSpec::Target(t) => assert_eq!(t, "d.txt"),
        other => panic!("expected a target, got {:?}", other),
    }
}

#[test]
fn temp_name_has_expected_shape() {
    let base = "some_file.txt".to_string();
    let avoid: Vec<String> = vec!["some_file.txt".to_string()];
    let t = get_temp_filename(&base, &avoid).unwrap();
    assert!(t.starts_with("some_file.txt.vimv_temp_"));
    let suffix = &t["some_file.txt.vimv_temp_".len()..];
    assert_eq!(suffix.len(), 4);
    assert!(suffix.chars().all(|c| c.is_ascii_digit()));
    assert!(!avoid.contains(&t));
}

#[test]
fn leading_empty_line_is_kept() {
    let text = "\na.txt\n".to_string();
    let lines = parse_listing(&text);
    assert_eq!(lines, vec!["".to_string(), "a.txt".to_string()]);
}
