use envsync::commands::diff_json;
use envsync::sync::EnvSync;

#[test]
fn merge_prefers_other_and_keeps_base_only_keys() {
    let mut base = EnvSync::from_str("A=1\nB=2").unwrap();
    let other = EnvSync::from_str("B=3\nC=4").unwrap();
    base.merge(&other);
    assert_eq!(base.get("A"), Some("1"));
    assert_eq!(base.get("B"), Some("3"));
    assert_eq!(base.get("C"), Some("4"));
    assert_eq!(base.vars().len(), 3);
}

#[test]
fn merge_then_diff_leaves_nothing_to_add_or_change() {
    let mut base = EnvSync::from_str("A=1\nB=2\nD=9").unwrap();
    let other = EnvSync::from_str("B=3\nC=4").unwrap();
    base.merge(&other);
    let diff = base.diff(&other);
    assert!(diff.added.is_empty());
    assert!(diff.changed.is_empty());
    assert_eq!(diff.unchanged.len(), 2);
    assert_eq!(diff.removed.len(), 2);
}

#[test]
fn diff_with_itself_is_empty() {
    let env = EnvSync::from_str("A=1\nB=2").unwrap();
    let diff = env.diff(&env);
    assert!(diff.added.is_empty());
    assert!(diff.removed.is_empty());
    assert!(diff.changed.is_empty());
    assert_eq!(diff.unchanged.len(), 2);
}

#[test]
fn diff_reports_each_target_variable_once() {
    let base = EnvSync::from_str("A=1\nB=2\nC=3").unwrap();
    let target = EnvSync::from_str("A=1\nB=20\nD=4\nE=5").unwrap();
    let diff = base.diff(&target);
    assert_eq!(diff.added.len() + diff.changed.len() + diff.unchanged.len(), 4);
    assert_eq!(diff.added.len(), 2);
    assert_eq!(diff.changed.len(), 1);
    assert_eq!(diff.changed[0].key, "B");
    assert_eq!(diff.changed[0].old_value, "2");
    assert_eq!(diff.changed[0].new_value, "20");
    assert_eq!(diff.removed.len(), 1);
    assert_eq!(diff.removed[0].key, "C");
    assert_eq!(diff.unchanged[0].key, "A");
}

#[test]
fn to_string_pretty_sorts_and_quotes() {
    let env = EnvSync::from_str("B='hello world'\nA=x\"y\nC=plain\nD=a#b").unwrap();
    assert_eq!(
        env.to_string_pretty(),
        "A=\"x\\\"y\"\nB=\"hello world\"\nC=plain\nD=\"a#b\""
    );
}

#[test]
fn sorted_vars_by_key_and_by_line() {
    let env = EnvSync::from_str("Z=1\nA=2\nM=3").unwrap();
    let by_key: Vec<String> = env.sorted_vars(true).iter().map(|v| v.key.clone()).collect();
    assert_eq!(by_key, vec!["A", "M", "Z"]);
    let mut merged = EnvSync::from_str("Q=1").unwrap();
    merged.merge(&env);
    let by_line: Vec<usize> = merged.sorted_vars(false).iter().map(|v| v.line_number).collect();
    assert_eq!(by_line, vec![1, 1, 2, 3]);
}

#[test]
fn diff_json_text() {
    let base = EnvSync::from_str("A=1\nB=2").unwrap();
    let target = EnvSync::from_str("B=3\nC=4\nD=5").unwrap();
    let json = diff_json(&base.diff(&target));
    assert_eq!(
        json,
        "{\n  \"added\": [\n    {\"key\": \"C\", \"value\": \"4\"},\n    {\"key\": \"D\", \"value\": \"5\"}\n  ],\n  \"removed\": [\n    {\"key\": \"A\", \"value\": \"1\"}\n  ],\n  \"changed\": [\n    {\"key\": \"B\", \"old_value\": \"2\", \"new_value\": \"3\"}\n  ]\n}\n"
    );
}

#[test]
fn diff_json_empty() {
    let env = EnvSync::from_str("A=1").unwrap();
    let json = diff_json(&env.diff(&env));
    assert_eq!(
        json,
        "{\n  \"added\": [\n  ],\n  \"removed\": [\n  ],\n  \"changed\": [\n  ]\n}\n"
    );
}

#[test]
fn added_one_way_is_removed_the_other() {
    let a = EnvSync::from_str("A=1\nB=2").unwrap();
    let b = EnvSync::from_str("B=2\nC=3\nD=4").unwrap();
    let forward: Vec<String> = a.diff(&b).added.iter().map(|v| v.key.clone()).collect();
    let backward: Vec<String> = b.diff(&a).removed.iter().map(|v| v.key.clone()).collect();
    assert_eq!(forward, vec!["C", "D"]);
    assert_eq!(forward, backward);
}

#[test]
fn merging_twice_changes_nothing_more() {
    let mut once = EnvSync::from_str("A=1\nB=2").unwrap();
    let other = EnvSync::from_str("B=5\nC=6").unwrap();
    once.merge(&other);
    let first = once.to_string_pretty();
    once.merge(&other);
    assert_eq!(once.to_string_pretty(), first);
    assert_eq!(first, "A=1\nB=5\nC=6");
}
