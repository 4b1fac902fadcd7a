use envsync::sync::EnvSync;

#[test]
fn test_parse_simple() {
    let env = EnvSync::from_str("FOO=bar\nBAZ=qux").unwrap();
    assert_eq!(env.get("FOO"), Some("bar"));
    assert_eq!(env.get("BAZ"), Some("qux"));
}

#[test]
fn test_parse_comments_and_blanks() {
    let env = EnvSync::from_str("# comment\nFOO=bar\n\n# another\nBAZ=qux").unwrap();
    assert_eq!(env.vars().len(), 2);
}

#[test]
fn test_parse_quoted_values() {
    let env = EnvSync::from_str("FOO=\"hello world\"\nBAR='single quoted'").unwrap();
    assert_eq!(env.get("FOO"), Some("hello world"));
    assert_eq!(env.get("BAR"), Some("single quoted"));
}

#[test]
fn test_parse_export_prefix() {
    let env = EnvSync::from_str("export FOO=bar").unwrap();
    assert_eq!(env.get("FOO"), Some("bar"));
}

#[test]
fn test_diff_added() {
    let base = EnvSync::from_str("FOO=bar").unwrap();
    let target = EnvSync::from_str("FOO=bar\nBAZ=qux").unwrap();
    let diff = base.diff(&target);
    assert_eq!(diff.added.len(), 1);
    assert_eq!(diff.added[0].key, "BAZ");
}

#[test]
fn test_diff_removed() {
    let base = EnvSync::from_str("FOO=bar\nBAZ=qux").unwrap();
    let target = EnvSync::from_str("FOO=bar").unwrap();
    let diff = base.diff(&target);
    assert_eq!(diff.removed.len(), 1);
    assert_eq!(diff.removed[0].key, "BAZ");
}

#[test]
fn test_diff_changed() {
    let base = EnvSync::from_str("FOO=bar").unwrap();
    let target = EnvSync::from_str("FOO=baz").unwrap();
    let diff = base.diff(&target);
    assert_eq!(diff.changed.len(), 1);
    assert_eq!(diff.changed[0].old_value, "bar");
    assert_eq!(diff.changed[0].new_value, "baz");
}

#[test]
fn test_merge() {
    let mut base = EnvSync::from_str("FOO=bar").unwrap();
    let other = EnvSync::from_str("FOO=updated\nBAZ=new").unwrap();
    base.merge(&other);
    assert_eq!(base.get("FOO"), Some("updated"));
    assert_eq!(base.get("BAZ"), Some("new"));
}

#[test]
fn test_to_string_pretty() {
    let env = EnvSync::from_str("Z=1\nA=2").unwrap();
    let output = env.to_string_pretty();
    assert!(output.starts_with("A=2"));
}
