use envsync::sync::EnvSync;

#[test]
fn later_definition_replaces_earlier() {
    let env = EnvSync::from_str("FOO=1\nBAR=x\nFOO=2").unwrap();
    assert_eq!(env.get("FOO"), Some("2"));
    assert_eq!(env.vars().len(), 2);
    let foo = env.vars().iter().find(|v| v.key == "FOO").unwrap();
    assert_eq!(foo.line_number, 3);
}

#[test]
fn undefined_key_is_absent() {
    let env = EnvSync::from_str("FOO=1\n# BAR=2\nBAZ").unwrap();
    assert_eq!(env.get("BAR"), None);
    assert_eq!(env.get("BAZ"), None);
    assert_eq!(env.vars().len(), 1);
}

#[test]
fn line_numbers_count_every_line() {
    let env = EnvSync::from_str("\n# c\n\nA=1\r\nB=2\n").unwrap();
    let a = env.vars().iter().find(|v| v.key == "A").unwrap();
    let b = env.vars().iter().find(|v| v.key == "B").unwrap();
    assert_eq!(a.line_number, 4);
    assert_eq!(a.value, "1");
    assert_eq!(b.line_number, 5);
}

#[test]
fn value_keeps_later_equals_signs() {
    let env = EnvSync::from_str("URL=http://x?a=b=c").unwrap();
    assert_eq!(env.get("URL"), Some("http://x?a=b=c"));
}

#[test]
fn keys_and_values_are_trimmed() {
    let env = EnvSync::from_str("  KEY  =   some value  \n\tTAB\t=\tv\t").unwrap();
    assert_eq!(env.get("KEY"), Some("some value"));
    assert_eq!(env.get("TAB"), Some("v"));
}

#[test]
fn unicode_whitespace_is_trimmed() {
    let env = EnvSync::from_str("\u{3000}FOO\u{00A0}=\u{2003}bar\u{3000}").unwrap();
    assert_eq!(env.get("FOO"), Some("bar"));
}

#[test]
fn empty_value_and_empty_key() {
    let env = EnvSync::from_str("EMPTY=\n=orphan").unwrap();
    assert_eq!(env.get("EMPTY"), Some(""));
    assert_eq!(env.get(""), Some("orphan"));
}

#[test]
fn export_prefix_with_extra_spaces() {
    let env = EnvSync::from_str("export    FOO = bar\nexported=1").unwrap();
    assert_eq!(env.get("FOO"), Some("bar"));
    assert_eq!(env.get("exported"), Some("1"));
}

#[test]
fn mismatched_quotes_are_kept() {
    let env = EnvSync::from_str("A=\"abc'\nB='x\nC=\"\"\nD=' spaced '").unwrap();
    assert_eq!(env.get("A"), Some("\"abc'"));
    assert_eq!(env.get("B"), Some("'x"));
    assert_eq!(env.get("C"), Some(""));
    assert_eq!(env.get("D"), Some(" spaced "));
}

#[test]
fn lone_quote_line_is_reported() {
    assert_eq!(EnvSync::lone_quote_line("A=1\nB=\"\nC='"), Some(2));
    assert_eq!(EnvSync::lone_quote_line("A=1\nB= '  "), Some(2));
    assert_eq!(EnvSync::lone_quote_line("A=\"\"\nB='x'"), None);
    assert_eq!(EnvSync::lone_quote_line("# B=\"\nnot a var \""), None);
}

#[test]
fn new_is_empty() {
    let env = EnvSync::new();
    assert_eq!(env.vars().len(), 0);
    assert_eq!(env.get("A"), None);
    assert_eq!(env.to_string_pretty(), "");
}

#[test]
fn empty_text_has_no_variables() {
    let env = EnvSync::from_str("").unwrap();
    assert_eq!(env.vars().len(), 0);
}
