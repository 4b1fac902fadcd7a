use envsync::commands::{diff_json, diff_text, usize_text, Style};
use envsync::sync::EnvSync;
use envsync::text::is_white_space;
use envsync::validate::is_boolean_word;

#[test]
fn white_space_matches_char_is_whitespace() {
    for code in 0u32..=0x10FFFF {
        if let Some(c) = char::from_u32(code) {
            assert_eq!(is_white_space(c), c.is_whitespace(), "U+{:04X}", code);
        }
    }
}

#[test]
fn boolean_words_after_lowercasing() {
    assert!(is_boolean_word(&"yes".chars().collect()));
    assert!(is_boolean_word(&"0".chars().collect()));
    assert!(!is_boolean_word(&"YES".chars().collect()));
    assert!(!is_boolean_word(&"maybe".chars().collect()));
}

#[test]
fn diff_json_escapes_strings() {
    let base = EnvSync::from_str("A=1").unwrap();
    let target = EnvSync::from_str("A=x\\y\nB='say \"hi\"'\nC=\"tab\there\"\nD=\u{1}").unwrap();
    let json = diff_json(&base.diff(&target));
    assert_eq!(
        json,
        "{\n  \"added\": [\n    {\"key\": \"B\", \"value\": \"say \\\"hi\\\"\"},\n    {\"key\": \"C\", \"value\": \"tab\\there\"},\n    {\"key\": \"D\", \"value\": \"\\u0001\"}\n  ],\n  \"removed\": [\n  ],\n  \"changed\": [\n    {\"key\": \"A\", \"old_value\": \"1\", \"new_value\": \"x\\\\y\"}\n  ]\n}\n"
    );
}

fn plain(lines: &[Vec<envsync::commands::Span>]) -> Vec<String> {
    lines
        .iter()
        .map(|l| l.iter().map(|s| s.text.as_str()).collect::<String>())
        .collect()
}

#[test]
fn diff_text_layout() {
    let base = EnvSync::from_str("A=1\nB=2\nC=3").unwrap();
    let target = EnvSync::from_str("A=1\nB=20\nD=4").unwrap();
    let lines = diff_text(".env", ".env.prod", &base.diff(&target));
    assert_eq!(
        plain(&lines),
        vec![
            "Diff: .env vs .env.prod",
            "",
            "  Added (1):",
            "    + D=4",
            "",
            "  Removed (1):",
            "    - C=3",
            "",
            "  Changed (1):",
            "    ~ B: 2 → 20",
            "",
            "  = 1 variables unchanged",
        ]
    );
    assert_eq!(lines[0][0].style, Style::Bold);
    assert_eq!(lines[2][1].style, Style::GreenBold);
    assert_eq!(lines[3][3].style, Style::Cyan);
    assert_eq!(lines[9][5].style, Style::Dimmed);
}

#[test]
fn diff_text_without_differences() {
    let env = EnvSync::from_str("A=1").unwrap();
    let lines = diff_text("a", "b", &env.diff(&env));
    assert_eq!(plain(&lines), vec!["Diff: a vs b", "", "  No differences found."]);
    assert_eq!(lines[2][1].style, Style::Green);
}

#[test]
fn decimal_text() {
    assert_eq!(usize_text(0), "0");
    assert_eq!(usize_text(7), "7");
    assert_eq!(usize_text(1203), "1203");
}

#[test]
fn try_parse_reports_lone_quote() {
    assert!(matches!(EnvSync::try_parse("A=1\nB=\""), Err(2)));
    let env = EnvSync::try_parse("A=1\nB=\"x\"").ok().unwrap();
    assert_eq!(env.get("B"), Some("x"));
}

#[test]
fn written_text_reads_back() {
    let env = EnvSync::from_str("Z=last\nA=hello world\nM=a#b\nE=").unwrap();
    let text = env.to_string_pretty();
    let back = EnvSync::from_str(&text).unwrap();
    for var in env.vars() {
        assert_eq!(back.get(&var.key), Some(var.value.as_str()));
    }
    assert_eq!(back.vars().len(), env.vars().len());
}

#[test]
fn line_numbers_start_at_one() {
    let env = EnvSync::from_str("A=1\n\nB=2").unwrap();
    assert!(env.vars().iter().all(|v| v.line_number >= 1 && v.line_number <= 3));
}

#[test]
fn diff_both_ways() {
    let a = EnvSync::from_str("A=1\nB=2\nC=3").unwrap();
    let b = EnvSync::from_str("B=2\nC=30\nD=4").unwrap();
    let ab = a.diff(&b);
    let ba = b.diff(&a);
    assert_eq!(ab.added[0].key, ba.removed[0].key);
    assert_eq!(ab.removed[0].key, ba.added[0].key);
    assert_eq!(ab.unchanged[0].key, ba.unchanged[0].key);
    assert_eq!(ab.changed[0].old_value, ba.changed[0].new_value);
    assert_eq!(ab.changed[0].new_value, ba.changed[0].old_value);
}
