use envsync::commands::validator_for;
use envsync::sync::EnvSync;
use envsync::validate::{EnvValidator, ValidationRule};

fn check(rule: ValidationRule, value: &str) -> (bool, Option<String>) {
    let validator = EnvValidator::new().rule("K", rule);
    let env = EnvSync::from_str(&format!("K={}", value)).unwrap();
    let report = validator.validate(env.vars());
    assert_eq!(report.results.len(), 1);
    let r = &report.results[0];
    assert_eq!(r.key, "K");
    (r.valid, r.message.clone())
}

#[test]
fn required_rule() {
    assert_eq!(check(ValidationRule::Required, "x"), (true, None));
    assert_eq!(
        check(ValidationRule::Required, ""),
        (false, Some("K must not be empty".to_string()))
    );
}

#[test]
fn missing_required_key() {
    let validator = EnvValidator::new()
        .rule("NEEDED", ValidationRule::Required)
        .rule("OPTIONAL", ValidationRule::Integer);
    let env = EnvSync::from_str("OTHER=1").unwrap();
    let report = validator.validate(env.vars());
    assert_eq!(report.results.len(), 1);
    assert_eq!(report.results[0].key, "NEEDED");
    assert!(!report.results[0].valid);
    assert_eq!(
        report.results[0].message.as_deref(),
        Some("NEEDED is required but not set")
    );
    assert_eq!(report.errors().len(), 1);
    assert!(!report.is_valid());
}

#[test]
fn integer_rule_limits() {
    assert!(check(ValidationRule::Integer, "9223372036854775807").0);
    assert!(check(ValidationRule::Integer, "-9223372036854775808").0);
    assert!(!check(ValidationRule::Integer, "9223372036854775808").0);
    assert!(check(ValidationRule::Integer, "+5").0);
    assert!(!check(ValidationRule::Integer, "-").0);
    assert!(!check(ValidationRule::Integer, "1_000").0);
    assert_eq!(
        check(ValidationRule::Integer, "abc"),
        (false, Some("K must be a valid integer, got 'abc'".to_string()))
    );
}

#[test]
fn float_rule_syntax() {
    for ok in ["1.5", "-.5", "5.", "1e10", "1E+3", "2.5e-3", "inf", "NaN", "+Infinity", "-infinity", "007"] {
        assert!(check(ValidationRule::Float, ok).0, "{}", ok);
        assert_eq!(ok.parse::<f64>().is_ok(), true, "{}", ok);
    }
    for bad in [".", "1e", "abc", "1.2.3", "e5", "infinit", "1e+", "--1", ""] {
        assert!(!check(ValidationRule::Float, bad).0, "{}", bad);
        assert_eq!(bad.parse::<f64>().is_ok(), false, "{}", bad);
    }
    assert_eq!(
        check(ValidationRule::Float, "x"),
        (false, Some("K must be a valid number, got 'x'".to_string()))
    );
}

#[test]
fn url_rule() {
    assert!(check(ValidationRule::Url, "http://a").0);
    assert!(check(ValidationRule::Url, "https://a").0);
    assert_eq!(
        check(ValidationRule::Url, "ftp://a"),
        (false, Some("K must be a valid URL, got 'ftp://a'".to_string()))
    );
}

#[test]
fn email_rule() {
    assert!(check(ValidationRule::Email, "a@b.c").0);
    assert_eq!(
        check(ValidationRule::Email, "a@b"),
        (false, Some("K must be a valid email, got 'a@b'".to_string()))
    );
}

#[test]
fn one_of_rule() {
    let rule = || ValidationRule::OneOf(vec!["dev".to_string(), "prod".to_string()]);
    assert!(check(rule(), "prod").0);
    assert_eq!(
        check(rule(), "test"),
        (false, Some("K must be one of [dev, prod], got 'test'".to_string()))
    );
}

#[test]
fn prefix_rule() {
    let rule = || ValidationRule::Prefix("sk_".to_string());
    assert!(check(rule(), "sk_live").0);
    assert_eq!(
        check(rule(), "pk_live"),
        (false, Some("K must start with 'sk_', got 'pk_live'".to_string()))
    );
}

#[test]
fn boolean_rule_ignores_case() {
    for ok in ["TRUE", "False", "yes", "NO", "1", "0"] {
        assert!(check(ValidationRule::Boolean, ok).0, "{}", ok);
    }
    assert_eq!(
        check(ValidationRule::Boolean, "on"),
        (false, Some("K must be a boolean, got 'on'".to_string()))
    );
}

#[test]
fn port_rule_messages() {
    assert!(check(ValidationRule::Port, "65535").0);
    assert!(check(ValidationRule::Port, "+80").0);
    assert!(!check(ValidationRule::Port, "-0").0);
    assert_eq!(
        check(ValidationRule::Port, "0"),
        (false, Some("K must be a valid port number".to_string()))
    );
    assert_eq!(
        check(ValidationRule::Port, "65536"),
        (false, Some("K must be a valid port number, got '65536'".to_string()))
    );
}

#[test]
fn comma_list_rule() {
    assert!(check(ValidationRule::CommaList, "a,b,c").0);
    assert!(check(ValidationRule::CommaList, "a").0);
    assert!(!check(ValidationRule::CommaList, "a,,b").0);
    assert!(!check(ValidationRule::CommaList, "a, ,b").0);
    assert!(!check(ValidationRule::CommaList, "a,").0);
    assert_eq!(
        check(ValidationRule::CommaList, ""),
        (false, Some("K must be a comma-separated list".to_string()))
    );
}

#[test]
fn later_rule_replaces_earlier() {
    let validator = EnvValidator::new()
        .rule("P", ValidationRule::Integer)
        .rule("P", ValidationRule::Port);
    let env = EnvSync::from_str("P=0").unwrap();
    let report = validator.validate(env.vars());
    assert_eq!(report.results.len(), 1);
    assert_eq!(report.results[0].message.as_deref(), Some("P must be a valid port number"));
}

#[test]
fn valid_exactly_when_no_errors() {
    let validator = EnvValidator::new()
        .rule("A", ValidationRule::Integer)
        .rule("B", ValidationRule::Integer);
    let good = EnvSync::from_str("A=1\nB=2").unwrap();
    let report = validator.validate(good.vars());
    assert!(report.is_valid());
    assert!(report.errors().is_empty());
    assert!(report.results.iter().all(|r| r.message.is_none()));
    let bad = EnvSync::from_str("A=1\nB=x").unwrap();
    let report = validator.validate(bad.vars());
    assert!(!report.is_valid());
    assert_eq!(report.errors().len(), 1);
    assert_eq!(report.errors()[0].key, "B");
    assert!(report.errors()[0].message.is_some());
}

#[test]
fn common_rules_catch_bad_values() {
    let validator = EnvValidator::new().with_common_rules();
    let env = EnvSync::from_str("PORT=0\nNODE_ENV=staging\nDEBUG=maybe\nSMTP_PORT=25").unwrap();
    let report = validator.validate(env.vars());
    let keys: Vec<&str> = report.errors().iter().map(|r| r.key.as_str()).collect();
    assert_eq!(keys, vec!["PORT", "DATABASE_URL", "NODE_ENV", "DEBUG"]);
}

#[test]
fn command_rules_follow_key_names() {
    let env = EnvSync::from_str("db_port=abc\nAPI_URL=ftp://x\nService_Endpoint=http://ok\nNAME=x").unwrap();
    let validator = validator_for(&env, false, true, true);
    let report = validator.validate(env.vars());
    assert_eq!(report.results.len(), 3);
    let keys: Vec<&str> = report.errors().iter().map(|r| r.key.as_str()).collect();
    assert_eq!(keys, vec!["db_port", "API_URL"]);
    let none = validator_for(&env, false, false, false);
    assert!(none.validate(env.vars()).results.is_empty());
    let common = validator_for(&env, true, false, false);
    assert_eq!(common.validate(env.vars()).results.len(), 1);
}
