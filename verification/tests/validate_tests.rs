use envsync::sync::EnvSync;
use envsync::validate::{EnvValidator, ValidationRule};

#[test]
fn test_validate_integer() {
    let validator = EnvValidator::new().rule("PORT", ValidationRule::Integer);
    let env = EnvSync::from_str("PORT=3000").unwrap();
    let report = validator.validate(env.vars());
    assert!(report.is_valid());
}

#[test]
fn test_validate_integer_fail() {
    let validator = EnvValidator::new().rule("PORT", ValidationRule::Integer);
    let env = EnvSync::from_str("PORT=abc").unwrap();
    let report = validator.validate(env.vars());
    assert!(!report.is_valid());
}

#[test]
fn test_validate_port() {
    let validator = EnvValidator::new().rule("PORT", ValidationRule::Port);
    let env = EnvSync::from_str("PORT=8080").unwrap();
    assert!(validator.validate(env.vars()).is_valid());
}

#[test]
fn test_validate_port_zero() {
    let validator = EnvValidator::new().rule("PORT", ValidationRule::Port);
    let env = EnvSync::from_str("PORT=0").unwrap();
    assert!(!validator.validate(env.vars()).is_valid());
}

#[test]
fn test_validate_email() {
    let validator = EnvValidator::new().rule("EMAIL", ValidationRule::Email);
    let env = EnvSync::from_str("EMAIL=user@example.com").unwrap();
    assert!(validator.validate(env.vars()).is_valid());
}

#[test]
fn test_validate_url() {
    let validator = EnvValidator::new().rule("URL", ValidationRule::Url);
    let env = EnvSync::from_str("URL=https://example.com").unwrap();
    assert!(validator.validate(env.vars()).is_valid());
}

#[test]
fn test_validate_one_of() {
    let validator = EnvValidator::new().rule(
        "NODE_ENV",
        ValidationRule::OneOf(vec!["development".into(), "production".into()]),
    );
    let env = EnvSync::from_str("NODE_ENV=development").unwrap();
    assert!(validator.validate(env.vars()).is_valid());
}

#[test]
fn test_validate_boolean() {
    let validator = EnvValidator::new().rule("DEBUG", ValidationRule::Boolean);
    assert!(validator.validate(EnvSync::from_str("DEBUG=true").unwrap().vars()).is_valid());
    assert!(validator.validate(EnvSync::from_str("DEBUG=0").unwrap().vars()).is_valid());
    assert!(!validator.validate(EnvSync::from_str("DEBUG=maybe").unwrap().vars()).is_valid());
}

#[test]
fn test_common_rules() {
    let validator = EnvValidator::new().with_common_rules();
    let env = EnvSync::from_str("PORT=3000\nDATABASE_URL=postgres://localhost/db\nNODE_ENV=development").unwrap();
    let report = validator.validate(env.vars());
    assert!(report.is_valid());
}
