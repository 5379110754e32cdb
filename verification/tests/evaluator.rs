use scaffold::build_context;
use scaffold::evaluate_condition;
use scaffold::int_to_string;
use scaffold::trim_str;
use scaffold::Cli;
use scaffold::FeatureContext;
use scaffold::FeatureValue;

fn ctx_of(pairs: Vec<(&str, FeatureValue)>) -> FeatureContext {
    let features: Vec<(String, FeatureValue)> =
        pairs.into_iter().map(|(k, v)| (k.to_string(), v)).collect();
    build_context(&features)
}

#[test]
fn context_keeps_scalars_uppercased() {
    let ctx = ctx_of(vec![
        ("lang", FeatureValue::Str("rust".to_string())),
        ("ci", FeatureValue::Bool(true)),
        ("docs", FeatureValue::Bool(false)),
        ("workers", FeatureValue::Int(3)),
    ]);
    assert_eq!(ctx.get(&"LANG".to_string()), Some(&"rust".to_string()));
    assert_eq!(ctx.get(&"CI".to_string()), Some(&"true".to_string()));
    assert_eq!(ctx.get(&"DOCS".to_string()), Some(&"false".to_string()));
    assert_eq!(ctx.get(&"WORKERS".to_string()), Some(&"3".to_string()));
    assert_eq!(ctx.get(&"lang".to_string()), None);
}

#[test]
fn context_drops_other_values() {
    let ctx = ctx_of(vec![
        ("plugins", FeatureValue::Other),
        ("lang", FeatureValue::Str("go".to_string())),
    ]);
    assert_eq!(ctx.get(&"PLUGINS".to_string()), None);
    assert_eq!(ctx.get(&"LANG".to_string()), Some(&"go".to_string()));
}

#[test]
fn context_later_flag_overwrites_earlier() {
    let ctx = ctx_of(vec![
        ("lang", FeatureValue::Str("go".to_string())),
        ("LANG", FeatureValue::Str("rust".to_string())),
    ]);
    assert_eq!(ctx.get(&"LANG".to_string()), Some(&"rust".to_string()));
}

#[test]
fn integer_rendering_is_decimal() {
    assert_eq!(int_to_string(0), "0");
    assert_eq!(int_to_string(3), "3");
    assert_eq!(int_to_string(42), "42");
    assert_eq!(int_to_string(-17), "-17");
    assert_eq!(int_to_string(i64::MAX), "9223372036854775807");
    assert_eq!(int_to_string(i64::MIN), "-9223372036854775808");
}

#[test]
fn condition_true_against_matching_context() {
    let ctx = ctx_of(vec![("ENV", FeatureValue::Str("prod".to_string()))]);
    assert!(evaluate_condition("$ENV == 'prod'", &ctx));
}

#[test]
fn condition_false_against_other_value() {
    let ctx = ctx_of(vec![("ENV", FeatureValue::Str("dev".to_string()))]);
    assert!(!evaluate_condition("$ENV == 'prod'", &ctx));
}

#[test]
fn condition_false_against_missing_flag() {
    let ctx = ctx_of(vec![]);
    assert!(!evaluate_condition("$ENV == 'prod'", &ctx));
}

#[test]
fn malformed_conditions_evaluate_false() {
    let ctx = ctx_of(vec![("ENV", FeatureValue::Str("prod".to_string()))]);
    // missing sigil
    assert!(!evaluate_condition("ENV == 'prod'", &ctx));
    // missing separator
    assert!(!evaluate_condition("$ENV 'prod'", &ctx));
    assert!(!evaluate_condition("$ENV = 'prod'", &ctx));
    // duplicate separator
    assert!(!evaluate_condition("$ENV == 'prod' == 'dev'", &ctx));
    // empty text
    assert!(!evaluate_condition("", &ctx));
    assert!(!evaluate_condition("   ", &ctx));
}

#[test]
fn condition_name_is_case_insensitive() {
    let ctx = ctx_of(vec![("env", FeatureValue::Str("prod".to_string()))]);
    assert!(evaluate_condition("$env == 'prod'", &ctx));
    assert!(evaluate_condition("$Env == 'prod'", &ctx));
}

#[test]
fn condition_expected_value_is_lowercased() {
    let ctx = ctx_of(vec![("ENV", FeatureValue::Str("prod".to_string()))]);
    assert!(evaluate_condition("$ENV == 'PROD'", &ctx));
}

#[test]
fn condition_stored_value_is_case_sensitive() {
    // The stored side keeps its case, so "Prod" never matches the
    // lowercased expected value.
    let ctx = ctx_of(vec![("ENV", FeatureValue::Str("Prod".to_string()))]);
    assert!(!evaluate_condition("$ENV == 'prod'", &ctx));
    assert!(!evaluate_condition("$ENV == 'Prod'", &ctx));
}

#[test]
fn condition_accepts_both_quote_kinds_and_whitespace() {
    let ctx = ctx_of(vec![("ENV", FeatureValue::Str("prod".to_string()))]);
    assert!(evaluate_condition("  $ENV == \"prod\"  ", &ctx));
    assert!(evaluate_condition("$ENV==prod", &ctx));
    assert!(evaluate_condition("$ ENV == prod", &ctx));
}

#[test]
fn manual_context_insert_and_lookup() {
    let mut ctx = FeatureContext::new();
    ctx.insert("ENV".to_string(), "prod".to_string());
    assert_eq!(ctx.get(&"ENV".to_string()), Some(&"prod".to_string()));
    ctx.insert("ENV".to_string(), "dev".to_string());
    assert_eq!(ctx.get(&"ENV".to_string()), Some(&"dev".to_string()));
}

#[test]
fn trim_removes_surrounding_whitespace() {
    assert_eq!(trim_str("  a b  "), "a b");
    assert_eq!(trim_str("a"), "a");
    assert_eq!(trim_str("   "), "");
    assert_eq!(trim_str(""), "");
}

#[test]
fn cli_validation_reports_missing_config() {
    let cli = Cli { config: "demo.json".to_string(), output: None };
    assert!(cli.validate_config_exists(true).is_ok());
    let err = cli.validate_config_exists(false).unwrap_err();
    assert_eq!(
        err,
        "Config file not found: 'demo.json'. Please provide a valid path."
    );
}
