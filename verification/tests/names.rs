use egglog_backends::duckdb::names::{
    classify_rule, is_congruence_rule_name, is_rebuild_rule_name, is_rebuilding_ruleset,
    is_uf_change_drain_rule_name, is_uf_maintenance_ruleset, q, rule_family, sanitize_for_udf,
    Phase,
};
use egglog_backends::text::{
    contains_str, decimal_i64, decimal_usize, ends_with, join, replace_all, starts_with,
};

#[test]
fn identifiers_keep_case_apart() {
    assert_eq!(q("AConst"), "\"_a_const\"");
    assert_eq!(q("aConst"), "\"a_const\"");
    assert_eq!(q("a_const"), "\"a__const\"");
    assert_eq!(q("a\"b"), "\"a\"\"b\"");
    assert_eq!(q("@UF_Math"), "\"@_u_f___math\"");
    assert_eq!(q(""), "\"\"");
    assert_ne!(q("AConst").to_lowercase(), q("aConst").to_lowercase());
}

#[test]
fn rules_have_families() {
    assert_eq!(rule_family("@rebuild_rule12#5"), "rebuild_rule");
    assert_eq!(rule_family("@@x#1#2"), "x");
    assert_eq!(rule_family(""), "");
    assert!(is_rebuild_rule_name("@rebuild_rule12#5"));
    assert!(!is_rebuild_rule_name("@rebuild_rules"));
    assert!(is_uf_change_drain_rule_name("@uf_change_drain_rule3"));
    assert!(is_congruence_rule_name("@congruence_rule7"));
    assert!(!is_congruence_rule_name("@congruence_rule7#1"));
    assert!(is_rebuilding_ruleset("@rebuilding4"));
    assert!(!is_rebuilding_ruleset("rebuilding_cleanup"));
    for r in ["@parent1", "single_parent", "@uf_function_index22", "uf_change_drain"] {
        assert!(is_uf_maintenance_ruleset(r));
    }
    assert!(!is_uf_maintenance_ruleset("parents"));
}

#[test]
fn rules_have_phases() {
    assert_eq!(classify_rule("@rebuild_rule3#1", ""), Phase::Rebuild);
    assert_eq!(classify_rule("x", "@rebuilding2"), Phase::Rebuild);
    assert_eq!(classify_rule("@congruence_rule3", ""), Phase::Congruence);
    assert_eq!(classify_rule("x", "congruence"), Phase::Congruence);
    assert_eq!(classify_rule("@my_uf_update9", ""), Phase::Maintenance);
    assert_eq!(classify_rule("single_parent", ""), Phase::Maintenance);
    assert_eq!(classify_rule("x", "@parent1"), Phase::Maintenance);
    assert_eq!(classify_rule("merge_cleanup", ""), Phase::Cleanup);
    assert_eq!(classify_rule("x", "cleanup3"), Phase::Cleanup);
    assert_eq!(classify_rule("commute", "rules"), Phase::User);
    assert_eq!(Phase::Maintenance.label(), "maintenance");
}

#[test]
fn functions_have_plain_names() {
    assert_eq!(sanitize_for_udf("@UF_Math"), "UF__Math");
    assert_eq!(sanitize_for_udf("a-b f9"), "a_b_f9");
    assert_eq!(sanitize_for_udf("a_b"), "a__b");
    assert_eq!(sanitize_for_udf(""), "");
}

#[test]
fn text_helpers() {
    assert_eq!(decimal_i64(i64::MIN), "-9223372036854775808");
    assert_eq!(decimal_i64(0), "0");
    assert_eq!(decimal_usize(1203), "1203");
    assert_eq!(join(&vec!["a".into(), "b".into(), "c".into()], ", "), "a, b, c");
    assert_eq!(join(&vec![], ", "), "");
    for (s, p, b) in [("aaa", "aa", "b"), ("abc", "", "-"), ("", "", "-"), ("?1?1", "?1", "10")] {
        assert_eq!(replace_all(s, p, b), s.replace(p, b));
    }
    assert!(starts_with("abc", "ab") && !starts_with("a", "ab"));
    assert!(ends_with("abc", "bc") && !ends_with("c", "bc") && ends_with("", ""));
    assert!(contains_str("abc", "b") && contains_str("abc", "") && !contains_str("abc", "ac"));
}
