use synalog::annotations::Annotations;
use synalog::json::{Json, json_obj};

fn obj(pairs: Vec<(&str, Json)>) -> Json {
    json_obj(pairs.into_iter().map(|(k, v)| (k.to_string(), v)).collect())
}

fn s(v: &str) -> Json {
    Json::Str(v.to_string())
}

fn string_lit(v: &str) -> Json {
    obj(vec![("literal", obj(vec![("the_string", obj(vec![("the_string", s(v))]))]))])
}

fn pred(name: &str) -> Json {
    obj(vec![("literal", obj(vec![("the_predicate", obj(vec![("predicate_name", s(name))]))]))])
}

fn var(name: &str) -> Json {
    obj(vec![("variable", obj(vec![("var_name", s(name))]))])
}

fn num(text: &str) -> Json {
    obj(vec![("literal", obj(vec![("the_number", obj(vec![("number", s(text))]))]))])
}

fn arg(position: i64, expression: Json) -> Json {
    obj(vec![("field", Json::Int(position)), ("value", obj(vec![("expression", expression)]))])
}

/// A parsed rule whose head is `name(args)`.
fn rule(name: &str, args: Vec<Json>, text: &str) -> Json {
    let record = obj(vec![("field_value", Json::Array(args))]);
    let head = obj(vec![("predicate_name", s(name)), ("record", record)]);
    obj(vec![("head", head), ("full_text", s(text))])
}

fn parse_annotations(parsed: Vec<Json>) -> Annotations {
    let rules: Vec<(String, Json)> = parsed
        .into_iter()
        .map(|r| {
            let name = r.get("head").unwrap().get("predicate_name").unwrap().as_str().to_string();
            (name, r)
        })
        .collect();
    Annotations::extract(&rules).unwrap()
}

// ── engine ──

#[test]
fn annotations_test_test_engine_default() {
    let ann = parse_annotations(vec![rule("T", vec![arg(0, string_lit("hello"))], "T(\"hello\");")]);
    assert_eq!(ann.engine(), "duckdb");
}

#[test]
fn test_engine_sqlite() {
    let ann = parse_annotations(vec![rule("@Engine", vec![arg(0, string_lit("sqlite"))], "@Engine(\"sqlite\");"), rule("T", vec![arg(0, string_lit("hello"))], "T(\"hello\");")]);
    assert_eq!(ann.engine(), "sqlite");
}

#[test]
fn test_engine_bigquery() {
    let ann = parse_annotations(vec![rule("@Engine", vec![arg(0, string_lit("bigquery"))], "@Engine(\"bigquery\");"), rule("T", vec![arg(0, string_lit("hello"))], "T(\"hello\");")]);
    assert_eq!(ann.engine(), "bigquery");
}

#[test]
fn test_engine_psql() {
    let ann = parse_annotations(vec![rule("@Engine", vec![arg(0, string_lit("psql"))], "@Engine(\"psql\");"), rule("T", vec![arg(0, string_lit("hello"))], "T(\"hello\");")]);
    assert_eq!(ann.engine(), "psql");
}

// ── ground ──

#[test]
fn test_ground() {
    let ann = parse_annotations(vec![rule("@Engine", vec![arg(0, string_lit("sqlite"))], "@Engine(\"sqlite\");"), rule("@Ground", vec![arg(0, pred("MyTable"))], "@Ground(MyTable);"), rule("T", vec![arg(0, var("x"))], "T(x) :- MyTable(x);")]);
    let g = ann.ground("MyTable");
    assert!(g.is_some());
    assert_eq!(g.unwrap().table_name, "logica_test.MyTable");
}

#[test]
fn test_ground_overwrite_default() {
    let ann = parse_annotations(vec![rule("@Engine", vec![arg(0, string_lit("sqlite"))], "@Engine(\"sqlite\");"), rule("@Ground", vec![arg(0, pred("MyTable"))], "@Ground(MyTable);"), rule("T", vec![arg(0, var("x"))], "T(x) :- MyTable(x);")]);
    let g = ann.ground("MyTable").unwrap();
    assert!(g.overwrite);
}

#[test]
fn test_no_ground() {
    let ann = parse_annotations(vec![rule("@Engine", vec![arg(0, string_lit("sqlite"))], "@Engine(\"sqlite\");"), rule("T", vec![arg(0, string_lit("hello"))], "T(\"hello\");")]);
    assert!(ann.ground("T").is_none());
}

#[test]
fn annotations_test_test_ground_with_alias() {
    let ann = parse_annotations(vec![rule("@Engine", vec![arg(0, string_lit("sqlite"))], "@Engine(\"sqlite\");"), rule("@Ground", vec![arg(0, pred("Pred")), arg(1, var("actual_table"))], "@Ground(Pred, actual_table);"), rule("T", vec![arg(0, var("x"))], "T(x) :- Pred(x);")]);
    let g = ann.ground("Pred");
    assert!(g.is_some());
    assert_eq!(g.unwrap().table_name, "actual_table");
}

// ── grounded_predicates ──

#[test]
fn test_grounded_predicates() {
    let ann = parse_annotations(vec![rule("@Engine", vec![arg(0, string_lit("sqlite"))], "@Engine(\"sqlite\");"), rule("@Ground", vec![arg(0, pred("A"))], "@Ground(A);"), rule("@Ground", vec![arg(0, pred("B"))], "@Ground(B);"), rule("T", vec![arg(0, var("x"))], "T(x) :- A(x), B(x);")]);
    let grounded = ann.grounded_predicates();
    assert!(grounded.contains("A"));
    assert!(grounded.contains("B"));
    assert!(!grounded.contains("T"));
}

#[test]
fn test_grounded_predicates_empty() {
    let ann = parse_annotations(vec![rule("@Engine", vec![arg(0, string_lit("sqlite"))], "@Engine(\"sqlite\");"), rule("T", vec![arg(0, string_lit("hello"))], "T(\"hello\");")]);
    assert!(ann.grounded_predicates().is_empty());
}

// ── use_with ──

#[test]
fn test_use_with_default() {
    let ann = parse_annotations(vec![rule("@Engine", vec![arg(0, string_lit("sqlite"))], "@Engine(\"sqlite\");"), rule("T", vec![arg(0, string_lit("hello"))], "T(\"hello\");")]);
    assert!(ann.use_with("T"));
}

#[test]
fn test_use_with_explicit() {
    let ann = parse_annotations(vec![rule("@Engine", vec![arg(0, string_lit("sqlite"))], "@Engine(\"sqlite\");"), rule("@With", vec![arg(0, pred("T"))], "@With(T);"), rule("T", vec![arg(0, string_lit("hello"))], "T(\"hello\");")]);
    assert!(ann.use_with("T"));
}

#[test]
fn test_use_with_nowith() {
    let ann = parse_annotations(vec![rule("@Engine", vec![arg(0, string_lit("sqlite"))], "@Engine(\"sqlite\");"), rule("@NoWith", vec![arg(0, pred("T"))], "@NoWith(T);"), rule("T", vec![arg(0, string_lit("hello"))], "T(\"hello\");")]);
    assert!(!ann.use_with("T"));
}

// ── force_with ──

#[test]
fn test_force_with_default() {
    let ann = parse_annotations(vec![rule("@Engine", vec![arg(0, string_lit("sqlite"))], "@Engine(\"sqlite\");"), rule("T", vec![arg(0, string_lit("hello"))], "T(\"hello\");")]);
    assert!(!ann.force_with("T"));
}

#[test]
fn test_force_with_explicit() {
    let ann = parse_annotations(vec![rule("@Engine", vec![arg(0, string_lit("sqlite"))], "@Engine(\"sqlite\");"), rule("@With", vec![arg(0, pred("T"))], "@With(T);"), rule("T", vec![arg(0, string_lit("hello"))], "T(\"hello\");")]);
    assert!(ann.force_with("T"));
}

// ── no_inject ──

#[test]
fn test_no_inject_default() {
    let ann = parse_annotations(vec![rule("@Engine", vec![arg(0, string_lit("sqlite"))], "@Engine(\"sqlite\");"), rule("T", vec![arg(0, string_lit("hello"))], "T(\"hello\");")]);
    assert!(!ann.no_inject("T"));
}

#[test]
fn test_no_inject_explicit() {
    let ann = parse_annotations(vec![rule("@Engine", vec![arg(0, string_lit("sqlite"))], "@Engine(\"sqlite\");"), rule("@NoInject", vec![arg(0, pred("T"))], "@NoInject(T);"), rule("T", vec![arg(0, string_lit("hello"))], "T(\"hello\");")]);
    assert!(ann.no_inject("T"));
}

// ── ok_injection ──

#[test]
fn test_ok_injection_default() {
    let ann = parse_annotations(vec![rule("@Engine", vec![arg(0, string_lit("sqlite"))], "@Engine(\"sqlite\");"), rule("T", vec![arg(0, string_lit("hello"))], "T(\"hello\");")]);
    assert!(ann.ok_injection("T"));
}

#[test]
fn test_ok_injection_blocked_by_noinject() {
    let ann = parse_annotations(vec![rule("@Engine", vec![arg(0, string_lit("sqlite"))], "@Engine(\"sqlite\");"), rule("@NoInject", vec![arg(0, pred("T"))], "@NoInject(T);"), rule("T", vec![arg(0, string_lit("hello"))], "T(\"hello\");")]);
    assert!(!ann.ok_injection("T"));
}

#[test]
fn test_ok_injection_blocked_by_ground() {
    let ann = parse_annotations(vec![rule("@Engine", vec![arg(0, string_lit("sqlite"))], "@Engine(\"sqlite\");"), rule("@Ground", vec![arg(0, pred("T"))], "@Ground(T);"), rule("T", vec![arg(0, string_lit("hello"))], "T(\"hello\");")]);
    assert!(!ann.ok_injection("T"));
}

#[test]
fn test_ok_injection_blocked_by_force_with() {
    let ann = parse_annotations(vec![rule("@Engine", vec![arg(0, string_lit("sqlite"))], "@Engine(\"sqlite\");"), rule("@With", vec![arg(0, pred("T"))], "@With(T);"), rule("T", vec![arg(0, string_lit("hello"))], "T(\"hello\");")]);
    assert!(!ann.ok_injection("T"));
}

#[test]
fn test_ok_injection_blocked_by_limit() {
    let ann = parse_annotations(vec![rule("@Engine", vec![arg(0, string_lit("sqlite"))], "@Engine(\"sqlite\");"), rule("@Limit", vec![arg(0, pred("T")), arg(1, num("10"))], "@Limit(T, 10);"), rule("T", vec![arg(0, string_lit("hello"))], "T(\"hello\");")]);
    assert!(!ann.ok_injection("T"));
}

// ── order_by ──

#[test]
fn test_order_by() {
    let ann = parse_annotations(vec![rule("@Engine", vec![arg(0, string_lit("sqlite"))], "@Engine(\"sqlite\");"), rule("@OrderBy", vec![arg(0, pred("T")), arg(1, var("col1"))], "@OrderBy(T, col1);"), rule("T", vec![arg(0, string_lit("hello"))], "T(\"hello\");")]);
    let order = ann.order_by("T");
    assert!(order.is_some());
    let cols = order.unwrap();
    assert_eq!(cols, vec!["col1"]);
}

#[test]
fn test_order_by_none() {
    let ann = parse_annotations(vec![rule("@Engine", vec![arg(0, string_lit("sqlite"))], "@Engine(\"sqlite\");"), rule("T", vec![arg(0, string_lit("hello"))], "T(\"hello\");")]);
    assert!(ann.order_by("T").is_none());
}

#[test]
fn test_order_by_clause() {
    let ann = parse_annotations(vec![rule("@Engine", vec![arg(0, string_lit("sqlite"))], "@Engine(\"sqlite\");"), rule("@OrderBy", vec![arg(0, pred("T")), arg(1, var("col1"))], "@OrderBy(T, col1);"), rule("T", vec![arg(0, string_lit("hello"))], "T(\"hello\");")]);
    let clause = ann.order_by_clause("T");
    assert!(clause.contains("ORDER BY"), "Got: {}", clause);
    assert!(clause.contains("col1"), "Got: {}", clause);
}

#[test]
fn test_order_by_clause_empty() {
    let ann = parse_annotations(vec![rule("@Engine", vec![arg(0, string_lit("sqlite"))], "@Engine(\"sqlite\");"), rule("T", vec![arg(0, string_lit("hello"))], "T(\"hello\");")]);
    assert_eq!(ann.order_by_clause("T"), "");
}

// ── limit ──

#[test]
fn test_limit() {
    let ann = parse_annotations(vec![rule("@Engine", vec![arg(0, string_lit("sqlite"))], "@Engine(\"sqlite\");"), rule("@Limit", vec![arg(0, pred("T")), arg(1, num("10"))], "@Limit(T, 10);"), rule("T", vec![arg(0, string_lit("hello"))], "T(\"hello\");")]);
    assert_eq!(ann.limit_of("T"), Some(10));
}

#[test]
fn test_limit_none() {
    let ann = parse_annotations(vec![rule("@Engine", vec![arg(0, string_lit("sqlite"))], "@Engine(\"sqlite\");"), rule("T", vec![arg(0, string_lit("hello"))], "T(\"hello\");")]);
    assert!(ann.limit_of("T").is_none());
}

#[test]
fn test_limit_clause() {
    let ann = parse_annotations(vec![rule("@Engine", vec![arg(0, string_lit("sqlite"))], "@Engine(\"sqlite\");"), rule("@Limit", vec![arg(0, pred("T")), arg(1, num("5"))], "@Limit(T, 5);"), rule("T", vec![arg(0, string_lit("hello"))], "T(\"hello\");")]);
    assert_eq!(ann.limit_clause("T"), " LIMIT 5");
}

#[test]
fn test_limit_clause_empty() {
    let ann = parse_annotations(vec![rule("@Engine", vec![arg(0, string_lit("sqlite"))], "@Engine(\"sqlite\");"), rule("T", vec![arg(0, string_lit("hello"))], "T(\"hello\");")]);
    assert_eq!(ann.limit_clause("T"), "");
}

// ── get_annotation_rules ──

#[test]
fn test_get_annotation_rules_returns_none() {
    let ann = parse_annotations(vec![rule("@Engine", vec![arg(0, string_lit("sqlite"))], "@Engine(\"sqlite\");"), rule("T", vec![arg(0, string_lit("hello"))], "T(\"hello\");")]);
    assert!(ann.get_annotation_rules("Recursive").is_none());
}

// ── DefineFlag ──

#[test]
fn test_define_flag() {
    let ann = parse_annotations(vec![rule("@Engine", vec![arg(0, string_lit("sqlite"))], "@Engine(\"sqlite\");"), rule("@DefineFlag", vec![arg(0, string_lit("my_flag")), arg(1, string_lit("default_val"))], "@DefineFlag(\"my_flag\", \"default_val\");"), rule("T", vec![arg(0, string_lit("hello"))], "T(\"hello\");")]);
    assert_eq!(ann.flag_values.get("my_flag"), Some(&"default_val".to_string()));
}

#[test]
fn test_define_flag_empty_default() {
    let ann = parse_annotations(vec![rule("@Engine", vec![arg(0, string_lit("sqlite"))], "@Engine(\"sqlite\");"), rule("@DefineFlag", vec![arg(0, string_lit("my_flag"))], "@DefineFlag(\"my_flag\");"), rule("T", vec![arg(0, string_lit("hello"))], "T(\"hello\");")]);
    // With only one arg, default should be empty string
    assert_eq!(ann.flag_values.get("my_flag"), Some(&"".to_string()));
}

// ── extract with empty/no-head rules ──

#[test]
fn test_extract_empty_rules() {
    let ann = Annotations::extract(&[]).unwrap();
    assert_eq!(ann.engine(), "duckdb");
    assert!(ann.annotations.is_empty());
    assert!(ann.flag_values.is_empty());
}

// ── multiple annotations ──

#[test]
fn test_multiple_annotations_same_predicate() {
    let ann = parse_annotations(vec![rule("@Engine", vec![arg(0, string_lit("sqlite"))], "@Engine(\"sqlite\");"), rule("@Ground", vec![arg(0, pred("T"))], "@Ground(T);"), rule("@OrderBy", vec![arg(0, pred("T")), arg(1, var("col1"))], "@OrderBy(T, col1);"), rule("@Limit", vec![arg(0, pred("T")), arg(1, num("100"))], "@Limit(T, 100);"), rule("T", vec![arg(0, string_lit("hello"))], "T(\"hello\");")]);
    assert!(ann.ground("T").is_some());
    assert!(ann.order_by("T").is_some());
    assert_eq!(ann.limit_of("T"), Some(100));
}

// ── extract_string_literal edge cases ──

#[test]
fn test_extract_string_literal_nested() {
    // Parser sometimes produces {"the_string": {"the_string": "value"}}
    let ann = parse_annotations(vec![rule("@Engine", vec![arg(0, string_lit("sqlite"))], "@Engine(\"sqlite\");"), rule("@DefineFlag", vec![arg(0, string_lit("nested_flag")), arg(1, string_lit("nested_val"))], "@DefineFlag(\"nested_flag\", \"nested_val\");"), rule("T", vec![arg(0, string_lit("hello"))], "T(\"hello\");")]);
    assert!(ann.flag_values.contains_key("nested_flag"));
}

// ── field_str from Int field ──

#[test]
fn test_field_values_with_int_field() {
    // Ensure we parse annotations where field indices are integers
    let ann = parse_annotations(vec![rule("@Engine", vec![arg(0, string_lit("sqlite"))], "@Engine(\"sqlite\");"), rule("@OrderBy", vec![arg(0, pred("T")), arg(1, var("col1")), arg(2, var("col2"))], "@OrderBy(T, col1, col2);"), rule("T", vec![arg(0, string_lit("hello"))], "T(\"hello\");")]);
    let cols = ann.order_by("T").unwrap();
    assert!(cols.len() >= 1, "Should have at least 1 column: {:?}", cols);
}

// ── get_annotation_rules for existing annotation ──

#[test]
fn test_get_annotation_rules_engine() {
    let ann = parse_annotations(vec![rule("@Engine", vec![arg(0, string_lit("sqlite"))], "@Engine(\"sqlite\");"), rule("@Recursive", vec![arg(0, pred("T")), arg(1, num("5"))], "@Recursive(T, 5);"), rule("T", vec![arg(0, string_lit("hello"))], "T(\"hello\");")]);
    // Recursive is stored as a regular annotation
    let _ = ann.get_annotation_rules("Recursive");
}

// ── limit_of with number as object ──

#[test]
fn test_limit_none_value() {
    let ann = parse_annotations(vec![rule("@Engine", vec![arg(0, string_lit("sqlite"))], "@Engine(\"sqlite\");"), rule("T", vec![arg(0, string_lit("hello"))], "T(\"hello\");")]);
    assert_eq!(ann.limit_of("T"), None);
    assert_eq!(ann.limit_clause("T"), "");
}

// ── grounded_predicates with alias ──

#[test]
fn test_grounded_predicates_with_alias() {
    let ann = parse_annotations(vec![rule("@Engine", vec![arg(0, string_lit("sqlite"))], "@Engine(\"sqlite\");"), rule("@Ground", vec![arg(0, pred("A")), arg(1, var("actual_table"))], "@Ground(A, actual_table);"), rule("T", vec![arg(0, var("x"))], "T(x) :- A(x);")]);
    let grounded = ann.grounded_predicates();
    assert!(grounded.contains("A"));
}

// ── extract_predicate_name via variable ──

#[test]
fn test_order_by_multiple_cols() {
    let ann = parse_annotations(vec![rule("@Engine", vec![arg(0, string_lit("sqlite"))], "@Engine(\"sqlite\");"), rule("@OrderBy", vec![arg(0, pred("T")), arg(1, var("col1")), arg(2, var("col2")), arg(3, var("col3"))], "@OrderBy(T, col1, col2, col3);"), rule("T", vec![arg(0, string_lit("hello"))], "T(\"hello\");")]);
    let cols = ann.order_by("T").unwrap();
    assert!(cols.len() >= 2, "Should have multiple columns: {:?}", cols);
}

// ── order_by_clause format ──

#[test]
fn test_order_by_clause_multiple() {
    let ann = parse_annotations(vec![rule("@Engine", vec![arg(0, string_lit("sqlite"))], "@Engine(\"sqlite\");"), rule("@OrderBy", vec![arg(0, pred("T")), arg(1, var("col1")), arg(2, var("col2"))], "@OrderBy(T, col1, col2);"), rule("T", vec![arg(0, string_lit("hello"))], "T(\"hello\");")]);
    let clause = ann.order_by_clause("T");
    assert!(clause.starts_with(" ORDER BY"), "Got: {}", clause);
}

// ── ok_injection with orderby ──

#[test]
fn test_ok_injection_blocked_by_orderby() {
    let ann = parse_annotations(vec![rule("@Engine", vec![arg(0, string_lit("sqlite"))], "@Engine(\"sqlite\");"), rule("@OrderBy", vec![arg(0, pred("T")), arg(1, var("col1"))], "@OrderBy(T, col1);"), rule("T", vec![arg(0, string_lit("hello"))], "T(\"hello\");")]);
    // OrderBy blocks injection
    assert!(!ann.ok_injection("T"));
}

// ── use_with false (Bool variant) ──

#[test]
fn test_use_with_false() {
    let ann = parse_annotations(vec![rule("@Engine", vec![arg(0, string_lit("sqlite"))], "@Engine(\"sqlite\");"), rule("@NoWith", vec![arg(0, pred("T"))], "@NoWith(T);"), rule("T", vec![arg(0, string_lit("hello"))], "T(\"hello\");")]);
    assert!(!ann.use_with("T"));
    assert!(!ann.force_with("T"));
}

// ── use_with default true ──

#[test]
fn test_use_with_default_true() {
    let ann = parse_annotations(vec![rule("@Engine", vec![arg(0, string_lit("sqlite"))], "@Engine(\"sqlite\");"), rule("T", vec![arg(0, string_lit("hello"))], "T(\"hello\");")]);
    // Default use_with should be true
    assert!(ann.use_with("T"));
}

// ── force_with true ──

#[test]
fn test_force_with_true() {
    let ann = parse_annotations(vec![rule("@Engine", vec![arg(0, string_lit("sqlite"))], "@Engine(\"sqlite\");"), rule("@With", vec![arg(0, pred("T"))], "@With(T);"), rule("T", vec![arg(0, string_lit("hello"))], "T(\"hello\");")]);
    assert!(ann.force_with("T"));
    assert!(ann.use_with("T"));
}

// ── ok_injection with with ──

#[test]
fn test_ok_injection_blocked_by_with_annotation() {
    let ann = parse_annotations(vec![rule("@Engine", vec![arg(0, string_lit("sqlite"))], "@Engine(\"sqlite\");"), rule("@With", vec![arg(0, pred("T"))], "@With(T);"), rule("T", vec![arg(0, string_lit("hello"))], "T(\"hello\");")]);
    assert!(!ann.ok_injection("T"), "With should block injection");
}

// ── ok_injection default true ──

#[test]
fn test_ok_injection_default_allows() {
    let ann = parse_annotations(vec![rule("@Engine", vec![arg(0, string_lit("sqlite"))], "@Engine(\"sqlite\");"), rule("T", vec![arg(0, string_lit("hello"))], "T(\"hello\");")]);
    assert!(ann.ok_injection("T"), "Default should allow injection");
}

// ── ground with alias ──

#[test]
fn test_ground_returns_ground_info() {
    let ann = parse_annotations(vec![rule("@Engine", vec![arg(0, string_lit("sqlite"))], "@Engine(\"sqlite\");"), rule("@Ground", vec![arg(0, pred("T")), arg(1, var("actual_table"))], "@Ground(T, actual_table);"), rule("T", vec![arg(0, string_lit("hello"))], "T(\"hello\");")]);
    let ground = ann.ground("T");
    assert!(ground.is_some(), "Should have ground info");
    let g = ground.unwrap();
    assert_eq!(g.table_name, "actual_table");
}

// ── ground without alias ──

#[test]
fn test_ground_no_alias() {
    let ann = parse_annotations(vec![rule("@Engine", vec![arg(0, string_lit("sqlite"))], "@Engine(\"sqlite\");"), rule("@Ground", vec![arg(0, pred("T"))], "@Ground(T);"), rule("T", vec![arg(0, string_lit("hello"))], "T(\"hello\");")]);
    let ground = ann.ground("T");
    assert!(ground.is_some(), "Should have ground info");
    let g = ground.unwrap();
    assert_eq!(g.table_name, "logica_test.T");
}

// ── limit_value ──

#[test]
fn test_limit_value_number() {
    let ann = parse_annotations(vec![rule("@Engine", vec![arg(0, string_lit("sqlite"))], "@Engine(\"sqlite\");"), rule("@Limit", vec![arg(0, pred("T")), arg(1, num("100"))], "@Limit(T, 100);"), rule("T", vec![arg(0, string_lit("hello"))], "T(\"hello\");")]);
    let clause = ann.limit_clause("T");
    assert!(clause.contains("100"), "Limit clause: {}", clause);
}

// ── order_by with single column ──

#[test]
fn test_order_by_single_col() {
    let ann = parse_annotations(vec![rule("@Engine", vec![arg(0, string_lit("sqlite"))], "@Engine(\"sqlite\");"), rule("@OrderBy", vec![arg(0, pred("T")), arg(1, var("col0"))], "@OrderBy(T, col0);"), rule("T", vec![arg(0, string_lit("hello"))], "T(\"hello\");")]);
    let clause = ann.order_by_clause("T");
    assert!(clause.contains("ORDER BY"), "Got: {}", clause);
}

// ── define_flag with default only ──

#[test]
fn test_define_flag_default_value() {
    let ann = parse_annotations(vec![rule("@Engine", vec![arg(0, string_lit("sqlite"))], "@Engine(\"sqlite\");"), rule("@DefineFlag", vec![arg(0, string_lit("test_flag")), arg(1, string_lit("default_val"))], "@DefineFlag(\"test_flag\", \"default_val\");"), rule("T", vec![arg(0, string_lit("hello"))], "T(\"hello\");")]);
    // Flag values should be populated
    let _ = ann; // Should not panic
}

fn named(name: &str, expression: Json) -> Json {
    obj(vec![("field", s(name)), ("value", obj(vec![("expression", expression)]))])
}

fn engine(name: &str) -> Json {
    rule("@Engine", vec![arg(0, string_lit(name))], "")
}

#[test]
fn test_unknown_special_predicate_is_refused() {
    let rules = vec![("@Bogus".to_string(), rule("@Bogus", vec![arg(0, var("x"))], "@Bogus(x);"))];
    let err = Annotations::extract(&rules).unwrap_err();
    assert!(err.message.starts_with("Only @Limit, @OrderBy, @Ground"));
    assert!(err.message.ends_with("@Iteration and @BareAggregation special predicates are allowed."));
    assert_eq!(err.rule_text, "@Bogus(x);");
}

#[test]
fn test_reset_flag_value_overrides_default() {
    let ann = parse_annotations(vec![
        rule("@DefineFlag", vec![arg(0, string_lit("f")), arg(1, string_lit("a"))], ""),
        rule("@DefineFlag", vec![arg(0, string_lit("f")), arg(1, string_lit("ignored"))], ""),
        rule("@DefineFlag", vec![arg(0, string_lit("g")), arg(1, string_lit("kept"))], ""),
        rule("@ResetFlagValue", vec![arg(0, string_lit("f")), arg(1, string_lit("b"))], ""),
    ]);
    assert_eq!(ann.flag_values.get("f"), Some(&"b".to_string()));
    assert_eq!(ann.flag_values.get("g"), Some(&"kept".to_string()));
}

#[test]
fn test_dataset_by_engine() {
    assert_eq!(parse_annotations(vec![]).dataset(), "logica_home");
    assert_eq!(parse_annotations(vec![engine("psql")]).dataset(), "logica_home");
    assert_eq!(parse_annotations(vec![engine("sqlite")]).dataset(), "logica_test");
    assert_eq!(parse_annotations(vec![engine("bigquery")]).dataset(), "logica_test");
    let ann = parse_annotations(vec![engine("sqlite"), rule("@Dataset", vec![arg(0, string_lit("mine"))], "")]);
    assert_eq!(ann.dataset(), "mine");
    let ann = parse_annotations(vec![
        engine("sqlite"),
        rule("@AttachDatabase", vec![arg(0, var("logica_home")), arg(1, string_lit("home.db"))], ""),
    ]);
    assert_eq!(ann.dataset(), "logica_home");
}

#[test]
fn test_sqlite_attaches_test_schema_for_ground() {
    let ann = parse_annotations(vec![engine("sqlite"), rule("@Ground", vec![arg(0, pred("A"))], "")]);
    assert_eq!(ann.attached_databases(), vec![("logica_test".to_string(), ":memory:".to_string())]);
    assert_eq!(ann.attach_database_statements(), "ATTACH DATABASE ':memory:' AS logica_test;");
    assert_eq!(ann.preamble(), "ATTACH DATABASE ':memory:' AS logica_test;\n\n");
}

#[test]
fn test_duckdb_attach_statements() {
    let ann = parse_annotations(vec![
        rule("@AttachDatabase", vec![arg(0, var("db")), arg(1, string_lit("file.sqlite"))], ""),
        rule("@AttachDatabase", vec![arg(0, var("other")), arg(1, string_lit("x.duckdb"))], ""),
    ]);
    assert_eq!(
        ann.attach_database_statements(),
        "DETACH DATABASE IF EXISTS db;\nATTACH DATABASE 'file.sqlite' AS db (TYPE SQLITE);\nDETACH DATABASE IF EXISTS other;\nATTACH DATABASE 'x.duckdb' AS other;"
    );
}

#[test]
fn test_duckdb_preamble() {
    let ann = parse_annotations(vec![]);
    assert_eq!(
        ann.preamble(),
        "-- Initializing DuckDB environment.\ncreate schema if not exists logica_home;\n-- Empty record, has to have a field by DuckDB syntax.\ndrop type if exists logicarecord893574736 cascade; create type logicarecord893574736 as struct(nirvana numeric);\ncreate sequence if not exists eternal_logical_sequence;\n\n"
    );
    let ann = parse_annotations(vec![rule(
        "@Engine",
        vec![arg(0, string_lit("duckdb")), named("motherduck", Json::Bool(true)), named("threads", Json::Int(4))],
        "",
    )]);
    assert!(ann.is_motherduck());
    assert!(!ann.needs_clingo());
    assert_eq!(
        ann.preamble(),
        "-- Initializing DuckDB environment.\ncreate schema if not exists logica_home;\n-- Empty record, has to have a field by DuckDB syntax.\ndrop type if exists logicarecord893574736 cascade; create type logicarecord893574736 as struct(nirvana numeric);\n\nset threads to 4;\n"
    );
}

#[test]
fn test_psql_preamble() {
    let ann = parse_annotations(vec![engine("psql")]);
    assert_eq!(
        ann.preamble(),
        "-- Initializing PostgreSQL environment.\nset client_min_messages to warning;\ncreate schema if not exists logica_home;\n-- Empty logica type: logicarecord893574736;\nDO $$ BEGIN if not exists (select 'I(am) :- I(think)' from pg_type where typname = 'logicarecord893574736') then create type logicarecord893574736 as (nirvana numeric); end if; END $$;\n\n"
    );
}

#[test]
fn test_order_by_clause_with_desc() {
    let ann = parse_annotations(vec![rule(
        "@OrderBy",
        vec![arg(0, pred("T")), arg(1, string_lit("col1")), arg(2, string_lit("DESC")), arg(3, var("col2"))],
        "",
    )]);
    assert_eq!(ann.order_by("T").unwrap(), vec!["col1", "DESC", "col2"]);
    assert_eq!(ann.order_by_clause("T"), " ORDER BY col1 DESC, col2");
    assert_eq!(ann.limit_clause("T"), "");
}

#[test]
fn test_limit_clause_text() {
    let ann = parse_annotations(vec![rule("@Limit", vec![arg(0, pred("T")), arg(1, num("10"))], "")]);
    assert_eq!(ann.limit_clause("T"), " LIMIT 10");
    let ann = parse_annotations(vec![rule("@Limit", vec![arg(0, pred("T")), arg(1, num("ten"))], "")]);
    assert_eq!(ann.limit_of("T"), None);
    assert!(ann.ok_injection("T"));
}

#[test]
fn test_ground_options() {
    let ann = parse_annotations(vec![
        engine("duckdb"),
        rule(
            "@Ground",
            vec![arg(0, pred("T")), named("overwrite", Json::Bool(false)), named("copy_to_file", string_lit("out.csv"))],
            "",
        ),
        rule("@Ground", vec![arg(0, pred("U")), arg(1, pred("T"))], ""),
    ]);
    let g = ann.ground("T").unwrap();
    assert_eq!(g.table_name, "logica_home.T");
    assert!(!g.overwrite);
    assert_eq!(g.copy_to_file, Some("out.csv".to_string()));
    let u = ann.ground("U").unwrap();
    assert_eq!(u.table_name, "logica_home.T");
    assert!(u.overwrite);
    assert_eq!(u.copy_to_file, None);
}

#[test]
fn test_iterations() {
    let preds = Json::Array(vec![
        obj(vec![("predicate_name", s("A"))]),
        obj(vec![("predicate_name", s("B"))]),
    ]);
    let ann = parse_annotations(vec![rule(
        "@Iteration",
        vec![
            arg(0, var("loop")),
            named("predicates", preds),
            named("repetitions", Json::Int(3)),
            named("stop_signal", obj(vec![("predicate_name", s("Stop"))])),
        ],
        "",
    )]);
    let its = ann.iterations().unwrap();
    assert_eq!(its.len(), 1);
    assert_eq!(its[0].0, "loop");
    assert_eq!(its[0].1.predicates, vec!["A", "B"]);
    assert_eq!(its[0].1.repetitions, 3);
    assert_eq!(its[0].1.stop_signal, Some("Stop".to_string()));
}

#[test]
fn test_iteration_without_repetitions() {
    let ann = parse_annotations(vec![rule(
        "@Iteration",
        vec![arg(0, var("loop")), named("predicates", Json::Array(vec![]))],
        "",
    )]);
    let err = ann.iterations().unwrap_err();
    assert_eq!(err.message, "Iteration must specify number of repetitions.");
    assert_eq!(err.rule_text, "loop");
    let ann = parse_annotations(vec![rule("@Iteration", vec![arg(0, var("loop"))], "")]);
    assert_eq!(ann.iterations().unwrap_err().message, "Iteration must specify list of predicates.");
}

#[test]
fn test_udf_tvf_and_bare_aggregation() {
    let ann = parse_annotations(vec![
        rule("@CompileAsUdf", vec![arg(0, pred("F"))], ""),
        rule("@CompileAsUdf", vec![arg(0, pred("F"))], ""),
        rule("@CompileAsTvf", vec![arg(0, pred("G")), arg(1, Json::Array(vec![pred("X"), var("y"), num("1")]))], ""),
        rule("@BareAggregation", vec![arg(0, pred("H")), named("semigroup", pred("Max"))], ""),
    ]);
    assert!(ann.compile_as_udf.contains("F"));
    assert_eq!(ann.compile_as_udf.len(), 1);
    assert_eq!(ann.compile_as_tvf.len(), 1);
    assert_eq!(ann.compile_as_tvf[0].0, "G");
    assert_eq!(ann.compile_as_tvf[0].1, vec!["X", "y"]);
    assert_eq!(ann.bare_aggregation.get("H"), Some(&"Max".to_string()));
}

#[test]
fn test_type_checking_option() {
    assert!(parse_annotations(vec![]).should_typecheck());
    let off = parse_annotations(vec![rule(
        "@Engine",
        vec![arg(0, string_lit("duckdb")), named("type_checking", Json::Bool(false))],
        "",
    )]);
    assert!(!off.should_typecheck());
    let other = parse_annotations(vec![rule(
        "@Engine",
        vec![arg(0, string_lit("duckdb")), named("type_checking", s("no"))],
        "",
    )]);
    assert!(other.should_typecheck());
}

fn bool_lit(v: &str) -> Json {
    obj(vec![("literal", obj(vec![("the_bool", obj(vec![("the_bool", s(v))]))]))])
}

fn list_lit(items: Vec<Json>) -> Json {
    obj(vec![("literal", obj(vec![("the_list", obj(vec![("element", Json::Array(items))]))]))])
}

#[test]
fn test_type_checking_parsed_literal() {
    let off = parse_annotations(vec![
        rule("@Engine", vec![arg(0, string_lit("duckdb")), named("type_checking", bool_lit("false"))], ""),
        rule("T", vec![arg(0, num("1"))], "T(1);"),
    ]);
    assert!(!off.should_typecheck());
    let on = parse_annotations(vec![
        rule("@Engine", vec![arg(0, string_lit("duckdb")), named("type_checking", bool_lit("true"))], ""),
    ]);
    assert!(on.should_typecheck());
    let default = parse_annotations(vec![rule("@Engine", vec![arg(0, string_lit("duckdb"))], "")]);
    assert!(default.should_typecheck());
}

#[test]
fn test_get_annotation_rules_present() {
    let ann = parse_annotations(vec![
        rule("@Engine", vec![arg(0, string_lit("sqlite"))], "@Engine(\"sqlite\");"),
        rule("@Recursive", vec![arg(0, pred("T")), arg(1, num("5"))], "@Recursive(T, 5);"),
        rule("T", vec![arg(0, string_lit("hello"))], "T(\"hello\");"),
    ]);
    let found = ann.get_annotation_rules("@Recursive").unwrap();
    assert_eq!(found.len(), 1);
    assert_eq!(found[0].get("full_text").unwrap().as_str(), "@Recursive(T, 5);");
    assert!(ann.get_annotation_rules("@Ground").is_none());
    assert!(ann.get_annotation_rules("T").is_none());
}

#[test]
fn test_iterations_parsed_literals() {
    let ann = parse_annotations(vec![
        rule(
            "@Iteration",
            vec![
                arg(0, pred("It")),
                named("predicates", list_lit(vec![pred("A"), pred("B")])),
                named("repetitions", num("3")),
            ],
            "@Iteration(It, predicates: [A, B], repetitions: 3);",
        ),
        rule("A", vec![arg(0, num("1"))], "A(1);"),
        rule("B", vec![arg(0, num("1"))], "B(1);"),
    ]);
    let its = ann.iterations().unwrap();
    assert_eq!(its.len(), 1);
    assert_eq!(its[0].0, "It");
    assert_eq!(its[0].1.predicates, vec!["A", "B"]);
    assert_eq!(its[0].1.repetitions, 3);
    assert_eq!(its[0].1.stop_signal, None);
}
