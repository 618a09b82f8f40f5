use synalog::dialects::{BigQueryDialect, SqLiteDialect};
use synalog::expr_translate::basis_functions;
use synalog::json::{Json, json_obj};
use synalog::rule_rewrite::{
    all_mentioned_variables, all_mentioned_variables_impl, built_in_function_names,
    collect_record_assignments, disambiguate_combine_variables, extract_inline_assignments,
    extract_var_name, has_record, has_variable_deep, is_constraint_predicate, is_record,
    is_self_referential_unification, is_subset, make_equality, make_subscript, replace_variable,
    try_expand_record_pair,
};
use synalog::rule_translate::{NamesAllocator, inline_predicate_values, make_var_expr};
use synalog::strmap::NameSet;

fn obj(pairs: Vec<(&str, Json)>) -> Json {
    json_obj(pairs.into_iter().map(|(k, v)| (k.to_string(), v)).collect())
}

fn s(v: &str) -> Json {
    Json::Str(v.to_string())
}

fn var(name: &str) -> Json {
    obj(vec![("variable", obj(vec![("var_name", s(name))]))])
}

fn number(n: i64) -> Json {
    obj(vec![("literal", obj(vec![("the_number", Json::Int(n))]))])
}

fn arg(field: Json, e: Json) -> Json {
    obj(vec![("field", field), ("value", obj(vec![("expression", e)]))])
}

fn call(name: &str, args: Vec<Json>) -> Json {
    obj(vec![(
        "call",
        obj(vec![("predicate_name", s(name)), ("record", obj(vec![("field_value", Json::Array(args))]))]),
    )])
}

fn record(args: Vec<Json>) -> Json {
    obj(vec![("record", obj(vec![("field_value", Json::Array(args))]))])
}

fn names(list: &[&str]) -> NameSet {
    let mut n = NameSet::new();
    for x in list {
        n.insert(x.to_string());
    }
    n
}

fn text(j: &Json) -> String {
    j.to_text()
}

fn plus_xy() -> Json {
    call("+", vec![arg(Json::Int(0), var("x")), arg(Json::Int(1), var("y"))])
}

// ── all_mentioned_variables ──

#[test]
fn test_all_mentioned_variables_basic() {
    let expr = var("x");
    let mut vars = NameSet::new();
    all_mentioned_variables(&expr, &mut vars);
    assert!(vars.contains("x"));
}

#[test]
fn test_all_mentioned_variables_nested() {
    let expr = plus_xy();
    let mut vars = NameSet::new();
    all_mentioned_variables(&expr, &mut vars);
    assert!(vars.contains("x"), "Missing x: {:?}", vars);
    assert!(vars.contains("y"), "Missing y: {:?}", vars);
}

#[test]
fn test_all_mentioned_variables_int_var_name() {
    let expr = obj(vec![("variable", obj(vec![("var_name", Json::Int(42))]))]);
    let mut vars = NameSet::new();
    all_mentioned_variables(&expr, &mut vars);
    assert!(vars.contains("42"), "Should handle int var_name: {:?}", vars);
}

#[test]
fn test_all_mentioned_variables_combine_scope() {
    let expr = obj(vec![("left", var("a")), ("combine", var("b"))]);
    let mut outside = NameSet::new();
    all_mentioned_variables(&expr, &mut outside);
    assert!(outside.contains("a"));
    assert!(!outside.contains("b"));
    let mut all = NameSet::new();
    all_mentioned_variables_impl(&expr, &mut all, true);
    assert!(all.contains("a"));
    assert!(all.contains("b"));
    assert_eq!(all.len(), 2);
    let mut empty_name = NameSet::new();
    all_mentioned_variables(&var(""), &mut empty_name);
    assert!(empty_name.is_empty());
}

// ── extract_var_name ──

#[test]
fn test_extract_var_name_string() {
    assert_eq!(extract_var_name(&var("x")), Some("x".to_string()));
}

#[test]
fn test_extract_var_name_non_variable() {
    let expr = obj(vec![("literal", obj(vec![("the_number", Json::Int(1))]))]);
    assert_eq!(extract_var_name(&expr), None);
}

#[test]
fn test_extract_var_name_int() {
    let expr = obj(vec![("variable", obj(vec![("var_name", Json::Int(7))]))]);
    assert_eq!(extract_var_name(&expr), Some("7".to_string()));
}

// ── replace_variable ──

#[test]
fn test_replace_variable_basic() {
    let mut expr = var("old_var");
    let replacement = obj(vec![("literal", obj(vec![("the_number", Json::Int(42))]))]);
    replace_variable("old_var", &replacement, &mut expr);
    assert!(expr.get("variable").is_none() || expr.get("literal").is_some());
    assert_eq!(text(&expr), text(&replacement));
}

#[test]
fn test_replace_variable_int_var_name() {
    let mut expr = obj(vec![("variable", obj(vec![("var_name", Json::Int(42))]))]);
    let replacement = obj(vec![("literal", obj(vec![("the_number", Json::Int(99))]))]);
    replace_variable("42", &replacement, &mut expr);
    assert!(expr.get("literal").is_some() || expr.get("variable").is_none(),
        "Should have replaced int var_name: {:?}", expr);
}

#[test]
fn test_replace_variable_nested_exact() {
    let mut expr = plus_xy();
    replace_variable("x", &number(5), &mut expr);
    let expected = call("+", vec![arg(Json::Int(0), number(5)), arg(Json::Int(1), var("y"))]);
    assert_eq!(text(&expr), text(&expected));
    let before = text(&expr);
    replace_variable("z", &number(6), &mut expr);
    assert_eq!(text(&expr), before);
}

// ── has_variable_deep / has_record / is_record ──

#[test]
fn test_has_variable_deep_nested() {
    let expr = obj(vec![(
        "call",
        obj(vec![(
            "record",
            obj(vec![("field_value", Json::Array(vec![obj(vec![("value", obj(vec![("expression", var("x"))]))])]))]),
        )]),
    )]);
    assert!(has_variable_deep(&expr), "Should find nested variable");
}

#[test]
fn test_has_variable_deep_no_variable() {
    let expr = obj(vec![("literal", obj(vec![("the_number", Json::Int(42))]))]);
    assert!(!has_variable_deep(&expr));
}

#[test]
fn test_has_variable_deep_in_array() {
    let expr = Json::Array(vec![var("x")]);
    assert!(has_variable_deep(&expr));
}

#[test]
fn test_has_record_true() {
    let expr = obj(vec![("record", obj(vec![("field_value", Json::Array(vec![]))]))]);
    assert!(has_record(&expr));
    assert!(is_record(&expr));
}

#[test]
fn test_has_record_false() {
    let expr = obj(vec![("literal", obj(vec![("the_number", Json::Int(1))]))]);
    assert!(!has_record(&expr));
}

#[test]
fn test_has_record_non_object() {
    assert!(!has_record(&Json::Int(42)));
    assert!(!is_record(&Json::Int(42)));
}

// ── builders ──

#[test]
fn test_make_var_expr() {
    let expr = make_var_expr("my_var");
    let v = expr.get("variable").unwrap();
    assert_eq!(v.get("var_name").unwrap().as_str(), "my_var");
}

#[test]
fn test_make_subscript_and_equality() {
    let sub = make_subscript(&var("r"), "f");
    let expected = obj(vec![(
        "subscript",
        obj(vec![
            ("record", var("r")),
            ("subscript", obj(vec![("literal", obj(vec![("the_symbol", obj(vec![("symbol", s("f"))]))]))])),
        ]),
    )]);
    assert_eq!(text(&sub), text(&expected));
    let eq = make_equality(&var("a"), &number(1));
    let expected_eq = call("==", vec![arg(s("left"), var("a")), arg(s("right"), number(1))]);
    assert_eq!(text(&eq), text(&expected_eq));
}

// ── is_subset / is_constraint_predicate ──

#[test]
fn test_is_subset_true() {
    assert!(is_subset(&names(&["x", "y"]), &names(&["x", "y", "z"])));
}

#[test]
fn test_is_subset_false() {
    assert!(!is_subset(&names(&["x", "w"]), &names(&["x", "y", "z"])));
}

#[test]
fn test_is_constraint_predicate() {
    for p in ["==", "!=", "<", ">", "<=", ">=", "&&", "||", "~", "in", "is", "is not", "Like", "!", "IsNull", "Constraint"] {
        assert!(is_constraint_predicate(p), "{}", p);
    }
    assert!(!is_constraint_predicate("+"));
    assert!(!is_constraint_predicate("Source"));
}

// ── self-referential unifications ──

#[test]
fn test_is_self_referential_unification() {
    let sub = make_subscript(&var("x"), "f");
    let rec = record(vec![arg(s("f"), sub)]);
    assert!(is_self_referential_unification(&var("x"), &rec));
    assert!(is_self_referential_unification(&rec, &var("x")));
    assert!(!is_self_referential_unification(&var("y"), &rec));
    assert!(!is_self_referential_unification(&number(1), &number(1)));
}

// ── record assignments ──

#[test]
fn test_collect_record_assignments_nested() {
    let inner = record(vec![arg(s("c"), var("c"))]);
    let target = record(vec![arg(s("a"), var("a")), arg(s("b"), inner), arg(s("d"), var("d"))]);
    let source = var("src");
    let internal = names(&["a", "c", "d"]);
    let bound = names(&["d"]);
    let r = collect_record_assignments(&target, &source, &internal, &bound);
    assert_eq!(r.len(), 2);
    assert_eq!(r[0].0, "a");
    assert_eq!(text(&r[0].1), text(&make_subscript(&source, "a")));
    assert_eq!(r[1].0, "c");
    assert_eq!(text(&r[1].1), text(&make_subscript(&make_subscript(&source, "b"), "c")));
    assert!(collect_record_assignments(&var("v"), &source, &internal, &bound).is_empty());
}

#[test]
fn test_try_expand_record_pair() {
    let left = record(vec![arg(s("a"), var("x")), arg(s("b"), var("y"))]);
    let right = record(vec![arg(s("b"), number(2)), arg(s("a"), number(1))]);
    let pairs = try_expand_record_pair(&left, &right).unwrap();
    assert_eq!(pairs.len(), 2);
    assert_eq!(text(&pairs[0].0), text(&var("x")));
    assert_eq!(text(&pairs[0].1), text(&number(1)));
    assert_eq!(text(&pairs[1].0), text(&var("y")));
    assert_eq!(text(&pairs[1].1), text(&number(2)));
    let other = record(vec![arg(s("a"), number(1)), arg(s("c"), number(3))]);
    assert!(try_expand_record_pair(&left, &other).is_none());
    let shorter = record(vec![arg(s("a"), number(1))]);
    assert!(try_expand_record_pair(&left, &shorter).is_none());
    assert!(try_expand_record_pair(&left, &var("z")).is_none());
}

// ── inline assignments ──

#[test]
fn test_extract_inline_assignments() {
    let assignment = call("=", vec![arg(s("left"), var("a")), arg(s("right"), number(1))]);
    let expr = call("F", vec![arg(Json::Int(0), assignment)]);
    let mut unifications: Vec<(Json, Json)> = Vec::new();
    let result = extract_inline_assignments(&expr, &mut unifications);
    let expected = call("F", vec![arg(Json::Int(0), number(1))]);
    assert_eq!(text(&result), text(&expected));
    assert_eq!(unifications.len(), 1);
    assert_eq!(text(&unifications[0].0), text(&var("a")));
    assert_eq!(text(&unifications[0].1), text(&number(1)));
}

#[test]
fn test_extract_inline_assignments_nested_order() {
    let inner = call("=", vec![arg(s("left"), var("b")), arg(s("right"), number(2))]);
    let outer = call("=", vec![arg(s("left"), var("a")), arg(s("right"), inner)]);
    let mut unifications: Vec<(Json, Json)> = Vec::new();
    let result = extract_inline_assignments(&outer, &mut unifications);
    assert_eq!(text(&result), text(&number(2)));
    assert_eq!(unifications.len(), 2);
    assert_eq!(text(&unifications[0].0), text(&var("b")));
    assert_eq!(text(&unifications[1].0), text(&var("a")));
    assert_eq!(text(&unifications[1].1), text(&number(2)));
    let plain = plus_xy();
    let mut none: Vec<(Json, Json)> = Vec::new();
    assert_eq!(text(&extract_inline_assignments(&plain, &mut none)), text(&plain));
    assert!(none.is_empty());
}

// ── built-in names ──

#[test]
fn test_basis_and_built_in_names() {
    let sqlite = basis_functions(&SqLiteDialect);
    assert!(sqlite.contains("Range"));
    assert!(sqlite.contains("MagicalEntangle"));
    assert!(sqlite.contains("Cast"));
    assert!(!sqlite.contains("MyFunc"));
    let bq = basis_functions(&BigQueryDialect);
    assert!(bq.contains("++"));
    let all = built_in_function_names();
    assert!(all.contains("Range"));
    assert!(all.contains("CumulativeSum"));
    assert!(!all.contains("="));
    assert!(!all.contains("MyFunc"));
}

// ── inline_predicate_values ──

fn fact_rule() -> Json {
    obj(vec![(
        "head",
        obj(vec![("predicate_name", s("T")), ("record", obj(vec![("field_value", Json::Array(vec![arg(Json::Int(0), obj(vec![("literal", obj(vec![("the_string", obj(vec![("the_string", s("hello"))]))]))]))]))]))]),
    )])
}

#[test]
fn test_inline_predicate_values_no_change() {
    let mut rule = fact_rule();
    let before = text(&rule);
    let mut alloc = NamesAllocator::new();
    inline_predicate_values(&mut rule, &mut alloc);
    assert!(rule.is_object());
    assert_eq!(text(&rule), before);
    assert_eq!(alloc.alloc_var(), "x_0");
}

fn source_body() -> Json {
    obj(vec![(
        "conjunction",
        obj(vec![(
            "conjunct",
            Json::Array(vec![obj(vec![(
                "predicate",
                obj(vec![
                    ("predicate_name", s("Source")),
                    ("record", obj(vec![("field_value", Json::Array(vec![arg(Json::Int(0), var("x"))]))])),
                ]),
            )])]),
        )]),
    )])
}

#[test]
fn test_inline_predicate_values_with_user_call() {
    let head = obj(vec![
        ("predicate_name", s("T")),
        ("record", obj(vec![("field_value", Json::Array(vec![arg(Json::Int(0), call("MyFunc", vec![arg(Json::Int(0), var("x"))]))]))])),
    ]);
    let mut rule = obj(vec![("head", head), ("body", source_body())]);
    let mut alloc = NamesAllocator::new();
    inline_predicate_values(&mut rule, &mut alloc);
    assert!(rule.is_object());
    let expected_head = obj(vec![
        ("predicate_name", s("T")),
        ("record", obj(vec![("field_value", Json::Array(vec![arg(Json::Int(0), var("x_0"))]))])),
    ]);
    assert_eq!(text(rule.get("head").unwrap()), text(&expected_head));
    let conjuncts = rule.get("body").unwrap().get("conjunction").unwrap().get("conjunct").unwrap().items().unwrap();
    assert_eq!(conjuncts.len(), 2);
    let added = obj(vec![(
        "predicate",
        obj(vec![
            ("predicate_name", s("MyFunc")),
            (
                "record",
                obj(vec![("field_value", Json::Array(vec![arg(Json::Int(0), var("x")), arg(s("logica_value"), var("x_0"))]))]),
            ),
        ]),
    )]);
    assert_eq!(text(&conjuncts[1]), text(&added));
    assert_eq!(alloc.alloc_var(), "x_1");
}

#[test]
fn test_inline_predicate_values_makes_body() {
    let head = obj(vec![
        ("predicate_name", s("T")),
        ("record", obj(vec![("field_value", Json::Array(vec![arg(Json::Int(0), call("Helper", vec![]))]))])),
    ]);
    let mut rule = obj(vec![("head", head)]);
    let mut alloc = NamesAllocator::new();
    inline_predicate_values(&mut rule, &mut alloc);
    let conjuncts = rule.get("body").unwrap().get("conjunction").unwrap().get("conjunct").unwrap().items().unwrap();
    assert_eq!(conjuncts.len(), 1);
    let built_in = call("Range", vec![arg(Json::Int(0), number(3))]);
    let mut rule2 = obj(vec![("head", obj(vec![("predicate_name", s("T")), ("record", obj(vec![("field_value", Json::Array(vec![arg(Json::Int(0), built_in)]))]))]))]);
    let before = text(&rule2);
    inline_predicate_values(&mut rule2, &mut alloc);
    assert_eq!(text(&rule2), before);
}

// ── disambiguate_combine_variables ──

#[test]
fn test_disambiguate_combine_vars_no_combine() {
    let mut rule = fact_rule();
    let before = text(&rule);
    let mut alloc = NamesAllocator::new();
    disambiguate_combine_variables(&mut rule, &mut alloc);
    assert_eq!(text(&rule), before);
}

#[test]
fn test_disambiguate_combine_variables_with_combine() {
    // T(y) :- Source(x), y == Combine(z :- Other(z, x));
    let combine_rule = obj(vec![
        ("head", obj(vec![("predicate_name", s("Combine")), ("record", obj(vec![("field_value", Json::Array(vec![arg(s("logica_value"), var("z"))]))]))])),
        (
            "body",
            obj(vec![(
                "conjunction",
                obj(vec![(
                    "conjunct",
                    Json::Array(vec![obj(vec![(
                        "predicate",
                        obj(vec![
                            ("predicate_name", s("Other")),
                            ("record", obj(vec![("field_value", Json::Array(vec![arg(Json::Int(0), var("z")), arg(Json::Int(1), var("x"))]))])),
                        ]),
                    )])]),
                )]),
            )]),
        ),
    ]);
    let unification = obj(vec![(
        "unification",
        obj(vec![("left_hand_side", var("y")), ("right_hand_side", obj(vec![("combine", combine_rule)]))]),
    )]);
    let source = source_body().get("conjunction").unwrap().get("conjunct").unwrap().items().unwrap()[0].to_text();
    assert!(source.contains("Source"));
    let head = obj(vec![("predicate_name", s("T")), ("record", obj(vec![("field_value", Json::Array(vec![arg(Json::Int(0), var("y"))]))]))]);
    let body = obj(vec![(
        "conjunction",
        obj(vec![(
            "conjunct",
            Json::Array(vec![
                obj(vec![("predicate", obj(vec![("predicate_name", s("Source")), ("record", obj(vec![("field_value", Json::Array(vec![arg(Json::Int(0), var("x"))]))]))]))]),
                unification,
            ]),
        )]),
    )]);
    let mut rule = obj(vec![("head", head), ("body", body)]);
    let mut alloc = NamesAllocator::new();
    disambiguate_combine_variables(&mut rule, &mut alloc);
    let t = text(&rule);
    assert!(t.contains("z # disambiguated with x_0"), "{}", t);
    assert!(!t.contains("x # disambiguated"), "{}", t);
    assert!(!t.contains("y # disambiguated"), "{}", t);
    let mut inside = NameSet::new();
    all_mentioned_variables_impl(&rule, &mut inside, true);
    assert!(inside.contains("x"));
    assert!(!inside.contains("z"));
    assert_eq!(alloc.alloc_var(), "x_1");
}
