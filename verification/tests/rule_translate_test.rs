use synalog::json::{Json, json_obj};
use synalog::rule_translate::{
    LogicalVariable, NamesAllocator, all_record_fields, decorate_combine_rule, has_combine,
};
use synalog::strmap::StrMap;

fn obj(pairs: Vec<(&str, Json)>) -> Json {
    json_obj(pairs.into_iter().map(|(k, v)| (k.to_string(), v)).collect())
}

fn s(v: &str) -> Json {
    Json::Str(v.to_string())
}

fn number(n: &str) -> Json {
    obj(vec![("literal", obj(vec![("the_number", obj(vec![("number", s(n))]))]))])
}

fn var(name: &str) -> Json {
    obj(vec![("variable", obj(vec![("var_name", s(name))]))])
}

fn member<'a>(v: &'a Json, k: &str) -> &'a Json {
    v.get(k).unwrap()
}

fn first<'a>(v: &'a Json) -> &'a Json {
    &v.items().unwrap()[0]
}

/// `T(x? += 1) distinct :- Source(x);` as the parser gives it, with or without
/// the body.
fn combine_rule(with_body: bool) -> Json {
    let call = obj(vec![
        ("predicate_name", s("Agg+")),
        (
            "record",
            obj(vec![(
                "field_value",
                Json::Array(vec![obj(vec![
                    ("field", Json::Int(0)),
                    ("value", obj(vec![("expression", number("1"))])),
                ])]),
            )]),
        ),
    ]);
    let aggregation = obj(vec![("operator", s("+")), ("expression", obj(vec![("call", call)]))]);
    let head = obj(vec![
        ("predicate_name", s("T")),
        (
            "record",
            obj(vec![(
                "field_value",
                Json::Array(vec![obj(vec![
                    ("field", s("x")),
                    ("value", obj(vec![("aggregation", aggregation)])),
                ])]),
            )]),
        ),
    ]);
    if !with_body {
        return obj(vec![("head", head), ("distinct_denoted", Json::Bool(true))]);
    }
    let source = obj(vec![(
        "predicate",
        obj(vec![
            ("predicate_name", s("Source")),
            (
                "record",
                obj(vec![(
                    "field_value",
                    Json::Array(vec![obj(vec![
                        ("field", Json::Int(0)),
                        ("value", obj(vec![("expression", var("x"))])),
                    ])]),
                )]),
            ),
        ]),
    )]);
    obj(vec![
        ("head", head),
        ("body", obj(vec![("conjunction", obj(vec![("conjunct", Json::Array(vec![source]))]))])),
        ("distinct_denoted", Json::Bool(true)),
    ])
}

fn entangled_call(rule: &Json) -> &Json {
    let fv0 = first(member(member(member(rule, "head"), "record"), "field_value"));
    let expr = member(member(member(fv0, "value"), "aggregation"), "expression");
    let arg0 = first(member(member(member(expr, "call"), "record"), "field_value"));
    member(member(member(arg0, "value"), "expression"), "call")
}

fn conjuncts(rule: &Json) -> &Vec<Json> {
    member(member(member(rule, "body"), "conjunction"), "conjunct").items().unwrap()
}

// ── NamesAllocator ──

#[test]
fn test_names_allocator_table() {
    let mut alloc = NamesAllocator::new();
    let t1 = alloc.alloc_table(None);
    let t2 = alloc.alloc_table(None);
    assert_ne!(t1, t2);
    assert!(t1.starts_with("t_"));
    assert!(t2.starts_with("t_"));
}

#[test]
fn test_names_allocator_table_hint() {
    let mut alloc = NamesAllocator::new();
    let t = alloc.alloc_table(Some("my_pred"));
    assert!(t.contains("my_pred"), "Table name should contain hint: {}", t);
}

#[test]
fn test_names_allocator_var() {
    let mut alloc = NamesAllocator::new();
    let v1 = alloc.alloc_var();
    let v2 = alloc.alloc_var();
    assert_ne!(v1, v2);
}

#[test]
fn test_names_allocator_unique_tables() {
    let mut alloc = NamesAllocator::new();
    let mut names = std::collections::HashSet::new();
    for _ in 0..100 {
        let t = alloc.alloc_table(None);
        assert!(names.insert(t), "Table names should be unique");
    }
}

#[test]
fn test_names_allocator_unique_vars() {
    let mut alloc = NamesAllocator::new();
    let mut names = std::collections::HashSet::new();
    for _ in 0..100 {
        let v = alloc.alloc_var();
        assert!(names.insert(v), "Var names should be unique");
    }
}

#[test]
fn test_names_allocator_hint_digit_start() {
    let mut alloc = NamesAllocator::new();
    let t = alloc.alloc_table(Some("123abc"));
    assert!(t.starts_with("t_"), "Digit-starting hint should get prefix: {}", t);
}

#[test]
fn test_names_allocator_hint_too_long() {
    let mut alloc = NamesAllocator::new();
    let long = "a".repeat(200);
    let t = alloc.alloc_table(Some(&long));
    assert!(t.starts_with("t_"), "Long hint should be ignored: {}", t);
}

#[test]
fn test_names_allocator_hint_duplicate() {
    let mut alloc = NamesAllocator::new();
    let t1 = alloc.alloc_table(Some("pred"));
    let t2 = alloc.alloc_table(Some("pred"));
    assert_ne!(t1, t2, "Duplicate hints should produce different names");
}

#[test]
fn test_names_allocator_hint_special_chars() {
    let mut alloc = NamesAllocator::new();
    let t = alloc.alloc_table(Some("my.module/pred"));
    assert!(t.contains("my_module_pred"), "Dots/slashes should become underscores: {}", t);
}

#[test]
fn test_names_allocator_alloc_var_sequence() {
    let mut alloc = NamesAllocator::new();
    let v1 = alloc.alloc_var();
    let v2 = alloc.alloc_var();
    assert_ne!(v1, v2);
}

#[test]
fn test_names_allocator_alloc_table_custom() {
    let mut alloc = NamesAllocator::new();
    let t = alloc.alloc_table(Some("my_table"));
    assert!(t.contains("my_table"), "Got: {}", t);
}

#[test]
fn test_names_allocator_exact_names() {
    let mut alloc = NamesAllocator::new();
    assert_eq!(alloc.alloc_table(None), "t_0");
    assert_eq!(alloc.alloc_table(Some("pred")), "pred");
    assert_eq!(alloc.alloc_table(Some("pred")), "t_1_pred");
    assert_eq!(alloc.alloc_table(Some("9lives")), "t_2_9lives");
    assert_eq!(alloc.alloc_table(Some("a-b c")), "abc");
    assert_eq!(alloc.alloc_table(Some("")), "t_3");
    assert_eq!(alloc.alloc_var(), "x_0");
    assert_eq!(alloc.alloc_var(), "x_1");
}

#[test]
fn test_names_allocator_custom_udfs() {
    let mut udfs = StrMap::new();
    udfs.insert("MyFunc".to_string(), "my_func({col0})".to_string());
    let alloc = NamesAllocator::with_custom_udfs(udfs);
    assert!(alloc.function_exists("MyFunc"));
    assert!(!alloc.function_exists("Other"));
    assert_eq!(alloc.get_udf_format("MyFunc"), Some("my_func({col0})"));
    assert_eq!(alloc.get_udf_format("Other"), None);
}

// ── LogicalVariable ──

#[test]
fn test_logical_variable_user_and_generated() {
    let user = LogicalVariable::new("x", "T");
    assert!(user.is_user_variable);
    assert_eq!(user.variable_name, "x");
    assert_eq!(user.predicate_name, "T");
    let generated = LogicalVariable::new("x_3", "T");
    assert!(!generated.is_user_variable);
}

// ── Queries on rules ──

#[test]
fn test_has_combine() {
    let plain = combine_rule(true);
    assert!(!has_combine(&plain));
    let with_combine = obj(vec![(
        "expression",
        obj(vec![("call", obj(vec![("predicate_name", s("Combine"))]))]),
    )]);
    assert!(has_combine(&with_combine));
    let nested = obj(vec![("list", Json::Array(vec![Json::Int(1), with_combine]))]);
    assert!(has_combine(&nested));
    assert!(!has_combine(&s("Combine")));
}

#[test]
fn test_all_record_fields() {
    let record = obj(vec![(
        "field_value",
        Json::Array(vec![
            obj(vec![("field", Json::Int(0)), ("value", var("a"))]),
            obj(vec![("field", s("name")), ("value", var("b"))]),
            obj(vec![("field", Json::Int(2)), ("value", var("c"))]),
        ]),
    )]);
    assert_eq!(all_record_fields(&record), vec!["col0", "name", "col2"]);
    assert!(all_record_fields(&obj(vec![])).is_empty());
}

// ── decorate_combine_rule ──

#[test]
fn test_decorate_combine_rule() {
    let rule = combine_rule(true);
    let decorated = decorate_combine_rule(&rule, "logica_var_0");
    assert!(decorated.is_object());
}

#[test]
fn test_decorate_combine_rule_entangle() {
    let rule = combine_rule(true);
    let decorated = decorate_combine_rule(&rule, "magic_var_0");
    let decorated_str = format!("{:?}", decorated);
    assert!(decorated_str.contains("MagicalEntangle"), "Should entangle: {}", decorated_str);
}

#[test]
fn test_decorate_combine_rule_exact_shape() {
    let rule = combine_rule(true);
    let decorated = decorate_combine_rule(&rule, "v");
    let call = entangled_call(&decorated);
    assert_eq!(member(call, "predicate_name").as_str(), "MagicalEntangle");
    let args = member(member(call, "record"), "field_value").items().unwrap();
    assert_eq!(args.len(), 2);
    let original = member(member(&args[0], "value"), "expression");
    let lit = member(member(member(original, "literal"), "the_number"), "number");
    assert_eq!(lit.as_str(), "1");
    let tied = member(member(member(member(&args[1], "value"), "expression"), "variable"), "var_name");
    assert_eq!(tied.as_str(), "v");
    let cs = conjuncts(&decorated);
    assert_eq!(cs.len(), 2);
    assert!(cs[0].get("predicate").is_some());
    let inclusion = member(&cs[1], "inclusion");
    let element = member(member(inclusion, "element"), "variable");
    assert_eq!(member(element, "var_name").as_str(), "v");
    let zero = first(member(member(member(member(inclusion, "list"), "literal"), "the_list"), "element"));
    assert_eq!(member(member(member(zero, "literal"), "the_number"), "number").as_str(), "0");
    assert!(decorated.get("distinct_denoted").is_some());
}

#[test]
fn test_decorate_combine_rule_without_body() {
    let rule = combine_rule(false);
    let decorated = decorate_combine_rule(&rule, "v");
    let cs = conjuncts(&decorated);
    assert_eq!(cs.len(), 1);
    assert!(cs[0].get("inclusion").is_some());
    assert_eq!(member(entangled_call(&decorated), "predicate_name").as_str(), "MagicalEntangle");
}
