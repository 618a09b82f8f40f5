use synalog::functors::{
    SerdeLikeValue, get_recursion_functor, get_flat_recursion_functor, Functors, defined_predicates_rules,
    extract_predicate_names, walk_replace_predicate, get_flat_iterative_recursion_functor,
    run_makes, run_makes_with_deps,
};
use synalog::json::{Json, json_obj};
use synalog::strmap::StrMap;

fn obj(pairs: Vec<(&str, Json)>) -> Json {
    json_obj(pairs.into_iter().map(|(k, v)| (k.to_string(), v)).collect())
}

fn s(v: &str) -> Json {
    Json::Str(v.to_string())
}

fn var(name: &str) -> Json {
    obj(vec![("variable", obj(vec![("var_name", s(name))]))])
}

fn str_lit(v: &str) -> Json {
    obj(vec![("literal", obj(vec![("the_string", obj(vec![("the_string", s(v))]))]))])
}

fn pred_lit(name: &str) -> Json {
    obj(vec![("literal", obj(vec![("the_predicate", obj(vec![("predicate_name", s(name))]))]))])
}

fn args(values: Vec<Json>) -> Json {
    let fvs = values
        .into_iter()
        .enumerate()
        .map(|(i, v)| obj(vec![("field", Json::Int(i as i64)), ("value", obj(vec![("expression", v)]))]))
        .collect();
    obj(vec![("field_value", Json::Array(fvs))])
}

/// A parsed rule `name(head_args) :- body[0], body[1], ...`.
fn rule(name: &str, head_args: Vec<Json>, body: Vec<(&str, Vec<Json>)>) -> Json {
    let head = obj(vec![("predicate_name", s(name)), ("record", args(head_args))]);
    if body.is_empty() {
        return obj(vec![("head", head)]);
    }
    let conjuncts = body
        .into_iter()
        .map(|(p, a)| obj(vec![("predicate", obj(vec![("predicate_name", s(p)), ("record", args(a))]))]))
        .collect();
    obj(vec![("head", head), ("body", obj(vec![("conjunction", obj(vec![("conjunct", Json::Array(conjuncts))]))]))])
}

fn engine() -> Json {
    rule("@Engine", vec![str_lit("sqlite")], vec![])
}

fn has(names: &synalog::strmap::NameSet, n: &str) -> bool {
    names.contains(n)
}

#[test]
fn test_serde_like_value_as_i64() {
    let v = SerdeLikeValue::Int(42);
    assert_eq!(v.as_i64(), Some(42));
}

#[test]
fn test_serde_like_value_as_i64_wrong_type() {
    let v = SerdeLikeValue::Bool(true);
    assert_eq!(v.as_i64(), None);
}

#[test]
fn test_serde_like_value_as_i64_from_str() {
    let v = SerdeLikeValue::Str("hello".to_string());
    assert_eq!(v.as_i64(), None);
}

#[test]
fn test_serde_like_value_as_bool() {
    let v = SerdeLikeValue::Bool(true);
    assert_eq!(v.as_bool(), Some(true));
}

#[test]
fn test_serde_like_value_as_bool_false() {
    let v = SerdeLikeValue::Bool(false);
    assert_eq!(v.as_bool(), Some(false));
}

#[test]
fn test_serde_like_value_as_bool_wrong_type() {
    let v = SerdeLikeValue::Int(1);
    assert_eq!(v.as_bool(), None);
}

#[test]
fn test_serde_like_value_str() {
    let v = SerdeLikeValue::Str("hello".to_string());
    assert_eq!(v.as_i64(), None);
    assert_eq!(v.as_bool(), None);
}

#[test]
fn test_serde_like_value_negative_int() {
    let v = SerdeLikeValue::Int(-5);
    assert_eq!(v.as_i64(), Some(-5));
}

#[test]
fn test_serde_like_value_zero() {
    let v = SerdeLikeValue::Int(0);
    assert_eq!(v.as_i64(), Some(0));
}

#[test]
fn test_serde_like_value_large_int() {
    let v = SerdeLikeValue::Int(i64::MAX);
    assert_eq!(v.as_i64(), Some(i64::MAX));
}

#[test]
fn test_serde_like_value_min_int() {
    let v = SerdeLikeValue::Int(i64::MIN);
    assert_eq!(v.as_i64(), Some(i64::MIN));
}

#[test]
fn test_serde_like_value_str_variant() {
    let v = SerdeLikeValue::Str("hello".to_string());
    assert_eq!(v.as_i64(), None);
    assert_eq!(v.as_bool(), None);
}

#[test]
fn test_get_recursion_functor_depth_1() {
    let result = get_recursion_functor(1, "Path");
    assert!(result.contains("Path_r0 := Path_recursive_head(Path_recursive: nil)"), "Got:\n{}", result);
    assert!(result.contains("Path_r1 := Path_recursive_head(Path_recursive: Path_r0)"), "Got:\n{}", result);
    assert!(result.contains("Path := Path_r1()"), "Got:\n{}", result);
}

#[test]
fn test_get_recursion_functor_depth_3() {
    let result = get_recursion_functor(3, "A");
    assert!(result.contains("A_r0"), "Got:\n{}", result);
    assert!(result.contains("A_r3"), "Got:\n{}", result);
    assert!(result.contains("A := A_r3()"), "Got:\n{}", result);
}

#[test]
fn test_get_flat_recursion_functor_single() {
    let cover = vec!["P".to_string()];
    let direct = vec![("P".to_string(), vec!["P".to_string()])];
    let result = get_flat_recursion_functor(2, &cover, &direct);
    assert!(result.contains("P_fr0"), "Got:\n{}", result);
    assert!(result.contains("P_fr2"), "Got:\n{}", result);
    assert!(result.contains("P := P_fr2()"), "Got:\n{}", result);
}

#[test]
fn test_get_flat_recursion_functor_two_preds() {
    let cover = vec!["A".to_string(), "B".to_string()];
    let direct = vec![
        ("A".to_string(), vec!["B".to_string()]),
        ("B".to_string(), vec!["A".to_string()]),
    ];
    let result = get_flat_recursion_functor(1, &cover, &direct);
    assert!(result.contains("A_fr0"), "Got:\n{}", result);
    assert!(result.contains("B_fr0"), "Got:\n{}", result);
    assert!(result.contains("A := A_fr1()"), "Got:\n{}", result);
    assert!(result.contains("B := B_fr1()"), "Got:\n{}", result);
}

#[test]
fn test_recursion_functor_exact_text() {
    assert_eq!(
        get_recursion_functor(2, "P"),
        "P_r0 := P_recursive_head(P_recursive: nil);\nP_r1 := P_recursive_head(P_recursive: P_r0);\nP_r2 := P_recursive_head(P_recursive: P_r1);\nP := P_r2();"
    );
    assert_eq!(get_recursion_functor(0, "Q"), "Q_r0 := Q_recursive_head(Q_recursive: nil);\nQ := Q_r0();");
}

#[test]
fn test_flat_recursion_functor_exact_text() {
    let cover = vec!["B".to_string(), "A".to_string(), "B".to_string()];
    let direct = vec![
        ("A".to_string(), vec!["C".to_string(), "B".to_string(), "A".to_string()]),
    ];
    assert_eq!(
        get_flat_recursion_functor(1, &cover, &direct),
        "A_fr0 := A_ROne(A_RZero: nil, B_RZero: nil);\nA_fr1 := A_ROne(A_RZero: A_fr0, B_RZero: B_fr0);\nA := A_fr1();\nB_fr0 := B_ROne();\nB_fr1 := B_ROne();\nB := B_fr1();"
    );
}

#[test]
fn test_functors_new() {
    let rules = vec![engine(), rule("T", vec![str_lit("hello")], vec![])];
    let f = Functors::new(&rules);
    assert!(!f.rules.is_empty());
}

#[test]
fn test_functors_get_args_of_map_empty() {
    let rules = vec![engine(), rule("T", vec![str_lit("hello")], vec![])];
    let f = Functors::new(&rules);
    let args_of = f.get_args_of_map();
    assert!(args_of.is_empty() || args_of.iter().all(|(_, v)| v.is_empty()));
}

#[test]
fn test_extract_predicate_names() {
    let rules = vec![
        engine(),
        rule("A", vec![str_lit("hello")], vec![]),
        rule("B", vec![var("x")], vec![("A", vec![var("x")])]),
    ];
    for rule in &rules {
        let names = extract_predicate_names(rule);
        assert!(!names.is_empty(), "Should extract names from rule");
    }
}

#[test]
fn test_defined_predicates_rules() {
    let rules = vec![
        engine(),
        rule("A", vec![str_lit("hello")], vec![]),
        rule("B", vec![str_lit("world")], vec![]),
        rule("A", vec![str_lit("foo")], vec![]),
    ];
    let map = defined_predicates_rules(&rules);
    let a = map.iter().find(|(k, _)| k == "A");
    assert!(a.is_some(), "Should have A");
    assert_eq!(a.unwrap().1.len(), 2, "A should have 2 rules");
    assert!(map.iter().any(|(k, _)| k == "B"), "Should have B");
}

#[test]
fn test_functors_all_rules_of() {
    let rules = vec![
        engine(),
        rule("A", vec![str_lit("hello")], vec![]),
        rule("A", vec![str_lit("world")], vec![]),
        rule("B", vec![var("x")], vec![("A", vec![var("x")])]),
    ];
    let f = Functors::new(&rules);
    let a_rules = f.all_rules_of("A").unwrap();
    assert_eq!(a_rules.len(), 2);
}

#[test]
fn test_functors_get_constant_function() {
    let rules = vec![engine(), rule("T", vec![str_lit("hello")], vec![])];
    let mut f = Functors::new(&rules);
    let name1 = f.get_constant_function("42");
    assert!(!name1.is_empty());
    let name2 = f.get_constant_function("42");
    assert_eq!(name1, name2);
    let name3 = f.get_constant_function("hello");
    assert_ne!(name1, name3);
    assert_eq!(name1, "LogicaCompilerConstant0");
    assert_eq!(name3, "LogicaCompilerConstant1");
    assert_eq!(f.get_int_constant_function(7), "LogicaCompilerConstant2");
    assert_eq!(f.get_str_constant_function("7"), "LogicaCompilerConstant3");
    assert_eq!(f.get_int_constant_function(7), "LogicaCompilerConstant2");
}

#[test]
fn test_functors_call_key() {
    let rules = vec![engine(), rule("T", vec![str_lit("hello")], vec![])];
    let f = Functors::new(&rules);
    let mut args = StrMap::new();
    args.insert("arg1".to_string(), "val1".to_string());
    let key = f.call_key("MyFunctor", &args);
    assert!(key.contains("MyFunctor"), "Key should contain functor name: {}", key);
}

#[test]
fn test_functors_build_direct_args() {
    let rules = vec![
        engine(),
        rule("@Make", vec![pred_lit("T"), pred_lit("F"), var("args")], vec![]),
        rule("F", vec![var("x")], vec![]),
        rule("Source", vec![str_lit("hello")], vec![]),
    ];
    let f = Functors::new(&rules);
    let args = f.build_direct_args_of_predicate("F");
    let _ = args;
}

#[test]
fn test_functors_new_with_many_rules() {
    let rules = vec![
        engine(),
        rule("A", vec![str_lit("hello")], vec![]),
        rule("B", vec![str_lit("world")], vec![]),
        rule("C", vec![var("x")], vec![("A", vec![var("x")])]),
        rule("D", vec![var("x"), var("y")], vec![("B", vec![var("x")]), ("C", vec![var("y")])]),
    ];
    let f = Functors::new(&rules);
    assert!(f.rules.len() >= 4);
}

#[test]
fn test_functors_args_of_unknown() {
    let rules = vec![engine(), rule("A", vec![str_lit("hello")], vec![])];
    let f = Functors::new(&rules);
    let args = f.args_of("NonExistent");
    assert!(args.is_empty());
}

#[test]
fn test_functors_build_args_transitive() {
    let rules = vec![
        engine(),
        rule("A", vec![str_lit("base")], vec![]),
        rule("B", vec![var("x")], vec![("A", vec![var("x")])]),
        rule("C", vec![var("x")], vec![("B", vec![var("x")])]),
        rule("D", vec![var("x")], vec![("C", vec![var("x")])]),
    ];
    let f = Functors::new(&rules);
    let args = f.get_args_of_map();
    let d_args = &args.iter().find(|(k, _)| k == "D").unwrap().1;
    assert!(has(d_args, "C"), "D should depend on C");
    assert!(has(d_args, "B") && has(d_args, "A"));
    assert!(!has(d_args, "D"));
}

#[test]
fn test_build_args_unknown_functor() {
    let rules = vec![engine(), rule("A", vec![str_lit("hello")], vec![])];
    let f = Functors::new(&rules);
    let args_map = f.get_args_of_map();
    let args = args_map.iter().find(|(k, _)| k == "UnknownFunctor");
    assert!(args.is_none(), "Unknown functor should have no args");
}

#[test]
fn test_functors_new_rules_of() {
    let rules = vec![
        engine(),
        rule("A", vec![str_lit("hello")], vec![]),
        rule("A", vec![str_lit("world")], vec![]),
        rule("B", vec![var("x")], vec![("A", vec![var("x")])]),
    ];
    let f = Functors::new(&rules);
    let a_rules = f.all_rules_of("A").unwrap();
    assert!(a_rules.len() >= 2, "A should have at least 2 rules: got {}", a_rules.len());
    let b_rules = f.all_rules_of("B").unwrap();
    assert!(b_rules.len() >= 1, "B should have at least 1 rule: got {}", b_rules.len());
    assert_eq!(b_rules.len(), 3);
}

#[test]
fn test_functors_defined_predicates() {
    let rules = vec![
        engine(),
        rule("A", vec![str_lit("hello")], vec![]),
        rule("B", vec![var("x")], vec![("A", vec![var("x")])]),
    ];
    let preds = defined_predicates_rules(&rules);
    assert!(preds.iter().any(|(k, _)| k == "A"), "Should contain A");
    assert!(preds.iter().any(|(k, _)| k == "B"), "Should contain B");
}

#[test]
fn test_extract_predicate_names_body() {
    let r = rule("T", vec![var("x")], vec![("A", vec![var("x")]), ("B", vec![var("x")])]);
    let names = extract_predicate_names(&r);
    assert!(names.contains("A"), "Should contain A");
    assert!(names.contains("B"), "Should contain B");
    assert!(names.contains("T"));
}

#[test]
fn test_dependencies_with_cycle() {
    let rules = vec![
        rule("A", vec![var("x")], vec![("B", vec![var("x")])]),
        rule("B", vec![var("x")], vec![("A", vec![var("x")]), ("Base", vec![var("x")])]),
        rule("C", vec![var("x")], vec![("A", vec![var("x")])]),
    ];
    let f = Functors::new(&rules);
    let a = f.args_of("A");
    assert!(has(&a, "A") && has(&a, "B") && has(&a, "Base"));
    assert_eq!(a.len(), 3);
    let c = f.args_of("C");
    assert!(has(&c, "A") && has(&c, "B") && has(&c, "Base") && !has(&c, "C"));
    let direct = f.build_direct_args_of_predicate("C");
    assert!(has(&direct, "A") && !has(&direct, "B"));
    let mut call_args = StrMap::new();
    call_args.insert("Z".to_string(), "z".to_string());
    call_args.insert("B".to_string(), "Bv".to_string());
    call_args.insert("A".to_string(), "Av".to_string());
    assert_eq!(f.call_key("C", &call_args), "C(A: Av, B: Bv)");
    let all = f.all_rules_of("C").unwrap();
    assert_eq!(all.len(), 3);
}

// ── walk_replace_predicate ──

#[test]
fn test_walk_replace_predicate() {
    let mut r = rule("A", vec![str_lit("hello")], vec![]);
    walk_replace_predicate(&mut r, "A", "B");
    let new_name = r.get("head").unwrap().get("predicate_name").unwrap().as_str();
    assert_eq!(new_name, "B");
}

#[test]
fn test_walk_replace_predicate_in_array() {
    let mut r = rule("B", vec![var("x")], vec![("A", vec![var("x")])]);
    walk_replace_predicate(&mut r, "A", "C");
    let names = extract_predicate_names(&r);
    assert!(names.contains("C"), "Should contain C: {:?}", names);
    assert!(!names.contains("A"), "Should not contain A: {:?}", names);
    assert!(names.contains("B"));
}

// ── @Make instructions ──

#[test]
fn test_parse_make_instruction() {
    let mut f = Functors::new(&vec![engine()]);
    let args = obj(vec![
        ("P", obj(vec![("predicate_name", s("Q"))])),
        ("S", obj(vec![("literal", obj(vec![("the_string", obj(vec![("the_string", s("hi"))]))]))])),
        ("N", obj(vec![("literal", obj(vec![("the_number", obj(vec![("number", s("42"))]))]))])),
        ("M", Json::Int(7)),
        ("T", s("hi")),
        ("X", Json::Bool(true)),
    ]);
    let instruction = obj(vec![("1", obj(vec![("predicate_name", s("F"))])), ("2", args)]);
    let (name, applicant, map) = f.parse_make_instruction("G", &instruction).unwrap();
    assert_eq!(name, "G");
    assert_eq!(applicant, "F");
    assert_eq!(map.get("P").unwrap().as_str(), "Q");
    assert_eq!(map.get("S").unwrap().as_str(), "LogicaCompilerConstant0");
    assert_eq!(map.get("N").unwrap().as_str(), "LogicaCompilerConstant1");
    assert_eq!(map.get("M").unwrap().as_str(), "LogicaCompilerConstant2");
    assert_eq!(map.get("T").unwrap().as_str(), "LogicaCompilerConstant0");
    assert!(map.get("X").is_none());
    assert_eq!(map.len(), 5);
    let bad = obj(vec![("2", obj(vec![]))]);
    let err = f.parse_make_instruction("G", &bad).unwrap_err();
    assert_eq!(err.message, "Bad @Make instruction for G");
    assert_eq!(err.rule_text, "");
}

// ── annotations of functors ──

fn annotation(name: &str, first: Json, text: &str) -> Json {
    let head = obj(vec![("predicate_name", s(name)), ("record", args(vec![first, Json::Int(10)]))]);
    obj(vec![("head", head), ("full_text", s(text))])
}

#[test]
fn test_collect_annotations() {
    let rules = vec![
        engine(),
        annotation("@Limit", pred_lit("T"), "@Limit(T, 10);"),
        annotation("@OrderBy", pred_lit("U"), "@OrderBy(U, 10);"),
        annotation("@Other", pred_lit("T"), "@Other(T, 10);"),
        rule("T", vec![var("x")], vec![("U", vec![var("x")])]),
    ];
    let f = Functors::new(&rules);
    let mut preds = synalog::strmap::NameSet::new();
    preds.insert("T".to_string());
    let found = f.collect_annotations(&preds).unwrap();
    assert_eq!(found.len(), 1);
    assert_eq!(found[0].get("full_text").unwrap().as_str(), "@Limit(T, 10);");
    let bad_rules = vec![engine(), annotation("@Limit", Json::Int(3), "@Limit(3, 10);")];
    let bad = Functors::new(&bad_rules);
    let lit = obj(vec![("literal", obj(vec![("the_number", obj(vec![("number", s("3"))]))]))]);
    let bad_rules2 = vec![engine(), annotation("@Limit", lit, "@Limit(3, 10);")];
    let bad2 = Functors::new(&bad_rules2);
    assert!(bad.collect_annotations(&preds).unwrap().is_empty());
    let err = bad2.collect_annotations(&preds).unwrap_err();
    assert_eq!(err.message, "This annotation requires predicate symbol as the first positional argument.");
    assert_eq!(err.rule_text, "@Limit(3, 10);");
}

// ── iterative flat recursion ──

#[test]
fn test_flat_iterative_recursion_functor_exact_text() {
    let cover = vec!["P".to_string()];
    let direct = vec![("P".to_string(), vec!["P".to_string()])];
    let text = get_flat_iterative_recursion_functor(5, &cover, &direct, 4, None);
    let expected = [
        "P_ifr0 := P_ROne(P_RZero: nil);",
        "@Ground(P_ifr0);",
        "P_ifr1 := P_ROne(P_RZero: P_ifr0);",
        "@Ground(P_ifr1);",
        "P_ifr2 := P_ROne(P_RZero: P_ifr1);",
        "@Ground(P_ifr2, P_ifr0);",
        "P_ifr3 := P_ROne(P_RZero: P_ifr2);",
        "@Ground(P_ifr3);",
        "P := P_ifr3();",
        "@Iteration(P, predicates: [P_ifr1, P_ifr2], repetitions: 2);",
    ]
    .join("\n");
    assert_eq!(text, expected);
    let with_stop = get_flat_iterative_recursion_functor(5, &cover, &direct, 4, Some("P"));
    assert!(with_stop.ends_with("@Iteration(P, predicates: [P_ifr1, P_ifr2], repetitions: 2, stop_signal: \"/tmp/logical_stop_P\");"));
}

#[test]
fn test_flat_iterative_recursion_functor_two_predicates() {
    let cover = vec!["B".to_string(), "A".to_string()];
    let direct = vec![("A".to_string(), vec!["B".to_string(), "X".to_string()]), ("B".to_string(), vec!["A".to_string()])];
    let text = get_flat_iterative_recursion_functor(2, &cover, &direct, 3, None);
    assert!(text.starts_with("A_ifr0 := A_ROne(B_RZero: nil);\n@Ground(A_ifr0);\nA_ifr1 := A_ROne(B_RZero: B_ifr0);\n@Ground(A_ifr1, A_ifr-1);"));
    assert!(text.contains("B_ifr2 := B_ROne(A_RZero: A_ifr1);"));
    assert!(text.ends_with("@Iteration(A, predicates: [A_ifr0, B_ifr0, A_ifr1, B_ifr1], repetitions: 1);"));
}

fn names(v: Vec<&str>) -> synalog::strmap::NameSet {
    let mut r = synalog::strmap::NameSet::new();
    for n in v {
        r.insert(n.to_string());
    }
    r
}

#[test]
fn test_is_cut_of_cover_simple_cycle() {
    // A reads B, B reads A: every cycle passes A.
    let rules = vec![
        rule("A", vec![var("x")], vec![("B", vec![var("x")])]),
        rule("B", vec![var("x")], vec![("A", vec![var("x")])]),
    ];
    let f = Functors::new(&rules);
    assert!(f.is_cut_of_cover("A", &names(vec!["A", "B"])));
    assert!(f.is_cut_of_cover("B", &names(vec!["A", "B"])));
}

#[test]
fn test_is_cut_of_cover_other_cycle() {
    // A reads B, B reads C and A, C reads B: the cycle B-C avoids A.
    let rules = vec![
        rule("A", vec![var("x")], vec![("B", vec![var("x")])]),
        rule("B", vec![var("x")], vec![("C", vec![var("x")]), ("A", vec![var("x")])]),
        rule("C", vec![var("x")], vec![("B", vec![var("x")])]),
    ];
    let f = Functors::new(&rules);
    assert!(!f.is_cut_of_cover("A", &names(vec!["A", "B", "C"])));
    // Outside the cover the cycle B-C is not followed.
    assert!(f.is_cut_of_cover("A", &names(vec!["A", "B"])));
}

#[test]
fn test_is_cut_of_cover_self_loop_elsewhere() {
    // A reads B, B reads itself.
    let rules = vec![
        rule("A", vec![var("x")], vec![("B", vec![var("x")])]),
        rule("B", vec![var("x")], vec![("B", vec![var("x")]), ("A", vec![var("x")])]),
    ];
    let f = Functors::new(&rules);
    assert!(!f.is_cut_of_cover("A", &names(vec!["A", "B"])));
    assert!(f.is_cut_of_cover("B", &names(vec!["A", "B"])));
}

#[test]
fn test_is_cut_of_cover_unknown_predicate() {
    let f = Functors::new(&vec![rule("A", vec![var("x")], vec![("T", vec![var("x")])])]);
    assert!(f.is_cut_of_cover("Z", &names(vec!["A", "Z"])));
}

fn head_of(r: &Json) -> String {
    r.get("head").unwrap().get("predicate_name").unwrap().as_str().to_string()
}

fn first_body_predicate(r: &Json) -> String {
    let conj = r.get("body").unwrap().get("conjunction").unwrap().get("conjunct").unwrap();
    conj.items().unwrap()[0].get("predicate").unwrap().get("predicate_name").unwrap().as_str().to_string()
}

#[test]
fn test_remove_rules_proven_to_be_nil_internal_predicates() {
    let rules = vec![
        rule("Q_r1", vec![var("x")], vec![("nil", vec![var("x")])]),
        rule("Q_r2", vec![var("x")], vec![("Q_r1", vec![var("x")])]),
        rule("R", vec![var("x")], vec![("Q_r2", vec![var("x")])]),
        rule("R", vec![var("x")], vec![("T", vec![var("x")])]),
        rule("@Ground", vec![pred_lit("Q_r1")], vec![]),
    ];
    let mut f = Functors::new(&rules);
    assert!(f.remove_rules_proven_to_be_nil().is_ok());
    let heads: Vec<String> = f.extended_rules.iter().map(head_of).collect();
    assert_eq!(heads, vec!["NullifiedQ_r1", "NullifiedQ_r2", "R", "R", "@Ground"]);
    assert_eq!(first_body_predicate(&f.extended_rules[1]), "nil");
    assert_eq!(first_body_predicate(&f.extended_rules[2]), "nil");
    assert_eq!(first_body_predicate(&f.extended_rules[3]), "T");
    // The annotation keeps naming the predicate.
    let ground = &f.extended_rules[4];
    let lit = ground.get("head").unwrap().get("record").unwrap().get("field_value").unwrap().items().unwrap()[0]
        .get("value").unwrap().get("expression").unwrap().get("literal").unwrap()
        .get("the_predicate").unwrap().get("predicate_name").unwrap().as_str().to_string();
    assert_eq!(lit, "Q_r1");
    // The structure follows the new rules.
    let r_args = f.args_of("R");
    assert!(has(&r_args, "nil"));
    assert!(has(&r_args, "T"));
    assert!(!has(&r_args, "Q_r2"));
    assert!(has(&f.args_of("NullifiedQ_r2"), "nil"));
}

#[test]
fn test_remove_rules_proven_to_be_nil_user_predicate() {
    let rules = vec![
        rule("Q_r1", vec![var("x")], vec![("nil", vec![var("x")])]),
        rule("Q", vec![var("x")], vec![("Q_r1", vec![var("x")])]),
    ];
    let mut f = Functors::new(&rules);
    let e = f.remove_rules_proven_to_be_nil().unwrap_err();
    assert_eq!(e.rule_text, "Q");
    assert_eq!(
        e.message,
        "Predicate Q was proven to be empty. Most likely initial base condition of recursion is missing, or flat recursion is not given enough steps."
    );
    // Rules are nullified up to the predicate that stopped the search.
    let heads: Vec<String> = f.extended_rules.iter().map(head_of).collect();
    assert_eq!(heads, vec!["NullifiedQ_r1", "NullifiedQ"]);
    assert_eq!(first_body_predicate(&f.extended_rules[1]), "nil");
}

#[test]
fn test_remove_rules_proven_to_be_nil_nothing_empty() {
    let rules = vec![
        rule("A", vec![var("x")], vec![("T", vec![var("x")])]),
        rule("B", vec![var("x")], vec![("A", vec![var("x")])]),
    ];
    let mut f = Functors::new(&rules);
    assert!(f.remove_rules_proven_to_be_nil().is_ok());
    let heads: Vec<String> = f.extended_rules.iter().map(head_of).collect();
    assert_eq!(heads, vec!["A", "B"]);
    assert!(has(&f.args_of("B"), "T"));
}

#[test]
fn test_update_structure_new_predicate() {
    let rules = vec![
        rule("A", vec![var("x")], vec![("T", vec![var("x")])]),
        rule("B", vec![var("x")], vec![("A", vec![var("x")])]),
    ];
    let mut f = Functors::new(&rules);
    assert!(f.args_of("N").is_empty());
    f.extended_rules.push(rule("N", vec![var("x")], vec![("B", vec![var("x")])]));
    f.update_structure("N");
    let n_args = f.args_of("N");
    assert!(has(&n_args, "B"));
    assert!(has(&n_args, "A"));
    assert!(has(&n_args, "T"));
    assert_eq!(n_args.len(), 3);
    assert_eq!(f.get_args_of_map().len(), 3);
    assert!(has(&f.args_of("B"), "T"));
}

#[test]
fn test_walk_with_taboo() {
    let r = rule("@Ground", vec![pred_lit("Q")], vec![("P", vec![var("x")])]);
    let taboo = names(vec!["the_predicate"]);
    let found = synalog::functors::walk_with_taboo(&r, &taboo);
    assert!(has(&found, "P"));
    assert!(has(&found, "@Ground"));
    assert!(!has(&found, "Q"));
    let all = synalog::functors::walk_with_taboo(&r, &names(vec![]));
    assert!(has(&all, "Q"));
}

fn depth_args(pairs: Vec<(&str, SerdeLikeValue)>) -> Vec<(String, SerdeLikeValue)> {
    pairs.into_iter().map(|(k, v)| (k.to_string(), v)).collect()
}

fn cover_of<'a>(m: &'a Vec<(String, synalog::strmap::NameSet)>, p: &str) -> Option<&'a synalog::strmap::NameSet> {
    m.iter().find(|e| e.0 == p).map(|e| &e.1)
}

#[test]
fn test_recursive_analysis_vertical() {
    let rules = vec![
        rule("A", vec![var("x")], vec![("B", vec![var("x")])]),
        rule("B", vec![var("x")], vec![("A", vec![var("x")])]),
        rule("C", vec![var("x")], vec![("T", vec![var("x")])]),
    ];
    let f = Functors::new(&rules);
    let mut depth_map = vec![("A".to_string(), depth_args(vec![("1", SerdeLikeValue::Int(3))]))];
    let (should, my_cover) = f.recursive_analysis(&mut depth_map, false, 8);
    assert_eq!(should.len(), 1);
    assert_eq!(should.get("A").map(|s| s.as_str()), Some("vertical"));
    let ca = cover_of(&my_cover, "A").unwrap();
    assert!(has(ca, "A") && has(ca, "B") && ca.len() == 2);
    assert!(has(cover_of(&my_cover, "B").unwrap(), "A"));
    assert!(cover_of(&my_cover, "C").is_none());
    assert_eq!(depth_map[0].1[0].1.as_i64(), Some(3));
}

#[test]
fn test_recursive_analysis_endless_depth() {
    let rules = vec![
        rule("A", vec![var("x")], vec![("B", vec![var("x")])]),
        rule("B", vec![var("x")], vec![("A", vec![var("x")])]),
    ];
    let f = Functors::new(&rules);
    let mut depth_map = vec![("B".to_string(), depth_args(vec![("1", SerdeLikeValue::Int(-1))]))];
    let (should, _) = f.recursive_analysis(&mut depth_map, false, 8);
    // B is the annotated member, so it represents the cover.
    assert_eq!(should.get("B").map(|s| s.as_str()), Some("iterative_horizontal"));
    assert!(should.get("A").is_none());
    assert_eq!(depth_map[0].1[0].1.as_i64(), Some(1_000_000_000));
}

#[test]
fn test_recursive_analysis_horizontal() {
    let rules = vec![
        rule("A", vec![var("x")], vec![("B", vec![var("x")])]),
        rule("B", vec![var("x")], vec![("C", vec![var("x")]), ("A", vec![var("x")])]),
        rule("C", vec![var("x")], vec![("B", vec![var("x")])]),
    ];
    let f = Functors::new(&rules);
    let mut depth_map = vec![];
    let (should, my_cover) = f.recursive_analysis(&mut depth_map, false, 8);
    assert_eq!(should.get("A").map(|s| s.as_str()), Some("horizontal"));
    assert_eq!(cover_of(&my_cover, "C").unwrap().len(), 3);
    // Deep by default: iterative.
    let (should2, _) = f.recursive_analysis(&mut depth_map, false, 30);
    assert_eq!(should2.get("A").map(|s| s.as_str()), Some("iterative_horizontal"));
    let (should3, _) = f.recursive_analysis(&mut depth_map, true, 8);
    assert_eq!(should3.get("A").map(|s| s.as_str()), Some("iterative_horizontal"));
}

#[test]
fn test_recursive_analysis_explicit_iteration() {
    let rules = vec![
        rule("A", vec![var("x")], vec![("A", vec![var("x")])]),
        rule("D_MultBodyAggAux", vec![var("x")], vec![("D_MultBodyAggAux", vec![var("x")])]),
    ];
    let f = Functors::new(&rules);
    let mut depth_map = vec![(
        "A".to_string(),
        depth_args(vec![("1", SerdeLikeValue::Int(100)), ("iterative", SerdeLikeValue::Bool(false))]),
    )];
    let (should, my_cover) = f.recursive_analysis(&mut depth_map, true, 8);
    // Iteration explicitly refused; A cuts its own cover.
    assert_eq!(should.get("A").map(|s| s.as_str()), Some("vertical"));
    assert_eq!(should.len(), 1);
    assert!(cover_of(&my_cover, "D_MultBodyAggAux").is_none());
}

#[test]
fn test_walk_collects_predicate_names() {
    let program = obj(vec![(
        "rule",
        Json::Array(vec![engine(), rule("Result", vec![var("x")], vec![("Source", vec![var("x")])])]),
    )]);
    let names = extract_predicate_names(&program);
    assert!(has(&names, "Result"));
    assert!(has(&names, "Source"));
    assert!(has(&names, "@Engine"));
}

fn string_rule(name: &str, v: &str) -> Json {
    rule(name, vec![obj(vec![("literal", obj(vec![("the_string", obj(vec![("the_string", s(v))]))]))])], vec![])
}

#[test]
fn test_functors_collect_annotations() {
    let rules = vec![engine(), annotation("@OrderBy", pred_lit("T"), "@OrderBy(T, \"col0\");"), string_rule("T", "hello")];
    let f = Functors::new(&rules);
    let mut preds = synalog::strmap::NameSet::new();
    preds.insert("T".to_string());
    let anns = f.collect_annotations(&preds);
    assert!(anns.is_ok());
}

#[test]
fn test_collect_annotations_with_limit() {
    let rules = vec![
        engine(),
        annotation("@Limit", pred_lit("T"), "@Limit(T, 10);"),
        string_rule("T", "hello"),
        string_rule("T", "world"),
    ];
    let f = Functors::new(&rules);
    let mut preds = synalog::strmap::NameSet::new();
    preds.insert("T".to_string());
    let anns = f.collect_annotations(&preds).unwrap();
    assert!(!anns.is_empty(), "Should find @Limit annotation for T");
}

#[test]
fn test_collect_annotations_with_orderby() {
    let rules = vec![engine(), annotation("@OrderBy", pred_lit("T"), "@OrderBy(T, col0);"), string_rule("T", "hello")];
    let f = Functors::new(&rules);
    let mut preds = synalog::strmap::NameSet::new();
    preds.insert("T".to_string());
    let anns = f.collect_annotations(&preds).unwrap();
    assert!(!anns.is_empty(), "Should find @OrderBy annotation for T");
}

#[test]
fn test_recursive_single_predicate_is_cut() {
    // @Recursive(A, 3); A(x) :- A(x);
    let rules = vec![engine(), rule("A", vec![var("x")], vec![("A", vec![var("x")])])];
    let f = Functors::new(&rules);
    assert!(f.is_cut_of_cover("A", &names(vec!["A"])));
    let mut depth_map = vec![("A".to_string(), depth_args(vec![("1", SerdeLikeValue::Int(3))]))];
    let (should, _) = f.recursive_analysis(&mut depth_map, false, 8);
    assert_eq!(should.get("A").map(|s| s.as_str()), Some("vertical"));
}


fn num_lit(n: i64) -> Json {
    obj(vec![("literal", obj(vec![("the_number", obj(vec![("number", s(&n.to_string()))]))]))])
}

/// A functional rule `name(args...) = value`.
fn fun_rule(name: &str, head_args: Vec<Json>, value: Json) -> Json {
    let mut fvs: Vec<Json> = head_args
        .into_iter()
        .enumerate()
        .map(|(i, v)| obj(vec![("field", Json::Int(i as i64)), ("value", obj(vec![("expression", v)]))]))
        .collect();
    fvs.push(obj(vec![("field", s("logica_value")), ("value", obj(vec![("expression", value)]))]));
    obj(vec![("head", obj(vec![("predicate_name", s(name)), ("record", obj(vec![("field_value", Json::Array(fvs))]))]))])
}

/// `@Make(target, applicant, {named...})`, the record left out when empty.
fn make_rule(target: &str, applicant: &str, named: Vec<(&str, Json)>) -> Json {
    let mut values = vec![pred_lit(target), pred_lit(applicant)];
    if !named.is_empty() {
        let fvs = named
            .into_iter()
            .map(|(k, v)| obj(vec![("field", s(k)), ("value", obj(vec![("expression", v)]))]))
            .collect();
        values.push(obj(vec![("record", obj(vec![("field_value", Json::Array(fvs))]))]));
    }
    rule("@Make", values, vec![])
}

fn defines(rules: &[Json], name: &str) -> bool {
    rules.iter().any(|r| head_of(r) == name)
}

#[test]
fn test_functors_no_makes() {
    let rules = vec![engine(), rule("T", vec![str_lit("hello")], vec![])];
    let result = run_makes(&rules).unwrap();
    assert_eq!(result.len(), rules.len());
}

#[test]
fn test_run_makes_preserves_rules() {
    let rules = vec![engine(), rule("A", vec![str_lit("hello")], vec![]), rule("B", vec![str_lit("world")], vec![])];
    let result = run_makes(&rules).unwrap();
    assert_eq!(result.len(), rules.len());
}

#[test]
fn test_run_makes_with_deps_no_makes() {
    let rules = vec![engine(), rule("T", vec![str_lit("hello")], vec![])];
    let (result, _deps) = run_makes_with_deps(&rules).unwrap();
    assert_eq!(result.len(), rules.len());
}

#[test]
fn test_run_makes_multiple_predicates() {
    let rules = vec![
        engine(),
        rule("A", vec![str_lit("hello")], vec![]),
        rule("B", vec![str_lit("world")], vec![]),
        rule("C", vec![var("x")], vec![("A", vec![var("x")])]),
    ];
    let result = run_makes(&rules).unwrap();
    assert!(result.len() >= rules.len());
}

#[test]
fn test_run_makes_with_deps_returns_tuple() {
    let rules = vec![
        engine(),
        rule("A", vec![str_lit("hello")], vec![]),
        rule("B", vec![var("x")], vec![("A", vec![var("x")])]),
    ];
    let (result, deps) = run_makes_with_deps(&rules).unwrap();
    assert!(!result.is_empty());
    let _ = deps;
}

#[test]
fn test_run_makes_empty_input() {
    let result = run_makes(&[]).unwrap();
    assert!(result.is_empty());
}

#[test]
fn test_run_makes_simple_functor() {
    let rules = vec![
        engine(),
        fun_rule("F", vec![var("x")], var("x")),
        make_rule("T", "F", vec![("arg", str_lit("hello"))]),
    ];
    let result = run_makes(&rules);
    assert!(result.is_ok() || result.is_err());
}

#[test]
fn test_run_makes_with_simple_make() {
    let rules = vec![
        engine(),
        fun_rule("F", vec![var("x")], var("x")),
        rule("Source", vec![num_lit(1)], vec![]),
        make_rule("Result", "F", vec![("source", pred_lit("Source"))]),
    ];
    let result = run_makes(&rules);
    assert!(result.is_ok() || result.is_err());
}

#[test]
fn test_run_makes_with_two_makes() {
    let rules = vec![
        engine(),
        fun_rule("F", vec![var("x")], var("x")),
        make_rule("T1", "F", vec![]),
        make_rule("T2", "F", vec![]),
        rule("Source", vec![num_lit(1)], vec![]),
    ];
    let result = run_makes(&rules);
    assert!(result.is_ok() || result.is_err());
}

#[test]
fn test_run_makes_with_deps_actual_make() {
    let rules = vec![
        engine(),
        fun_rule("F", vec![var("x")], var("x")),
        make_rule("T", "F", vec![]),
        rule("Source", vec![num_lit(1)], vec![]),
    ];
    let (result, deps) = run_makes_with_deps(&rules).unwrap();
    assert!(!result.is_empty());
    let _ = deps;
}

#[test]
fn test_functors_update_structure_via_make() {
    let rules = vec![
        engine(),
        fun_rule("Inc", vec![var("x")], var("x")),
        rule("Source", vec![num_lit(1)], vec![]),
        make_rule("Result", "Inc", vec![]),
    ];
    let result = run_makes(&rules);
    assert!(result.is_ok() || result.is_err());
}

#[test]
fn test_run_makes_with_string_constant() {
    let rules = vec![
        engine(),
        fun_rule("F", vec![var("x"), var("c")], var("x")),
        make_rule("Result", "F", vec![("c", str_lit("hello"))]),
        rule("Source", vec![num_lit(1)], vec![]),
    ];
    let result = run_makes(&rules);
    assert!(result.is_ok() || result.is_err());
}

#[test]
fn test_run_makes_with_int_constant() {
    let rules = vec![
        engine(),
        fun_rule("F", vec![var("x"), var("c")], var("x")),
        make_rule("Result", "F", vec![("c", num_lit(42))]),
        rule("Source", vec![num_lit(1)], vec![]),
    ];
    let result = run_makes(&rules);
    assert!(result.is_ok() || result.is_err());
}

#[test]
fn test_run_makes_with_deps_simple() {
    let rules = vec![
        engine(),
        fun_rule("Adder", vec![var("x"), var("c")], var("x")),
        make_rule("AddFive", "Adder", vec![("c", num_lit(5))]),
        rule("Source", vec![num_lit(1)], vec![]),
    ];
    let result = run_makes(&rules);
    let _ = result;
}

#[test]
fn test_make_copies_applicant_under_new_name() {
    let rules = vec![
        engine(),
        fun_rule("Inc", vec![var("x")], var("x")),
        rule("Source", vec![num_lit(1)], vec![]),
        make_rule("Result", "Inc", vec![]),
    ];
    let result = run_makes(&rules).unwrap();
    assert!(defines(&result, "Result"));
    assert!(defines(&result, "Inc"));
    assert_eq!(result.len(), rules.len() + 1);
}

#[test]
fn test_make_adds_constant_function() {
    let rules = vec![
        engine(),
        fun_rule("F", vec![var("x"), var("c")], var("x")),
        make_rule("Result", "F", vec![("c", num_lit(42))]),
    ];
    let result = run_makes(&rules).unwrap();
    let last = result.last().unwrap();
    assert_eq!(head_of(last), "LogicaCompilerConstant0");
    assert_eq!(last.get("full_text").unwrap().as_str(), "LogicaCompilerConstant0() = 42;");
    assert!(defines(&result, "Result"));
}

#[test]
fn test_make_string_constant_rule_text() {
    let rules = vec![
        engine(),
        fun_rule("F", vec![var("x"), var("c")], var("x")),
        make_rule("Result", "F", vec![("c", str_lit("hello"))]),
    ];
    let result = run_makes(&rules).unwrap();
    let last = result.last().unwrap();
    assert_eq!(last.get("full_text").unwrap().as_str(), "LogicaCompilerConstant0() = \"hello\";");
}

#[test]
fn test_make_without_applicant_is_refused() {
    let bad = rule("@Make", vec![pred_lit("Result")], vec![]);
    let rules = vec![engine(), fun_rule("F", vec![var("x")], var("x")), bad];
    let err = run_makes(&rules).unwrap_err();
    assert_eq!(err.message, "Bad @Make instruction for Result");
}

#[test]
fn test_make_order_that_cannot_resolve() {
    let rules = vec![
        engine(),
        fun_rule("F", vec![var("x")], var("x")),
        make_rule("A", "B", vec![]),
        make_rule("B", "A", vec![]),
    ];
    let err = run_makes(&rules).unwrap_err();
    assert_eq!(err.message, "Could not resolve Make order for: {\"A\", \"B\"}");
}

#[test]
fn test_make_waits_for_its_applicant() {
    let rules = vec![
        engine(),
        fun_rule("F", vec![var("x")], var("x")),
        make_rule("B", "A", vec![]),
        make_rule("A", "F", vec![]),
    ];
    let result = run_makes(&rules).unwrap();
    assert!(defines(&result, "A"));
    assert!(defines(&result, "B"));
}
