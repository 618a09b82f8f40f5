use synalog::json::{Json, json_obj};
use synalog::type_inference::builder::TypesGraphBuilder;
use synalog::type_inference::inference::TypeInference;

fn obj(pairs: Vec<(&str, Json)>) -> Json {
    json_obj(pairs.into_iter().map(|(k, v)| (k.to_string(), v)).collect())
}

fn s(v: &str) -> Json {
    Json::Str(v.to_string())
}

fn var(name: &str) -> Json {
    obj(vec![("variable", obj(vec![("var_name", s(name))]))])
}

fn number(n: &str) -> Json {
    obj(vec![("literal", obj(vec![("the_number", obj(vec![("number", s(n))]))]))])
}

fn string(v: &str) -> Json {
    obj(vec![("literal", obj(vec![("the_string", obj(vec![("the_string", s(v))]))]))])
}

fn arg(field: Json, e: Json) -> Json {
    obj(vec![("field", field), ("value", obj(vec![("expression", e)]))])
}

fn call(name: &str, args: Vec<Json>) -> Json {
    obj(vec![(
        "call",
        obj(vec![("predicate_name", s(name)), ("record", obj(vec![("field_value", Json::Array(args))]))]),
    )])
}

fn rule(name: &str, head_args: Vec<Json>, body: Vec<Json>) -> Json {
    let head = obj(vec![("predicate_name", s(name)), ("record", obj(vec![("field_value", Json::Array(head_args))]))]);
    if body.is_empty() {
        return obj(vec![("head", head)]);
    }
    obj(vec![("head", head), ("body", obj(vec![("conjunction", obj(vec![("conjunct", Json::Array(body))]))]))])
}

fn program(rules: Vec<Json>) -> Json {
    obj(vec![("rule", Json::Array(rules))])
}

fn inclusion(list: Json, element: Json) -> Json {
    obj(vec![("inclusion", obj(vec![("list", list), ("element", element)]))])
}

fn unification(left: Json, right: Json) -> Json {
    obj(vec![("unification", obj(vec![("left_hand_side", left), ("right_hand_side", right)]))])
}

#[test]
fn test_builder_new() {
    let mut builder = TypesGraphBuilder::new();
    let graphs = builder.run(&program(vec![]));
    assert!(graphs.is_empty());
}

#[test]
fn test_builder_fact_graph() {
    let p = program(vec![rule("T", vec![arg(Json::Int(0), number("1"))], vec![])]);
    let mut builder = TypesGraphBuilder::new();
    let graphs = builder.run(&p);
    assert_eq!(graphs.len(), 1);
    assert_eq!(graphs[0].0, "T");
    let g = &graphs[0].1;
    assert!(g.contains_expression("PredicateAddressing(T.col0)"));
    assert!(g.contains_expression("NumberLiteral"));
    assert_eq!(g.to_edges_vec().len(), 1);
}

#[test]
fn test_builder_rules_of_one_predicate_merge() {
    let p = program(vec![
        rule("T", vec![arg(Json::Int(0), number("1"))], vec![]),
        rule("U", vec![arg(s("name"), string("a"))], vec![]),
        rule("T", vec![arg(Json::Int(0), string("b"))], vec![]),
    ]);
    let mut builder = TypesGraphBuilder::new();
    let graphs = builder.run(&p);
    assert_eq!(graphs.len(), 2);
    assert_eq!(graphs[0].0, "T");
    assert_eq!(graphs[1].0, "U");
    assert!(graphs[0].1.contains_expression("StringLiteral"));
    assert!(graphs[0].1.contains_expression("NumberLiteral"));
    assert_eq!(graphs[0].1.to_edges_vec().len(), 2);
    assert!(graphs[1].1.contains_expression("PredicateAddressing(U.name)"));
}

#[test]
fn test_builder_inclusion_and_inference() {
    // T(x) :- x in Range(3);
    let p = program(vec![rule(
        "T",
        vec![arg(Json::Int(0), var("x"))],
        vec![inclusion(call("Range", vec![arg(Json::Int(0), number("3"))]), var("x"))],
    )]);
    let mut builder = TypesGraphBuilder::new();
    let graphs = builder.run(&p);
    assert_eq!(graphs.len(), 1);
    let g = &graphs[0].1;
    assert!(g.contains_expression("Variable(x)"));
    assert!(g.contains_expression("PredicateAddressing(Range.logica_value)"));
    assert!(g.contains_expression("PredicateAddressing(Range.col0)"));
    let mut inference = TypeInference::new(graphs);
    assert!(inference.infer().is_ok());
    // The list keeps its restricted type; `x` takes the element type, and the
    // head field equal to `x` with it.
    assert_eq!(inference.get_type("Range", "logica_value").unwrap().to_string(), "[number]");
    assert_eq!(inference.get_type("T", "col0").unwrap().to_string(), "number");
}

#[test]
fn test_builder_if_and_record() {
    // T(y) :- y == if (1 < 2) then {a: 1} else {a: 2};
    let cond = call("<", vec![arg(s("left"), number("1")), arg(s("right"), number("2"))]);
    let rec1 = obj(vec![("record", obj(vec![("field_value", Json::Array(vec![arg(s("a"), number("1"))]))]))]);
    let rec2 = obj(vec![("record", obj(vec![("field_value", Json::Array(vec![arg(s("a"), number("2"))]))]))]);
    let implication = obj(vec![(
        "implication",
        obj(vec![
            ("if_then", Json::Array(vec![obj(vec![("condition", cond), ("consequence", rec1)])])),
            ("otherwise", rec2),
        ]),
    )]);
    let p = program(vec![rule("T", vec![arg(Json::Int(0), var("y"))], vec![unification(var("y"), implication)])]);
    let mut builder = TypesGraphBuilder::new();
    let graphs = builder.run(&p);
    let g = &graphs[0].1;
    assert!(g.contains_expression("Variable(_IfNode0)"));
    assert!(g.contains_expression("RecordLiteral(a: NumberLiteral)"));
    assert!(g.contains_expression("PredicateAddressing(<.logica_value)"));
    // Running again starts afresh: the `if` variable is numbered from 0 again.
    let again = builder.run(&p);
    assert!(again[0].1.contains_expression("Variable(_IfNode0)"));
}

#[test]
fn test_builder_subscript() {
    // T(z) :- z == r.f;
    let sub = obj(vec![(
        "subscript",
        obj(vec![
            ("record", var("r")),
            ("subscript", obj(vec![("literal", obj(vec![("the_symbol", obj(vec![("symbol", s("f"))]))]))])),
        ]),
    )]);
    let p = program(vec![rule("T", vec![arg(Json::Int(0), var("z"))], vec![unification(var("z"), sub)])]);
    let mut builder = TypesGraphBuilder::new();
    let graphs = builder.run(&p);
    let g = &graphs[0].1;
    assert!(g.contains_expression("SubscriptAddressingVariable(r).f"));
    assert!(g.contains_expression("Variable(r)"));
}
