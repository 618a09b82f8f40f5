use synalog::type_inference::edge::Edge;
use synalog::type_inference::expression::Expression;
use synalog::type_inference::graph::TypesGraph;
use synalog::type_inference::inference::TypeInference;
use synalog::type_inference::intersection::{intersect, intersect_list_element};
use synalog::type_inference::types::Type;

#[test]
fn test_connect_and_edges() {
    let mut graph = TypesGraph::new();
    let expr1 = Expression::variable("x");
    let expr2 = Expression::variable("y");
    let edge = Edge::equality(expr1, expr2, (0, 10));
    graph.connect(edge);

    let edges = graph.to_edges_vec();
    assert_eq!(edges.len(), 1);
}

#[test]
fn test_no_duplicate_edges() {
    let mut graph = TypesGraph::new();
    let expr1 = Expression::variable("x");
    let expr2 = Expression::variable("y");
    let edge1 = Edge::equality(expr1.clone(), expr2.clone(), (0, 10));
    let edge2 = Edge::equality(expr2, expr1, (0, 10));

    graph.connect(edge1);
    graph.connect(edge2);

    let edges = graph.to_edges_vec();
    assert_eq!(edges.len(), 1);
}

#[test]
fn test_merge_graphs() {
    let mut graph1 = TypesGraph::new();
    let mut graph2 = TypesGraph::new();

    graph1.connect(Edge::equality(Expression::variable("x"), Expression::variable("y"), (0, 5)));
    graph2.connect(Edge::equality(Expression::variable("a"), Expression::variable("b"), (10, 15)));
    graph2.connect(Edge::equality(Expression::variable("x"), Expression::variable("y"), (0, 5)));

    graph1.merge(graph2);
    assert_eq!(graph1.to_edges_vec().len(), 2);
    assert!(graph1.contains_expression("Variable(a)"));
    assert!(!graph1.contains_expression("Variable(z)"));
    assert_eq!(graph1.expressions(), vec!["Variable(x)", "Variable(y)", "Variable(a)", "Variable(b)"]);
    let links = graph1.connections_for("Variable(x)").unwrap();
    assert_eq!(links.len(), 1);
    assert_eq!(links[0].0, "Variable(y)");
    assert_eq!(links[0].1.len(), 1);
}

#[test]
fn test_expression_text() {
    assert_eq!(Expression::predicate_addressing("T", "col0", 0).to_string(), "PredicateAddressing(T.col0)");
    assert_eq!(Expression::variable("x").to_string(), "Variable(x)");
    let sub = Expression::subscript_addressing(Expression::variable("r"), "a");
    assert_eq!(sub.to_string(), "SubscriptAddressingVariable(r).a");
    let list = Expression::list_literal(vec![Expression::NumberLiteral, Expression::variable("y")]);
    assert_eq!(list.to_string(), "ListLiteral[NumberLiteral, Variable(y)]");
    let record = Expression::record_literal(vec![
        ("b".to_string(), Expression::StringLiteral),
        ("a".to_string(), Expression::BooleanLiteral),
    ]);
    assert_eq!(record.to_string(), "RecordLiteral(a: BooleanLiteral, b: StringLiteral)");
}

#[test]
fn test_empty_inference() {
    let mut engine = TypeInference::new(vec![]);
    assert!(engine.infer().is_ok());
}

#[test]
fn test_simple_graph_inference() {
    let mut graph = TypesGraph::new();
    let x = Expression::NumberLiteral;
    let y = Expression::variable("y");
    graph.connect(Edge::equality(x, y, (0, 10)));

    let mut engine = TypeInference::new(vec![("Test".to_string(), graph)]);
    assert!(engine.infer().is_ok());
}

#[test]
fn test_type_propagation() {
    let mut graph = TypesGraph::new();
    let num = Expression::NumberLiteral;
    let x = Expression::variable("x");
    let y = Expression::variable("y");

    graph.connect(Edge::equality(num, x.clone(), (0, 5)));
    graph.connect(Edge::equality(x, y, (5, 10)));

    let mut engine = TypeInference::new(vec![("Test".to_string(), graph)]);
    assert!(engine.infer().is_ok());
}

#[test]
fn test_inferred_predicate_types() {
    let mut graph = TypesGraph::new();
    graph.connect(Edge::equality(
        Expression::predicate_addressing("T", "col0", 0),
        Expression::NumberLiteral,
        (0, 5),
    ));
    graph.connect(Edge::equality(
        Expression::predicate_addressing("T", "col1", 0),
        Expression::StringLiteral,
        (6, 9),
    ));
    let mut engine = TypeInference::new(vec![("T".to_string(), graph)]);
    assert!(engine.get_type("T", "col0").unwrap().is_any());
    assert!(engine.infer().is_ok());
    assert!(engine.get_type("T", "col0").unwrap().equals(&Type::Number));
    assert!(engine.get_type("T", "col1").unwrap().equals(&Type::String));
    assert!(engine.get_type("T", "col2").is_none());
    let types = engine.get_predicate_types("T");
    assert_eq!(types.len(), 2);
    assert_eq!(types[0].0, "col0");
    assert!(types[0].1.equals(&Type::Number));
}

#[test]
fn test_conflicting_types_fail() {
    let mut graph = TypesGraph::new();
    graph.connect(Edge::equality(Expression::NumberLiteral, Expression::StringLiteral, (3, 7)));
    let mut engine = TypeInference::new(vec![("T".to_string(), graph)]);
    let err = engine.infer().unwrap_err();
    assert_eq!(err.bounds, (3, 7));
}

#[test]
fn test_field_belonging_builds_record() {
    let mut graph = TypesGraph::new();
    let parent = Expression::predicate_addressing("T", "r", 0);
    let field = Expression::subscript_addressing(Expression::predicate_addressing("T", "r", 0), "a");
    graph.connect(Edge::field_belonging(parent, field, (0, 1)));
    let mut engine = TypeInference::new(vec![("T".to_string(), graph)]);
    assert!(engine.infer().is_ok());
    let t = engine.get_type("T", "r").unwrap();
    assert!(t.is_record());
    assert!(t.is_opened());
    assert_eq!(t.record_fields().unwrap().len(), 1);
    assert_eq!(t.record_fields().unwrap()[0].0, "a");
}

#[test]
fn test_list_element_inference() {
    let mut graph = TypesGraph::new();
    let list = Expression::predicate_addressing("T", "l", 0);
    graph.connect(Edge::equality_of_element(list, Expression::NumberLiteral, (0, 1)));
    let mut engine = TypeInference::new(vec![("T".to_string(), graph)]);
    assert!(engine.infer().is_ok());
    let t = engine.get_type("T", "l").unwrap();
    assert!(t.equals(&Type::list(Type::Number)));
}

#[test]
fn test_type_equality() {
    assert!(Type::Number.equals(&Type::Number));
    assert!(!Type::Number.equals(&Type::String));
    let opened = Type::record(vec![("a".to_string(), Type::Number)], true);
    let closed = Type::record(vec![("a".to_string(), Type::Number), ("b".to_string(), Type::Bool)], false);
    assert!(opened.equals(&closed));
    assert!(closed.equals(&opened));
    assert!(!closed.equals(&Type::record(vec![("a".to_string(), Type::Number)], false)));
    let merged = intersect(opened.clone(), closed.clone(), (0, 0)).unwrap();
    assert!(merged.equals(&closed));
}

#[test]
fn test_conflict_reports_the_two_types() {
    let mut graph = TypesGraph::new();
    graph.connect(Edge::equality(Expression::NumberLiteral, Expression::StringLiteral, (0, 1)));
    let mut engine = TypeInference::new(vec![("T".to_string(), graph)]);
    let err = engine.infer().unwrap_err();
    assert!(err.left.equals(&Type::Number));
    assert!(err.right.equals(&Type::String));
    assert_eq!(err.bounds, (0, 1));
    // Swapped operands report in rank order.
    let e2 = intersect(Type::String, Type::Number, (2, 3)).unwrap_err();
    assert!(e2.left.equals(&Type::Number));
    assert!(e2.right.equals(&Type::String));
    // Lists report the clashing elements.
    let e3 = intersect(Type::list(Type::Number), Type::list(Type::String), (4, 5)).unwrap_err();
    assert!(e3.left.equals(&Type::Number));
    assert!(e3.right.equals(&Type::String));
}

#[test]
fn test_intersect_list_element_errors() {
    let ok = intersect_list_element(&Type::list(Type::Any), Type::Number, (0, 1)).unwrap();
    assert!(ok.equals(&Type::Number));
    let err = intersect_list_element(&Type::Number, Type::Number, (0, 1)).unwrap_err();
    assert!(err.left.equals(&Type::Number));
    assert!(err.right.equals(&Type::Number));
    assert_eq!(err.bounds, (0, 1));
}

#[test]
fn test_type_propagates_through_chain() {
    let a = Expression::predicate_addressing("Test", "a", 0);
    let b = Expression::predicate_addressing("Test", "b", 0);
    let mut graph = TypesGraph::new();
    graph.connect(Edge::equality(Expression::NumberLiteral, a.clone(), (0, 5)));
    graph.connect(Edge::equality(a, b, (5, 10)));
    let mut engine = TypeInference::new(vec![("Test".to_string(), graph)]);
    assert!(engine.infer().is_ok());
    assert!(engine.get_type("Test", "b").unwrap().equals(&Type::Number));
    assert!(engine.get_type("Test", "a").unwrap().equals(&Type::Number));
}

#[test]
fn test_type_propagates_backwards() {
    // The edge that learns the type comes last: a second pass carries it on.
    let a = Expression::predicate_addressing("Test", "a", 0);
    let b = Expression::predicate_addressing("Test", "b", 0);
    let mut graph = TypesGraph::new();
    graph.connect(Edge::equality(a.clone(), b, (5, 10)));
    graph.connect(Edge::equality(Expression::StringLiteral, a, (0, 5)));
    let mut engine = TypeInference::new(vec![("Test".to_string(), graph)]);
    assert!(engine.infer().is_ok());
    assert!(engine.get_type("Test", "b").unwrap().equals(&Type::String));
}

#[test]
fn test_shared_type_conflict() {
    let a = Expression::predicate_addressing("Test", "a", 0);
    let mut graph = TypesGraph::new();
    graph.connect(Edge::equality(Expression::NumberLiteral, a.clone(), (0, 5)));
    graph.connect(Edge::equality(a, Expression::StringLiteral, (5, 10)));
    let mut engine = TypeInference::new(vec![("Test".to_string(), graph)]);
    let err = engine.infer().unwrap_err();
    assert_eq!(err.bounds, (5, 10));
}
