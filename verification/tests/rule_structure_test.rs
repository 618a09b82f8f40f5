use synalog::dialects::{BigQueryDialect, SqLiteDialect};
use synalog::expr_translate::SubqueryTranslator;
use synalog::json::{json_obj, Json};
use synalog::rule_structure::RuleStructure;
use synalog::strmap::StrMap;
use synalog::{CompileError, CompileResult};

fn obj(pairs: Vec<(&str, Json)>) -> Json {
    json_obj(pairs.into_iter().map(|(k, v)| (k.to_string(), v)).collect())
}

fn s(v: &str) -> Json {
    Json::Str(v.to_string())
}

fn var(name: &str) -> Json {
    obj(vec![("variable", obj(vec![("var_name", s(name))]))])
}

struct NameTables;

impl SubqueryTranslator for NameTables {
    fn combine_psql_type(&self, _combine: &Json) -> Option<String> {
        None
    }
    fn translate_table(&self, predicate: &str, _vocab: Option<&StrMap>) -> CompileResult<String> {
        Ok(predicate.to_string())
    }
    fn translate_rule(&self, _rule: &Json, _vocab: &StrMap, _is_combine: bool) -> CompileResult<String> {
        Ok("SELECT 1 AS logica_value".to_string())
    }
}

struct NoTables;

impl SubqueryTranslator for NoTables {
    fn combine_psql_type(&self, _combine: &Json) -> Option<String> {
        None
    }
    fn translate_table(&self, _predicate: &str, _vocab: Option<&StrMap>) -> CompileResult<String> {
        Err(CompileError::new("no such table", ""))
    }
    fn translate_rule(&self, _rule: &Json, _vocab: &StrMap, _is_combine: bool) -> CompileResult<String> {
        Ok("SELECT 1".to_string())
    }
}

/// Result(x) :- Source(x, y), y; grouped by x.
fn source_rule() -> RuleStructure {
    let mut rs = RuleStructure::new();
    rs.tables.insert("t_0".to_string(), "Source".to_string());
    rs.inv_vars_map.push(("x".to_string(), ("t_0".to_string(), "col0".to_string())));
    rs.inv_vars_map.push(("y".to_string(), ("t_0".to_string(), "col1".to_string())));
    rs.select.push(("col0".to_string(), var("x")));
    rs.constraints.push(var("y"));
    rs
}

#[test]
fn test_as_sql_no_columns() {
    let mut rs = RuleStructure::new();
    rs.tables.insert("t_0".to_string(), "Source".to_string());
    rs.full_rule_text = "R() :- Source()".to_string();
    let flags = StrMap::new();
    let e = rs.as_sql(&NameTables, &SqLiteDialect, &flags).unwrap_err();
    assert_eq!(e.message, "Rule produces no columns");
    assert_eq!(e.rule_text, "R() :- Source()");
}

#[test]
fn test_as_sql_fact_has_no_from() {
    let mut rs = RuleStructure::new();
    rs.select.push(("col0".to_string(), obj(vec![("literal", obj(vec![("the_string", s("hello"))]))])));
    let flags = StrMap::new();
    let sql = rs.as_sql(&NameTables, &SqLiteDialect, &flags).unwrap();
    assert_eq!(sql, "SELECT\n  'hello' AS col0");
}

#[test]
fn test_as_sql_table_and_condition() {
    let rs = source_rule();
    let flags = StrMap::new();
    let sql = rs.as_sql(&NameTables, &SqLiteDialect, &flags).unwrap();
    assert_eq!(sql, "SELECT\n  t_0.col0 AS col0\nFROM\n  Source AS t_0\nWHERE\n  t_0.col1");
}

#[test]
fn test_as_sql_type_inference_condition_left_out() {
    let mut rs = source_rule();
    rs.constraints.push(obj(vec![("call", obj(vec![("predicate_name", s("~"))]))]));
    let flags = StrMap::new();
    let sql = rs.as_sql(&NameTables, &SqLiteDialect, &flags).unwrap();
    assert_eq!(sql, "SELECT\n  t_0.col0 AS col0\nFROM\n  Source AS t_0\nWHERE\n  t_0.col1");
}

#[test]
fn test_as_sql_table_named_as_its_alias() {
    let mut rs = RuleStructure::new();
    rs.tables.insert("Source".to_string(), "Source".to_string());
    rs.inv_vars_map.push(("x".to_string(), ("Source".to_string(), "col0".to_string())));
    rs.select.push(("col0".to_string(), var("x")));
    let flags = StrMap::new();
    let sql = rs.as_sql(&NameTables, &SqLiteDialect, &flags).unwrap();
    assert_eq!(sql, "SELECT\n  Source.col0 AS col0\nFROM\n  Source");
}

#[test]
fn test_as_sql_group_by_expression_sqlite() {
    let mut rs = source_rule();
    rs.distinct_vars.push("col0".to_string());
    let flags = StrMap::new();
    let sql = rs.as_sql(&NameTables, &SqLiteDialect, &flags).unwrap();
    assert_eq!(sql, "SELECT\n  t_0.col0 AS col0\nFROM\n  Source AS t_0\nWHERE\n  t_0.col1\nGROUP BY t_0.col0");
}

#[test]
fn test_as_sql_group_by_name_bigquery() {
    let mut rs = source_rule();
    rs.distinct_vars.push("col0".to_string());
    let flags = StrMap::new();
    let sql = rs.as_sql(&NameTables, &BigQueryDialect, &flags).unwrap();
    assert!(sql.ends_with("\nGROUP BY col0"), "SQL: {}", sql);
}

#[test]
fn test_as_sql_singleton_relation() {
    let mut rs = RuleStructure::new();
    rs.select.push(("col0".to_string(), obj(vec![("literal", obj(vec![("the_string", s("a"))]))])));
    rs.distinct_denoted = true;
    let flags = StrMap::new();
    let sql = rs.as_sql(&NameTables, &SqLiteDialect, &flags).unwrap();
    assert_eq!(sql, "SELECT\n  'a' AS col0\nFROM\n  (SELECT 'singleton' as s) as unused_singleton");
}

#[test]
fn test_as_sql_unnest_sqlite() {
    let mut rs = RuleStructure::new();
    rs.unnestings.push(("e".to_string(), var("l")));
    rs.external_vocabulary = Some({
        let mut v = StrMap::new();
        v.insert("l".to_string(), "outer.list".to_string());
        v
    });
    rs.select.push(("col0".to_string(), obj(vec![("literal", obj(vec![("the_string", s("a"))]))])));
    let flags = StrMap::new();
    let sql = rs.as_sql(&NameTables, &SqLiteDialect, &flags).unwrap();
    assert_eq!(sql, "SELECT\n  'a' AS col0\nFROM\n  JSON_EACH(outer.list) as e");
}

#[test]
fn test_as_sql_table_error_passes_through() {
    let rs = source_rule();
    let flags = StrMap::new();
    let e = rs.as_sql(&NoTables, &SqLiteDialect, &flags).unwrap_err();
    assert_eq!(e.message, "no such table");
}

#[test]
fn test_indent_block_drops_empty_last_line() {
    assert_eq!(synalog::rule_structure::indent_block_exec("a\r\nb\n"), "  a\n  b");
    assert_eq!(synalog::rule_structure::indent2_exec("a\nb"), "  a\n  b");
}
