//! SQL dialects: the differences between the SQL engines the compiler targets.
//!
//! Each dialect gives built-in function templates, infix operator overrides,
//! subscript access, a Logica library program, and formatting helpers. The
//! contracts of all dialect methods are stated over [`Engine`], which names the
//! dialect a value stands for.

use vstd::prelude::*;
use crate::CompileError;
use crate::strmap::{sm_get, sm_index, lemma_sm_index};
use crate::text::{chars_of, chars_eq, str_eq, extend_str, string_of, replace_str, replace_all,
    contains_str, contains_seq, join, join_strings, concat2, concat3, concat4, concat5};

verus! {

/// How GROUP BY references columns.
#[derive(Debug, Clone, Copy, PartialEq, Eq, Structural)]
pub enum GroupBySpec {
    Name,
    Index,
    Expr,
}

/// The SQL engines the compiler targets.
#[derive(Debug, Clone, Copy, PartialEq, Eq, Structural)]
pub enum Engine {
    BigQuery,
    SqLite,
    Psql,
    Trino,
    Presto,
    Databricks,
    DuckDb,
}

/// Logica library program of the bigquery dialect.
pub const BIGQUERY_LIBRARY: &'static str = r#"
->(left:, right:) = {arg: left, value: right};
`=`(left:, right:) = right :- left == right;

# All ORDER BY arguments are wrapped, to avoid confusion with
# column index.
ArgMin(a) = SqlExpr("ARRAY_AGG({arg} order by [{value}][offset(0)] limit 1)[OFFSET(0)]",
                    {arg: a.arg, value: a.value});

ArgMax(a) = SqlExpr(
  "ARRAY_AGG({arg} order by  [{value}][offset(0)] desc limit 1)[OFFSET(0)]",
  {arg: a.arg, value: a.value});

ArgMaxK(a, l) = SqlExpr(
  "ARRAY_AGG({arg} order by  [{value}][offset(0)] desc limit {lim})",
  {arg: a.arg, value: a.value, lim: l});

ArgMinK(a, l) = SqlExpr(
  "ARRAY_AGG({arg} order by  [{value}][offset(0)] limit {lim})",
  {arg: a.arg, value: a.value, lim: l});

Array(a) = SqlExpr(
  "ARRAY_AGG({value} order by [{arg}][offset(0)])",
  {arg: a.arg, value: a.value});
"#;

/// Logica library program of the sqlite dialect.
pub const SQLITE_LIBRARY: &'static str = r#"
->(left:, right:) = {arg: left, value: right};
`=`(left:, right:) = right :- left == right;

Arrow(left, right) = arrow :-
  left == arrow.arg,
  right == arrow.value;

PrintToConsole(message) :- 1 == SqlExpr("PrintToConsole({message})", {message:});

ArgMin(arr) = Element(
    SqlExpr("ArgMin({a}, {v}, 1)", {a:, v:}), 0) :- Arrow(a, v) == arr;

ArgMax(arr) = Element(
    SqlExpr("ArgMax({a}, {v}, 1)", {a:, v:}), 0) :- Arrow(a, v) == arr;

ArgMinK(arr, k) =
    SqlExpr("ArgMin({a}, {v}, {k})", {a:, v:, k:}) :-
  Arrow(a, v) == arr;

ArgMaxK(arr, k) =
    SqlExpr("ArgMax({a}, {v}, {k})", {a:, v:, k:}) :- Arrow(a, v) == arr;

Array(arr) =
    SqlExpr("ArgMin({v}, {a}, null)", {a:, v:}) :- Arrow(a, v) == arr;

ReadFile(filename) = SqlExpr("ReadFile({filename})", {filename:});

ReadJson(filename) = ReadFile(filename);

WriteFile(filename, content:) = SqlExpr("WriteFile({filename}, {content})",
                                        {filename:, content:});

Fingerprint(s) = SqlExpr("Fingerprint({s})", {s:});

Intelligence(command) = SqlExpr("Intelligence({command})", {command:});

RunClingo(script) = SqlExpr("RunClingo({script})", {script:});

RunClingoFile(filename) = SqlExpr("RunClingoFile({filename})", {filename:});

AssembleRecord(field_values) = SqlExpr("AssembleRecord({field_values})", {field_values:});

DisassembleRecord(record) = SqlExpr("DisassembleRecord({record})", {record:});

Char(code) = SqlExpr("CHAR({code})", {code:});
"#;

/// Logica library program of the psql dialect.
pub const PSQL_LIBRARY: &'static str = r#"
->(left:, right:) = {arg: left, value: right};
`=`(left:, right:) = right :- left == right;

ArgMin(a) = (SqlExpr("(ARRAY_AGG({arg} order by {value}))[1]",
                     {arg: {argpod: a.arg}, value: a.value})).argpod;

ArgMax(a) = (SqlExpr(
  "(ARRAY_AGG({arg} order by {value} desc))[1]",
  {arg: {argpod: a.arg}, value: a.value})).argpod;

ArgMaxK(a, l) = SqlExpr(
  "(ARRAY_AGG({arg} order by {value} desc))[1:{lim}]",
  {arg: a.arg, value: a.value, lim: l});

ArgMinK(a, l) = SqlExpr(
  "(ARRAY_AGG({arg} order by {value}))[1:{lim}]",
  {arg: a.arg, value: a.value, lim: l});

Array(a) = SqlExpr(
  "ARRAY_AGG({value} order by {arg})",
  {arg: a.arg, value: a.value});

RecordAsJson(r) = SqlExpr(
  "ROW_TO_JSON({r})", {r:});

Fingerprint(s) = SqlExpr("('x' || substr(md5({s}), 1, 16))::bit(64)::bigint", {s:});

ReadFile(filename) = SqlExpr("pg_read_file({filename})", {filename:});

Chr(x) = SqlExpr("Chr({x})", {x:});

Num(a) = a;
Str(a) = a;
"#;

/// Logica library program of the trino dialect.
pub const TRINO_LIBRARY: &'static str = r#"
->(left:, right:) = {arg: left, value: right};
`=`(left:, right:) = right :- left == right;

ArgMin(a) = SqlExpr("(ARRAY_AGG({arg} order by {value}))[1]",
                    {arg: a.arg, value: a.value});

ArgMax(a) = SqlExpr(
  "(ARRAY_AGG({arg} order by {value} desc))[1]",
  {arg: a.arg, value: a.value});

ArgMaxK(a, l) = SqlExpr(
  "SLICE(ARRAY_AGG({arg} order by {value} desc), 1, {lim})",
  {arg: a.arg, value: a.value, lim: l});

ArgMinK(a, l) = SqlExpr(
  "SLICE(ARRAY_AGG({arg} order by {value}), 1, {lim})",
  {arg: a.arg, value: a.value, lim: l});

Array(a) = SqlExpr(
  "ARRAY_AGG({value} order by {arg})",
  {arg: a.arg, value: a.value});
"#;

/// Logica library program of the presto dialect.
pub const PRESTO_LIBRARY: &'static str = r#"
->(left:, right:) = {arg: left, value: right};
`=`(left:, right:) = right :- left == right;

ArgMin(a) = SqlExpr("(ARRAY_AGG({arg} order by {value}))[1]",
                    {arg: a.arg, value: a.value});

ArgMax(a) = SqlExpr(
  "(ARRAY_AGG({arg} order by {value} desc))[1]",
  {arg: a.arg, value: a.value});

ArgMaxK(a, l) = SqlExpr(
  "SLICE(ARRAY_AGG({arg} order by {value} desc), 1, {lim})",
  {arg: a.arg, value: a.value, lim: l});

ArgMinK(a, l) = SqlExpr(
  "SLICE(ARRAY_AGG({arg} order by {value}), 1, {lim})",
  {arg: a.arg, value: a.value, lim: l});

Array(a) = SqlExpr(
  "ARRAY_AGG({value} order by {arg})",
  {arg: a.arg, value: a.value});
"#;

/// Logica library program of the databricks dialect.
pub const DATABRICKS_LIBRARY: &'static str = r#"
->(left:, right:) = {arg: left, value: right};
ArgMin(a) = SqlExpr(
  "(ARRAY_AGG({arg} order by {value}))[1]",
  {arg: a.arg, value: a.value});
ArgMax(a) = SqlExpr(
   "(ARRAY_AGG({arg} order by {value} desc))[1]",
  {arg: a.arg, value: a.value});
ArgMaxK(a, l) = SqlExpr(
  "SLICE(ARRAY_AGG({arg} order by {value} desc), 1, {lim})",
  {arg: a.arg, value: a.value, lim: l});
ArgMinK(a, l) = SqlExpr(
  "SLICE(ARRAY_AGG({arg} order by {value}), 1, {lim})",
  {arg: a.arg, value: a.value, lim: l});
RMatch(s, p) = SqlExpr(
  "REGEXP_LIKE({s}, {p})",
  {s: s, p: p});
RExtract(s, p, g) = SqlExpr(
  "REGEXP_SUBSTR({s}, {p}, 1, 1, 'c', {g})",
  {s: s, p: p, g: g});

Array(a) = SqlExpr(
  "ARRAY_AGG({value} order by {arg})",
  {arg: a.arg, value: a.value});
"#;

/// Logica library program of the duckdb dialect.
pub const DUCKDB_LIBRARY: &'static str = r#"
->(left:, right:) = {arg: left, value: right};
`=`(left:, right:) = right :- left == right;

Arrow(left, right) = arrow :-
  left == arrow.arg,
  right == arrow.value;

PrintToConsole(message) :- 1 == SqlExpr("PrintToConsole({message})", {message:});

ArgMin(arr) = SqlExpr(
    "argmin({a}, {v})", {a: arr.arg, v: arr.value});

ArgMax(arr) = SqlExpr(
    "argmax({a}, {v})", {a: arr.arg, v: arr.value});

ArgMaxK(a, l) = SqlExpr(
  "(array_agg({arg_1} order by {value_1} desc))[1:{lim}]",
  {arg_1: a.arg, value_1: a.value, lim: l});

ArgMinK(a, l) = SqlExpr(
  "(array_agg({arg_1} order by {value_1}))[1:{lim}]",
  {arg_1: a.arg, value_1: a.value, lim: l});

Array(a) = SqlExpr(
  "ARRAY_AGG({value} order by {arg})",
  {arg: a.arg, value: a.value});

RecordAsJson(r) = SqlExpr(
  "ROW_TO_JSON({r})", {r:});

Fingerprint(s) = NaturalHash(s);

ReadFile(filename) = SqlExpr("(select struct_pack(size := any_value(size), content := any_value(content), filename := any_value(filename)) from read_text({filename}))", {filename:});

Chr(x) = SqlExpr("Chr(cast({x} as integer))", {x:});
Ord(x) = SqlExpr("Ord({x})", {x:});

Num(a) = a;
Str(a) = a;

Epoch(a) = epoch :-
  epoch = SqlExpr("epoch_ns({a})", {a:}) / 1000000000,
  a ~ Time,
  epoch ~ Num;
TimeDiffSeconds(a, b) = Epoch(SqlExpr("{a} - {b}", {a:, b:}));
ToTime(a) = SqlExpr("cast({a} as timestamp)", {a:});

NaturalHash(x) = ToInt64(SqlExpr("hash(cast({x} as string)) // cast(2 as ubigint)", {x:}));

# This is unsafe to use because due to the way Logica compiles this number
# will be unique for each use of the variable, which can be a pain to debug.
# It is OK to use it as long as you undertand and are OK with the difficulty.
UnsafeToUseUniqueNumber() = SqlExpr("nextval('eternal_logical_sequence')", {});

# Danger is immanent to life.
UniqueNumber() = SqlExpr("nextval('eternal_logical_sequence')", {});

# Aggregation that concatenates list.
# Doing via SqlExpr as Logica for now prohibits list of lists.
# TODO: We should allow list of lists in DuckDB.
MergeList(e) = SqlExpr("flatten(array_agg({e}))", {e:});

# Functional predicate for toy examples of solving
# NP-complete problems.
ProverChoice(slot, options:) = options[i] :-
  i = NaturalHash("ProverChoice-" ++
                  ToString(UniqueNumber())) % Size(options);

#######################
# Clingo support.
#

Clingo(p, m) = SqlExpr("Clingo({p}, {m})", {p:, m:}) :-
  m ~ [{predicate: Str, args: [Str]}];
CompileClingo(p, m) = SqlExpr("CompileClingo({p}, {m})", {p:, m:}) :-
  m ~ [{predicate: Str, args: [Str]}];

RunClingo(p) = SqlExpr("RunClingo({p})", {p:});
RunClingoFile(p) = SqlExpr("RunClingoFile({p})", {p:});
RunClingoTemplate(p, a) = SqlExpr("RunClingoTemplate({p}, {a})", {p:, a:});
RunClingoFileTemplate(p, a) = SqlExpr("RunClingoFileTemplate({p}, {a})", {p:, a:});

RenderClingoArgs(args) = (
  if Size(args) == 0 then
    "()"
  else
    "(" ++ Join(args, ", ") ++ ")"
);

RenderClingoFact(predicate, args) =  predicate ++ RenderClingoArgs(args);

QuoteIt(x) = Chr(34) ++ x ++ Chr(34);
ClingoFact(predicate, args) = {predicate:,
                               args: List{QuoteIt(a) :- a in args}};

ExtractClingoCall(a, b, c, d, e, f, g, h,
                  predicate:, model_id:) = models :-
  model in models,
  model_id = model.model_id,
  entry in model.model,
  entry.predicate = predicate,
  args = entry.args,
  a = args[0], b = args[1], c = args[2],
  d = args[3], e = args[4], f = args[5],
  g = args[6], h = args[7];

JoinOrEmpty(x, s) = Coalesce(Join(x, s), "");

RenderClingoModel(model, sep) = JoinOrEmpty(
    List{RenderClingoFact(fact.predicate, fact.args) :-
         fact in model}, sep);

# Indexed sum, that Clingo needs.
ISum(x) = SqlExpr("SUM({x})", {x:}) :- Error("ISum is to be used only in Clingo.") = true;
"#;

/// Name by which the engine is selected.
pub open spec fn engine_name(e: Engine) -> Seq<char> {
    match e {
        Engine::BigQuery => "bigquery"@,
        Engine::SqLite => "sqlite"@,
        Engine::Psql => "psql"@,
        Engine::Trino => "trino"@,
        Engine::Presto => "presto"@,
        Engine::Databricks => "databricks"@,
        Engine::DuckDb => "duckdb"@,
    }
}

/// The engine selected by a name, if the name is supported.
pub open spec fn engine_named(n: Seq<char>) -> Option<Engine> {
    if n == "bigquery"@ {
        Some(Engine::BigQuery)
    }     else if n == "sqlite"@ {
        Some(Engine::SqLite)
    }     else if n == "psql"@ {
        Some(Engine::Psql)
    }     else if n == "trino"@ {
        Some(Engine::Trino)
    }     else if n == "presto"@ {
        Some(Engine::Presto)
    }     else if n == "databricks"@ {
        Some(Engine::Databricks)
    }     else if n == "duckdb"@ {
        Some(Engine::DuckDb)
    } else {
        None
    }
}

/// Dialect-specific built-in functions: Logica name and SQL template.
pub open spec fn builtin_entries(e: Engine) -> Seq<(Seq<char>, Seq<char>)> {
    match e {
        Engine::BigQuery => seq![],
        Engine::SqLite => seq![
            ("Set"@, "DistinctListAgg({0})"@),
            ("Element"@, "JSON_EXTRACT({0}, '$[' || {1} || ']')"@),
            ("Range"@, "(select json_group_array(n) from (with recursive t as(select 0 as n union all select n + 1 as n from t where n + 1 < {0}) select n from t) where n < {0})"@),
            ("ValueOfUnnested"@, "{0}.value"@),
            ("List"@, "JSON_GROUP_ARRAY({0})"@),
            ("Size"@, "JSON_ARRAY_LENGTH({0})"@),
            ("Join"@, "JOIN_STRINGS({0}, {1})"@),
            ("Count"@, "COUNT(DISTINCT {0})"@),
            ("StringAgg"@, "GROUP_CONCAT(%s)"@),
            ("Sort"@, "SortList({0})"@),
            ("MagicalEntangle"@, "MagicalEntangle({0}, {1})"@),
            ("Format"@, "Printf(%s)"@),
            ("Least"@, "MIN(%s)"@),
            ("Greatest"@, "MAX(%s)"@),
            ("ToString"@, "CAST(%s AS TEXT)"@),
            ("DateAddDay"@, "DATE({0}, {1} || ' days')"@),
            ("DateDiffDay"@, "CAST(JULIANDAY({0}) - JULIANDAY({1}) AS INT64)"@),
            ("SomeValue"@, "ARRAY_AGG({0} IGNORE NULLS LIMIT 1)[OFFSET(0)]"@),
        ],
        Engine::Psql => seq![
            ("Range"@, "(SELECT ARRAY_AGG(x) FROM GENERATE_SERIES(0, {0} - 1) as x)"@),
            ("RangeOf"@, "(SELECT ARRAY_AGG(x) FROM GENERATE_SERIES(0, ARRAY_LENGTH({0}, 1) - 1) as x)"@),
            ("ToString"@, "CAST(%s AS TEXT)"@),
            ("ToInt64"@, "CAST(%s AS BIGINT)"@),
            ("ToFloat64"@, "CAST(%s AS double precision)"@),
            ("Element"@, "({0})[{1} + 1]"@),
            ("Size"@, "COALESCE(ARRAY_LENGTH({0}, 1), 0)"@),
            ("Count"@, "COUNT(DISTINCT {0})"@),
            ("MagicalEntangle"@, "(CASE WHEN {1} = 0 THEN {0} ELSE NULL END)"@),
            ("ArrayConcat"@, "{0} || {1}"@),
            ("Split"@, "STRING_TO_ARRAY({0}, {1})"@),
            ("AnyValue"@, "(ARRAY_AGG(%s))[1]"@),
            ("Log"@, "LN(%s)"@),
        ],
        Engine::Trino => seq![
            ("Range"@, "SEQUENCE(0, %s - 1)"@),
            ("ToString"@, "CAST(%s AS VARCHAR)"@),
            ("ToInt64"@, "CAST(%s AS BIGINT)"@),
            ("ToFloat64"@, "CAST(%s AS DOUBLE)"@),
            ("AnyValue"@, "ARBITRARY(%s)"@),
            ("ArrayConcat"@, "{0} || {1}"@),
            ("Size"@, "CARDINALITY({0})"@),
            ("Log"@, "LN({0})"@),
            ("Agg++"@, "FLATTEN(ARRAY_AGG({0}))"@),
            ("Element"@, "ELEMENT_AT({0}, {1} + 1)"@),
        ],
        Engine::Presto => seq![
            ("Range"@, "SEQUENCE(0, %s - 1)"@),
            ("ToString"@, "CAST(%s AS VARCHAR)"@),
            ("ToInt64"@, "CAST(%s AS BIGINT)"@),
            ("ToFloat64"@, "CAST(%s AS DOUBLE)"@),
            ("AnyValue"@, "ARBITRARY(%s)"@),
            ("ArrayConcat"@, "{0} || {1}"@),
            ("Size"@, "CARDINALITY({0})"@),
            ("Log"@, "LN({0})"@),
            ("Agg++"@, "FLATTEN(ARRAY_AGG({0}))"@),
            ("Element"@, "ELEMENT_AT({0}, {1} + 1)"@),
        ],
        Engine::Databricks => seq![
            ("ToString"@, "CAST(%s AS STRING)"@),
            ("ToInt64"@, "CAST(%s AS BIGINT)"@),
            ("ToFloat64"@, "CAST(%s AS DOUBLE)"@),
            ("AnyValue"@, "ANY_VALUE(%s)"@),
            ("ILike"@, "({0}::string ILIKE {1})"@),
            ("Like"@, "({0}::string LIKE {1})"@),
            ("Replace"@, "REPLACE({0}::string, {1}, {2})"@),
            ("ArrayConcat"@, "CONCAT({0}, {1})"@),
            ("JsonExtract"@, "GET_JSON_OBJECT({0}, {1})"@),
            ("JsonExtractScalar"@, "GET_JSON_OBJECT({0}, {1})"@),
            ("DateDiff"@, "DATEDIFF({0}, {1}, {2})"@),
            ("IsNull"@, "({0} IS NULL)"@),
            ("LogicalOr"@, "BOOL_OR(%s)"@),
            ("LogicalAnd"@, "BOOL AND(%s)"@),
            ("Range"@, "SEQUENCE(0, %s - 1)"@),
            ("Size"@, "SIZE(%s)"@),
            ("Element"@, "ELEMENT_AT({0}, {1} + 1)"@),
            ("Format"@, "FORMAT_STRING(%s)"@),
        ],
        Engine::DuckDb => seq![
            ("Element"@, "array_extract({0},  CAST({1}+1 AS BIGINT))"@),
            ("Range"@, "Range({0})"@),
            ("ValueOfUnnested"@, "{0}.unnested_pod"@),
            ("Size"@, "LEN({0})"@),
            ("Join"@, "ARRAY_TO_STRING({0}, {1})"@),
            ("Count"@, "COUNT(DISTINCT {0})"@),
            ("StringAgg"@, "GROUP_CONCAT(%s)"@),
            ("Sort"@, "SortList({0})"@),
            ("MagicalEntangle"@, "(CASE WHEN {1} = 0 THEN {0} ELSE NULL END)"@),
            ("Format"@, "Printf(%s)"@),
            ("Least"@, "LEAST(%s)"@),
            ("Greatest"@, "GREATEST(%s)"@),
            ("ToString"@, "CAST(%s AS TEXT)"@),
            ("ToFloat64"@, "CAST(%s AS DOUBLE)"@),
            ("DateAddDay"@, "DATE({0}, {1} || ' days')"@),
            ("DateDiffDay"@, "CAST(JULIANDAY({0}) - JULIANDAY({1}) AS INT64)"@),
            ("CurrentTimestamp"@, "GET_CURRENT_TIMESTAMP()"@),
            ("TimeAdd"@, "{0} + to_microseconds(cast(1000000 * {1} as int64))"@),
            ("Rand"@, "RANDOM(%s)"@),
            ("Log"@, "LN(%s)"@),
            ("Set"@, "ARRAY_AGG(DISTINCT {0} ORDER BY {0})"@),
        ],
    }
}

/// Dialect-specific infix operator templates.
pub open spec fn infix_entries(e: Engine) -> Seq<(Seq<char>, Seq<char>)> {
    match e {
        Engine::BigQuery => seq![
            ("++"@, "%s || %s"@),
        ],
        Engine::SqLite => seq![
            ("++"@, "(%s) || (%s)"@),
            ("%"@, "(%s) % (%s)"@),
            ("in"@, "IN_LIST(%s, %s)"@),
        ],
        Engine::Psql => seq![
            ("++"@, "%s || %s"@),
            ("in"@, "%s = ANY(%s)"@),
        ],
        Engine::Trino => seq![
            ("++"@, "CONCAT(%s, %s)"@),
            ("in"@, "CONTAINS({1}, {0})"@),
        ],
        Engine::Presto => seq![
            ("++"@, "CONCAT(%s, %s)"@),
            ("in"@, "CONTAINS({1}, {0})"@),
        ],
        Engine::Databricks => seq![
            ("++"@, "CONCAT(%s, %s)"@),
            ("in"@, "ARRAY_CONTAINS(%s, %s)"@),
        ],
        Engine::DuckDb => seq![
            ("++"@, "(%s) || (%s)"@),
            ("%"@, "(%s) % (%s)"@),
            ("in"@, "list_contains({right}, {left})"@),
        ],
    }
}

pub open spec fn unnest_text(e: Engine) -> Seq<char> {
    match e {
        Engine::BigQuery => "UNNEST({0}) as {1}"@,
        Engine::SqLite => "JSON_EACH({0}) as {1}"@,
        Engine::Psql => "UNNEST({0}) as {1}"@,
        Engine::Trino => "UNNEST({0}) as pushkin({1})"@,
        Engine::Presto => "UNNEST({0}) as pushkin({1})"@,
        Engine::Databricks => "explode({0}) AS pushkin({1})"@,
        Engine::DuckDb => "(select unnest({0}) as unnested_pod) as {1}"@,
    }
}

pub open spec fn array_text(e: Engine) -> Seq<char> {
    match e {
        Engine::BigQuery => "ARRAY[%s]"@,
        Engine::SqLite => "JSON_ARRAY(%s)"@,
        Engine::Psql => "ARRAY[%s]"@,
        Engine::Trino => "ARRAY[%s]"@,
        Engine::Presto => "ARRAY[%s]"@,
        Engine::Databricks => "ARRAY(%s)"@,
        Engine::DuckDb => "[%s]"@,
    }
}

pub open spec fn group_by_of(e: Engine) -> GroupBySpec {
    match e {
        Engine::BigQuery => GroupBySpec::Name,
        Engine::SqLite => GroupBySpec::Expr,
        Engine::Psql => GroupBySpec::Expr,
        Engine::Trino => GroupBySpec::Index,
        Engine::Presto => GroupBySpec::Index,
        Engine::Databricks => GroupBySpec::Index,
        Engine::DuckDb => GroupBySpec::Expr,
    }
}

pub open spec fn library_text(e: Engine) -> Seq<char> {
    match e {
        Engine::BigQuery => BIGQUERY_LIBRARY@,
        Engine::SqLite => SQLITE_LIBRARY@,
        Engine::Psql => PSQL_LIBRARY@,
        Engine::Trino => TRINO_LIBRARY@,
        Engine::Presto => PRESTO_LIBRARY@,
        Engine::Databricks => DATABRICKS_LIBRARY@,
        Engine::DuckDb => DUCKDB_LIBRARY@,
    }
}

/// The literal by which a predicate is referred to as a value.
pub open spec fn predicate_literal_text(e: Engine, name: Seq<char>) -> Seq<char> {
    match e {
        Engine::BigQuery => "STRUCT(\""@ + name + "\" AS predicate_name)"@,
        _ => "'predicate_name:"@ + name + "'"@,
    }
}

pub open spec fn postgresqlish(e: Engine) -> bool {
    e == Engine::Psql || e == Engine::DuckDb
}

pub open spec fn cascading_word(e: Engine) -> Seq<char> {
    if e == Engine::Psql { " CASCADE"@ } else { ""@ }
}

pub open spec fn create_or_replace(e: Engine) -> bool {
    e == Engine::DuckDb
}

pub open spec fn decorates_combine(e: Engine) -> bool {
    e == Engine::SqLite || e == Engine::Psql || e == Engine::DuckDb
}

/// Empty array built from an array phrase: the phrase without its `%s`
/// placeholders, `[]` for an empty phrase, or the phrase followed by `()`.
pub open spec fn empty_array_from_phrase(ap: Seq<char>) -> Seq<char> {
    if contains_seq(ap, "%s"@) {
        replace_all(ap, "%s"@, ""@)
    } else if ap.len() == 0 {
        "[]"@
    } else {
        ap + "()"@
    }
}

pub open spec fn empty_array_text(e: Engine) -> Seq<char> {
    if e == Engine::Psql { "'{}'"@ } else { empty_array_from_phrase(array_text(e)) }
}

/// One field of a record literal.
pub open spec fn record_pair(e: Engine, k: Seq<char>, v: Seq<char>) -> Seq<char> {
    match e {
        Engine::SqLite => "'"@ + k + "', "@ + v,
        Engine::DuckDb => k + ": "@ + v,
        _ => v + " AS "@ + k,
    }
}

pub open spec fn record_open(e: Engine) -> Seq<char> {
    match e {
        Engine::SqLite => "JSON_OBJECT("@,
        Engine::DuckDb => "{"@,
        Engine::Psql | Engine::Trino | Engine::Presto => "ROW("@,
        _ => "STRUCT("@,
    }
}

pub open spec fn record_close(e: Engine) -> Seq<char> {
    match e {
        Engine::DuckDb => "}"@,
        _ => ")"@,
    }
}

pub open spec fn record_pairs(e: Engine, fields: Seq<(Seq<char>, Seq<char>)>) -> Seq<Seq<char>> {
    fields.map_values(|f: (Seq<char>, Seq<char>)| record_pair(e, f.0, f.1))
}

/// Record construction from field names and SQL values.
pub open spec fn record_literal_text(e: Engine, fields: Seq<(Seq<char>, Seq<char>)>) -> Seq<char> {
    record_open(e) + join(record_pairs(e, fields), ", "@) + record_close(e)
}

/// Double-quoted literal with backslashes and double quotes escaped.
pub open spec fn double_quoted(s: Seq<char>) -> Seq<char> {
    "\""@ + replace_all(replace_all(s, "\\"@, "\\\\"@), "\""@, "\\\""@) + "\""@
}

/// Single-quoted literal with single quotes doubled.
pub open spec fn single_quoted(s: Seq<char>) -> Seq<char> {
    "'"@ + replace_all(s, "'"@, "''"@) + "'"@
}

/// Escape-string literal `E'...'`.
pub open spec fn escape_quoted(s: Seq<char>) -> Seq<char> {
    "E'"@ + replace_all(
        replace_all(replace_all(replace_all(s, "\\"@, "\\\\"@), "'"@, "''"@), "\t"@, "\\t"@),
        "\n"@,
        "\\n"@,
    ) + "'"@
}

/// String literal formatting.
pub open spec fn str_literal_text(e: Engine, s: Seq<char>) -> Seq<char> {
    match e {
        Engine::BigQuery | Engine::Databricks => double_quoted(s),
        Engine::DuckDb => escape_quoted(s),
        _ => single_quoted(s),
    }
}

/// Condition testing `col` against the regular expression `pat`.
pub open spec fn regex_text(e: Engine, col: Seq<char>, pat: Seq<char>) -> Seq<char> {
    let esc = replace_all(pat, "'"@, "''"@);
    match e {
        Engine::SqLite => col + " REGEXP '"@ + esc + "'"@,
        Engine::Psql => col + " ~ '"@ + esc + "'"@,
        Engine::DuckDb => "regexp_matches("@ + col + ", '"@ + esc + "')"@,
        _ => "REGEXP_LIKE("@ + col + ", '"@ + esc + "')"@,
    }
}

/// Field access on a record or a table.
pub open spec fn subscript_text(e: Engine, record: Seq<char>, sub: Seq<char>, record_is_table: bool) -> Seq<char> {
    match e {
        Engine::SqLite => if record_is_table {
            record + "."@ + sub
        } else {
            "JSON_EXTRACT("@ + record + ", \"$."@ + sub + "\")"@
        },
        Engine::Psql => "("@ + record + ")."@ + sub,
        _ => record + "."@ + sub,
    }
}

// ---------------------------------------------------------------------------
// Template tables
// ---------------------------------------------------------------------------

/// Name-to-template pairs, in a fixed order.
#[derive(Debug)]
pub struct Templates {
    pub entries: Vec<(&'static str, &'static str)>,
}

impl View for Templates {
    type V = Seq<(Seq<char>, Seq<char>)>;

    open spec fn view(&self) -> Seq<(Seq<char>, Seq<char>)> {
        self.entries@.map_values(|e: (&'static str, &'static str)| (e.0@, e.1@))
    }
}

impl Templates {
    /// Template of the first entry named `k`.
    pub fn get(&self, k: &str) -> (r: Option<&'static str>)
        ensures
            match r {
                Some(t) => sm_get(self@, k@) == Some(t@),
                None => sm_get(self@, k@).is_none(),
            },
    {
        let kc = chars_of(k);
        let mut i: usize = 0;
        assert(self@.subrange(0, self@.len() as int) =~= self@);
        while i < self.entries.len()
            invariant
                kc@ == k@,
                i <= self.entries.len(),
                self@.len() == self.entries.len(),
                sm_get(self@.subrange(i as int, self@.len() as int), k@) == sm_get(self@, k@),
            decreases self.entries.len() - i,
        {
            let ec = chars_of(self.entries[i].0);
            proof {
                let t = self@.subrange(i as int, self@.len() as int);
                assert(t[0] == self@[i as int]);
                assert(t.drop_first() =~= self@.subrange(i + 1, self@.len() as int));
            }
            if chars_eq(&ec, &kc) {
                return Some(self.entries[i].1);
            }
            i = i + 1;
        }
        None
    }

    pub fn contains_key(&self, k: &str) -> (r: bool)
        ensures
            r == sm_get(self@, k@).is_some(),
    {
        self.get(k).is_some()
    }

    pub fn is_empty(&self) -> (r: bool)
        ensures
            r == (self@.len() == 0),
    {
        self.entries.len() == 0
    }

    pub fn len(&self) -> (r: usize)
        ensures
            r == self@.len(),
    {
        self.entries.len()
    }
}

fn templates(entries: Vec<(&'static str, &'static str)>) -> (r: Templates)
    ensures
        r.entries@ == entries@,
{
    Templates { entries }
}

impl Engine {
    /// The engine selected by `name`, if it is one of the supported names.
    pub fn from_name(name: &str) -> (r: Option<Engine>)
        ensures
            r == engine_named(name@),
    {
        if str_eq(name, "bigquery") {
            return Some(Engine::BigQuery);
        }
        if str_eq(name, "sqlite") {
            return Some(Engine::SqLite);
        }
        if str_eq(name, "psql") {
            return Some(Engine::Psql);
        }
        if str_eq(name, "trino") {
            return Some(Engine::Trino);
        }
        if str_eq(name, "presto") {
            return Some(Engine::Presto);
        }
        if str_eq(name, "databricks") {
            return Some(Engine::Databricks);
        }
        if str_eq(name, "duckdb") {
            return Some(Engine::DuckDb);
        }
        None
    }

    pub fn name(self) -> (r: &'static str)
        ensures
            r@ == engine_name(self),
    {
        match self {
            Engine::BigQuery => "bigquery",
            Engine::SqLite => "sqlite",
            Engine::Psql => "psql",
            Engine::Trino => "trino",
            Engine::Presto => "presto",
            Engine::Databricks => "databricks",
            Engine::DuckDb => "duckdb",
        }
    }

    pub fn built_in_functions(self) -> (r: Templates)
        ensures
            r@ == builtin_entries(self),
    {
        let mut v: Vec<(&'static str, &'static str)> = Vec::new();
        match self {
            Engine::BigQuery => {
            },
            Engine::SqLite => {
                v.push(("Set", "DistinctListAgg({0})"));
                v.push(("Element", "JSON_EXTRACT({0}, '$[' || {1} || ']')"));
                v.push(("Range", "(select json_group_array(n) from (with recursive t as(select 0 as n union all select n + 1 as n from t where n + 1 < {0}) select n from t) where n < {0})"));
                v.push(("ValueOfUnnested", "{0}.value"));
                v.push(("List", "JSON_GROUP_ARRAY({0})"));
                v.push(("Size", "JSON_ARRAY_LENGTH({0})"));
                v.push(("Join", "JOIN_STRINGS({0}, {1})"));
                v.push(("Count", "COUNT(DISTINCT {0})"));
                v.push(("StringAgg", "GROUP_CONCAT(%s)"));
                v.push(("Sort", "SortList({0})"));
                v.push(("MagicalEntangle", "MagicalEntangle({0}, {1})"));
                v.push(("Format", "Printf(%s)"));
                v.push(("Least", "MIN(%s)"));
                v.push(("Greatest", "MAX(%s)"));
                v.push(("ToString", "CAST(%s AS TEXT)"));
                v.push(("DateAddDay", "DATE({0}, {1} || ' days')"));
                v.push(("DateDiffDay", "CAST(JULIANDAY({0}) - JULIANDAY({1}) AS INT64)"));
                v.push(("SomeValue", "ARRAY_AGG({0} IGNORE NULLS LIMIT 1)[OFFSET(0)]"));
            },
            Engine::Psql => {
                v.push(("Range", "(SELECT ARRAY_AGG(x) FROM GENERATE_SERIES(0, {0} - 1) as x)"));
                v.push(("RangeOf", "(SELECT ARRAY_AGG(x) FROM GENERATE_SERIES(0, ARRAY_LENGTH({0}, 1) - 1) as x)"));
                v.push(("ToString", "CAST(%s AS TEXT)"));
                v.push(("ToInt64", "CAST(%s AS BIGINT)"));
                v.push(("ToFloat64", "CAST(%s AS double precision)"));
                v.push(("Element", "({0})[{1} + 1]"));
                v.push(("Size", "COALESCE(ARRAY_LENGTH({0}, 1), 0)"));
                v.push(("Count", "COUNT(DISTINCT {0})"));
                v.push(("MagicalEntangle", "(CASE WHEN {1} = 0 THEN {0} ELSE NULL END)"));
                v.push(("ArrayConcat", "{0} || {1}"));
                v.push(("Split", "STRING_TO_ARRAY({0}, {1})"));
                v.push(("AnyValue", "(ARRAY_AGG(%s))[1]"));
                v.push(("Log", "LN(%s)"));
            },
            Engine::Trino => {
                v.push(("Range", "SEQUENCE(0, %s - 1)"));
                v.push(("ToString", "CAST(%s AS VARCHAR)"));
                v.push(("ToInt64", "CAST(%s AS BIGINT)"));
                v.push(("ToFloat64", "CAST(%s AS DOUBLE)"));
                v.push(("AnyValue", "ARBITRARY(%s)"));
                v.push(("ArrayConcat", "{0} || {1}"));
                v.push(("Size", "CARDINALITY({0})"));
                v.push(("Log", "LN({0})"));
                v.push(("Agg++", "FLATTEN(ARRAY_AGG({0}))"));
                v.push(("Element", "ELEMENT_AT({0}, {1} + 1)"));
            },
            Engine::Presto => {
                v.push(("Range", "SEQUENCE(0, %s - 1)"));
                v.push(("ToString", "CAST(%s AS VARCHAR)"));
                v.push(("ToInt64", "CAST(%s AS BIGINT)"));
                v.push(("ToFloat64", "CAST(%s AS DOUBLE)"));
                v.push(("AnyValue", "ARBITRARY(%s)"));
                v.push(("ArrayConcat", "{0} || {1}"));
                v.push(("Size", "CARDINALITY({0})"));
                v.push(("Log", "LN({0})"));
                v.push(("Agg++", "FLATTEN(ARRAY_AGG({0}))"));
                v.push(("Element", "ELEMENT_AT({0}, {1} + 1)"));
            },
            Engine::Databricks => {
                v.push(("ToString", "CAST(%s AS STRING)"));
                v.push(("ToInt64", "CAST(%s AS BIGINT)"));
                v.push(("ToFloat64", "CAST(%s AS DOUBLE)"));
                v.push(("AnyValue", "ANY_VALUE(%s)"));
                v.push(("ILike", "({0}::string ILIKE {1})"));
                v.push(("Like", "({0}::string LIKE {1})"));
                v.push(("Replace", "REPLACE({0}::string, {1}, {2})"));
                v.push(("ArrayConcat", "CONCAT({0}, {1})"));
                v.push(("JsonExtract", "GET_JSON_OBJECT({0}, {1})"));
                v.push(("JsonExtractScalar", "GET_JSON_OBJECT({0}, {1})"));
                v.push(("DateDiff", "DATEDIFF({0}, {1}, {2})"));
                v.push(("IsNull", "({0} IS NULL)"));
                v.push(("LogicalOr", "BOOL_OR(%s)"));
                v.push(("LogicalAnd", "BOOL AND(%s)"));
                v.push(("Range", "SEQUENCE(0, %s - 1)"));
                v.push(("Size", "SIZE(%s)"));
                v.push(("Element", "ELEMENT_AT({0}, {1} + 1)"));
                v.push(("Format", "FORMAT_STRING(%s)"));
            },
            Engine::DuckDb => {
                v.push(("Element", "array_extract({0},  CAST({1}+1 AS BIGINT))"));
                v.push(("Range", "Range({0})"));
                v.push(("ValueOfUnnested", "{0}.unnested_pod"));
                v.push(("Size", "LEN({0})"));
                v.push(("Join", "ARRAY_TO_STRING({0}, {1})"));
                v.push(("Count", "COUNT(DISTINCT {0})"));
                v.push(("StringAgg", "GROUP_CONCAT(%s)"));
                v.push(("Sort", "SortList({0})"));
                v.push(("MagicalEntangle", "(CASE WHEN {1} = 0 THEN {0} ELSE NULL END)"));
                v.push(("Format", "Printf(%s)"));
                v.push(("Least", "LEAST(%s)"));
                v.push(("Greatest", "GREATEST(%s)"));
                v.push(("ToString", "CAST(%s AS TEXT)"));
                v.push(("ToFloat64", "CAST(%s AS DOUBLE)"));
                v.push(("DateAddDay", "DATE({0}, {1} || ' days')"));
                v.push(("DateDiffDay", "CAST(JULIANDAY({0}) - JULIANDAY({1}) AS INT64)"));
                v.push(("CurrentTimestamp", "GET_CURRENT_TIMESTAMP()"));
                v.push(("TimeAdd", "{0} + to_microseconds(cast(1000000 * {1} as int64))"));
                v.push(("Rand", "RANDOM(%s)"));
                v.push(("Log", "LN(%s)"));
                v.push(("Set", "ARRAY_AGG(DISTINCT {0} ORDER BY {0})"));
            },
        }
        let r = templates(v);
        assert(r@ =~= builtin_entries(self));
        r
    }

    pub fn infix_operators(self) -> (r: Templates)
        ensures
            r@ == infix_entries(self),
    {
        let mut v: Vec<(&'static str, &'static str)> = Vec::new();
        match self {
            Engine::BigQuery => {
                v.push(("++", "%s || %s"));
            },
            Engine::SqLite => {
                v.push(("++", "(%s) || (%s)"));
                v.push(("%", "(%s) % (%s)"));
                v.push(("in", "IN_LIST(%s, %s)"));
            },
            Engine::Psql => {
                v.push(("++", "%s || %s"));
                v.push(("in", "%s = ANY(%s)"));
            },
            Engine::Trino => {
                v.push(("++", "CONCAT(%s, %s)"));
                v.push(("in", "CONTAINS({1}, {0})"));
            },
            Engine::Presto => {
                v.push(("++", "CONCAT(%s, %s)"));
                v.push(("in", "CONTAINS({1}, {0})"));
            },
            Engine::Databricks => {
                v.push(("++", "CONCAT(%s, %s)"));
                v.push(("in", "ARRAY_CONTAINS(%s, %s)"));
            },
            Engine::DuckDb => {
                v.push(("++", "(%s) || (%s)"));
                v.push(("%", "(%s) % (%s)"));
                v.push(("in", "list_contains({right}, {left})"));
            },
        }
        let r = templates(v);
        assert(r@ =~= infix_entries(self));
        r
    }

    pub fn unnest_phrase(self) -> (r: &'static str)
        ensures
            r@ == unnest_text(self),
    {
        match self {
            Engine::BigQuery => "UNNEST({0}) as {1}",
            Engine::SqLite => "JSON_EACH({0}) as {1}",
            Engine::Psql => "UNNEST({0}) as {1}",
            Engine::Trino => "UNNEST({0}) as pushkin({1})",
            Engine::Presto => "UNNEST({0}) as pushkin({1})",
            Engine::Databricks => "explode({0}) AS pushkin({1})",
            Engine::DuckDb => "(select unnest({0}) as unnested_pod) as {1}",
        }
    }

    pub fn array_phrase(self) -> (r: &'static str)
        ensures
            r@ == array_text(self),
    {
        match self {
            Engine::BigQuery => "ARRAY[%s]",
            Engine::SqLite => "JSON_ARRAY(%s)",
            Engine::Psql => "ARRAY[%s]",
            Engine::Trino => "ARRAY[%s]",
            Engine::Presto => "ARRAY[%s]",
            Engine::Databricks => "ARRAY(%s)",
            Engine::DuckDb => "[%s]",
        }
    }

    pub fn group_by_spec_by(self) -> (r: GroupBySpec)
        ensures
            r == group_by_of(self),
    {
        match self {
            Engine::BigQuery => GroupBySpec::Name,
            Engine::SqLite => GroupBySpec::Expr,
            Engine::Psql => GroupBySpec::Expr,
            Engine::Trino => GroupBySpec::Index,
            Engine::Presto => GroupBySpec::Index,
            Engine::Databricks => GroupBySpec::Index,
            Engine::DuckDb => GroupBySpec::Expr,
        }
    }

    pub fn library_program(self) -> (r: &'static str)
        ensures
            r@ == library_text(self),
    {
        match self {
            Engine::BigQuery => BIGQUERY_LIBRARY,
            Engine::SqLite => SQLITE_LIBRARY,
            Engine::Psql => PSQL_LIBRARY,
            Engine::Trino => TRINO_LIBRARY,
            Engine::Presto => PRESTO_LIBRARY,
            Engine::Databricks => DATABRICKS_LIBRARY,
            Engine::DuckDb => DUCKDB_LIBRARY,
        }
    }

    /// Field access on a record or a table.
    pub fn subscript(self, record: &str, subscript: &str, record_is_table: bool) -> (r: String)
        ensures
            r@ == subscript_text(self, record@, subscript@, record_is_table),
    {
        match self {
            Engine::SqLite => if record_is_table {
                concat3(record, ".", subscript)
            } else {
                concat5(r#"JSON_EXTRACT("#, record, ", \"$.", subscript, "\")")
            },
            Engine::Psql => concat4("(", record, ").", subscript),
            _ => concat3(record, ".", subscript),
        }
    }

    /// The literal by which predicate `name` is referred to as a value.
    pub fn predicate_literal(self, name: &str) -> (r: String)
        ensures
            r@ == predicate_literal_text(self, name@),
    {
        match self {
            Engine::BigQuery => concat3("STRUCT(\"", name, "\" AS predicate_name)"),
            _ => concat3("'predicate_name:", name, "'"),
        }
    }

    pub fn is_postgresqlish(self) -> (r: bool)
        ensures
            r == postgresqlish(self),
    {
        self == Engine::Psql || self == Engine::DuckDb
    }

    /// Keyword appended to DROP statements.
    pub fn cascading_deletion_word(self) -> (r: &'static str)
        ensures
            r@ == cascading_word(self),
    {
        if self == Engine::Psql { " CASCADE" } else { "" }
    }

    /// Whether tables are materialized with `CREATE OR REPLACE TABLE`.
    pub fn supports_create_or_replace_table(self) -> (r: bool)
        ensures
            r == create_or_replace(self),
    {
        self == Engine::DuckDb
    }

    pub fn decorate_combine_rule(self) -> (r: bool)
        ensures
            r == decorates_combine(self),
    {
        self == Engine::SqLite || self == Engine::Psql || self == Engine::DuckDb
    }

    /// SQL for an empty array.
    pub fn empty_array_literal(self) -> (r: String)
        ensures
            r@ == empty_array_text(self),
    {
        if self == Engine::Psql {
            return "'{}'".to_string();
        }
        let ap = self.array_phrase();
        let pct = "%s";
        let nothing = "";
        proof {
            reveal_strlit("%s");
        }
        if contains_str(ap, pct) {
            replace_str(ap, pct, nothing)
        } else if ap.unicode_len() == 0 {
            "[]".to_string()
        } else {
            concat2(ap, "()")
        }
    }

    /// Record construction from field names and SQL values.
    pub fn record_literal(self, fields: &[(&str, &str)]) -> (r: String)
        ensures
            r@ == record_literal_text(self, fields@.map_values(|f: (&str, &str)| (f.0@, f.1@))),
    {
        let ghost fv = fields@.map_values(|f: (&str, &str)| (f.0@, f.1@));
        let mut parts: Vec<String> = Vec::new();
        let mut i: usize = 0;
        while i < fields.len()
            invariant
                i <= fields.len(),
                fv == fields@.map_values(|f: (&str, &str)| (f.0@, f.1@)),
                parts@.map_values(|p: String| p@) == record_pairs(self, fv).subrange(0, i as int),
            decreases fields.len() - i,
        {
            let (k, v) = fields[i];
            let p = match self {
                Engine::SqLite => concat4("'", k, "', ", v),
                Engine::DuckDb => concat3(k, ": ", v),
                _ => concat3(v, " AS ", k),
            };
            let ghost before = parts@;
            parts.push(p);
            proof {
                assert(parts@.map_values(|p: String| p@) =~= before.map_values(|p: String| p@).push(p@));
                assert(record_pairs(self, fv).subrange(0, i + 1) =~= record_pairs(self, fv).subrange(0, i as int).push(record_pair(self, fv[i as int].0, fv[i as int].1)));
            }
            i = i + 1;
        }
        assert(record_pairs(self, fv).subrange(0, i as int) =~= record_pairs(self, fv));
        let body = join_strings(&parts, ", ");
        let open = match self {
            Engine::SqLite => "JSON_OBJECT(",
            Engine::DuckDb => "{",
            Engine::Psql | Engine::Trino | Engine::Presto => "ROW(",
            _ => "STRUCT(",
        };
        let close = match self {
            Engine::DuckDb => "}",
            _ => ")",
        };
        concat3(open, body.as_str(), close)
    }

    /// String literal in this dialect's syntax.
    pub fn str_literal(self, s: &str) -> (r: String)
        ensures
            r@ == str_literal_text(self, s@),
    {
        proof {
            reveal_strlit("\\");
            reveal_strlit("\"");
            reveal_strlit("'");
            reveal_strlit("\t");
            reveal_strlit("\n");
        }
        match self {
            Engine::BigQuery | Engine::Databricks => {
                let a = replace_str(s, "\\", "\\\\");
                let b = replace_str(a.as_str(), "\"", "\\\"");
                concat3("\"", b.as_str(), "\"")
            },
            Engine::DuckDb => {
                let a = replace_str(s, "\\", "\\\\");
                let b = replace_str(a.as_str(), "'", "''");
                let c = replace_str(b.as_str(), "\t", "\\t");
                let d = replace_str(c.as_str(), "\n", "\\n");
                concat3("E'", d.as_str(), "'")
            },
            _ => {
                let a = replace_str(s, "'", "''");
                concat3("'", a.as_str(), "'")
            },
        }
    }

    /// Condition testing `column_expr` against the regular expression `pattern`.
    pub fn regex_match_condition(self, column_expr: &str, pattern: &str) -> (r: String)
        ensures
            r@ == regex_text(self, column_expr@, pattern@),
    {
        proof {
            reveal_strlit("'");
        }
        let esc = replace_str(pattern, "'", "''");
        match self {
            Engine::SqLite => concat4(column_expr, " REGEXP '", esc.as_str(), "'"),
            Engine::Psql => concat4(column_expr, " ~ '", esc.as_str(), "'"),
            Engine::DuckDb => concat5("regexp_matches(", column_expr, ", '", esc.as_str(), "')"),
            _ => concat5("REGEXP_LIKE(", column_expr, ", '", esc.as_str(), "')"),
        }
    }
}

// ---------------------------------------------------------------------------
// The dialect trait and the dialects
// ---------------------------------------------------------------------------

/// Abstraction over SQL dialect differences.
pub trait Dialect {
    /// The engine this dialect stands for.
    spec fn kind(&self) -> Engine;

    fn engine(&self) -> (r: Engine)
        ensures
            r == self.kind(),
    ;

    fn name(&self) -> (r: &'static str)
        ensures
            r@ == engine_name(self.kind()),
    ;

    /// Additional built-in functions: Logica name and SQL template.
    /// Templates use `%s` for joined arguments or `{0}`, `{1}` for positions.
    fn built_in_functions(&self) -> (r: Templates)
        ensures
            r@ == builtin_entries(self.kind()),
    ;

    /// Infix operator overrides: Logica operator and SQL template.
    fn infix_operators(&self) -> (r: Templates)
        ensures
            r@ == infix_entries(self.kind()),
    ;

    /// Field access on a record or table.
    fn subscript(&self, record: &str, subscript: &str, record_is_table: bool) -> (r: String)
        ensures
            r@ == subscript_text(self.kind(), record@, subscript@, record_is_table),
    ;

    /// Logica source of the dialect's standard library.
    fn library_program(&self) -> (r: &'static str)
        ensures
            r@ == library_text(self.kind()),
    ;

    /// UNNEST phrase template with `{0}` for the array and `{1}` for the alias.
    fn unnest_phrase(&self) -> (r: &'static str)
        ensures
            r@ == unnest_text(self.kind()),
    ;

    /// Array literal construction template.
    fn array_phrase(&self) -> (r: &'static str)
        ensures
            r@ == array_text(self.kind()),
    ;

    /// How GROUP BY references columns.
    fn group_by_spec_by(&self) -> (r: GroupBySpec)
        ensures
            r == group_by_of(self.kind()),
    ;

    /// Record/struct construction SQL.
    fn record_literal(&self, fields: &[(&str, &str)]) -> (r: String)
        ensures
            r@ == record_literal_text(self.kind(), fields@.map_values(|f: (&str, &str)| (f.0@, f.1@))),
    ;

    /// Format a predicate literal for SQL.
    fn predicate_literal(&self, name: &str) -> (r: String)
        ensures
            r@ == predicate_literal_text(self.kind(), name@),
    {
        self.engine().predicate_literal(name)
    }

    /// Whether this dialect is PostgreSQL-compatible.
    fn is_postgresqlish(&self) -> (r: bool)
        ensures
            r == postgresqlish(self.kind()),
    {
        self.engine().is_postgresqlish()
    }

    /// CASCADE keyword for DROP statements.
    fn cascading_deletion_word(&self) -> (r: &'static str)
        ensures
            r@ == cascading_word(self.kind()),
    {
        self.engine().cascading_deletion_word()
    }

    /// Whether table materialization uses `CREATE OR REPLACE TABLE`.
    fn supports_create_or_replace_table(&self) -> (r: bool)
        ensures
            r == create_or_replace(self.kind()),
    {
        self.engine().supports_create_or_replace_table()
    }

    /// SQL for an empty array literal.
    fn empty_array_literal(&self) -> (r: String)
        ensures
            r@ == empty_array_text(self.kind()),
    {
        self.engine().empty_array_literal()
    }

    /// String literal formatting.
    fn str_literal(&self, s: &str) -> (r: String)
        ensures
            r@ == str_literal_text(self.kind(), s@),
    {
        self.engine().str_literal(s)
    }

    /// Whether combine rules are decorated with MagicalEntangle.
    fn decorate_combine_rule(&self) -> (r: bool)
        ensures
            r == decorates_combine(self.kind()),
    {
        self.engine().decorate_combine_rule()
    }

    /// SQL condition testing whether `column_expr` matches the regex `pattern`.
    fn regex_match_condition(&self, column_expr: &str, pattern: &str) -> (r: String)
        ensures
            r@ == regex_text(self.kind(), column_expr@, pattern@),
    {
        self.engine().regex_match_condition(column_expr, pattern)
    }
}

/// The bigquery dialect.
pub struct BigQueryDialect;

impl Dialect for BigQueryDialect {
    open spec fn kind(&self) -> Engine {
        Engine::BigQuery
    }

    fn engine(&self) -> Engine {
        Engine::BigQuery
    }

    fn name(&self) -> &'static str {
        Engine::BigQuery.name()
    }

    fn built_in_functions(&self) -> Templates {
        Engine::BigQuery.built_in_functions()
    }

    fn infix_operators(&self) -> Templates {
        Engine::BigQuery.infix_operators()
    }

    fn subscript(&self, record: &str, subscript: &str, record_is_table: bool) -> String {
        Engine::BigQuery.subscript(record, subscript, record_is_table)
    }

    fn library_program(&self) -> &'static str {
        Engine::BigQuery.library_program()
    }

    fn unnest_phrase(&self) -> &'static str {
        Engine::BigQuery.unnest_phrase()
    }

    fn array_phrase(&self) -> &'static str {
        Engine::BigQuery.array_phrase()
    }

    fn group_by_spec_by(&self) -> GroupBySpec {
        Engine::BigQuery.group_by_spec_by()
    }

    fn record_literal(&self, fields: &[(&str, &str)]) -> String {
        Engine::BigQuery.record_literal(fields)
    }

    fn str_literal(&self, s: &str) -> String {
        Engine::BigQuery.str_literal(s)
    }

    fn predicate_literal(&self, name: &str) -> String {
        Engine::BigQuery.predicate_literal(name)
    }

    fn decorate_combine_rule(&self) -> bool {
        Engine::BigQuery.decorate_combine_rule()
    }
}

/// The sqlite dialect.
pub struct SqLiteDialect;

impl Dialect for SqLiteDialect {
    open spec fn kind(&self) -> Engine {
        Engine::SqLite
    }

    fn engine(&self) -> Engine {
        Engine::SqLite
    }

    fn name(&self) -> &'static str {
        Engine::SqLite.name()
    }

    fn built_in_functions(&self) -> Templates {
        Engine::SqLite.built_in_functions()
    }

    fn infix_operators(&self) -> Templates {
        Engine::SqLite.infix_operators()
    }

    fn subscript(&self, record: &str, subscript: &str, record_is_table: bool) -> String {
        Engine::SqLite.subscript(record, subscript, record_is_table)
    }

    fn library_program(&self) -> &'static str {
        Engine::SqLite.library_program()
    }

    fn unnest_phrase(&self) -> &'static str {
        Engine::SqLite.unnest_phrase()
    }

    fn array_phrase(&self) -> &'static str {
        Engine::SqLite.array_phrase()
    }

    fn group_by_spec_by(&self) -> GroupBySpec {
        Engine::SqLite.group_by_spec_by()
    }

    fn record_literal(&self, fields: &[(&str, &str)]) -> String {
        Engine::SqLite.record_literal(fields)
    }

    fn regex_match_condition(&self, column_expr: &str, pattern: &str) -> String {
        Engine::SqLite.regex_match_condition(column_expr, pattern)
    }
}

/// The psql dialect.
pub struct PostgreSqlDialect;

impl Dialect for PostgreSqlDialect {
    open spec fn kind(&self) -> Engine {
        Engine::Psql
    }

    fn engine(&self) -> Engine {
        Engine::Psql
    }

    fn name(&self) -> &'static str {
        Engine::Psql.name()
    }

    fn built_in_functions(&self) -> Templates {
        Engine::Psql.built_in_functions()
    }

    fn infix_operators(&self) -> Templates {
        Engine::Psql.infix_operators()
    }

    fn subscript(&self, record: &str, subscript: &str, record_is_table: bool) -> String {
        Engine::Psql.subscript(record, subscript, record_is_table)
    }

    fn library_program(&self) -> &'static str {
        Engine::Psql.library_program()
    }

    fn unnest_phrase(&self) -> &'static str {
        Engine::Psql.unnest_phrase()
    }

    fn array_phrase(&self) -> &'static str {
        Engine::Psql.array_phrase()
    }

    fn group_by_spec_by(&self) -> GroupBySpec {
        Engine::Psql.group_by_spec_by()
    }

    fn record_literal(&self, fields: &[(&str, &str)]) -> String {
        Engine::Psql.record_literal(fields)
    }

    fn is_postgresqlish(&self) -> bool {
        Engine::Psql.is_postgresqlish()
    }

    fn cascading_deletion_word(&self) -> &'static str {
        Engine::Psql.cascading_deletion_word()
    }

    fn empty_array_literal(&self) -> String {
        Engine::Psql.empty_array_literal()
    }

    fn regex_match_condition(&self, column_expr: &str, pattern: &str) -> String {
        Engine::Psql.regex_match_condition(column_expr, pattern)
    }
}

/// The trino dialect.
pub struct TrinoDialect;

impl Dialect for TrinoDialect {
    open spec fn kind(&self) -> Engine {
        Engine::Trino
    }

    fn engine(&self) -> Engine {
        Engine::Trino
    }

    fn name(&self) -> &'static str {
        Engine::Trino.name()
    }

    fn built_in_functions(&self) -> Templates {
        Engine::Trino.built_in_functions()
    }

    fn infix_operators(&self) -> Templates {
        Engine::Trino.infix_operators()
    }

    fn subscript(&self, record: &str, subscript: &str, record_is_table: bool) -> String {
        Engine::Trino.subscript(record, subscript, record_is_table)
    }

    fn library_program(&self) -> &'static str {
        Engine::Trino.library_program()
    }

    fn unnest_phrase(&self) -> &'static str {
        Engine::Trino.unnest_phrase()
    }

    fn array_phrase(&self) -> &'static str {
        Engine::Trino.array_phrase()
    }

    fn group_by_spec_by(&self) -> GroupBySpec {
        Engine::Trino.group_by_spec_by()
    }

    fn record_literal(&self, fields: &[(&str, &str)]) -> String {
        Engine::Trino.record_literal(fields)
    }

    fn decorate_combine_rule(&self) -> bool {
        Engine::Trino.decorate_combine_rule()
    }
}

/// The presto dialect.
pub struct PrestoDialect;

impl Dialect for PrestoDialect {
    open spec fn kind(&self) -> Engine {
        Engine::Presto
    }

    fn engine(&self) -> Engine {
        Engine::Presto
    }

    fn name(&self) -> &'static str {
        Engine::Presto.name()
    }

    fn built_in_functions(&self) -> Templates {
        Engine::Presto.built_in_functions()
    }

    fn infix_operators(&self) -> Templates {
        Engine::Presto.infix_operators()
    }

    fn subscript(&self, record: &str, subscript: &str, record_is_table: bool) -> String {
        Engine::Presto.subscript(record, subscript, record_is_table)
    }

    fn library_program(&self) -> &'static str {
        Engine::Presto.library_program()
    }

    fn unnest_phrase(&self) -> &'static str {
        Engine::Presto.unnest_phrase()
    }

    fn array_phrase(&self) -> &'static str {
        Engine::Presto.array_phrase()
    }

    fn group_by_spec_by(&self) -> GroupBySpec {
        Engine::Presto.group_by_spec_by()
    }

    fn record_literal(&self, fields: &[(&str, &str)]) -> String {
        Engine::Presto.record_literal(fields)
    }

    fn decorate_combine_rule(&self) -> bool {
        Engine::Presto.decorate_combine_rule()
    }
}

/// The databricks dialect.
pub struct DatabricksDialect;

impl Dialect for DatabricksDialect {
    open spec fn kind(&self) -> Engine {
        Engine::Databricks
    }

    fn engine(&self) -> Engine {
        Engine::Databricks
    }

    fn name(&self) -> &'static str {
        Engine::Databricks.name()
    }

    fn built_in_functions(&self) -> Templates {
        Engine::Databricks.built_in_functions()
    }

    fn infix_operators(&self) -> Templates {
        Engine::Databricks.infix_operators()
    }

    fn subscript(&self, record: &str, subscript: &str, record_is_table: bool) -> String {
        Engine::Databricks.subscript(record, subscript, record_is_table)
    }

    fn library_program(&self) -> &'static str {
        Engine::Databricks.library_program()
    }

    fn unnest_phrase(&self) -> &'static str {
        Engine::Databricks.unnest_phrase()
    }

    fn array_phrase(&self) -> &'static str {
        Engine::Databricks.array_phrase()
    }

    fn group_by_spec_by(&self) -> GroupBySpec {
        Engine::Databricks.group_by_spec_by()
    }

    fn record_literal(&self, fields: &[(&str, &str)]) -> String {
        Engine::Databricks.record_literal(fields)
    }

    fn decorate_combine_rule(&self) -> bool {
        Engine::Databricks.decorate_combine_rule()
    }

    fn str_literal(&self, s: &str) -> String {
        Engine::Databricks.str_literal(s)
    }
}

/// The duckdb dialect.
pub struct DuckDbDialect;

impl Dialect for DuckDbDialect {
    open spec fn kind(&self) -> Engine {
        Engine::DuckDb
    }

    fn engine(&self) -> Engine {
        Engine::DuckDb
    }

    fn name(&self) -> &'static str {
        Engine::DuckDb.name()
    }

    fn built_in_functions(&self) -> Templates {
        Engine::DuckDb.built_in_functions()
    }

    fn infix_operators(&self) -> Templates {
        Engine::DuckDb.infix_operators()
    }

    fn subscript(&self, record: &str, subscript: &str, record_is_table: bool) -> String {
        Engine::DuckDb.subscript(record, subscript, record_is_table)
    }

    fn library_program(&self) -> &'static str {
        Engine::DuckDb.library_program()
    }

    fn unnest_phrase(&self) -> &'static str {
        Engine::DuckDb.unnest_phrase()
    }

    fn array_phrase(&self) -> &'static str {
        Engine::DuckDb.array_phrase()
    }

    fn group_by_spec_by(&self) -> GroupBySpec {
        Engine::DuckDb.group_by_spec_by()
    }

    fn record_literal(&self, fields: &[(&str, &str)]) -> String {
        Engine::DuckDb.record_literal(fields)
    }

    fn supports_create_or_replace_table(&self) -> bool {
        Engine::DuckDb.supports_create_or_replace_table()
    }

    fn is_postgresqlish(&self) -> bool {
        Engine::DuckDb.is_postgresqlish()
    }

    fn str_literal(&self, s: &str) -> String {
        Engine::DuckDb.str_literal(s)
    }

    fn regex_match_condition(&self, column_expr: &str, pattern: &str) -> String {
        Engine::DuckDb.regex_match_condition(column_expr, pattern)
    }
}

/// SQL engines supported by the compiler, in the order they are listed to users.
pub const SUPPORTED_ENGINES_TEXT: &'static str = "bigquery, sqlite, psql, trino, presto, databricks, duckdb";

/// Message of the error for an unsupported engine name.
pub open spec fn unsupported_engine_message(engine: Seq<char>) -> Seq<char> {
    "Unsupported engine '"@ + engine + "'. Supported engines: "@ + SUPPORTED_ENGINES_TEXT@ + "."@
}

/// The dialect stored in a box.
pub open spec fn boxed_kind(d: Box<dyn Dialect>) -> Engine {
    d.kind()
}

/// Get a dialect by engine name.
pub fn get(engine: &str) -> (r: Result<Box<dyn Dialect>, CompileError>)
    ensures
        engine_named(engine@) is Some <==> r is Ok,
        r matches Ok(d) ==> d.kind() == engine_named(engine@)->0,
        r matches Err(e) ==> e.message@ == unsupported_engine_message(engine@) && e.rule_text@ == ""@,
{
    match Engine::from_name(engine) {
        Some(Engine::BigQuery) => Ok(Box::new(BigQueryDialect)),
        Some(Engine::SqLite) => Ok(Box::new(SqLiteDialect)),
        Some(Engine::Psql) => Ok(Box::new(PostgreSqlDialect)),
        Some(Engine::Trino) => Ok(Box::new(TrinoDialect)),
        Some(Engine::Presto) => Ok(Box::new(PrestoDialect)),
        Some(Engine::Databricks) => Ok(Box::new(DatabricksDialect)),
        Some(Engine::DuckDb) => Ok(Box::new(DuckDbDialect)),
        None => {
            let msg = concat5("Unsupported engine '", engine, "'. Supported engines: ", SUPPORTED_ENGINES_TEXT, ".");
            Err(CompileError::new(msg.as_str(), ""))
        },
    }
}


/// Each engine is selected by its own name, and a dialect selected by a name
/// has that name.
pub proof fn law_engine_name_round_trip(e: Engine)
    ensures
        engine_named(engine_name(e)) == Some(e),
{
    reveal_strlit("bigquery");
    reveal_strlit("sqlite");
    reveal_strlit("psql");
    reveal_strlit("trino");
    reveal_strlit("presto");
    reveal_strlit("databricks");
    reveal_strlit("duckdb");
    assert("bigquery"@[0] == 'b' && "sqlite"@[0] == 's' && "psql"@[0] == 'p' && "trino"@[0] == 't');
    assert("presto"@[0] == 'p' && "databricks"@[0] == 'd' && "duckdb"@[0] == 'd');
    assert("psql"@.len() == 4 && "presto"@.len() == 6);
    assert("databricks"@.len() == 10 && "duckdb"@.len() == 6);
    assert("sqlite"@ != "bigquery"@);
    assert("psql"@ != "bigquery"@ && "psql"@ != "sqlite"@);
    assert("trino"@ != "bigquery"@ && "trino"@ != "sqlite"@ && "trino"@ != "psql"@);
    assert("presto"@ != "bigquery"@ && "presto"@ != "sqlite"@ && "presto"@ != "psql"@ && "presto"@ != "trino"@);
    assert("databricks"@ != "bigquery"@ && "databricks"@ != "sqlite"@ && "databricks"@ != "psql"@
        && "databricks"@ != "trino"@ && "databricks"@ != "presto"@);
    assert("duckdb"@ != "bigquery"@ && "duckdb"@ != "sqlite"@ && "duckdb"@ != "psql"@ && "duckdb"@ != "trino"@
        && "duckdb"@ != "presto"@ && "duckdb"@ != "databricks"@);
}


/// Whether every single quote in `t` comes doubled, so that a literal made of
/// `t` between single quotes ends only at its closing quote.
pub open spec fn quotes_doubled(t: Seq<char>) -> bool
    decreases t.len(),
{
    if t.len() == 0 {
        true
    } else if t[0] == '\'' {
        t.len() >= 2 && t[1] == '\'' && quotes_doubled(t.subrange(2, t.len() as int))
    } else {
        quotes_doubled(t.drop_first())
    }
}

/// The text that the inside `t` of a single-quoted literal stands for: each
/// doubled quote read as one quote.
pub open spec fn read_quoted(t: Seq<char>) -> Seq<char>
    decreases t.len(),
{
    if t.len() == 0 {
        seq![]
    } else if t.len() >= 2 && t[0] == '\'' && t[1] == '\'' {
        seq!['\''] + read_quoted(t.subrange(2, t.len() as int))
    } else {
        seq![t[0]] + read_quoted(t.drop_first())
    }
}

proof fn lemma_doubling_reads_back(s: Seq<char>)
    ensures
        quotes_doubled(replace_all(s, "'"@, "''"@)),
        read_quoted(replace_all(s, "'"@, "''"@)) == s,
    decreases s.len(),
{
    reveal_strlit("'");
    reveal_strlit("''");
    let x = replace_all(s, "'"@, "''"@);
    if s.len() > 0 {
        let rest = replace_all(s.drop_first(), "'"@, "''"@);
        lemma_doubling_reads_back(s.drop_first());
        assert(s.subrange(1, s.len() as int) =~= s.drop_first());
        if s[0] == '\'' {
            assert(crate::text::occurs_at(s, "'"@, 0)) by {
                assert(s.subrange(0, 1) =~= "'"@);
            }
            assert(x == "''"@ + rest);
            assert(x.subrange(2, x.len() as int) =~= rest);
            assert(s =~= seq!['\''] + s.drop_first());
        } else {
            assert(!crate::text::occurs_at(s, "'"@, 0)) by {
                if crate::text::occurs_at(s, "'"@, 0) {
                    assert(s.subrange(0, 1)[0] == s[0]);
                }
            }
            assert(x == seq![s[0]] + rest);
            assert(x.drop_first() =~= rest);
            assert(s =~= seq![s[0]] + s.drop_first());
        }
    } else {
        assert(x =~= seq![]);
        assert(s =~= seq![]);
    }
}

/// A string literal of an engine that quotes with single quotes stands for
/// exactly its text: it is the text between single quotes, with every quote
/// inside doubled, so the literal ends only at its last quote, and reading
/// each doubled quote as one gives the text back.
pub proof fn law_single_quoted_literal_reads_back(e: Engine, s: Seq<char>)
    requires
        !(e is BigQuery || e is Databricks || e is DuckDb),
    ensures
        ({
            let r = str_literal_text(e, s);
            &&& r.len() >= 2
            &&& r[0] == '\''
            &&& r.last() == '\''
            &&& quotes_doubled(r.subrange(1, r.len() - 1))
            &&& read_quoted(r.subrange(1, r.len() - 1)) == s
        }),
{
    reveal_strlit("'");
    lemma_doubling_reads_back(s);
    let x = replace_all(s, "'"@, "''"@);
    let r = str_literal_text(e, s);
    assert(r == "'"@ + x + "'"@);
    assert(r.subrange(1, r.len() - 1) =~= x);
}


/// `s` with each character `c` replaced by `rep`, the others kept.
pub open spec fn map_char(s: Seq<char>, c: char, rep: Seq<char>) -> Seq<char>
    decreases s.len(),
{
    if s.len() == 0 {
        seq![]
    } else {
        (if s[0] == c { rep } else { seq![s[0]] }) + map_char(s.drop_first(), c, rep)
    }
}

proof fn lemma_replace_one_char(s: Seq<char>, c: char, rep: Seq<char>)
    ensures
        replace_all(s, seq![c], rep) == map_char(s, c, rep),
    decreases s.len(),
{
    if s.len() > 0 {
        lemma_replace_one_char(s.drop_first(), c, rep);
        assert(s.subrange(1, s.len() as int) =~= s.drop_first());
        if s[0] == c {
            assert(crate::text::occurs_at(s, seq![c], 0)) by {
                assert(s.subrange(0, 1) =~= seq![c]);
            }
        } else {
            assert(!crate::text::occurs_at(s, seq![c], 0)) by {
                if crate::text::occurs_at(s, seq![c], 0) {
                    assert(s.subrange(0, 1)[0] == s[0]);
                }
            }
        }
    }
}

proof fn lemma_map_char_append(a: Seq<char>, b: Seq<char>, c: char, rep: Seq<char>)
    ensures
        map_char(a + b, c, rep) == map_char(a, c, rep) + map_char(b, c, rep),
    decreases a.len(),
{
    if a.len() == 0 {
        assert(a + b =~= b);
        assert(map_char(a, c, rep) =~= seq![]);
        assert(seq![] + map_char(b, c, rep) =~= map_char(b, c, rep));
    } else {
        lemma_map_char_append(a.drop_first(), b, c, rep);
        assert((a + b).drop_first() =~= a.drop_first() + b);
        assert((a + b)[0] == a[0]);
        let h = if a[0] == c { rep } else { seq![a[0]] };
        assert(map_char(a + b, c, rep) == h + map_char(a.drop_first() + b, c, rep));
        assert(h + (map_char(a.drop_first(), c, rep) + map_char(b, c, rep))
            =~= (h + map_char(a.drop_first(), c, rep)) + map_char(b, c, rep));
    }
}

/// Whether `t` is the inside of a double-quoted literal with backslash
/// escapes: no double quote stands unescaped and no backslash ends it.
pub open spec fn escapes_closed(t: Seq<char>) -> bool
    decreases t.len(),
{
    if t.len() == 0 {
        true
    } else if t[0] == '\\' {
        t.len() >= 2 && escapes_closed(t.subrange(2, t.len() as int))
    } else if t[0] == '"' {
        false
    } else {
        escapes_closed(t.drop_first())
    }
}

/// The text that the inside `t` of a backslash-escaped literal stands for:
/// each backslash read as "the next character as it is".
pub open spec fn read_escaped(t: Seq<char>) -> Seq<char>
    decreases t.len(),
{
    if t.len() == 0 {
        seq![]
    } else if t[0] == '\\' && t.len() >= 2 {
        seq![t[1]] + read_escaped(t.subrange(2, t.len() as int))
    } else {
        seq![t[0]] + read_escaped(t.drop_first())
    }
}

/// Each character of `s` escaped on its own: backslash and double quote
/// behind a backslash.
spec fn escaped_each(s: Seq<char>) -> Seq<char>
    decreases s.len(),
{
    if s.len() == 0 {
        seq![]
    } else {
        (if s[0] == '\\' || s[0] == '"' { seq!['\\', s[0]] } else { seq![s[0]] }) + escaped_each(s.drop_first())
    }
}

proof fn lemma_double_quoted_inside(s: Seq<char>)
    ensures
        replace_all(replace_all(s, "\\"@, "\\\\"@), "\""@, "\\\""@) == escaped_each(s),
        escapes_closed(escaped_each(s)),
        read_escaped(escaped_each(s)) == s,
    decreases s.len(),
{
    reveal_strlit("\\");
    reveal_strlit("\\\\");
    reveal_strlit("\"");
    reveal_strlit("\\\"");
    assert("\\"@ =~= seq!['\\']);
    assert("\""@ =~= seq!['"']);
    let r1 = seq!['\\', '\\'];
    let r2 = seq!['\\', '"'];
    assert("\\\\"@ =~= r1);
    assert("\\\""@ =~= r2);
    lemma_replace_one_char(s, '\\', r1);
    lemma_replace_one_char(map_char(s, '\\', r1), '"', r2);
    if s.len() > 0 {
        lemma_double_quoted_inside(s.drop_first());
        let rest = s.drop_first();
        lemma_replace_one_char(rest, '\\', r1);
        lemma_replace_one_char(map_char(rest, '\\', r1), '"', r2);
        let h1 = if s[0] == '\\' { r1 } else { seq![s[0]] };
        assert(map_char(s, '\\', r1) == h1 + map_char(rest, '\\', r1));
        lemma_map_char_append(h1, map_char(rest, '\\', r1), '"', r2);
        let h = if s[0] == '\\' || s[0] == '"' { seq!['\\', s[0]] } else { seq![s[0]] };
        assert(map_char(h1, '"', r2) =~= h) by {
            let emp = Seq::<char>::empty();
            assert(map_char(emp, '"', r2) =~= emp);
            if s[0] == '\\' {
                let one = seq!['\\'];
                assert(one.drop_first() =~= emp);
                assert(map_char(one, '"', r2) == seq!['\\'] + map_char(emp, '"', r2));
                assert(h1.drop_first() =~= one);
                assert(map_char(h1, '"', r2) == seq!['\\'] + map_char(one, '"', r2));
            } else if s[0] == '"' {
                assert(h1.drop_first() =~= emp);
                assert(map_char(h1, '"', r2) == r2 + map_char(emp, '"', r2));
            } else {
                assert(h1.drop_first() =~= emp);
                assert(map_char(h1, '"', r2) == seq![s[0]] + map_char(emp, '"', r2));
            }
        }
        let e = escaped_each(s);
        let er = escaped_each(rest);
        assert(e == h + er);
        if s[0] == '\\' || s[0] == '"' {
            assert(e.subrange(2, e.len() as int) =~= er);
            assert(e[0] == '\\' && e[1] == s[0]);
        } else {
            assert(e.drop_first() =~= er);
            assert(e[0] == s[0]);
        }
        assert(s =~= seq![s[0]] + rest);
    } else {
        assert(escaped_each(s) =~= seq![]);
        assert(map_char(s, '\\', r1) =~= seq![]);
        assert(map_char(map_char(s, '\\', r1), '"', r2) =~= seq![]);
        assert(read_escaped(seq![]) =~= seq![]);
        assert(s =~= seq![]);
    }
}

/// A string literal of an engine that quotes with double quotes stands for
/// exactly its text: it is the text between double quotes with backslashes
/// and double quotes escaped by a backslash, so the literal ends only at its
/// last quote, and reading each escape as the character after it gives the
/// text back.
pub proof fn law_double_quoted_literal_reads_back(e: Engine, s: Seq<char>)
    requires
        e is BigQuery || e is Databricks,
    ensures
        ({
            let r = str_literal_text(e, s);
            &&& r.len() >= 2
            &&& r[0] == '"'
            &&& r.last() == '"'
            &&& escapes_closed(r.subrange(1, r.len() - 1))
            &&& read_escaped(r.subrange(1, r.len() - 1)) == s
        }),
{
    reveal_strlit("\"");
    lemma_double_quoted_inside(s);
    let x = escaped_each(s);
    let r = str_literal_text(e, s);
    assert(r == "\""@ + x + "\""@);
    assert(r.subrange(1, r.len() - 1) =~= x);
}


proof fn lemma_map_char_absent(h: Seq<char>, c: char, rep: Seq<char>)
    requires
        forall|k: int| 0 <= k < h.len() ==> h[k] != c,
    ensures
        map_char(h, c, rep) == h,
    decreases h.len(),
{
    if h.len() > 0 {
        lemma_map_char_absent(h.drop_first(), c, rep);
        assert(h =~= seq![h[0]] + h.drop_first());
    } else {
        assert(h =~= seq![]);
    }
}

proof fn lemma_map_char_one(x: char, c: char, rep: Seq<char>)
    ensures
        map_char(seq![x], c, rep) == if x == c { rep } else { seq![x] },
{
    assert(seq![x].drop_first() =~= Seq::<char>::empty());
    assert(map_char(Seq::<char>::empty(), c, rep) =~= Seq::<char>::empty());
    if x == c {
        assert(rep + Seq::<char>::empty() =~= rep);
    } else {
        assert(seq![x] + Seq::<char>::empty() =~= seq![x]);
    }
}

/// How an escape-string literal writes one character.
pub open spec fn e_escape(x: char) -> Seq<char> {
    if x == '\\' {
        seq!['\\', '\\']
    } else if x == '\'' {
        seq!['\'', '\'']
    } else if x == '\t' {
        seq!['\\', 't']
    } else if x == '\n' {
        seq!['\\', 'n']
    } else {
        seq![x]
    }
}

spec fn e_escaped_each(s: Seq<char>) -> Seq<char>
    decreases s.len(),
{
    if s.len() == 0 {
        seq![]
    } else {
        e_escape(s[0]) + e_escaped_each(s.drop_first())
    }
}

/// The four replacements of an escape-string literal, in their order.
spec fn e_layers(s: Seq<char>) -> Seq<char> {
    map_char(map_char(map_char(map_char(s, '\\', seq!['\\', '\\']), '\'', seq!['\'', '\'']), '\t', seq!['\\', 't']), '\n', seq!['\\', 'n'])
}

proof fn lemma_e_layers_one(x: char)
    ensures
        e_layers(seq![x]) == e_escape(x),
{
    let r1 = seq!['\\', '\\'];
    let r2 = seq!['\'', '\''];
    let r3 = seq!['\\', 't'];
    let r4 = seq!['\\', 'n'];
    lemma_map_char_one(x, '\\', r1);
    if x == '\\' {
        lemma_map_char_absent(r1, '\'', r2);
        lemma_map_char_absent(r1, '\t', r3);
        lemma_map_char_absent(r1, '\n', r4);
    } else {
        lemma_map_char_one(x, '\'', r2);
        if x == '\'' {
            lemma_map_char_absent(r2, '\t', r3);
            lemma_map_char_absent(r2, '\n', r4);
        } else {
            lemma_map_char_one(x, '\t', r3);
            if x == '\t' {
                lemma_map_char_absent(r3, '\n', r4);
            } else {
                lemma_map_char_one(x, '\n', r4);
            }
        }
    }
}

proof fn lemma_e_layers_append(a: Seq<char>, b: Seq<char>)
    ensures
        e_layers(a + b) == e_layers(a) + e_layers(b),
{
    let r1 = seq!['\\', '\\'];
    let r2 = seq!['\'', '\''];
    let r3 = seq!['\\', 't'];
    let r4 = seq!['\\', 'n'];
    lemma_map_char_append(a, b, '\\', r1);
    let a1 = map_char(a, '\\', r1);
    let b1 = map_char(b, '\\', r1);
    lemma_map_char_append(a1, b1, '\'', r2);
    let a2 = map_char(a1, '\'', r2);
    let b2 = map_char(b1, '\'', r2);
    lemma_map_char_append(a2, b2, '\t', r3);
    let a3 = map_char(a2, '\t', r3);
    let b3 = map_char(b2, '\t', r3);
    lemma_map_char_append(a3, b3, '\n', r4);
}

proof fn lemma_e_layers(s: Seq<char>)
    ensures
        e_layers(s) == e_escaped_each(s),
    decreases s.len(),
{
    if s.len() == 0 {
        let emp = Seq::<char>::empty();
        assert(map_char(emp, '\\', seq!['\\', '\\']) =~= emp);
        assert(map_char(emp, '\'', seq!['\'', '\'']) =~= emp);
        assert(map_char(emp, '\t', seq!['\\', 't']) =~= emp);
        assert(map_char(emp, '\n', seq!['\\', 'n']) =~= emp);
        assert(s =~= emp);
    } else {
        lemma_e_layers(s.drop_first());
        assert(s =~= seq![s[0]] + s.drop_first());
        lemma_e_layers_append(seq![s[0]], s.drop_first());
        lemma_e_layers_one(s[0]);
    }
}

/// Whether `t` is the inside of an escape-string literal: every single quote
/// comes doubled and no backslash ends it.
pub open spec fn e_escapes_closed(t: Seq<char>) -> bool
    decreases t.len(),
{
    if t.len() == 0 {
        true
    } else if t[0] == '\'' {
        t.len() >= 2 && t[1] == '\'' && e_escapes_closed(t.subrange(2, t.len() as int))
    } else if t[0] == '\\' {
        t.len() >= 2 && e_escapes_closed(t.subrange(2, t.len() as int))
    } else {
        e_escapes_closed(t.drop_first())
    }
}

/// The character that a backslash followed by `x` stands for.
pub open spec fn e_unescape(x: char) -> char {
    if x == 't' { '\t' } else if x == 'n' { '\n' } else { x }
}

/// The text that the inside `t` of an escape-string literal stands for: a
/// doubled quote is one quote, a backslash with `t` a tab, with `n` a line
/// break, with anything else that character.
pub open spec fn read_e_escaped(t: Seq<char>) -> Seq<char>
    decreases t.len(),
{
    if t.len() == 0 {
        seq![]
    } else if t.len() >= 2 && t[0] == '\'' && t[1] == '\'' {
        seq!['\''] + read_e_escaped(t.subrange(2, t.len() as int))
    } else if t.len() >= 2 && t[0] == '\\' {
        seq![e_unescape(t[1])] + read_e_escaped(t.subrange(2, t.len() as int))
    } else {
        seq![t[0]] + read_e_escaped(t.drop_first())
    }
}

proof fn lemma_e_reads_back(s: Seq<char>)
    ensures
        e_escapes_closed(e_escaped_each(s)),
        read_e_escaped(e_escaped_each(s)) == s,
    decreases s.len(),
{
    let e = e_escaped_each(s);
    if s.len() == 0 {
        assert(e =~= seq![]);
        assert(s =~= seq![]);
    } else {
        let rest = s.drop_first();
        lemma_e_reads_back(rest);
        let er = e_escaped_each(rest);
        let h = e_escape(s[0]);
        assert(e == h + er);
        if h.len() == 2 {
            assert(e.subrange(2, e.len() as int) =~= er);
            assert(e[0] == h[0] && e[1] == h[1]);
        } else {
            assert(e.drop_first() =~= er);
            assert(e[0] == s[0]);
        }
        assert(s =~= seq![s[0]] + rest);
    }
}

/// A string literal of DuckDB stands for exactly its text: it is `E'`, the
/// text, `'`, with single quotes doubled and backslashes, tabs and line
/// breaks written as backslash escapes, so the literal ends only at its last
/// quote, and reading the escapes gives the text back.
pub proof fn law_escape_string_literal_reads_back(s: Seq<char>)
    ensures
        ({
            let r = str_literal_text(Engine::DuckDb, s);
            &&& r.len() >= 3
            &&& r[0] == 'E'
            &&& r[1] == '\''
            &&& r.last() == '\''
            &&& e_escapes_closed(r.subrange(2, r.len() - 1))
            &&& read_e_escaped(r.subrange(2, r.len() - 1)) == s
        }),
{
    reveal_strlit("E'");
    reveal_strlit("'");
    reveal_strlit("\\");
    reveal_strlit("\\\\");
    reveal_strlit("''");
    reveal_strlit("\t");
    reveal_strlit("\\t");
    reveal_strlit("\n");
    reveal_strlit("\\n");
    assert("\\"@ =~= seq!['\\']);
    assert("\\\\"@ =~= seq!['\\', '\\']);
    assert("'"@ =~= seq!['\'']);
    assert("''"@ =~= seq!['\'', '\'']);
    assert("\t"@ =~= seq!['\t']);
    assert("\\t"@ =~= seq!['\\', 't']);
    assert("\n"@ =~= seq!['\n']);
    assert("\\n"@ =~= seq!['\\', 'n']);
    let x1 = replace_all(s, "\\"@, "\\\\"@);
    lemma_replace_one_char(s, '\\', seq!['\\', '\\']);
    let x2 = replace_all(x1, "'"@, "''"@);
    lemma_replace_one_char(x1, '\'', seq!['\'', '\'']);
    let x3 = replace_all(x2, "\t"@, "\\t"@);
    lemma_replace_one_char(x2, '\t', seq!['\\', 't']);
    let x4 = replace_all(x3, "\n"@, "\\n"@);
    lemma_replace_one_char(x3, '\n', seq!['\\', 'n']);
    assert(x4 == e_layers(s));
    lemma_e_layers(s);
    lemma_e_reads_back(s);
    let r = str_literal_text(Engine::DuckDb, s);
    assert(r == "E'"@ + x4 + "'"@);
    assert(r.subrange(2, r.len() - 1) =~= x4);
}


/// The text of a regex condition before and after its pattern literal's
/// inside.
pub open spec fn regex_frame(e: Engine, col: Seq<char>) -> (Seq<char>, Seq<char>) {
    match e {
        Engine::SqLite => (col + " REGEXP '"@, "'"@),
        Engine::Psql => (col + " ~ '"@, "'"@),
        Engine::DuckDb => ("regexp_matches("@ + col + ", '"@, "')"@),
        _ => ("REGEXP_LIKE("@ + col + ", '"@, "')"@),
    }
}

/// A regex condition hands the engine exactly the pattern: inside its frame
/// stands a single-quoted literal whose quotes all come doubled and which
/// reads back as the pattern.
pub proof fn law_regex_pattern_reads_back(e: Engine, col: Seq<char>, pat: Seq<char>)
    ensures
        ({
            let r = regex_text(e, col, pat);
            let (pre, post) = regex_frame(e, col);
            let mid = r.subrange(pre.len() as int, r.len() - post.len());
            &&& r.len() >= pre.len() + post.len()
            &&& r.subrange(0, pre.len() as int) == pre
            &&& r.subrange(r.len() - post.len(), r.len() as int) == post
            &&& quotes_doubled(mid)
            &&& read_quoted(mid) == pat
        }),
{
    lemma_doubling_reads_back(pat);
    let esc = replace_all(pat, "'"@, "''"@);
    let r = regex_text(e, col, pat);
    let (pre, post) = regex_frame(e, col);
    assert(r == pre + esc + post);
    assert(r.subrange(0, pre.len() as int) =~= pre);
    assert(r.subrange(r.len() - post.len(), r.len() as int) =~= post);
    assert(r.subrange(pre.len() as int, r.len() - post.len()) =~= esc);
}


/// A record literal lists its fields in order: one field more is put last,
/// after ", ", before the closing bracket, and the fields before stay as
/// they were.
pub proof fn law_record_fields_in_order(e: Engine, fields: Seq<(Seq<char>, Seq<char>)>, k: Seq<char>, v: Seq<char>)
    ensures
        record_literal_text(e, seq![(k, v)]) == record_open(e) + record_pair(e, k, v) + record_close(e),
        fields.len() > 0 ==> ({
            let before = record_literal_text(e, fields);
            let c = record_close(e);
            &&& crate::text::has_suffix(before, c)
            &&& record_literal_text(e, fields.push((k, v)))
                == before.subrange(0, before.len() - c.len()) + ", "@ + record_pair(e, k, v) + c
        }),
{
    let one = seq![(k, v)];
    assert(record_pairs(e, one) =~= seq![record_pair(e, k, v)]);
    if fields.len() > 0 {
        let ps = record_pairs(e, fields);
        assert(record_pairs(e, fields.push((k, v))) =~= ps.push(record_pair(e, k, v)));
        crate::text::lemma_join_push(ps, ", "@, record_pair(e, k, v));
        let c = record_close(e);
        let head = record_open(e) + join(ps, ", "@);
        let before = head + c;
        assert(before.subrange(0, before.len() - c.len()) =~= head);
        assert(before.subrange(before.len() - c.len(), before.len() as int) =~= c);
        assert(record_literal_text(e, fields.push((k, v))) =~= head + ", "@ + record_pair(e, k, v) + c);
    }
}

} // verus!
