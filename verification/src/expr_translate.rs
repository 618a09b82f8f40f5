//! Translation of Logica expressions to SQL.
//!
//! [`ExprTranslator::sql_of`] states what an expression translates to, as a
//! recursive function over the abstract syntax tree; `None` stands for an error.

use vstd::prelude::*;
use crate::{CompileError, CompileResult};
use crate::json::{
    Json, JVal, jget, jfield, jstr, jint, jitems, has_key, json_text, jsize, seq_size, jv_seq,
    lemma_field_size, lemma_items_size, lemma_item_size, opt_view, opt_field, opt_elements, opt_str,
    group_json_view,
};
use crate::strmap::{StrMap, sm_get, sm_view, NameSet, set_add, lemma_sm_index};
use crate::text::{
    contains_seq, contains_char, replace_all, join, int_text, to_upper, is_upper_char, has_prefix,
    trim_char, digits_value, nat_digits, digit_char, digit_value,
};
use crate::dialects::{
    Dialect, Engine, str_literal_text, empty_array_text, array_text, predicate_literal_text,
    record_literal_text, subscript_text,
};
use crate::builtins::{
    function_template, infix_template, apply_template_text, replace_indexed, arity_range,
    analytic_template, sort_by_key, layered_function, layered_infix, usable, function_table, infix_table,
};

verus! {

// ---------------------------------------------------------------------------
// Reading the syntax tree
// ---------------------------------------------------------------------------

/// Ways an element of a list yields the expression to translate.
pub const PICK_WHOLE: u8 = 0;
/// The argument of a `{field, value}` entry: the `expression` of its value, or the value.
pub const PICK_ARG: u8 = 1;
pub const PICK_CONDITION: u8 = 2;
pub const PICK_CONSEQUENCE: u8 = 3;
/// The field being subscripted, taken from the record that is the consequence.
pub const PICK_CONSEQUENCE_FIELD: u8 = 4;

/// Expression of an argument entry `{field, value}`.
pub open spec fn arg_of(fv: JVal) -> JVal {
    let v = jfield(fv, "value"@);
    match jget(v, "expression"@) {
        Some(x) => x,
        None => v,
    }
}

/// Name of an entry's field (empty when it is not a string).
pub open spec fn field_name(fv: JVal) -> Seq<char> {
    jstr(jfield(fv, "field"@))
}

/// Position of the first entry whose field is `name`, or the length.
pub open spec fn field_pos(fvs: Seq<JVal>, name: Seq<char>) -> int
    decreases fvs.len(),
{
    if fvs.len() == 0 {
        0
    } else if field_name(fvs[0]) == name {
        0
    } else {
        1 + field_pos(fvs.drop_first(), name)
    }
}

/// The entries of a record expression `{record: {field_value: [..]}}`, when it has them.
pub open spec fn record_entries(x: JVal) -> Option<Seq<JVal>> {
    match jget(x, "record"@) {
        Some(r) => match jget(r, "field_value"@) {
            Some(f) => Some(jitems(f)),
            None => None,
        },
        None => None,
    }
}

/// The `expression` given for field `name` in a record expression.
pub open spec fn struct_field(x: JVal, name: Seq<char>) -> Option<JVal> {
    match record_entries(x) {
        Some(fvs) => {
            let p = field_pos(fvs, name);
            if p < fvs.len() {
                jget(jfield(fvs[p], "value"@), "expression"@)
            } else {
                None
            }
        },
        None => None,
    }
}

/// The expression that an element yields in the given mode.
pub open spec fn pick(item: JVal, mode: u8, name: Seq<char>) -> JVal {
    if mode == PICK_WHOLE {
        item
    } else if mode == PICK_ARG {
        arg_of(item)
    } else if mode == PICK_CONDITION {
        jfield(item, "condition"@)
    } else if mode == PICK_CONSEQUENCE {
        jfield(item, "consequence"@)
    } else {
        match struct_field(jfield(item, "consequence"@), name) {
            Some(x) => x,
            None => JVal::Null,
        }
    }
}

/// Positions and modes `(i, mode)` for the elements `0..n`, in one mode.
pub open spec fn each_sel(n: nat, mode: u8) -> Seq<(int, u8)>
    decreases n,
{
    if n == 0 {
        seq![]
    } else {
        each_sel((n - 1) as nat, mode).push((n - 1, mode))
    }
}

/// Condition and consequence (or `second`) of each of `n` branches, in turn.
pub open spec fn branch_sel(n: nat, second: u8) -> Seq<(int, u8)>
    decreases n,
{
    if n == 0 {
        seq![]
    } else {
        branch_sel((n - 1) as nat, second).push((n - 1, PICK_CONDITION)).push((n - 1, second))
    }
}

/// Positional arguments `(position, element)` of a call, in their order.
pub open spec fn indexed_of(fvs: Seq<JVal>) -> Seq<(i64, usize)>
    decreases fvs.len(),
{
    if fvs.len() == 0 {
        seq![]
    } else {
        let rest = indexed_of(fvs.drop_last());
        let f = jfield(fvs.last(), "field"@);
        if f is Int {
            rest.push((jint(f), (fvs.len() - 1) as usize))
        } else {
            rest
        }
    }
}

/// Elements of named arguments of a call, in their order.
pub open spec fn named_of(fvs: Seq<JVal>) -> Seq<int>
    decreases fvs.len(),
{
    if fvs.len() == 0 {
        seq![]
    } else {
        let rest = named_of(fvs.drop_last());
        if jfield(fvs.last(), "field"@) is Int {
            rest
        } else {
            rest.push(fvs.len() - 1)
        }
    }
}

/// Selection of the arguments at the given positions of a sorted list.
pub open spec fn positional_sel(sorted: Seq<(i64, usize)>) -> Seq<(int, u8)> {
    sorted.map_values(|p: (i64, usize)| (p.1 as int, PICK_ARG))
}

/// Selection of the arguments at the given positions.
pub open spec fn named_sel(named: Seq<int>) -> Seq<(int, u8)> {
    named.map_values(|i: int| (i, PICK_ARG))
}

/// The order in which a call's arguments are translated: positional ones by
/// position (a stable sort), then named ones.
pub open spec fn call_sel(fvs: Seq<JVal>) -> Seq<(int, u8)> {
    positional_sel(sort_by_key(indexed_of(fvs))) + named_sel(named_of(fvs))
}

/// Whether an expression is a string literal.
pub open spec fn is_string_literal(x: JVal) -> bool {
    match jget(x, "literal"@) {
        Some(l) => has_key(l, "the_string"@),
        None => false,
    }
}

/// The entries of a call: `call.record.field_value`.
pub open spec fn call_entries(co: JVal) -> Seq<JVal> {
    jitems(jfield(jfield(co, "record"@), "field_value"@))
}

// ---------------------------------------------------------------------------
// Assembling SQL
// ---------------------------------------------------------------------------

/// Text of a number literal.
pub open spec fn number_text(n: JVal) -> Seq<char> {
    match n {
        JVal::Int(i) => int_text(i as int),
        JVal::Object(_) => match jget(n, "number"@) {
            Some(x) => jstr(x),
            None => json_text(n),
        },
        _ => json_text(n),
    }
}

/// Value of a string literal (given directly or as `{the_string: ..}`).
pub open spec fn string_value(s: JVal) -> Seq<char> {
    match s {
        JVal::Str(v) => v,
        JVal::Object(_) => match jget(s, "the_string"@) {
            Some(x) => jstr(x),
            None => ""@,
        },
        _ => ""@,
    }
}

/// SQL of a boolean literal.
pub open spec fn bool_text(b: JVal) -> Seq<char> {
    let v = match b {
        JVal::Str(v) => v,
        JVal::Object(_) => match jget(b, "the_bool"@) {
            Some(x) => jstr(x),
            None => "false"@,
        },
        _ => "false"@,
    };
    if v == "true"@ { "true"@ } else { "false"@ }
}

/// An array of the translated elements.
pub open spec fn array_sql(e: Engine, args: Seq<Seq<char>>) -> Seq<char> {
    if args.len() == 0 {
        empty_array_text(e)
    } else {
        let ap = array_text(e);
        let items = join(args, ", "@);
        if contains_seq(ap, "%s"@) {
            replace_all(ap, "%s"@, items)
        } else if ap.len() == 0 {
            "["@ + items + "]"@
        } else {
            ap + "("@ + items + ")"@
        }
    }
}

/// Field names paired with their translated values.
pub open spec fn zip_fields(names: Seq<Seq<char>>, args: Seq<Seq<char>>) -> Seq<(Seq<char>, Seq<char>)> {
    Seq::new(if names.len() < args.len() { names.len() } else { args.len() }, |i: int| (names[i], args[i]))
}

pub open spec fn field_names(fvs: Seq<JVal>) -> Seq<Seq<char>> {
    fvs.map_values(|fv: JVal| field_name(fv))
}

/// ` WHEN c THEN v` for the first `k` condition/value pairs.
pub open spec fn when_clauses(args: Seq<Seq<char>>, k: nat) -> Seq<char>
    decreases k,
{
    if k == 0 {
        seq![]
    } else {
        when_clauses(args, (k - 1) as nat) + " WHEN "@ + args[2 * k - 2] + " THEN "@ + args[2 * k - 1]
    }
}

/// `CASE WHEN .. THEN .. [ELSE ..] END`.
pub open spec fn case_text(args: Seq<Seq<char>>, otherwise: Option<Seq<char>>) -> Seq<char> {
    "CASE"@ + when_clauses(args, args.len() / 2) + match otherwise {
        Some(o) => " ELSE "@ + o,
        None => ""@,
    } + " END"@
}

/// A call `name(a, b, ..)`.
pub open spec fn call_text(name: Seq<char>, args: Seq<Seq<char>>) -> Seq<char> {
    name + "("@ + join(args, ", "@) + ")"@
}

/// An infix template applied to two operands, in parentheses.
pub open spec fn infix_text(t: Seq<char>, args: Seq<Seq<char>>) -> Seq<char> {
    "("@ + if contains_seq(t, "{left}"@) || contains_seq(t, "{right}"@) {
        replace_all(replace_all(t, "{left}"@, args[0]), "{right}"@, args[1])
    } else {
        apply_template_text(t, args)
    } + ")"@
}

/// `colI = aI` for each argument.
pub open spec fn column_conditions(args: Seq<Seq<char>>) -> Seq<Seq<char>> {
    Seq::new(args.len(), |i: int| "col"@ + int_text(i) + " = "@ + args[i])
}

/// A user predicate's value, selected from its table.
pub open spec fn user_predicate_text(value_field: Seq<char>, table: Seq<char>, args: Seq<Seq<char>>) -> Seq<char> {
    if args.len() == 0 {
        "(SELECT "@ + value_field + " FROM "@ + table + ")"@
    } else {
        "(SELECT "@ + value_field + " FROM "@ + table + " WHERE "@ + join(column_conditions(args), " AND "@) + ")"@
    }
}

/// A quoted text with its quotes removed: a leading `E` (escape-string prefix),
/// then single quotes, then double quotes, at both ends.
pub open spec fn unquoted(s: Seq<char>) -> Seq<char> {
    let t = if s.len() > 0 && s[0] == 'E' { s.drop_first() } else { s };
    trim_char(trim_char(t, '\''), '"')
}

pub open spec fn unquoted_plain(s: Seq<char>) -> Seq<char> {
    trim_char(trim_char(s, '\''), '"')
}

/// `t` with `{key}` replaced by the value for each of the first `n` names.
pub open spec fn replace_named(t: Seq<char>, keys: Seq<Seq<char>>, vals: Seq<Seq<char>>, n: nat) -> Seq<char>
    decreases n,
{
    if n == 0 {
        t
    } else {
        replace_all(replace_named(t, keys, vals, (n - 1) as nat), "{"@ + keys[n - 1] + "}"@, vals[n - 1])
    }
}

/// `SqlExpr(template, ..)`: the template, unquoted, with `{0}`, `{1}`, .. and
/// `{name}` markers replaced. `args[0]` is the template's SQL; the next `pc`
/// arguments are taken as positional, the rest as named by `keys`.
pub open spec fn sql_expr_text(args: Seq<Seq<char>>, keys: Seq<Seq<char>>) -> Seq<char> {
    let pc: int = if args.len() - 1 - keys.len() > 0 { args.len() - 1 - keys.len() } else { 0 };
    let positional = args.subrange(1, 1 + pc);
    let named = args.subrange(1 + pc, args.len() as int);
    let n = if keys.len() < named.len() { keys.len() } else { named.len() };
    replace_named(replace_indexed(unquoted(args[0]), positional, pc as nat), keys, named, n)
}

/// `CAST(a AS type)` or `TRY_CAST(a AS type)`.
pub open spec fn cast_text(pred: Seq<char>, args: Seq<Seq<char>>) -> Seq<char> {
    (if pred == "TryCast"@ { "TRY_CAST("@ } else { "CAST("@ }) + args[0] + " AS "@ + unquoted_plain(args[1]) + ")"@
}

/// SQLite aggregation of `value` ordered by `arg` for `Array`, `ArgMin` and `ArgMax`.
pub open spec fn sqlite_arrow_text(pred: Seq<char>, value: Seq<char>, arg: Seq<char>) -> Seq<char> {
    if pred == "Array"@ {
        "ArgMin("@ + value + ", "@ + arg + ", null)"@
    } else if pred == "ArgMin"@ {
        "JSON_EXTRACT(ArgMin("@ + value + ", "@ + arg + ", 1), '$[0]')"@
    } else {
        "JSON_EXTRACT(ArgMax("@ + value + ", "@ + arg + ", 1), '$[0]')"@
    }
}

/// The entangled `{arg, value}` object of SQLite.
pub open spec fn entangled_text(arg: Seq<char>, value: Seq<char>, ent: Seq<char>) -> Seq<char> {
    "MagicalEntangle(JSON_OBJECT('arg', "@ + arg + ", 'value', "@ + value + "), "@ + ent + ")"@
}

/// `Array`, `ArgMin` and `ArgMax` of `arg -> value` on engines other than SQLite.
pub open spec fn arrow_text(e: Engine, pred: Seq<char>, arg: Seq<char>, value: Seq<char>) -> Seq<char> {
    match e {
        Engine::BigQuery => if pred == "Array"@ {
            "ARRAY_AGG("@ + value + " order by ["@ + arg + "][offset(0)])"@
        } else if pred == "ArgMin"@ {
            "ARRAY_AGG("@ + value + " order by ["@ + arg + "][offset(0)] limit 1)[OFFSET(0)]"@
        } else {
            "ARRAY_AGG("@ + value + " order by  ["@ + arg + "][offset(0)] desc limit 1)[OFFSET(0)]"@
        },
        Engine::DuckDb => if pred == "Array"@ {
            "ARRAY_AGG("@ + value + " order by "@ + arg + ")"@
        } else if pred == "ArgMin"@ {
            "argmin("@ + arg + ", "@ + value + ")"@
        } else {
            "argmax("@ + arg + ", "@ + value + ")"@
        },
        Engine::Databricks => if pred == "Array"@ {
            "TRANSFORM(ARRAY_SORT(COLLECT_LIST(STRUCT("@ + arg + " AS arg, "@ + value + " AS value))), s -> s.value)"@
        } else if pred == "ArgMin"@ {
            "SORT_ARRAY(COLLECT_LIST(STRUCT("@ + value + " AS value, "@ + arg + " AS arg)))[0].arg"@
        } else {
            "SORT_ARRAY(COLLECT_LIST(STRUCT("@ + value + " AS value, "@ + arg + " AS arg)), false)[0].arg"@
        },
        _ => if pred == "Array"@ {
            "ARRAY_AGG("@ + value + " order by "@ + arg + ")"@
        } else if pred == "ArgMin"@ {
            "(ARRAY_AGG("@ + arg + " order by "@ + value + "))[1]"@
        } else {
            "(ARRAY_AGG("@ + arg + " order by "@ + value + " desc))[1]"@
        },
    }
}

/// The `arg` and `value` expressions of a record `{arg: .., value: ..}` (later
/// entries override earlier ones), over its first `n` entries.
pub open spec fn arrow_fields(fvs: Seq<JVal>, n: nat) -> (Option<JVal>, Option<JVal>)
    decreases n,
{
    if n == 0 || n > fvs.len() {
        (None, None)
    } else {
        let (a, v) = arrow_fields(fvs, (n - 1) as nat);
        let fv = fvs[n - 1];
        let field = match jget(fv, "field"@) {
            Some(f) => jstr(f),
            None => ""@,
        };
        match jget(fv, "value"@) {
            Some(val) => {
                let x = match jget(val, "expression"@) {
                    Some(y) => y,
                    None => val,
                };
                if field == "arg"@ {
                    (Some(x), v)
                } else if field == "value"@ {
                    (a, Some(x))
                } else {
                    (a, v)
                }
            },
            None => (a, v),
        }
    }
}

/// The `arg` and `value` expressions of an arrow record.
pub open spec fn arrow_record(x: JVal) -> (Option<JVal>, Option<JVal>) {
    match jget(x, "record"@) {
        Some(r) => match jget(r, "field_value"@) {
            Some(f) => arrow_fields(jitems(f), jitems(f).len()),
            None => (None, None),
        },
        None => (None, None),
    }
}

/// `arg`, `value` and the correlation of `MagicalEntangle(arrow record, correlation)`,
/// over its first `n` entries.
pub open spec fn entangle_fields(fvs: Seq<JVal>, n: nat) -> (Option<JVal>, Option<JVal>, Option<JVal>)
    decreases n,
{
    if n == 0 || n > fvs.len() {
        (None, None, None)
    } else {
        let (a, v, c) = entangle_fields(fvs, (n - 1) as nat);
        let fv = fvs[n - 1];
        let idx: Option<i64> = match jget(fv, "field"@) {
            Some(JVal::Int(i)) => Some(i),
            _ => None,
        };
        match jget(fv, "value"@) {
            Some(val) => {
                let x = match jget(val, "expression"@) {
                    Some(y) => y,
                    None => val,
                };
                if idx == Some(0i64) {
                    let (a2, v2) = arrow_record(x);
                    (a2, v2, c)
                } else if idx == Some(1i64) {
                    (a, v, Some(x))
                } else {
                    (a, v, c)
                }
            },
            None => (a, v, c),
        }
    }
}

/// `arg`, `value` and correlation of the argument of `Array`, `ArgMin` or `ArgMax`
/// written with an arrow.
pub open spec fn arrow_parts(first: JVal) -> (Option<JVal>, Option<JVal>, Option<JVal>) {
    if has_key(first, "record"@) {
        let (a, v) = arrow_record(first);
        (a, v, None)
    } else if has_key(first, "call"@) {
        let c = jfield(first, "call"@);
        let is_entangle = match jget(c, "predicate_name"@) {
            Some(p) => jstr(p) == "MagicalEntangle"@,
            None => false,
        };
        if is_entangle {
            match jget(c, "record"@) {
                Some(r) => match jget(r, "field_value"@) {
                    Some(f) => entangle_fields(jitems(f), jitems(f).len()),
                    None => (None, None, None),
                },
                None => (None, None, None),
            }
        } else {
            (None, None, None)
        }
    } else {
        (None, None, None)
    }
}

/// Name of an analytic (window) function.
pub open spec fn is_analytic(name: Seq<char>) -> bool {
    analytic_template(name) is Some
}

/// The subscript of `record.subscript` when it is written literally.
pub open spec fn subscript_name(sub: JVal) -> Option<Seq<char>> {
    if sub is Object {
        match jget(sub, "literal"@) {
            Some(lit) => if has_key(lit, "the_string"@) {
                Some(jstr(jfield(lit, "the_string"@)))
            } else if has_key(lit, "the_number"@) {
                Some(int_text(jint(jfield(lit, "the_number"@)) as int))
            } else if has_key(lit, "the_symbol"@) {
                Some(jstr(jfield(jfield(lit, "the_symbol"@), "symbol"@)))
            } else {
                None
            },
            None => None,
        }
    } else {
        Some(jstr(sub))
    }
}

/// Whether a subscripted record stands for a whole table: a variable bound to a
/// reference without a dot.
pub open spec fn record_is_table(vocab: Seq<(Seq<char>, Seq<char>)>, rec: JVal) -> bool {
    match jget(rec, "variable"@) {
        Some(v) => match sm_get(vocab, jstr(jfield(v, "var_name"@))) {
            Some(s) => !contains_char(s, '.'),
            None => false,
        },
        None => false,
    }
}

/// Whether a subscript of the implication `imp` can be pushed into its branches:
/// it has an `otherwise`, and every consequence and the otherwise are record
/// expressions that give the field.
pub open spec fn branches_give_field(imp: JVal, name: Seq<char>) -> bool {
    let its = jitems(jfield(imp, "if_then"@));
    let other = jfield(imp, "otherwise"@);
    &&& has_key(imp, "if_then"@)
    &&& has_key(imp, "otherwise"@)
    &&& forall|i: int| 0 <= i < its.len() ==> {
        &&& #[trigger] jget(its[i], "consequence"@) is Some
        &&& has_key(jfield(its[i], "consequence"@), "record"@)
        &&& struct_field(jfield(its[i], "consequence"@), name) is Some
    }
    &&& has_key(other, "record"@)
    &&& struct_field(other, name) is Some
}

/// The expression under `aggregation`, if it has one.
pub open spec fn aggregated(e: JVal) -> Option<JVal> {
    match jget(e, "aggregation"@) {
        Some(a) => jget(a, "expression"@),
        None => None,
    }
}

/// The analytic argument `value.expression` of an entry.
pub open spec fn analytic_arg(fv: JVal) -> Option<JVal> {
    jget(jfield(fv, "value"@), "expression"@)
}

/// A list literal's elements, or `None` for other expressions.
pub open spec fn list_literal_elements(x: JVal) -> Option<Option<JVal>> {
    match jget(x, "literal"@) {
        Some(lit) => match jget(lit, "the_list"@) {
            Some(tl) => Some(jget(tl, "element"@)),
            None => None,
        },
        None => None,
    }
}

/// Whether a translation outcome agrees with its specification.
pub open spec fn res_is(r: CompileResult<String>, s: Option<Seq<char>>) -> bool {
    match r {
        Ok(v) => s == Some(v@),
        Err(_) => s is None,
    }
}

// ---------------------------------------------------------------------------
// Subqueries
// ---------------------------------------------------------------------------

/// Translation of predicates used as values: supplied by the program being compiled.
pub trait SubqueryTranslator {
    /// The table that holds predicate `predicate`, if it has one. Translators
    /// state this for their own tables; the default knows none.
    open spec fn table_sql(&self, predicate: Seq<char>, vocabulary: Option<Seq<(Seq<char>, Seq<char>)>>) -> Option<Seq<char>> {
        None
    }

    /// SQL of a rule used as a subquery, if it translates. Translators state
    /// this for their own rules; the default translates none.
    open spec fn rule_sql(&self, rule: JVal, vocabulary: Seq<(Seq<char>, Seq<char>)>, is_combine: bool) -> Option<Seq<char>> {
        None
    }

    /// PostgreSQL type to cast a combine subquery to, if one is known.
    open spec fn combine_type(&self, combine: JVal) -> Option<Seq<char>> {
        None
    }

    fn translate_table(&self, predicate: &str, external_vocabulary: Option<&StrMap>) -> (r: CompileResult<String>)
        ensures
            res_is(r, self.table_sql(predicate@, match external_vocabulary {
                Some(v) => Some(v@),
                None => None,
            })),
    ;

    /// Translate a combine sub-rule to SQL (an inline subquery).
    fn translate_rule(&self, rule: &Json, external_vocabulary: &StrMap, is_combine: bool) -> (r: CompileResult<String>)
        ensures
            res_is(r, self.rule_sql(rule@, external_vocabulary@, is_combine)),
    ;

    /// PostgreSQL CAST type for a combine subquery result, derived from type inference.
    fn combine_psql_type(&self, combine: &Json) -> (r: Option<String>)
        ensures
            match r {
                Some(t) => self.combine_type(combine@) == Some(t@),
                None => self.combine_type(combine@) is None,
            },
    ;
}

// ---------------------------------------------------------------------------
// The translator
// ---------------------------------------------------------------------------

/// Expression-to-SQL translator.
pub struct ExprTranslator<'a, D: Dialect + ?Sized = dyn Dialect> {
    pub vocabulary: StrMap,
    pub dialect: &'a D,
    pub built_in_functions: StrMap,
    pub built_in_infix_operators: StrMap,
    pub flag_values: &'a StrMap,
    pub subquery_translator: Option<&'a dyn SubqueryTranslator>,
    /// Name of the value column of predicate tables.
    pub value_field: &'static str,
}

impl<'a, D: Dialect + ?Sized> ExprTranslator<'a, D> {
    /// The function and operator tables are those of the dialect.
    pub open spec fn wf(&self) -> bool {
        &&& forall|q: Seq<char>| #[trigger] sm_get(self.built_in_functions@, q) == layered_function(self.dialect.kind(), q)
        &&& forall|q: Seq<char>| #[trigger] sm_get(self.built_in_infix_operators@, q) == layered_infix(self.dialect.kind(), q)
    }

    pub open spec fn engine(&self) -> Engine {
        self.dialect.kind()
    }

    /// SQL of an expression, or `None` when it does not translate.
    pub open spec fn sql_of(&self, e: JVal) -> Option<Seq<char>>
        decreases jsize(e), 3nat,
    {
        if !(e is Object) {
            None
        } else if has_key(e, "variable"@) {
            sm_get(self.vocabulary@, jstr(jfield(jfield(e, "variable"@), "var_name"@)))
        } else if has_key(e, "literal"@) {
            self.literal_sql(e)
        } else if has_key(e, "call"@) {
            self.call_sql(e)
        } else if has_key(e, "record"@) {
            proof {
                lemma_field_size(e, "record"@);
            }
            self.record_sql(jfield(e, "record"@))
        } else if has_key(e, "subscript"@) {
            self.subscript_sql(e)
        } else if has_key(e, "implication"@) {
            self.implication_sql(e)
        } else if aggregated(e) is Some {
            proof {
                lemma_field_size(e, "aggregation"@);
                lemma_field_size(jfield(e, "aggregation"@), "expression"@);
            }
            self.sql_of(aggregated(e)->0)
        } else if has_key(e, "combine"@) {
            self.combine_sql(jfield(e, "combine"@))
        } else {
            None
        }
    }

    /// SQL of the expressions that `sel` picks from `items`.
    pub open spec fn sql_list(&self, items: Seq<JVal>, sel: Seq<(int, u8)>, name: Seq<char>) -> Option<Seq<Seq<char>>>
        decreases seq_size(items), sel.len(),
    {
        if sel.len() == 0 {
            Some(seq![])
        } else {
            match self.sql_list(items, sel.drop_last(), name) {
                Some(prev) => {
                    let (i, m) = sel.last();
                    if 0 <= i < items.len() {
                        proof {
                            lemma_item_size(items, i);
                            lemma_pick_size(items[i], m, name);
                        }
                        match self.sql_of(pick(items[i], m, name)) {
                            Some(s) => Some(prev.push(s)),
                            None => None,
                        }
                    } else {
                        None
                    }
                },
                None => None,
            }
        }
    }

    /// SQL of a literal expression `{literal: ..}`.
    pub open spec fn literal_sql(&self, e: JVal) -> Option<Seq<char>>
        decreases jsize(e), 2nat,
    {
        let lo = jfield(e, "literal"@);
        if !(e is Object) {
            None
        } else if has_key(lo, "the_number"@) {
            Some(number_text(jfield(lo, "the_number"@)))
        } else if has_key(lo, "the_string"@) {
            Some(str_literal_text(self.engine(), string_value(jfield(lo, "the_string"@))))
        } else if has_key(lo, "the_bool"@) {
            Some(bool_text(jfield(lo, "the_bool"@)))
        } else if has_key(lo, "the_null"@) || has_key(lo, "null"@) {
            Some("null"@)
        } else if has_key(lo, "the_list"@) {
            match jget(jfield(lo, "the_list"@), "element"@) {
                Some(el) => {
                    let items = jitems(el);
                    proof {
                        lemma_field_size(e, "literal"@);
                        lemma_field_size(lo, "the_list"@);
                        lemma_field_size(jfield(lo, "the_list"@), "element"@);
                        lemma_items_size(el);
                    }
                    match self.sql_list(items, each_sel(items.len(), PICK_WHOLE), ""@) {
                        Some(args) => Some(array_sql(self.engine(), args)),
                        None => None,
                    }
                },
                None => Some(empty_array_text(self.engine())),
            }
        } else if has_key(lo, "the_predicate"@) {
            Some(predicate_literal_text(self.engine(), jstr(jfield(jfield(lo, "the_predicate"@), "predicate_name"@))))
        } else if has_key(lo, "the_record"@) {
            proof {
                lemma_field_size(e, "literal"@);
                lemma_field_size(lo, "the_record"@);
            }
            self.record_sql(jfield(lo, "the_record"@))
        } else if has_key(lo, "the_symbol"@) {
            Some(jstr(jfield(jfield(lo, "the_symbol"@), "symbol"@)))
        } else {
            None
        }
    }

    /// SQL of a record (an object with `field_value`).
    pub open spec fn record_sql(&self, rec: JVal) -> Option<Seq<char>>
        decreases jsize(rec), 4nat,
    {
        let fvs = jitems(jfield(rec, "field_value"@));
        proof {
            lemma_field_size(rec, "field_value"@);
            lemma_items_size(jfield(rec, "field_value"@));
        }
        match self.sql_list(fvs, each_sel(fvs.len(), PICK_ARG), ""@) {
            Some(args) => Some(record_literal_text(self.engine(), zip_fields(field_names(fvs), args))),
            None => None,
        }
    }

    /// Elements of an analytic function's list argument joined by commas, or the
    /// argument's SQL when it is not a list literal.
    pub open spec fn expand_list(&self, x: JVal) -> Option<Seq<char>>
        decreases jsize(x), 4nat,
    {
        match list_literal_elements(x) {
            Some(Some(el)) => {
                let items = jitems(el);
                proof {
                    lemma_field_size(x, "literal"@);
                    lemma_field_size(jfield(x, "literal"@), "the_list"@);
                    lemma_field_size(jfield(jfield(x, "literal"@), "the_list"@), "element"@);
                    lemma_items_size(el);
                }
                match self.sql_list(items, each_sel(items.len(), PICK_WHOLE), ""@) {
                    Some(args) => Some(join(args, ", "@)),
                    None => None,
                }
            },
            Some(None) => Some(seq![]),
            None => self.sql_of(x),
        }
    }

    /// SQL of an analytic function call `Cumulative*` / `Window*`.
    pub open spec fn analytic_sql(&self, e: JVal) -> Option<Seq<char>>
        decreases jsize(e), 1nat,
    {
        let co = jfield(e, "call"@);
        let pred = jstr(jfield(co, "predicate_name"@));
        let fvs = call_entries(co);
        let window = has_prefix(pred, "Window"@);
        let expected: int = if window { 4 } else { 3 };
        if !(e is Object) || fvs.len() != expected {
            None
        } else if exists|i: int| 0 <= i < expected && #[trigger] analytic_arg(fvs[i]) is None {
            None
        } else {
            proof {
                lemma_call_entries_size(e);
                assert forall|i: int| 0 <= i < fvs.len() implies jsize(analytic_arg(fvs[i])->0) < jsize(e) by {
                    lemma_item_size(fvs, i);
                    lemma_field_size(fvs[i], "value"@);
                    lemma_field_size(jfield(fvs[i], "value"@), "expression"@);
                    assert(analytic_arg(fvs[i]) is Some);
                }
            }
            let a0 = self.sql_of(analytic_arg(fvs[0])->0);
            let a1 = self.expand_list(analytic_arg(fvs[1])->0);
            let a2 = self.expand_list(analytic_arg(fvs[2])->0);
            let a3 = if window { self.sql_of(analytic_arg(fvs[3])->0) } else { Some(seq![]) };
            match (a0, a1, a2, a3) {
                (Some(s0), Some(s1), Some(s2), Some(s3)) => {
                    let args = if window { seq![s0, s1, s2, s3] } else { seq![s0, s1, s2] };
                    Some(replace_indexed(analytic_template(pred)->0, args, args.len()))
                },
                _ => None,
            }
        }
    }

    /// SQL of `SqlExpr(template, ..)`.
    pub open spec fn sql_expr_sql(&self, e: JVal) -> Option<Seq<char>>
        decreases jsize(e), 1nat,
    {
        let fvs = call_entries(jfield(e, "call"@));
        let sorted = sort_by_key(indexed_of(fvs));
        if !(e is Object) || sorted.len() == 0 || sorted[0].1 >= fvs.len() {
            None
        } else {
            let first = arg_of(fvs[sorted[0].1 as int]);
            if !is_string_literal(first) {
                None
            } else {
                proof {
                    lemma_call_entries_size(e);
                    lemma_item_size(fvs, sorted[0].1 as int);
                    lemma_arg_size(fvs[sorted[0].1 as int]);
                }
                let t = self.sql_of(first);
                let rest = self.sql_list(fvs, if sorted.len() > 2 { positional_sel(sorted.skip(2)) } else { seq![] }, ""@);
                let (keys, mid) = self.sql_expr_named(e);
                match (t, mid, rest) {
                    (Some(ts), Some(ms), Some(rs)) => Some(sql_expr_text(seq![ts] + ms + rs, keys)),
                    _ => None,
                }
            }
        }
    }

    /// Names and SQL of the arguments after the template of `SqlExpr`: the fields
    /// of a record given as second argument, or the second argument itself.
    pub open spec fn sql_expr_named(&self, e: JVal) -> (Seq<Seq<char>>, Option<Seq<Seq<char>>>)
        decreases jsize(e), 0nat,
    {
        let fvs = call_entries(jfield(e, "call"@));
        let sorted = sort_by_key(indexed_of(fvs));
        if !(e is Object) {
            (seq![], None)
        } else if sorted.len() > 1 && sorted[1].1 < fvs.len() {
            let second = arg_of(fvs[sorted[1].1 as int]);
            proof {
                lemma_call_entries_size(e);
                lemma_item_size(fvs, sorted[1].1 as int);
                lemma_arg_size(fvs[sorted[1].1 as int]);
            }
            if second is Object && has_key(second, "record"@) {
                match jget(jfield(second, "record"@), "field_value"@) {
                    Some(fl) => {
                        let inner = jitems(fl);
                        proof {
                            lemma_field_size(second, "record"@);
                            lemma_field_size(jfield(second, "record"@), "field_value"@);
                            lemma_items_size(fl);
                        }
                        (field_names(inner), self.sql_list(inner, each_sel(inner.len(), PICK_ARG), ""@))
                    },
                    None => (seq![], Some(seq![])),
                }
            } else {
                (seq![], match self.sql_of(second) {
                    Some(s) => Some(seq![s]),
                    None => None,
                })
            }
        } else if sorted.len() > 1 {
            (seq![], None)
        } else {
            (seq![], Some(seq![]))
        }
    }

    /// SQL of `Array`, `ArgMin` or `ArgMax` applied to an arrow `arg -> value`
    /// (`Some(None)` when a part of the arrow does not translate), or `None` when
    /// the call does not take that form or the engine has no special form for it.
    pub open spec fn arrow_sql(&self, e: JVal) -> Option<Option<Seq<char>>>
        decreases jsize(e), 1nat,
    {
        let co = jfield(e, "call"@);
        let pred = jstr(jfield(co, "predicate_name"@));
        let fvs = call_entries(co);
        let sorted = sort_by_key(indexed_of(fvs));
        if !(e is Object) || sorted.len() == 0 || sorted[0].1 >= fvs.len() {
            None
        } else {
            let first = arg_of(fvs[sorted[0].1 as int]);
            let (a, v, c) = arrow_parts(first);
            if a is None || v is None {
                None
            } else {
                proof {
                    lemma_call_entries_size(e);
                    lemma_item_size(fvs, sorted[0].1 as int);
                    lemma_arg_size(fvs[sorted[0].1 as int]);
                    lemma_arrow_parts_size(first);
                }
                match (self.sql_of(a->0), self.sql_of(v->0)) {
                    (Some(asql), Some(vsql)) => if self.engine() == Engine::Psql && pred != "Array"@ {
                        None
                    } else if self.engine() == Engine::SqLite {
                        match c {
                            Some(cx) => match self.sql_of(cx) {
                                Some(csql) => {
                                    let ent = entangled_text(asql, vsql, csql);
                                    Some(Some(sqlite_arrow_text(
                                        pred,
                                        "JSON_EXTRACT("@ + ent + ", \"$.value\")"@,
                                        "JSON_EXTRACT("@ + ent + ", \"$.arg\")"@,
                                    )))
                                },
                                None => Some(None),
                            },
                            None => Some(Some(sqlite_arrow_text(pred, vsql, asql))),
                        }
                    } else {
                        Some(Some(arrow_text(self.engine(), pred, asql, vsql)))
                    },
                    _ => Some(None),
                }
            }
        }
    }

    /// SQL of a call `{call: {predicate_name, record}}`.
    pub open spec fn call_sql(&self, e: JVal) -> Option<Seq<char>>
        decreases jsize(e), 2nat,
    {
        let co = jfield(e, "call"@);
        let pred = jstr(jfield(co, "predicate_name"@));
        let fvs = call_entries(co);
        let n = fvs.len();
        let sorted = sort_by_key(indexed_of(fvs));
        let e_eng = self.engine();
        if !(e is Object) {
            None
        } else {
        proof {
            lemma_call_entries_size(e);
        }
        let args = self.sql_list(fvs, call_sel(fvs), ""@);
        if is_analytic(pred) {
            self.analytic_sql(e)
        } else if pred == "SqlExpr"@ {
            self.sql_expr_sql(e)
        } else if pred == "Cast"@ || pred == "TryCast"@ {
            match args {
                Some(a) => if a.len() == 2 { Some(cast_text(pred, a)) } else { None },
                None => None,
            }
        } else if pred == "FlagValue"@ {
            if sorted.len() != 1 || sorted[0].1 >= fvs.len() || !is_string_literal(arg_of(fvs[sorted[0].1 as int])) {
                None
            } else {
                match args {
                    Some(a) => if a.len() == 0 {
                        None
                    } else {
                        match sm_get(self.flag_values@, unquoted_plain(a[0])) {
                            Some(v) => Some(str_literal_text(e_eng, v)),
                            None => None,
                        }
                    },
                    None => None,
                }
            }
        } else if pred == "If"@ && n == 3 {
            match args {
                Some(a) => Some(apply_template_text("IF({0}, {1}, {2})"@, a)),
                None => None,
            }
        } else if (pred == "Array"@ || pred == "ArgMin"@ || pred == "ArgMax"@) && n == 1 && sorted.len() > 0
            && self.arrow_sql(e) is Some {
            self.arrow_sql(e)->0
        } else if (pred == "Array"@ || pred == "ArgMin"@ || pred == "ArgMax"@) && n == 1 && sorted.len() > 0 {
            match args {
                Some(a) => Some(match function_template(e_eng, pred) {
                    Some(t) => apply_template_text(t, a),
                    None => call_text(pred, a),
                }),
                None => None,
            }
        } else if n == 2 && infix_template(e_eng, pred) is Some {
            match args {
                Some(a) => Some(infix_text(infix_template(e_eng, pred)->0, a)),
                None => None,
            }
        } else if function_template(e_eng, pred) is Some {
            if arity_range(pred) matches Some((lo, hi)) && (n < lo || n > hi) {
                None
            } else {
                match args {
                    Some(a) => Some(apply_template_text(function_template(e_eng, pred)->0, a)),
                    None => None,
                }
            }
        } else if infix_template(e_eng, pred) is Some {
            if pred.len() > 0 && is_upper_char(pred[0]) {
                match args {
                    Some(a) => Some(call_text(to_upper(pred), a)),
                    None => None,
                }
            } else {
                None
            }
        } else {
            match self.subquery_translator {
                Some(st) => match st.table_sql(pred, Some(self.vocabulary@)) {
                    Some(table) => if n == 0 {
                        Some(user_predicate_text(self.value_field@, table, seq![]))
                    } else {
                        match args {
                            Some(a) => Some(user_predicate_text(self.value_field@, table, a)),
                            None => None,
                        }
                    },
                    None => if pred.len() > 0 && is_upper_char(pred[0]) {
                        match args {
                            Some(a) => Some(call_text(to_upper(pred), a)),
                            None => None,
                        }
                    } else {
                        None
                    },
                },
                None => if pred.len() > 0 && is_upper_char(pred[0]) {
                    match args {
                        Some(a) => Some(call_text(to_upper(pred), a)),
                        None => None,
                    }
                } else {
                    None
                },
            }
        }
        }
    }

    /// SQL of `{subscript: {record, subscript}}`.
    pub open spec fn subscript_sql(&self, e: JVal) -> Option<Seq<char>>
        decreases jsize(e), 2nat,
    {
        let so = jfield(e, "subscript"@);
        let sub = jfield(so, "subscript"@);
        let rec = jfield(so, "record"@);
        let rit = record_is_table(self.vocabulary@, rec);
        proof {
            lemma_field_size(e, "subscript"@);
            lemma_field_size(so, "subscript"@);
            lemma_field_size(so, "record"@);
        }
        if !(e is Object) {
            None
        } else {
        match subscript_name(sub) {
            Some(f) => {
                let direct = match record_entries(rec) {
                    Some(fvs) => field_pos(fvs, f) < fvs.len(),
                    None => false,
                };
                if direct {
                    let fvs = record_entries(rec)->0;
                    proof {
                        lemma_record_entries_size(rec);
                        lemma_field_pos(fvs, f);
                        lemma_item_size(fvs, field_pos(fvs, f));
                        lemma_arg_size(fvs[field_pos(fvs, f)]);
                    }
                    self.sql_of(arg_of(fvs[field_pos(fvs, f)]))
                } else if has_key(rec, "implication"@) && branches_give_field(jfield(rec, "implication"@), f) {
                    self.pushed_subscript_sql(e, f)
                } else {
                    match self.sql_of(rec) {
                        Some(r) => Some(subscript_text(self.engine(), r, f, rit)),
                        None => None,
                    }
                }
            },
            None => match (self.sql_of(rec), self.sql_of(sub)) {
                (Some(r), Some(s)) => Some(subscript_text(self.engine(), r, s, rit)),
                _ => None,
            },
        }
        }
    }

    /// A subscript `.f` of an implication whose branches are records, pushed into
    /// the branches.
    pub open spec fn pushed_subscript_sql(&self, e: JVal, f: Seq<char>) -> Option<Seq<char>>
        decreases jsize(e), 1nat,
    {
        let imp = jfield(jfield(jfield(e, "subscript"@), "record"@), "implication"@);
        let its = jitems(jfield(imp, "if_then"@));
        let other = jfield(imp, "otherwise"@);
        proof {
            lemma_field_size(e, "subscript"@);
            lemma_field_size(jfield(e, "subscript"@), "record"@);
            lemma_field_size(jfield(jfield(e, "subscript"@), "record"@), "implication"@);
            lemma_field_size(imp, "if_then"@);
            lemma_items_size(jfield(imp, "if_then"@));
            lemma_field_size(imp, "otherwise"@);
            lemma_struct_field_size(other, f);
        }
        if !(e is Object) {
            None
        } else {
            let o = match struct_field(other, f) {
                Some(x) => x,
                None => JVal::Null,
            };
            match (self.sql_list(its, branch_sel(its.len(), PICK_CONSEQUENCE_FIELD), f), self.sql_of(o)) {
                (Some(args), Some(os)) => Some(case_text(args, Some(os))),
                _ => None,
            }
        }
    }

    /// SQL of `{implication: {if_then: [..], otherwise}}`.
    pub open spec fn implication_sql(&self, e: JVal) -> Option<Seq<char>>
        decreases jsize(e), 2nat,
    {
        let io = jfield(e, "implication"@);
        let its = jitems(jfield(io, "if_then"@));
        proof {
            lemma_field_size(e, "implication"@);
            lemma_field_size(io, "if_then"@);
            lemma_items_size(jfield(io, "if_then"@));
            lemma_field_size(io, "otherwise"@);
        }
        if !(e is Object) {
            None
        } else {
        match self.sql_list(its, branch_sel(its.len(), PICK_CONSEQUENCE), ""@) {
            Some(args) => if has_key(io, "otherwise"@) {
                match self.sql_of(jfield(io, "otherwise"@)) {
                    Some(o) => Some(case_text(args, Some(o))),
                    None => None,
                }
            } else {
                Some(case_text(args, None))
            },
            None => None,
        }
        }
    }

    /// SQL of `{combine: ..}`: a subquery from the subquery translator.
    pub open spec fn combine_sql(&self, c: JVal) -> Option<Seq<char>> {
        match self.subquery_translator {
            Some(st) => match st.rule_sql(c, self.vocabulary@, true) {
                Some(s) => Some(
                    if self.engine() == Engine::Psql && st.combine_type(c) is Some {
                        "CAST(("@ + s + ") AS "@ + st.combine_type(c)->0 + ")"@
                    } else {
                        "("@ + s + ")"@
                    },
                ),
                None => None,
            },
            None => None,
        }
    }

    /// SQL of an expression in a GROUP BY position: string literals get `|| ''` and
    /// number literals `+ 0`, so that the engine does not read them as positions.
    pub open spec fn group_by_sql(&self, e: JVal) -> Option<Seq<char>> {
        match self.sql_of(e) {
            Some(s) => Some(match jget(e, "literal"@) {
                Some(lit) => if has_key(lit, "the_string"@) {
                    "("@ + s + " || '')"@
                } else if has_key(lit, "the_number"@) {
                    s + " + 0"@
                } else {
                    s
                },
                None => s,
            }),
            None => None,
        }
    }
}

// ---------------------------------------------------------------------------
// Sizes of the parts that are translated
// ---------------------------------------------------------------------------

pub proof fn lemma_arg_size(fv: JVal)
    ensures
        jsize(arg_of(fv)) <= jsize(fv),
{
    lemma_field_size(fv, "value"@);
    lemma_field_size(jfield(fv, "value"@), "expression"@);
}

pub proof fn lemma_call_entries_size(e: JVal)
    requires
        e is Object,
    ensures
        seq_size(call_entries(jfield(e, "call"@))) < jsize(e),
{
    let co = jfield(e, "call"@);
    lemma_field_size(e, "call"@);
    lemma_field_size(co, "record"@);
    lemma_field_size(jfield(co, "record"@), "field_value"@);
    lemma_items_size(jfield(jfield(co, "record"@), "field_value"@));
}

pub proof fn lemma_field_pos(fvs: Seq<JVal>, name: Seq<char>)
    ensures
        0 <= field_pos(fvs, name) <= fvs.len(),
        field_pos(fvs, name) < fvs.len() ==> field_name(fvs[field_pos(fvs, name)]) == name,
        forall|j: int| 0 <= j < field_pos(fvs, name) ==> field_name(#[trigger] fvs[j]) != name,
    decreases fvs.len(),
{
    if fvs.len() > 0 && field_name(fvs[0]) != name {
        lemma_field_pos(fvs.drop_first(), name);
        assert forall|j: int| 0 <= j < field_pos(fvs, name) implies field_name(#[trigger] fvs[j]) != name by {
            if j > 0 {
                assert(fvs[j] == fvs.drop_first()[j - 1]);
            }
        }
    }
}

pub proof fn lemma_record_entries_size(x: JVal)
    ensures
        record_entries(x) matches Some(fvs) ==> seq_size(fvs) < jsize(x),
{
    if let Some(r) = jget(x, "record"@) {
        lemma_field_size(x, "record"@);
        if let Some(f) = jget(r, "field_value"@) {
            lemma_field_size(r, "field_value"@);
            lemma_items_size(f);
        }
    }
}

pub proof fn lemma_struct_field_size(x: JVal, name: Seq<char>)
    ensures
        struct_field(x, name) matches Some(y) ==> jsize(y) < jsize(x),
{
    lemma_record_entries_size(x);
    if let Some(fvs) = record_entries(x) {
        lemma_field_pos(fvs, name);
        let p = field_pos(fvs, name);
        if p < fvs.len() {
            lemma_item_size(fvs, p);
            lemma_field_size(fvs[p], "value"@);
            lemma_field_size(jfield(fvs[p], "value"@), "expression"@);
        }
    }
}

pub proof fn lemma_pick_size(item: JVal, mode: u8, name: Seq<char>)
    ensures
        jsize(pick(item, mode, name)) <= jsize(item),
{
    lemma_arg_size(item);
    lemma_field_size(item, "condition"@);
    lemma_field_size(item, "consequence"@);
    lemma_struct_field_size(jfield(item, "consequence"@), name);
}

proof fn lemma_arrow_fields_size(fvs: Seq<JVal>, n: nat)
    ensures
        arrow_fields(fvs, n).0 matches Some(x) ==> jsize(x) < seq_size(fvs),
        arrow_fields(fvs, n).1 matches Some(x) ==> jsize(x) < seq_size(fvs),
    decreases n,
{
    if n > 0 && n <= fvs.len() {
        lemma_arrow_fields_size(fvs, (n - 1) as nat);
        let fv = fvs[n - 1];
        lemma_item_size(fvs, n - 1);
        lemma_field_size(fv, "value"@);
        if let Some(val) = jget(fv, "value"@) {
            lemma_field_size(val, "expression"@);
        }
    }
}

proof fn lemma_arrow_record_size(x: JVal)
    ensures
        arrow_record(x).0 matches Some(y) ==> jsize(y) < jsize(x),
        arrow_record(x).1 matches Some(y) ==> jsize(y) < jsize(x),
{
    if let Some(r) = jget(x, "record"@) {
        lemma_field_size(x, "record"@);
        if let Some(f) = jget(r, "field_value"@) {
            lemma_field_size(r, "field_value"@);
            lemma_items_size(f);
            lemma_arrow_fields_size(jitems(f), jitems(f).len());
        }
    }
}

proof fn lemma_entangle_fields_size(fvs: Seq<JVal>, n: nat)
    ensures
        entangle_fields(fvs, n).0 matches Some(x) ==> jsize(x) < seq_size(fvs),
        entangle_fields(fvs, n).1 matches Some(x) ==> jsize(x) < seq_size(fvs),
        entangle_fields(fvs, n).2 matches Some(x) ==> jsize(x) < seq_size(fvs),
    decreases n,
{
    if n > 0 && n <= fvs.len() {
        lemma_entangle_fields_size(fvs, (n - 1) as nat);
        let fv = fvs[n - 1];
        lemma_item_size(fvs, n - 1);
        lemma_field_size(fv, "value"@);
        if let Some(val) = jget(fv, "value"@) {
            lemma_field_size(val, "expression"@);
            let x = match jget(val, "expression"@) {
                Some(y) => y,
                None => val,
            };
            lemma_arrow_record_size(x);
        }
    }
}

pub proof fn lemma_arrow_parts_size(first: JVal)
    ensures
        arrow_parts(first).0 matches Some(x) ==> jsize(x) < jsize(first),
        arrow_parts(first).1 matches Some(x) ==> jsize(x) < jsize(first),
        arrow_parts(first).2 matches Some(x) ==> jsize(x) < jsize(first),
{
    lemma_arrow_record_size(first);
    if has_key(first, "call"@) {
        let c = jfield(first, "call"@);
        lemma_field_size(first, "call"@);
        if let Some(r) = jget(c, "record"@) {
            lemma_field_size(c, "record"@);
            if let Some(f) = jget(r, "field_value"@) {
                lemma_field_size(r, "field_value"@);
                lemma_items_size(f);
                lemma_entangle_fields_size(jitems(f), jitems(f).len());
            }
        }
    }
}

} // verus!

verus! {

// ---------------------------------------------------------------------------
// Executable reading of the syntax tree
// ---------------------------------------------------------------------------

pub open spec fn sel_view(s: Seq<(usize, u8)>) -> Seq<(int, u8)> {
    s.map_values(|p: (usize, u8)| (p.0 as int, p.1))
}

/// The argument expression of an entry.
fn arg_exec(fv: &Json) -> (r: Option<&Json>)
    ensures
        opt_view(r) == arg_of(fv@),
{
    let v = fv.get("value");
    match opt_field(v, "expression") {
        Some(x) => Some(x),
        None => v,
    }
}

/// Position of the first entry whose field is `name`.
fn field_pos_exec(fvs: &[Json], name: &str) -> (r: usize)
    ensures
        r == field_pos(jv_seq(fvs@), name@),
{
    broadcast use group_json_view;
    let ghost fv = jv_seq(fvs@);
    proof {
        lemma_field_pos(fv, name@);
    }
    let mut i: usize = 0;
    while i < fvs.len()
        invariant
            fv == jv_seq(fvs@),
            fv.len() == fvs.len(),
            i <= fvs.len(),
            i <= field_pos(fv, name@),
            0 <= field_pos(fv, name@) <= fv.len(),
            field_pos(fv, name@) < fv.len() ==> field_name(fv[field_pos(fv, name@)]) == name@,
            forall|j: int| 0 <= j < field_pos(fv, name@) ==> field_name(#[trigger] fv[j]) != name@,
        decreases fvs.len() - i,
    {
        let f = opt_str(fvs[i].get("field"));
        proof {
            crate::json::lemma_jv_seq_index(fvs@, i as int);
            assert(fv[i as int] == fvs@[i as int]@);
        }
        if crate::text::str_eq(f, name) {
            assert(field_name(fv[i as int]) == name@);
            return i;
        }
        i = i + 1;
    }
    i
}

/// The entries of a record expression.
fn record_entries_exec(x: Option<&Json>) -> (r: Option<&[Json]>)
    ensures
        match r {
            Some(v) => record_entries(opt_view(x)) == Some(jv_seq(v@)),
            None => record_entries(opt_view(x)) is None,
        },
{
    match opt_field(x, "record") {
        Some(rec) => match rec.get("field_value") {
            Some(f) => Some(opt_elements(Some(f))),
            None => None,
        },
        None => None,
    }
}

/// The `expression` given for field `name` in a record expression.
fn struct_field_exec<'b>(x: Option<&'b Json>, name: &str) -> (r: Option<&'b Json>)
    ensures
        match r {
            Some(y) => struct_field(opt_view(x), name@) == Some(y@),
            None => struct_field(opt_view(x), name@) is None,
        },
{
    broadcast use group_json_view;
    match record_entries_exec(x) {
        Some(fvs) => {
            let p = field_pos_exec(fvs, name);
            if p < fvs.len() {
                opt_field(fvs[p].get("value"), "expression")
            } else {
                None
            }
        },
        None => None,
    }
}

/// The expression an element yields in a mode.
fn pick_exec<'b>(item: &'b Json, mode: u8, name: &str) -> (r: Option<&'b Json>)
    ensures
        opt_view(r) == pick(item@, mode, name@),
{
    if mode == PICK_WHOLE {
        Some(item)
    } else if mode == PICK_ARG {
        arg_exec(item)
    } else if mode == PICK_CONDITION {
        item.get("condition")
    } else if mode == PICK_CONSEQUENCE {
        item.get("consequence")
    } else {
        struct_field_exec(item.get("consequence"), name)
    }
}

fn each_sel_exec(n: usize, mode: u8) -> (r: Vec<(usize, u8)>)
    ensures
        sel_view(r@) == each_sel(n as nat, mode),
{
    let mut r: Vec<(usize, u8)> = Vec::new();
    let mut i: usize = 0;
    while i < n
        invariant
            i <= n,
            sel_view(r@) == each_sel(i as nat, mode),
        decreases n - i,
    {
        let ghost before = r@;
        r.push((i, mode));
        assert(sel_view(r@) =~= sel_view(before).push((i as int, mode)));
        i = i + 1;
    }
    r
}

fn branch_sel_exec(n: usize, second: u8) -> (r: Vec<(usize, u8)>)
    ensures
        sel_view(r@) == branch_sel(n as nat, second),
{
    let mut r: Vec<(usize, u8)> = Vec::new();
    let mut i: usize = 0;
    while i < n
        invariant
            i <= n,
            sel_view(r@) == branch_sel(i as nat, second),
        decreases n - i,
    {
        let ghost before = r@;
        r.push((i, PICK_CONDITION));
        r.push((i, second));
        assert(sel_view(r@) =~= sel_view(before).push((i as int, PICK_CONDITION)).push((i as int, second)));
        i = i + 1;
    }
    r
}

proof fn lemma_sel_len(n: nat, mode: u8)
    ensures
        each_sel(n, mode).len() == n,
        branch_sel(n, mode).len() == 2 * n,
    decreases n,
{
    if n > 0 {
        lemma_sel_len((n - 1) as nat, mode);
    }
}

proof fn lemma_indexed_of_bounds(fvs: Seq<JVal>)
    ensures
        forall|j: int| 0 <= j < indexed_of(fvs).len() ==> (#[trigger] indexed_of(fvs)[j]).1 < fvs.len(),
    decreases fvs.len(),
{
    if fvs.len() > 0 {
        lemma_indexed_of_bounds(fvs.drop_last());
        let rest = indexed_of(fvs.drop_last());
        assert forall|j: int| 0 <= j < indexed_of(fvs).len() implies (#[trigger] indexed_of(fvs)[j]).1 < fvs.len() by {
            if j < rest.len() {
                assert(indexed_of(fvs)[j] == rest[j]);
            }
        }
    }
}

pub open spec fn usize_ints(s: Seq<usize>) -> Seq<int> {
    s.map_values(|j: usize| j as int)
}

/// The order in which a call's arguments are translated.
fn call_sel_exec(fvs: &[Json]) -> (r: Vec<(usize, u8)>)
    ensures
        sel_view(r@) == call_sel(jv_seq(fvs@)),
{
    broadcast use group_json_view;
    let ghost fv = jv_seq(fvs@);
    let mut indexed: Vec<(i64, usize)> = Vec::new();
    let mut named: Vec<usize> = Vec::new();
    let mut i: usize = 0;
    while i < fvs.len()
        invariant
            fv == jv_seq(fvs@),
            fv.len() == fvs.len(),
            i <= fvs.len(),
            indexed@ == indexed_of(fv.take(i as int)),
            usize_ints(named@) == named_of(fv.take(i as int)),
        decreases fvs.len() - i,
    {
        let f = fvs[i].get("field");
        proof {
            crate::json::lemma_jv_seq_index(fvs@, i as int);
            assert(fv.take(i + 1).drop_last() =~= fv.take(i as int));
            assert(fv.take(i + 1).last() == fvs@[i as int]@);
        }
        match f {
            Some(Json::Int(k)) => {
                indexed.push((*k, i));
            },
            _ => {
                let ghost before = named@;
                named.push(i);
                assert(usize_ints(named@) =~= usize_ints(before).push(i as int));
            },
        }
        i = i + 1;
    }
    assert(fv.take(i as int) =~= fv);
    let sorted = crate::builtins::sort_pairs_by_key(&indexed);
    let mut r: Vec<(usize, u8)> = Vec::new();
    let mut k: usize = 0;
    while k < sorted.len()
        invariant
            k <= sorted.len(),
            sel_view(r@) == positional_sel(sorted@.take(k as int)),
        decreases sorted.len() - k,
    {
        let ghost before = r@;
        r.push((sorted[k].1, PICK_ARG));
        assert(sel_view(r@) =~= sel_view(before).push((sorted@[k as int].1 as int, PICK_ARG)));
        assert(positional_sel(sorted@.take(k + 1)) =~= positional_sel(sorted@.take(k as int)).push((sorted@[k as int].1 as int, PICK_ARG)));
        k = k + 1;
    }
    assert(sorted@.take(k as int) =~= sorted@);
    let ghost first_part = sel_view(r@);
    let mut m: usize = 0;
    while m < named.len()
        invariant
            m <= named.len(),
            sel_view(r@) == first_part + named_sel(usize_ints(named@.take(m as int))),
        decreases named.len() - m,
    {
        let ghost before = r@;
        r.push((named[m], PICK_ARG));
        assert(sel_view(r@) =~= sel_view(before).push((named@[m as int] as int, PICK_ARG)));
        assert(named_sel(usize_ints(named@.take(m + 1))) =~= named_sel(usize_ints(named@.take(m as int))).push((named@[m as int] as int, PICK_ARG)));
        m = m + 1;
    }
    assert(named@.take(m as int) =~= named@);
    r
}

/// Whether an optional expression is a string literal.
fn is_string_literal_exec(x: Option<&Json>) -> (r: bool)
    ensures
        r == is_string_literal(opt_view(x)),
{
    match opt_field(x, "literal") {
        Some(l) => l.has("the_string"),
        None => false,
    }
}

proof fn lemma_sql_list_none<'a, D: Dialect + ?Sized>(t: &ExprTranslator<'a, D>, items: Seq<JVal>, sel: Seq<(int, u8)>, name: Seq<char>, k: int)
    requires
        0 <= k <= sel.len(),
        t.sql_list(items, sel.take(k), name) is None,
    ensures
        t.sql_list(items, sel, name) is None,
    decreases sel.len() - k,
{
    if k < sel.len() {
        assert(sel.take(k + 1).drop_last() =~= sel.take(k));
        lemma_sql_list_none(t, items, sel, name, k + 1);
    } else {
        assert(sel.take(k) =~= sel);
    }
}

} // verus!

verus! {

pub open spec fn opt_jv(o: Option<&Json>) -> Option<JVal> {
    match o {
        Some(x) => Some(x@),
        None => None,
    }
}

proof fn lemma_insert_by_key_len(s: Seq<(i64, usize)>, x: (i64, usize))
    ensures
        crate::builtins::insert_by_key(s, x).len() == s.len() + 1,
    decreases s.len(),
{
    if s.len() > 0 && s.last().0 > x.0 {
        lemma_insert_by_key_len(s.drop_last(), x);
    }
}

proof fn lemma_sort_len(s: Seq<(i64, usize)>)
    ensures
        sort_by_key(s).len() == s.len(),
    decreases s.len(),
{
    if s.len() > 0 {
        lemma_sort_len(s.drop_last());
        lemma_insert_by_key_len(sort_by_key(s.drop_last()), s.last());
    }
}

proof fn lemma_split_len(fvs: Seq<JVal>)
    ensures
        indexed_of(fvs).len() + named_of(fvs).len() == fvs.len(),
    decreases fvs.len(),
{
    if fvs.len() > 0 {
        lemma_split_len(fvs.drop_last());
    }
}

/// The call's arguments are all translated, each once.
proof fn lemma_call_sel_len(fvs: Seq<JVal>)
    ensures
        call_sel(fvs).len() == fvs.len(),
        sort_by_key(indexed_of(fvs)).len() <= fvs.len(),
{
    lemma_split_len(fvs);
    lemma_sort_len(indexed_of(fvs));
}

proof fn lemma_sql_list_len<'a, D: Dialect + ?Sized>(t: &ExprTranslator<'a, D>, items: Seq<JVal>, sel: Seq<(int, u8)>, name: Seq<char>)
    ensures
        t.sql_list(items, sel, name) matches Some(v) ==> v.len() == sel.len(),
    decreases sel.len(),
{
    if sel.len() > 0 {
        lemma_sql_list_len(t, items, sel.drop_last(), name);
    }
}

/// Text of a number literal.
fn number_text_exec(n: &Json) -> (r: String)
    ensures
        r@ == number_text(n@),
{
    match n {
        Json::Int(i) => crate::text::int_to_string(*i),
        Json::Object(_) => match n.get("number") {
            Some(x) => x.as_str().to_string(),
            None => n.to_text(),
        },
        _ => n.to_text(),
    }
}

/// Value of a string literal.
fn string_value_exec(s: &Json) -> (r: &str)
    ensures
        r@ == string_value(s@),
{
    proof {
        reveal_strlit("");
    }
    match s {
        Json::Str(v) => v.as_str(),
        Json::Object(_) => match s.get("the_string") {
            Some(x) => x.as_str(),
            None => "",
        },
        _ => "",
    }
}

/// SQL of a boolean literal.
fn bool_text_exec(b: &Json) -> (r: String)
    ensures
        r@ == bool_text(b@),
{
    let v: &str = match b {
        Json::Str(v) => v.as_str(),
        Json::Object(_) => match b.get("the_bool") {
            Some(x) => x.as_str(),
            None => "false",
        },
        _ => "false",
    };
    if crate::text::str_eq(v, "true") {
        "true".to_string()
    } else {
        "false".to_string()
    }
}

/// `CASE WHEN .. THEN .. [ELSE ..] END`.
fn case_text_exec(args: &Vec<String>, otherwise: Option<&str>) -> (r: String)
    ensures
        r@ == case_text(crate::builtins::views(args@), match otherwise {
            Some(o) => Some(o@),
            None => None,
        }),
{
    let ghost av = crate::builtins::views(args@);
    let mut out: Vec<char> = Vec::new();
    crate::text::extend_str(&mut out, "CASE");
    let k_max = args.len() / 2;
    let mut k: usize = 0;
    while k < k_max
        invariant
            k <= k_max,
            k_max == args.len() / 2,
            av == crate::builtins::views(args@),
            av.len() == args.len(),
            out@ == "CASE"@ + when_clauses(av, k as nat),
        decreases k_max - k,
    {
        let ghost before = out@;
        crate::text::extend_str(&mut out, " WHEN ");
        crate::text::extend_str(&mut out, args[2 * k].as_str());
        crate::text::extend_str(&mut out, " THEN ");
        crate::text::extend_str(&mut out, args[2 * k + 1].as_str());
        k = k + 1;
        assert(out@ =~= "CASE"@ + when_clauses(av, k as nat));
    }
    match otherwise {
        Some(o) => {
            crate::text::extend_str(&mut out, " ELSE ");
            crate::text::extend_str(&mut out, o);
        },
        None => {},
    }
    crate::text::extend_str(&mut out, " END");
    proof {
        reveal_strlit("");
    }
    assert(out@ =~= case_text(av, match otherwise {
        Some(o) => Some(o@),
        None => None,
    }));
    crate::text::string_of(&out)
}

/// `name(a, b, ..)`.
fn call_text_exec(name: &str, args: &Vec<String>) -> (r: String)
    ensures
        r@ == call_text(name@, crate::builtins::views(args@)),
{
    let joined = crate::text::join_strings(args, ", ");
    assert(crate::builtins::views(args@) =~= args@.map_values(|p: String| p@));
    crate::text::concat4(name, "(", joined.as_str(), ")")
}

/// The user predicate's value from its table.
fn user_predicate_exec(value_field: &str, table: &str, args: &Vec<String>) -> (r: String)
    ensures
        r@ == user_predicate_text(value_field@, table@, crate::builtins::views(args@)),
{
    if args.len() == 0 {
        crate::text::concat5("(SELECT ", value_field, " FROM ", table, ")")
    } else {
        let mut conds: Vec<String> = Vec::new();
        let mut i: usize = 0;
        let ghost av = crate::builtins::views(args@);
        while i < args.len()
            invariant
                i <= args.len(),
                av == crate::builtins::views(args@),
                crate::builtins::views(conds@) == column_conditions(av).take(i as int),
            decreases args.len() - i,
        {
            let num = crate::text::usize_to_string(i);
            let c = crate::text::concat4("col", num.as_str(), " = ", args[i].as_str());
            let ghost before = conds@;
            conds.push(c);
            assert(crate::builtins::views(conds@) =~= crate::builtins::views(before).push(c@));
            assert(c@ == column_conditions(av)[i as int]);
            assert(crate::builtins::views(conds@) =~= column_conditions(av).take(i + 1));
            i = i + 1;
        }
        assert(column_conditions(av).take(i as int) =~= column_conditions(av));
        let joined = crate::text::join_strings(&conds, " AND ");
        assert(crate::builtins::views(conds@) =~= conds@.map_values(|p: String| p@));
        let head = crate::text::concat5("(SELECT ", value_field, " FROM ", table, " WHERE ");
        crate::text::concat3(head.as_str(), joined.as_str(), ")")
    }
}

/// An infix template applied to two operands, in parentheses.
fn infix_text_exec(t: &str, args: &Vec<String>) -> (r: String)
    requires
        args.len() == 2,
    ensures
        r@ == infix_text(t@, crate::builtins::views(args@)),
{
    proof {
        reveal_strlit("{left}");
        reveal_strlit("{right}");
    }
    let inner = if crate::text::contains_str(t, "{left}") || crate::text::contains_str(t, "{right}") {
        let a = crate::text::replace_str(t, "{left}", args[0].as_str());
        crate::text::replace_str(a.as_str(), "{right}", args[1].as_str())
    } else {
        crate::builtins::apply_template(t, args.as_slice())
    };
    crate::text::concat3("(", inner.as_str(), ")")
}

/// A quoted text without its quotes.
fn unquoted_exec(s: &str) -> (r: String)
    ensures
        r@ == unquoted(s@),
{
    let sc = crate::text::chars_of(s);
    let t: String = if sc.len() > 0 && sc[0] == 'E' {
        let mut rest: Vec<char> = Vec::new();
        let mut i: usize = 1;
        while i < sc.len()
            invariant
                1 <= i <= sc.len(),
                rest@ == sc@.subrange(1, i as int),
            decreases sc.len() - i,
        {
            rest.push(sc[i]);
            i = i + 1;
            assert(rest@ =~= sc@.subrange(1, i as int));
        }
        assert(rest@ =~= s@.drop_first());
        crate::text::string_of(&rest)
    } else {
        s.to_string()
    };
    let a = crate::text::trim_char_str(t.as_str(), '\'');
    crate::text::trim_char_str(a.as_str(), '"')
}

fn unquoted_plain_exec(s: &str) -> (r: String)
    ensures
        r@ == unquoted_plain(s@),
{
    let a = crate::text::trim_char_str(s, '\'');
    crate::text::trim_char_str(a.as_str(), '"')
}

/// `t` with `{key}` replaced for each of the first `n` names.
fn replace_named_exec(t: &str, keys: &Vec<String>, vals: &Vec<String>, n: usize) -> (r: String)
    requires
        n <= keys.len(),
        n <= vals.len(),
    ensures
        r@ == replace_named(t@, crate::builtins::views(keys@), crate::builtins::views(vals@), n as nat),
{
    let mut acc = t.to_string();
    let mut i: usize = 0;
    proof {
        reveal_strlit("{");
        reveal_strlit("}");
    }
    while i < n
        invariant
            i <= n,
            n <= keys.len(),
            n <= vals.len(),
            acc@ == replace_named(t@, crate::builtins::views(keys@), crate::builtins::views(vals@), i as nat),
        decreases n - i,
    {
        proof {
            reveal_strlit("{");
            reveal_strlit("}");
        }
        let marker = crate::text::concat3("{", keys[i].as_str(), "}");
        acc = crate::text::replace_str(acc.as_str(), marker.as_str(), vals[i].as_str());
        i = i + 1;
    }
    acc
}

/// `SqlExpr` text from the translated template and arguments.
fn sql_expr_exec(args: &Vec<String>, keys: &Vec<String>) -> (r: String)
    requires
        args.len() >= 1,
    ensures
        r@ == sql_expr_text(crate::builtins::views(args@), crate::builtins::views(keys@)),
{
    let ghost av = crate::builtins::views(args@);
    let nk = keys.len();
    let pc: usize = if args.len() - 1 > nk { args.len() - 1 - nk } else { 0 };
    let unq = unquoted_exec(args[0].as_str());
    let mut positional: Vec<String> = Vec::new();
    let mut i: usize = 0;
    while i < pc
        invariant
            i <= pc,
            1 + pc <= args.len(),
            av == crate::builtins::views(args@),
            crate::builtins::views(positional@) == av.subrange(1, 1 + i),
        decreases pc - i,
    {
        let ghost before = positional@;
        positional.push(args[1 + i].clone());
        assert(crate::builtins::views(positional@) =~= crate::builtins::views(before).push(av[1 + i]));
        i = i + 1;
        assert(crate::builtins::views(positional@) =~= av.subrange(1, 1 + i));
    }
    let r1 = crate::builtins::replace_indexed_exec(unq.as_str(), &positional, pc);
    let mut named: Vec<String> = Vec::new();
    let mut j: usize = 1 + pc;
    while j < args.len()
        invariant
            1 + pc <= j <= args.len(),
            av == crate::builtins::views(args@),
            crate::builtins::views(named@) == av.subrange(1 + pc, j as int),
        decreases args.len() - j,
    {
        let ghost before = named@;
        named.push(args[j].clone());
        assert(crate::builtins::views(named@) =~= crate::builtins::views(before).push(av[j as int]));
        j = j + 1;
        assert(crate::builtins::views(named@) =~= av.subrange(1 + pc, j as int));
    }
    let n = if nk < named.len() { nk } else { named.len() };
    replace_named_exec(r1.as_str(), keys, &named, n)
}

/// `arg` and `value` of an arrow record's first entries.
fn arrow_fields_exec(fvs: &[Json]) -> (r: (Option<&Json>, Option<&Json>))
    ensures
        (opt_jv(r.0), opt_jv(r.1)) == arrow_fields(jv_seq(fvs@), fvs@.len() as nat),
{
    broadcast use group_json_view;
    let ghost fv = jv_seq(fvs@);
    let mut a: Option<&Json> = None;
    let mut v: Option<&Json> = None;
    let mut i: usize = 0;
    while i < fvs.len()
        invariant
            fv == jv_seq(fvs@),
            fv.len() == fvs.len(),
            i <= fvs.len(),
            (opt_jv(a), opt_jv(v)) == arrow_fields(fv, i as nat),
        decreases fvs.len() - i,
    {
        proof {
            crate::json::lemma_jv_seq_index(fvs@, i as int);
            assert(fv[i as int] == fvs@[i as int]@);
            reveal_strlit("");
        }
        let field = opt_str(fvs[i].get("field"));
        assert(field@ == match jget(fv[i as int], "field"@) {
            Some(f) => jstr(f),
            None => ""@,
        });
        match fvs[i].get("value") {
            Some(val) => {
                let x = match val.get("expression") {
                    Some(y) => y,
                    None => val,
                };
                if crate::text::str_eq(field, "arg") {
                    a = Some(x);
                } else if crate::text::str_eq(field, "value") {
                    v = Some(x);
                }
            },
            None => {},
        }
        i = i + 1;
    }
    (a, v)
}

fn arrow_record_exec(x: &Json) -> (r: (Option<&Json>, Option<&Json>))
    ensures
        (opt_jv(r.0), opt_jv(r.1)) == arrow_record(x@),
{
    match x.get("record") {
        Some(rec) => match rec.get("field_value") {
            Some(f) => {
                let items = opt_elements(Some(f));
                proof {
                    crate::json::lemma_jv_seq_len(items@);
                }
                arrow_fields_exec(items)
            },
            None => (None, None),
        },
        None => (None, None),
    }
}

fn entangle_fields_exec(fvs: &[Json]) -> (r: (Option<&Json>, Option<&Json>, Option<&Json>))
    ensures
        (opt_jv(r.0), opt_jv(r.1), opt_jv(r.2)) == entangle_fields(jv_seq(fvs@), fvs@.len() as nat),
{
    broadcast use group_json_view;
    let ghost fv = jv_seq(fvs@);
    let mut a: Option<&Json> = None;
    let mut v: Option<&Json> = None;
    let mut c: Option<&Json> = None;
    let mut i: usize = 0;
    while i < fvs.len()
        invariant
            fv == jv_seq(fvs@),
            fv.len() == fvs.len(),
            i <= fvs.len(),
            (opt_jv(a), opt_jv(v), opt_jv(c)) == entangle_fields(fv, i as nat),
        decreases fvs.len() - i,
    {
        proof {
            crate::json::lemma_jv_seq_index(fvs@, i as int);
        }
        assert(fv[i as int] == fvs@[i as int]@);
        let idx: Option<i64> = match fvs[i].get("field") {
            Some(Json::Int(k)) => Some(*k),
            _ => None,
        };
        match fvs[i].get("value") {
            Some(val) => {
                let x = match val.get("expression") {
                    Some(y) => y,
                    None => val,
                };
                if idx == Some(0i64) {
                    let (a2, v2) = arrow_record_exec(x);
                    a = a2;
                    v = v2;
                } else if idx == Some(1i64) {
                    c = Some(x);
                }
            },
            None => {},
        }
        i = i + 1;
    }
    (a, v, c)
}

/// `arg`, `value` and correlation of an arrow argument.
fn arrow_parts_exec(first: Option<&Json>) -> (r: (Option<&Json>, Option<&Json>, Option<&Json>))
    ensures
        (opt_jv(r.0), opt_jv(r.1), opt_jv(r.2)) == arrow_parts(opt_view(first)),
{
    match first {
        Some(f) => {
            if f.has("record") {
                let (a, v) = arrow_record_exec(f);
                (a, v, None)
            } else if let Some(c) = f.get("call") {
                let is_entangle = match c.get("predicate_name") {
                    Some(p) => crate::text::str_eq(p.as_str(), "MagicalEntangle"),
                    None => false,
                };
                if is_entangle {
                    match c.get("record") {
                        Some(rec) => match rec.get("field_value") {
                            Some(fl) => {
                                let items = opt_elements(Some(fl));
                                proof {
                                    crate::json::lemma_jv_seq_len(items@);
                                }
                                entangle_fields_exec(items)
                            },
                            None => (None, None, None),
                        },
                        None => (None, None, None),
                    }
                } else {
                    (None, None, None)
                }
            } else {
                (None, None, None)
            }
        },
        None => (None, None, None),
    }
}

/// Positional arguments of a call, sorted by position.
fn sorted_positional(fvs: &[Json]) -> (r: Vec<(i64, usize)>)
    ensures
        r@ == sort_by_key(indexed_of(jv_seq(fvs@))),
{
    broadcast use group_json_view;
    let ghost fv = jv_seq(fvs@);
    let mut indexed: Vec<(i64, usize)> = Vec::new();
    let mut i: usize = 0;
    while i < fvs.len()
        invariant
            fv == jv_seq(fvs@),
            fv.len() == fvs.len(),
            i <= fvs.len(),
            indexed@ == indexed_of(fv.take(i as int)),
        decreases fvs.len() - i,
    {
        let f = fvs[i].get("field");
        proof {
            crate::json::lemma_jv_seq_index(fvs@, i as int);
            assert(fv.take(i + 1).drop_last() =~= fv.take(i as int));
            assert(fv.take(i + 1).last() == fvs@[i as int]@);
        }
        match f {
            Some(Json::Int(k)) => {
                indexed.push((*k, i));
            },
            _ => {},
        }
        i = i + 1;
    }
    assert(fv.take(i as int) =~= fv);
    crate::builtins::sort_pairs_by_key(&indexed)
}

/// The subscript name when it is written literally.
fn subscript_name_exec(sub: Option<&Json>) -> (r: Option<String>)
    ensures
        match r {
            Some(s) => subscript_name(opt_view(sub)) == Some(s@),
            None => subscript_name(opt_view(sub)) is None,
        },
{
    match sub {
        Some(sj) => if sj.is_object() {
            match sj.get("literal") {
                Some(lit) => if let Some(s) = lit.get("the_string") {
                    Some(s.as_str().to_string())
                } else if let Some(nm) = lit.get("the_number") {
                    Some(crate::text::int_to_string(nm.as_int()))
                } else if let Some(sym) = lit.get("the_symbol") {
                    Some(opt_str(sym.get("symbol")).to_string())
                } else {
                    None
                },
                None => None,
            }
        } else {
            Some(sj.as_str().to_string())
        },
        None => {
            proof {
                reveal_strlit("");
            }
            Some("".to_string())
        },
    }
}

} // verus!

verus! {

fn err(message: &str) -> (r: CompileResult<String>)
    ensures
        r is Err,
{
    Err(CompileError::new(message, ""))
}

impl<'a, D: Dialect + ?Sized> ExprTranslator<'a, D> {
    pub fn new(vocabulary: StrMap, dialect: &'a D, flag_values: &'a StrMap) -> (r: ExprTranslator<'a, D>)
        ensures
            r.vocabulary@ == vocabulary@,
            r.dialect == dialect,
            r.flag_values == flag_values,
            r.subquery_translator is None,
            r.value_field@ == "logica_value"@,
            r.wf(),
    {
        Self::new_with_value_field(vocabulary, dialect, flag_values, "logica_value")
    }

    /// A translator whose predicate tables hold their values in column `value_field`.
    pub fn new_with_value_field(
        vocabulary: StrMap,
        dialect: &'a D,
        flag_values: &'a StrMap,
        value_field: &'static str,
    ) -> (r: ExprTranslator<'a, D>)
        ensures
            r.vocabulary@ == vocabulary@,
            r.dialect == dialect,
            r.flag_values == flag_values,
            r.subquery_translator is None,
            r.value_field == value_field,
            r.wf(),
    {
        let functions = crate::builtins::function_table(dialect);
        let infix = crate::builtins::infix_table(dialect);
        ExprTranslator {
            vocabulary,
            dialect,
            built_in_functions: functions,
            built_in_infix_operators: infix,
            flag_values,
            subquery_translator: None,
            value_field,
        }
    }

    /// Template of a function, unless it is absent or disabled.
    fn function_lookup(&self, name: &str) -> (r: Option<String>)
        requires
            self.wf(),
        ensures
            match r {
                Some(t) => function_template(self.engine(), name@) == Some(t@),
                None => function_template(self.engine(), name@) is None,
            },
    {
        assert(sm_get(self.built_in_functions@, name@) == layered_function(self.dialect.kind(), name@));
        match self.built_in_functions.get(name) {
            Some(t) => if t.as_str().unicode_len() > 0 { Some(t.clone()) } else { None },
            None => None,
        }
    }

    /// Template of an infix operator, unless it is absent or disabled.
    fn infix_lookup(&self, op: &str) -> (r: Option<String>)
        requires
            self.wf(),
        ensures
            match r {
                Some(t) => infix_template(self.engine(), op@) == Some(t@),
                None => infix_template(self.engine(), op@) is None,
            },
    {
        assert(sm_get(self.built_in_infix_operators@, op@) == layered_infix(self.dialect.kind(), op@));
        match self.built_in_infix_operators.get(op) {
            Some(t) => if t.as_str().unicode_len() > 0 { Some(t.clone()) } else { None },
            None => None,
        }
    }

    /// Convert a Logica expression to an SQL string.
    pub fn convert_to_sql(&self, expression: &Json) -> (r: CompileResult<String>)
        requires
            self.wf(),
        ensures
            res_is(r, self.sql_of(expression@)),
        decreases jsize(expression@), 3nat,
    {
        let e = expression;
        if !e.is_object() {
            let t = e.to_text();
            let m = crate::text::concat2("Expected object expression, got: ", t.as_str());
            return err(m.as_str());
        }
        if let Some(var) = e.get("variable") {
            let name = opt_str(var.get("var_name"));
            return match self.vocabulary.get(name) {
                Some(s) => Ok(s.clone()),
                None => {
                    let m = crate::text::concat2("Undefined variable: ", name);
                    Err(CompileError::new(m.as_str(), name))
                },
            };
        }
        if e.has("literal") {
            return self.convert_literal(e);
        }
        if e.has("call") {
            return self.convert_call(e);
        }
        if let Some(rec) = e.get("record") {
            proof {
                lemma_field_size(e@, "record"@);
            }
            return self.convert_record(rec);
        }
        if e.has("subscript") {
            return self.convert_subscript(e);
        }
        if e.has("implication") {
            return self.convert_implication(e);
        }
        if let Some(agg) = e.get("aggregation") {
            if let Some(inner) = agg.get("expression") {
                proof {
                    lemma_field_size(e@, "aggregation"@);
                    lemma_field_size(agg@, "expression"@);
                }
                return self.convert_to_sql(inner);
            }
        }
        if let Some(c) = e.get("combine") {
            return self.convert_combine(c);
        }
        err("Unknown expression type")
    }

    /// Translate the expressions that `sel` picks from `items`.
    fn convert_list(&self, items: &[Json], sel: &Vec<(usize, u8)>, name: &str) -> (r: Result<Vec<String>, CompileError>)
        requires
            self.wf(),
        ensures
            match r {
                Ok(v) => self.sql_list(jv_seq(items@), sel_view(sel@), name@) == Some(crate::builtins::views(v@)),
                Err(_) => self.sql_list(jv_seq(items@), sel_view(sel@), name@) is None,
            },
        decreases seq_size(jv_seq(items@)), sel@.len(),
    {
        broadcast use group_json_view;
        let ghost iv = jv_seq(items@);
        let ghost sv = sel_view(sel@);
        let mut out: Vec<String> = Vec::new();
        let mut k: usize = 0;
        assert(sv.take(0) =~= Seq::<(int, u8)>::empty());
        while k < sel.len()
            invariant
                self.wf(),
                iv == jv_seq(items@),
                iv.len() == items@.len(),
                sv == sel_view(sel@),
                sv.len() == sel@.len(),
                k <= sel.len(),
                self.sql_list(iv, sv.take(k as int), name@) == Some(crate::builtins::views(out@)),
            decreases sel.len() - k,
        {
            let (i, m) = sel[k];
            assert(sv.take(k + 1).drop_last() =~= sv.take(k as int));
            assert(sv.take(k + 1).last() == (i as int, m));
            if i >= items.len() {
                proof {
                    lemma_sql_list_none(self, iv, sv, name@, k + 1);
                }
                return Err(CompileError::new("Argument out of range", ""));
            }
            proof {
                crate::json::lemma_jv_seq_index(items@, i as int);
                lemma_item_size(iv, i as int);
                lemma_pick_size(iv[i as int], m, name@);
            }
            let x = pick_exec(&items[i], m, name);
            let s = match x {
                Some(xe) => self.convert_to_sql(xe),
                None => err("Missing expression"),
            };
            match s {
                Ok(v) => {
                    let ghost before = out@;
                    out.push(v);
                    assert(crate::builtins::views(out@) =~= crate::builtins::views(before).push(v@));
                },
                Err(er) => {
                    proof {
                        lemma_sql_list_none(self, iv, sv, name@, k + 1);
                    }
                    return Err(er);
                },
            }
            k = k + 1;
        }
        assert(sv.take(k as int) =~= sv);
        Ok(out)
    }

    /// SQL of an array of translated elements.
    fn array_sql_exec(&self, args: &Vec<String>) -> (r: String)
        ensures
            r@ == array_sql(self.engine(), crate::builtins::views(args@)),
    {
        if args.len() == 0 {
            self.dialect.empty_array_literal()
        } else {
            let ap = self.dialect.array_phrase();
            let items = crate::text::join_strings(args, ", ");
            assert(crate::builtins::views(args@) =~= args@.map_values(|p: String| p@));
            proof {
                reveal_strlit("%s");
            }
            if crate::text::contains_str(ap, "%s") {
                crate::text::replace_str(ap, "%s", items.as_str())
            } else if ap.unicode_len() == 0 {
                crate::text::concat3("[", items.as_str(), "]")
            } else {
                crate::text::concat4(ap, "(", items.as_str(), ")")
            }
        }
    }

    fn convert_literal(&self, e: &Json) -> (r: CompileResult<String>)
        requires
            self.wf(),
        ensures
            res_is(r, self.literal_sql(e@)),
        decreases jsize(e@), 2nat,
    {
        broadcast use group_json_view;
        let lo = e.get("literal");
        if !e.is_object() {
            return err("Expected an object");
        }
        if let Some(n) = opt_field(lo, "the_number") {
            return Ok(number_text_exec(n));
        }
        if let Some(s) = opt_field(lo, "the_string") {
            return Ok(self.dialect.str_literal(string_value_exec(s)));
        }
        if let Some(b) = opt_field(lo, "the_bool") {
            return Ok(bool_text_exec(b));
        }
        if opt_field(lo, "the_null").is_some() || opt_field(lo, "null").is_some() {
            return Ok("null".to_string());
        }
        if let Some(l) = opt_field(lo, "the_list") {
            return match l.get("element") {
                Some(el) => {
                    let items = opt_elements(Some(el));
                    proof {
                        lemma_field_size(e@, "literal"@);
                        lemma_field_size(opt_view(lo), "the_list"@);
                        lemma_field_size(l@, "element"@);
                        lemma_items_size(el@);
                        crate::json::lemma_jv_seq_len(items@);
                    }
                    let sel = each_sel_exec(items.len(), PICK_WHOLE);
                    proof {
                        reveal_strlit("");
                    }
                    match self.convert_list(items, &sel, "") {
                        Ok(args) => Ok(self.array_sql_exec(&args)),
                        Err(er) => Err(er),
                    }
                },
                None => Ok(self.dialect.empty_array_literal()),
            };
        }
        if let Some(p) = opt_field(lo, "the_predicate") {
            return Ok(self.dialect.predicate_literal(opt_str(p.get("predicate_name"))));
        }
        if let Some(rec) = opt_field(lo, "the_record") {
            proof {
                lemma_field_size(e@, "literal"@);
                lemma_field_size(opt_view(lo), "the_record"@);
            }
            return self.convert_record(rec);
        }
        if let Some(sym) = opt_field(lo, "the_symbol") {
            return Ok(opt_str(sym.get("symbol")).to_string());
        }
        err("Unknown literal type")
    }

    #[verifier::rlimit(60)]
    fn convert_record(&self, rec: &Json) -> (r: CompileResult<String>)
        requires
            self.wf(),
        ensures
            res_is(r, self.record_sql(rec@)),
        decreases jsize(rec@), 4nat,
    {
        broadcast use group_json_view;
        let fvs = opt_elements(rec.get("field_value"));
        proof {
            lemma_field_size(rec@, "field_value"@);
            lemma_items_size(jfield(rec@, "field_value"@));
            crate::json::lemma_jv_seq_len(fvs@);
            reveal_strlit("");
        }
        let ghost fv = jv_seq(fvs@);
        let sel = each_sel_exec(fvs.len(), PICK_ARG);
        let args = match self.convert_list(fvs, &sel, "") {
            Ok(a) => a,
            Err(er) => return Err(er),
        };
        proof {
            lemma_sql_list_len(self, fv, sel_view(sel@), ""@);
            lemma_sel_len(fvs@.len() as nat, PICK_ARG);
        }
        let ghost av = crate::builtins::views(args@);
        let mut pairs: Vec<(&str, &str)> = Vec::new();
        let mut i: usize = 0;
        while i < args.len()
            invariant
                fv == jv_seq(fvs@),
                fv.len() == fvs@.len(),
                args@.len() == fvs@.len(),
                av == crate::builtins::views(args@),
                i <= args.len(),
                pairs@.map_values(|f: (&str, &str)| (f.0@, f.1@)) == zip_fields(field_names(fv), av).take(i as int),
            decreases args.len() - i,
        {
            proof {
                crate::json::lemma_jv_seq_index(fvs@, i as int);
            }
            let f = opt_str(fvs[i].get("field"));
            let ghost before = pairs@;
            pairs.push((f, args[i].as_str()));
            assert(pairs@.map_values(|f: (&str, &str)| (f.0@, f.1@)) =~= before.map_values(|f: (&str, &str)| (f.0@, f.1@)).push((field_name(fv[i as int]), av[i as int])));
            assert(pairs@.map_values(|f: (&str, &str)| (f.0@, f.1@)) =~= zip_fields(field_names(fv), av).take(i + 1));
            i = i + 1;
        }
        assert(zip_fields(field_names(fv), av).take(i as int) =~= zip_fields(field_names(fv), av));
        Ok(self.dialect.record_literal(pairs.as_slice()))
    }

    fn convert_combine(&self, c: &Json) -> (r: CompileResult<String>)
        ensures
            res_is(r, self.combine_sql(c@)),
    {
        match self.subquery_translator {
            None => err("Combine expressions require a subquery translator"),
            Some(st) => match st.translate_rule(c, &self.vocabulary, true) {
                Ok(s) => {
                    if self.dialect.engine() == Engine::Psql {
                        if let Some(ty) = st.combine_psql_type(c) {
                            return Ok(crate::text::concat5("CAST((", s.as_str(), ") AS ", ty.as_str(), ")"));
                        }
                    }
                    Ok(crate::text::concat3("(", s.as_str(), ")"))
                },
                Err(er) => Err(er),
            },
        }
    }

    fn convert_implication(&self, e: &Json) -> (r: CompileResult<String>)
        requires
            self.wf(),
        ensures
            res_is(r, self.implication_sql(e@)),
        decreases jsize(e@), 2nat,
    {
        broadcast use group_json_view;
        let io = e.get("implication");
        let its = opt_elements(opt_field(io, "if_then"));
        proof {
            lemma_field_size(e@, "implication"@);
            lemma_field_size(opt_view(io), "if_then"@);
            lemma_items_size(jfield(opt_view(io), "if_then"@));
            lemma_field_size(opt_view(io), "otherwise"@);
            crate::json::lemma_jv_seq_len(its@);
            reveal_strlit("");
        }
        if !e.is_object() {
            return err("Expected an object");
        }
        let sel = branch_sel_exec(its.len(), PICK_CONSEQUENCE);
        let args = match self.convert_list(its, &sel, "") {
            Ok(a) => a,
            Err(er) => return Err(er),
        };
        match opt_field(io, "otherwise") {
            Some(o) => match self.convert_to_sql(o) {
                Ok(os) => Ok(case_text_exec(&args, Some(os.as_str()))),
                Err(er) => Err(er),
            },
            None => Ok(case_text_exec(&args, None)),
        }
    }
}

} // verus!

verus! {

/// Whether the branches of an implication give field `name`.
fn branches_give_field_exec(imp: &Json, name: &str) -> (r: bool)
    ensures
        r == branches_give_field(imp@, name@),
{
    broadcast use group_json_view;
    if !imp.has("if_then") || !imp.has("otherwise") {
        return false;
    }
    let its = opt_elements(imp.get("if_then"));
    let ghost iv = jv_seq(its@);
    let mut i: usize = 0;
    while i < its.len()
        invariant
            iv == jv_seq(its@),
            iv.len() == its@.len(),
            iv == jitems(jfield(imp@, "if_then"@)),
            i <= its.len(),
            forall|j: int| 0 <= j < i ==> {
                &&& #[trigger] jget(iv[j], "consequence"@) is Some
                &&& has_key(jfield(iv[j], "consequence"@), "record"@)
                &&& struct_field(jfield(iv[j], "consequence"@), name@) is Some
            },
        decreases its.len() - i,
    {
        proof {
            crate::json::lemma_jv_seq_index(its@, i as int);
        }
        let c = its[i].get("consequence");
        let ok = match c {
            Some(cj) => cj.has("record") && struct_field_exec(Some(cj), name).is_some(),
            None => false,
        };
        if !ok {
            assert(!{
                &&& jget(iv[i as int], "consequence"@) is Some
                &&& has_key(jfield(iv[i as int], "consequence"@), "record"@)
                &&& struct_field(jfield(iv[i as int], "consequence"@), name@) is Some
            });
            return false;
        }
        i = i + 1;
    }
    let other = imp.get("otherwise");
    match other {
        Some(o) => o.has("record") && struct_field_exec(Some(o), name).is_some(),
        None => false,
    }
}

/// Whether a subscripted record is a variable bound to a whole table.
fn record_is_table_exec(vocab: &StrMap, rec: Option<&Json>) -> (r: bool)
    ensures
        r == record_is_table(vocab@, opt_view(rec)),
{
    match opt_field(rec, "variable") {
        Some(v) => match vocab.get(opt_str(v.get("var_name"))) {
            Some(s) => {
                let sc = crate::text::chars_of(s.as_str());
                !crate::text::contains_char_exec(&sc, '.')
            },
            None => false,
        },
        None => false,
    }
}

impl<'a, D: Dialect + ?Sized> ExprTranslator<'a, D> {
    #[verifier::rlimit(60)]
    fn expand_list_exec(&self, x: &Json) -> (r: CompileResult<String>)
        requires
            self.wf(),
        ensures
            res_is(r, self.expand_list(x@)),
        decreases jsize(x@), 4nat,
    {
        broadcast use group_json_view;
        match x.get("literal") {
            Some(lit) => match lit.get("the_list") {
                Some(t) => match t.get("element") {
                    Some(el) => {
                        let items = opt_elements(Some(el));
                        proof {
                            lemma_field_size(x@, "literal"@);
                            lemma_field_size(lit@, "the_list"@);
                            lemma_field_size(t@, "element"@);
                            lemma_items_size(el@);
                            crate::json::lemma_jv_seq_len(items@);
                            reveal_strlit("");
                        }
                        assert(list_literal_elements(x@) == Some(Some(el@)));
                        let sel = each_sel_exec(items.len(), PICK_WHOLE);
                        assert(jv_seq(items@) == jitems(el@));
                        assert(sel_view(sel@) == each_sel(jitems(el@).len(), PICK_WHOLE));
                        match self.convert_list(items, &sel, "") {
                            Ok(args) => {
                                assert(crate::builtins::views(args@) =~= args@.map_values(|p: String| p@));
                                let j = crate::text::join_strings(&args, ", ");
                                assert(self.sql_list(jitems(el@), each_sel(jitems(el@).len(), PICK_WHOLE), ""@) == Some(crate::builtins::views(args@)));
                                assert(self.expand_list(x@) == Some(j@));
                                Ok(j)
                            },
                            Err(er) => {
                                assert(self.expand_list(x@) is None);
                                Err(er)
                            },
                        }
                    },
                    None => {
                        proof {
                            reveal_strlit("");
                        }
                        assert(list_literal_elements(x@) == Some(None::<JVal>));
                        let r = "".to_string();
                        assert(r@ == Seq::<char>::empty());
                        assert(self.expand_list(x@) == Some(r@));
                        Ok(r)
                    },
                },
                None => {
                    assert(list_literal_elements(x@) is None);
                    assert(self.expand_list(x@) == self.sql_of(x@));
                    self.convert_to_sql(x)
                },
            },
            None => {
                assert(list_literal_elements(x@) is None);
                assert(self.expand_list(x@) == self.sql_of(x@));
                self.convert_to_sql(x)
            },
        }
    }

    #[verifier::rlimit(60)]
    fn convert_analytic(&self, e: &Json) -> (r: CompileResult<String>)
        requires
            self.wf(),
            is_analytic(jstr(jfield(jfield(e@, "call"@), "predicate_name"@))),
        ensures
            res_is(r, self.analytic_sql(e@)),
        decreases jsize(e@), 1nat,
    {
        broadcast use group_json_view;
        let co = e.get("call");
        let pred = opt_str(opt_field(co, "predicate_name"));
        let fvs = opt_elements(opt_field(opt_field(co, "record"), "field_value"));
        let ghost fv = jv_seq(fvs@);
        proof {
            crate::json::lemma_jv_seq_len(fvs@);
            reveal_strlit("Window");
        }
        assert(fv == call_entries(jfield(e@, "call"@)));
        assert(pred@ == jstr(jfield(jfield(e@, "call"@), "predicate_name"@)));
        let window = crate::text::starts_with_str(pred, "Window");
        let expected: usize = if window { 4 } else { 3 };
        if !e.is_object() || fvs.len() != expected {
            return err("Wrong number of arguments for an analytic function");
        }
        let mut k: usize = 0;
        while k < expected
            invariant
                fv == jv_seq(fvs@),
                fv == call_entries(jfield(e@, "call"@)),
                fv.len() == fvs@.len(),
                expected == fvs@.len(),
                k <= expected,
                forall|j: int| 0 <= j < k ==> #[trigger] analytic_arg(fv[j]) is Some,
            decreases expected - k,
        {
            proof {
                crate::json::lemma_jv_seq_index(fvs@, k as int);
            }
            if opt_field(fvs[k].get("value"), "expression").is_none() {
                assert(analytic_arg(fv[k as int]) is None);
                assert(analytic_arg(call_entries(jfield(e@, "call"@))[k as int]) is None);
                return err("Missing argument of an analytic function");
            }
            k = k + 1;
        }
        proof {
            lemma_call_entries_size(e@);
            assert forall|i: int| 0 <= i < fv.len() implies jsize(analytic_arg(fv[i])->0) < jsize(e@) by {
                lemma_item_size(fv, i);
                lemma_field_size(fv[i], "value"@);
                lemma_field_size(jfield(fv[i], "value"@), "expression"@);
            }
            crate::json::lemma_jv_seq_index(fvs@, 0);
            crate::json::lemma_jv_seq_index(fvs@, 1);
            crate::json::lemma_jv_seq_index(fvs@, 2);
            if window {
                crate::json::lemma_jv_seq_index(fvs@, 3);
            }
        }
        let x0 = opt_field(fvs[0].get("value"), "expression").unwrap();
        let x1 = opt_field(fvs[1].get("value"), "expression").unwrap();
        let x2 = opt_field(fvs[2].get("value"), "expression").unwrap();
        let a0 = match self.convert_to_sql(x0) {
            Ok(s) => s,
            Err(er) => return Err(er),
        };
        let a1 = match self.expand_list_exec(x1) {
            Ok(s) => s,
            Err(er) => return Err(er),
        };
        let a2 = match self.expand_list_exec(x2) {
            Ok(s) => s,
            Err(er) => return Err(er),
        };
        let mut args: Vec<String> = Vec::new();
        args.push(a0);
        args.push(a1);
        args.push(a2);
        if window {
            let x3 = opt_field(fvs[3].get("value"), "expression").unwrap();
            let a3 = match self.convert_to_sql(x3) {
                Ok(s) => s,
                Err(er) => return Err(er),
            };
            args.push(a3);
        }
        let t = match crate::builtins::analytic_function_template(pred) {
            Some(t) => t,
            None => return err("Unknown analytic function"),
        };
        assert(crate::builtins::views(args@) =~= if window { seq![args@[0]@, args@[1]@, args@[2]@, args@[3]@] } else { seq![args@[0]@, args@[1]@, args@[2]@] });
        let n = args.len();
        Ok(crate::builtins::replace_indexed_exec(t, &args, n))
    }

    /// Names and SQL of the arguments of `SqlExpr` after its template.
    #[verifier::rlimit(60)]
    fn convert_sql_expr_named(&self, e: &Json, fvs: &[Json], sorted: &Vec<(i64, usize)>) -> (r: Result<(Vec<String>, Vec<String>), CompileError>)
        requires
            self.wf(),
            jv_seq(fvs@) == call_entries(jfield(e@, "call"@)),
            sorted@ == sort_by_key(indexed_of(jv_seq(fvs@))),
        ensures
            match r {
                Ok((k, m)) => self.sql_expr_named(e@) == (crate::builtins::views(k@), Some(crate::builtins::views(m@))),
                Err(_) => self.sql_expr_named(e@).1 is None,
            },
        decreases jsize(e@), 0nat,
    {
        broadcast use group_json_view;
        let ghost fv = jv_seq(fvs@);
        proof {
            crate::json::lemma_jv_seq_len(fvs@);
            reveal_strlit("");
        }
        if !e.is_object() {
            return Err(CompileError::new("Expected an object", ""));
        }
        let mut keys: Vec<String> = Vec::new();
        let mut mid: Vec<String> = Vec::new();
        if sorted.len() > 1 && sorted[1].1 < fvs.len() {
            proof {
                lemma_call_entries_size(e@);
                crate::json::lemma_jv_seq_index(fvs@, sorted@[1].1 as int);
                lemma_item_size(fv, sorted@[1].1 as int);
                lemma_arg_size(fv[sorted@[1].1 as int]);
            }
            let second = arg_exec(&fvs[sorted[1].1]);
            let is_rec = match second {
                Some(s) => s.is_object() && s.has("record"),
                None => false,
            };
            if is_rec {
                let s = second.unwrap();
                match opt_field(s.get("record"), "field_value") {
                    Some(fl) => {
                        let inner = opt_elements(Some(fl));
                        proof {
                            lemma_field_size(s@, "record"@);
                            lemma_field_size(jfield(s@, "record"@), "field_value"@);
                            lemma_items_size(fl@);
                            crate::json::lemma_jv_seq_len(inner@);
                        }
                        let ghost inv = jv_seq(inner@);
                        let mut j: usize = 0;
                        while j < inner.len()
                            invariant
                                inv == jv_seq(inner@),
                                inv.len() == inner@.len(),
                                j <= inner.len(),
                                crate::builtins::views(keys@) == field_names(inv).take(j as int),
                            decreases inner.len() - j,
                        {
                            proof {
                                crate::json::lemma_jv_seq_index(inner@, j as int);
                            }
                            let name = opt_str(inner[j].get("field")).to_string();
                            let ghost before = keys@;
                            keys.push(name);
                            assert(crate::builtins::views(keys@) =~= crate::builtins::views(before).push(field_name(inv[j as int])));
                            assert(crate::builtins::views(keys@) =~= field_names(inv).take(j + 1));
                            j = j + 1;
                        }
                        assert(field_names(inv).take(j as int) =~= field_names(inv));
                        let sel = each_sel_exec(inner.len(), PICK_ARG);
                        mid = match self.convert_list(inner, &sel, "") {
                            Ok(a) => a,
                            Err(er) => return Err(er),
                        };
                    },
                    None => {},
                }
            } else {
                let v = match second {
                    Some(x) => match self.convert_to_sql(x) {
                        Ok(s) => s,
                        Err(er) => return Err(er),
                    },
                    None => return Err(CompileError::new("Missing expression", "")),
                };
                mid.push(v);
                assert(crate::builtins::views(mid@) =~= seq![v@]);
            }
        } else if sorted.len() > 1 {
            return Err(CompileError::new("Argument out of range", ""));
        }
        assert(crate::builtins::views(keys@) =~= self.sql_expr_named(e@).0);
        Ok((keys, mid))
    }

    #[verifier::rlimit(60)]
    fn convert_sql_expr(&self, e: &Json) -> (r: CompileResult<String>)
        requires
            self.wf(),
        ensures
            res_is(r, self.sql_expr_sql(e@)),
        decreases jsize(e@), 1nat,
    {
        broadcast use group_json_view;
        let co = e.get("call");
        let fvs = opt_elements(opt_field(opt_field(co, "record"), "field_value"));
        let ghost fv = jv_seq(fvs@);
        proof {
            crate::json::lemma_jv_seq_len(fvs@);
            reveal_strlit("");
        }
        let sorted = sorted_positional(fvs);
        assert(fv == call_entries(jfield(e@, "call"@)));
        if !e.is_object() || sorted.len() == 0 || sorted[0].1 >= fvs.len() {
            return err("SqlExpr requires at least one positional argument");
        }
        proof {
            crate::json::lemma_jv_seq_index(fvs@, sorted@[0].1 as int);
        }
        let first = arg_exec(&fvs[sorted[0].1]);
        if !is_string_literal_exec(first) {
            return err("SqlExpr must have first argument be a string literal");
        }
        proof {
            lemma_call_entries_size(e@);
            lemma_item_size(fv, sorted@[0].1 as int);
            lemma_arg_size(fv[sorted@[0].1 as int]);
        }
        let t = match first {
            Some(x) => match self.convert_to_sql(x) {
                Ok(s) => s,
                Err(er) => return Err(er),
            },
            None => return err("Missing expression"),
        };
        let mut rest_sel: Vec<(usize, u8)> = Vec::new();
        if sorted.len() > 2 {
            let mut k: usize = 2;
            while k < sorted.len()
                invariant
                    2 <= k <= sorted.len(),
                    sel_view(rest_sel@) == positional_sel(sorted@.skip(2).take(k - 2)),
                decreases sorted.len() - k,
            {
                let ghost before = rest_sel@;
                rest_sel.push((sorted[k].1, PICK_ARG));
                assert(sel_view(rest_sel@) =~= sel_view(before).push((sorted@[k as int].1 as int, PICK_ARG)));
                assert(positional_sel(sorted@.skip(2).take(k + 1 - 2)) =~= positional_sel(sorted@.skip(2).take(k - 2)).push((sorted@[k as int].1 as int, PICK_ARG)));
                k = k + 1;
            }
            assert(sorted@.skip(2).take(k - 2) =~= sorted@.skip(2));
        } else {
            assert(sel_view(rest_sel@) =~= Seq::<(int, u8)>::empty());
        }
        let rest = match self.convert_list(fvs, &rest_sel, "") {
            Ok(a) => a,
            Err(er) => return Err(er),
        };
        let (keys, mid) = match self.convert_sql_expr_named(e, fvs, &sorted) {
            Ok(p) => p,
            Err(er) => return Err(er),
        };
        let mut args: Vec<String> = Vec::new();
        args.push(t);
        let mut i: usize = 0;
        let ghost a0 = crate::builtins::views(args@);
        while i < mid.len()
            invariant
                i <= mid.len(),
                crate::builtins::views(args@) == a0 + crate::builtins::views(mid@).take(i as int),
            decreases mid.len() - i,
        {
            let ghost before = args@;
            args.push(mid[i].clone());
            assert(crate::builtins::views(args@) =~= crate::builtins::views(before).push(mid@[i as int]@));
            assert(crate::builtins::views(args@) =~= a0 + crate::builtins::views(mid@).take(i + 1));
            i = i + 1;
        }
        assert(crate::builtins::views(mid@).take(i as int) =~= crate::builtins::views(mid@));
        let ghost a1 = crate::builtins::views(args@);
        let mut i2: usize = 0;
        while i2 < rest.len()
            invariant
                i2 <= rest.len(),
                crate::builtins::views(args@) == a1 + crate::builtins::views(rest@).take(i2 as int),
            decreases rest.len() - i2,
        {
            let ghost before = args@;
            args.push(rest[i2].clone());
            assert(crate::builtins::views(args@) =~= crate::builtins::views(before).push(rest@[i2 as int]@));
            assert(crate::builtins::views(args@) =~= a1 + crate::builtins::views(rest@).take(i2 + 1));
            i2 = i2 + 1;
        }
        assert(crate::builtins::views(rest@).take(i2 as int) =~= crate::builtins::views(rest@));
        assert(crate::builtins::views(args@) =~= seq![t@] + crate::builtins::views(mid@) + crate::builtins::views(rest@));
        Ok(sql_expr_exec(&args, &keys))
    }
}

} // verus!

verus! {

fn sqlite_arrow_exec(pred: &str, value: &str, arg: &str) -> (r: String)
    ensures
        r@ == sqlite_arrow_text(pred@, value@, arg@),
{
    if crate::text::str_eq(pred, "Array") {
        crate::text::concat5("ArgMin(", value, ", ", arg, ", null)")
    } else if crate::text::str_eq(pred, "ArgMin") {
        crate::text::concat5("JSON_EXTRACT(ArgMin(", value, ", ", arg, ", 1), '$[0]')")
    } else {
        crate::text::concat5("JSON_EXTRACT(ArgMax(", value, ", ", arg, ", 1), '$[0]')")
    }
}

fn entangled_exec(arg: &str, value: &str, ent: &str) -> (r: String)
    ensures
        r@ == entangled_text(arg@, value@, ent@),
{
    let head = crate::text::concat4("MagicalEntangle(JSON_OBJECT('arg', ", arg, ", 'value', ", value);
    let r = crate::text::concat4(head.as_str(), "), ", ent, ")");
    assert(r@ =~= entangled_text(arg@, value@, ent@));
    r
}

fn arrow_text_exec(e: Engine, pred: &str, arg: &str, value: &str) -> (r: String)
    ensures
        r@ == arrow_text(e, pred@, arg@, value@),
{
    let is_array = crate::text::str_eq(pred, "Array");
    let is_min = crate::text::str_eq(pred, "ArgMin");
    match e {
        Engine::BigQuery => if is_array {
            crate::text::concat5("ARRAY_AGG(", value, " order by [", arg, "][offset(0)])")
        } else if is_min {
            crate::text::concat5("ARRAY_AGG(", value, " order by [", arg, "][offset(0)] limit 1)[OFFSET(0)]")
        } else {
            crate::text::concat5("ARRAY_AGG(", value, " order by  [", arg, "][offset(0)] desc limit 1)[OFFSET(0)]")
        },
        Engine::DuckDb => if is_array {
            crate::text::concat5("ARRAY_AGG(", value, " order by ", arg, ")")
        } else if is_min {
            crate::text::concat5("argmin(", arg, ", ", value, ")")
        } else {
            crate::text::concat5("argmax(", arg, ", ", value, ")")
        },
        Engine::Databricks => if is_array {
            crate::text::concat5("TRANSFORM(ARRAY_SORT(COLLECT_LIST(STRUCT(", arg, " AS arg, ", value, " AS value))), s -> s.value)")
        } else if is_min {
            crate::text::concat5("SORT_ARRAY(COLLECT_LIST(STRUCT(", value, " AS value, ", arg, " AS arg)))[0].arg")
        } else {
            crate::text::concat5("SORT_ARRAY(COLLECT_LIST(STRUCT(", value, " AS value, ", arg, " AS arg)), false)[0].arg")
        },
        _ => if is_array {
            crate::text::concat5("ARRAY_AGG(", value, " order by ", arg, ")")
        } else if is_min {
            crate::text::concat5("(ARRAY_AGG(", arg, " order by ", value, "))[1]")
        } else {
            crate::text::concat5("(ARRAY_AGG(", arg, " order by ", value, " desc))[1]")
        },
    }
}

fn cast_exec(pred: &str, args: &Vec<String>) -> (r: String)
    requires
        args.len() == 2,
    ensures
        r@ == cast_text(pred@, crate::builtins::views(args@)),
{
    let ty = unquoted_plain_exec(args[1].as_str());
    let head = if crate::text::str_eq(pred, "TryCast") { "TRY_CAST(" } else { "CAST(" };
    let r = crate::text::concat5(head, args[0].as_str(), " AS ", ty.as_str(), ")");
    r
}

impl<'a, D: Dialect + ?Sized> ExprTranslator<'a, D> {
    /// SQL of `Array`, `ArgMin` or `ArgMax` written with an arrow, or `None` to
    /// translate the call as any other.
    fn convert_arrow(&self, e: &Json) -> (r: Option<CompileResult<String>>)
        requires
            self.wf(),
        ensures
            match r {
                None => self.arrow_sql(e@) is None,
                Some(res) => self.arrow_sql(e@) matches Some(o) && res_is(res, o),
            },
        decreases jsize(e@), 1nat,
    {
        broadcast use group_json_view;
        let co = e.get("call");
        let pred = opt_str(opt_field(co, "predicate_name"));
        let fvs = opt_elements(opt_field(opt_field(co, "record"), "field_value"));
        let ghost fv = jv_seq(fvs@);
        proof {
            crate::json::lemma_jv_seq_len(fvs@);
        }
        let sorted = sorted_positional(fvs);
        if !e.is_object() || sorted.len() == 0 || sorted[0].1 >= fvs.len() {
            return None;
        }
        proof {
            crate::json::lemma_jv_seq_index(fvs@, sorted@[0].1 as int);
        }
        let first = arg_exec(&fvs[sorted[0].1]);
        let (a, v, c) = arrow_parts_exec(first);
        if a.is_none() || v.is_none() {
            return None;
        }
        proof {
            lemma_call_entries_size(e@);
            lemma_item_size(fv, sorted@[0].1 as int);
            lemma_arg_size(fv[sorted@[0].1 as int]);
            lemma_arrow_parts_size(opt_view(first));
        }
        let asql = match self.convert_to_sql(a.unwrap()) {
            Ok(s) => s,
            Err(er) => return Some(Err(er)),
        };
        let vsql = match self.convert_to_sql(v.unwrap()) {
            Ok(s) => s,
            Err(er) => return Some(Err(er)),
        };
        let eng = self.dialect.engine();
        if eng == Engine::Psql && !crate::text::str_eq(pred, "Array") {
            return None;
        }
        if eng == Engine::SqLite {
            match c {
                Some(cx) => match self.convert_to_sql(cx) {
                    Ok(cs) => {
                        let ent = entangled_exec(asql.as_str(), vsql.as_str(), cs.as_str());
                        let ev = crate::text::concat3("JSON_EXTRACT(", ent.as_str(), ", \"$.value\")");
                        let ea = crate::text::concat3("JSON_EXTRACT(", ent.as_str(), ", \"$.arg\")");
                        Some(Ok(sqlite_arrow_exec(pred, ev.as_str(), ea.as_str())))
                    },
                    Err(er) => Some(Err(er)),
                },
                None => Some(Ok(sqlite_arrow_exec(pred, vsql.as_str(), asql.as_str()))),
            }
        } else {
            Some(Ok(arrow_text_exec(eng, pred, asql.as_str(), vsql.as_str())))
        }
    }

    /// The call's arguments, translated in order.
    fn convert_args(&self, e: &Json, fvs: &[Json]) -> (r: Result<Vec<String>, CompileError>)
        requires
            self.wf(),
            e@ is Object,
            jv_seq(fvs@) == call_entries(jfield(e@, "call"@)),
        ensures
            match r {
                Ok(v) => self.sql_list(jv_seq(fvs@), call_sel(jv_seq(fvs@)), ""@) == Some(crate::builtins::views(v@))
                    && v@.len() == fvs@.len(),
                Err(_) => self.sql_list(jv_seq(fvs@), call_sel(jv_seq(fvs@)), ""@) is None,
            },
        decreases jsize(e@), 0nat,
    {
        broadcast use group_json_view;
        proof {
            lemma_call_entries_size(e@);
            lemma_call_sel_len(jv_seq(fvs@));
            reveal_strlit("");
        }
        let sel = call_sel_exec(fvs);
        let r = self.convert_list(fvs, &sel, "");
        proof {
            lemma_sql_list_len(self, jv_seq(fvs@), sel_view(sel@), ""@);
        }
        r
    }

    /// `NAME(args)` with the name in upper case, for names that start with an
    /// upper-case letter.
    fn convert_upper_call(&self, e: &Json, pred: &str, fvs: &[Json]) -> (r: CompileResult<String>)
        requires
            self.wf(),
            e@ is Object,
            jv_seq(fvs@) == call_entries(jfield(e@, "call"@)),
        ensures
            res_is(r, if pred@.len() > 0 && is_upper_char(pred@[0]) {
                match self.sql_list(jv_seq(fvs@), call_sel(jv_seq(fvs@)), ""@) {
                    Some(a) => Some(call_text(to_upper(pred@), a)),
                    None => None,
                }
            } else {
                None
            }),
        decreases jsize(e@), 1nat,
    {
        if crate::text::starts_upper(pred) {
            let args = match self.convert_args(e, fvs) {
                Ok(a) => a,
                Err(er) => return Err(er),
            };
            let up = crate::text::to_upper_exec(pred);
            Ok(call_text_exec(up.as_str(), &args))
        } else {
            let m = crate::text::concat2("Unknown function or predicate: ", pred);
            err(m.as_str())
        }
    }

    fn convert_call(&self, e: &Json) -> (r: CompileResult<String>)
        requires
            self.wf(),
        ensures
            res_is(r, self.call_sql(e@)),
        decreases jsize(e@), 2nat,
    {
        broadcast use group_json_view;
        let co = e.get("call");
        let pred = opt_str(opt_field(co, "predicate_name"));
        let fvs = opt_elements(opt_field(opt_field(co, "record"), "field_value"));
        let ghost fv = jv_seq(fvs@);
        proof {
            crate::json::lemma_jv_seq_len(fvs@);
        }
        let n = fvs.len();
        if !e.is_object() {
            return err("Expected an object");
        }
        proof {
            lemma_call_entries_size(e@);
            lemma_call_sel_len(fv);
        }
        if crate::builtins::analytic_function_template(pred).is_some() {
            return self.convert_analytic(e);
        }
        let sorted = sorted_positional(fvs);
        if crate::text::str_eq(pred, "SqlExpr") {
            return self.convert_sql_expr(e);
        }
        if crate::text::str_eq(pred, "Cast") || crate::text::str_eq(pred, "TryCast") {
            let args = match self.convert_args(e, fvs) {
                Ok(a) => a,
                Err(er) => return Err(er),
            };
            if args.len() != 2 {
                let m = crate::text::concat2(pred, " requires 2 arguments");
                return err(m.as_str());
            }
            return Ok(cast_exec(pred, &args));
        }
        if crate::text::str_eq(pred, "FlagValue") {
            if sorted.len() != 1 || sorted[0].1 >= n {
                return err("FlagValue requires exactly 1 argument");
            }
            proof {
                crate::json::lemma_jv_seq_index(fvs@, sorted@[0].1 as int);
            }
            if !is_string_literal_exec(arg_exec(&fvs[sorted[0].1])) {
                return err("FlagValue argument must be a string literal");
            }
            let args = match self.convert_args(e, fvs) {
                Ok(a) => a,
                Err(er) => return Err(er),
            };
            if args.len() == 0 {
                return err("FlagValue requires an argument");
            }
            let flag = unquoted_plain_exec(args[0].as_str());
            return match self.flag_values.get(flag.as_str()) {
                Some(v) => Ok(self.dialect.str_literal(v.as_str())),
                None => {
                    let m = crate::text::concat2("Undefined flag: ", flag.as_str());
                    err(m.as_str())
                },
            };
        }
        if crate::text::str_eq(pred, "If") && n == 3 {
            let args = match self.convert_args(e, fvs) {
                Ok(a) => a,
                Err(er) => return Err(er),
            };
            return Ok(crate::builtins::apply_template("IF({0}, {1}, {2})", args.as_slice()));
        }
        if (crate::text::str_eq(pred, "Array") || crate::text::str_eq(pred, "ArgMin") || crate::text::str_eq(pred, "ArgMax"))
            && n == 1 && sorted.len() > 0 {
            match self.convert_arrow(e) {
                Some(res) => return res,
                None => {},
            }
            let args = match self.convert_args(e, fvs) {
                Ok(a) => a,
                Err(er) => return Err(er),
            };
            return match self.function_lookup(pred) {
                Some(t) => Ok(crate::builtins::apply_template(t.as_str(), args.as_slice())),
                None => Ok(call_text_exec(pred, &args)),
            };
        }
        if n == 2 {
            if let Some(t) = self.infix_lookup(pred) {
                let args = match self.convert_args(e, fvs) {
                    Ok(a) => a,
                    Err(er) => return Err(er),
                };
                return Ok(infix_text_exec(t.as_str(), &args));
            }
        }
        if let Some(t) = self.function_lookup(pred) {
            if let Some((lo, hi)) = crate::builtins::built_in_function_arity_range(pred) {
                if n < lo || n > hi {
                    return err("Built-in function called with a wrong number of arguments");
                }
            }
            let args = match self.convert_args(e, fvs) {
                Ok(a) => a,
                Err(er) => return Err(er),
            };
            return Ok(crate::builtins::apply_template(t.as_str(), args.as_slice()));
        }
        if self.infix_lookup(pred).is_some() {
            return self.convert_upper_call(e, pred, fvs);
        }
        match self.subquery_translator {
            Some(st) => match st.translate_table(pred, Some(&self.vocabulary)) {
                Ok(table) => {
                    if n == 0 {
                        let none: Vec<String> = Vec::new();
                        assert(crate::builtins::views(none@) =~= Seq::<Seq<char>>::empty());
                        Ok(user_predicate_exec(self.value_field, table.as_str(), &none))
                    } else {
                        let args = match self.convert_args(e, fvs) {
                            Ok(a) => a,
                            Err(er) => return Err(er),
                        };
                        Ok(user_predicate_exec(self.value_field, table.as_str(), &args))
                    }
                },
                Err(_) => self.convert_upper_call(e, pred, fvs),
            },
            None => self.convert_upper_call(e, pred, fvs),
        }
    }

    /// A subscript pushed into the branches of an implication.
    fn convert_pushed_subscript(&self, e: &Json, f: &str) -> (r: CompileResult<String>)
        requires
            self.wf(),
        ensures
            res_is(r, self.pushed_subscript_sql(e@, f@)),
        decreases jsize(e@), 1nat,
    {
        broadcast use group_json_view;
        let imp = opt_field(opt_field(e.get("subscript"), "record"), "implication");
        let its = opt_elements(opt_field(imp, "if_then"));
        let other = opt_field(imp, "otherwise");
        proof {
            lemma_field_size(e@, "subscript"@);
            lemma_field_size(jfield(e@, "subscript"@), "record"@);
            lemma_field_size(jfield(jfield(e@, "subscript"@), "record"@), "implication"@);
            lemma_field_size(opt_view(imp), "if_then"@);
            lemma_items_size(jfield(opt_view(imp), "if_then"@));
            lemma_field_size(opt_view(imp), "otherwise"@);
            lemma_struct_field_size(opt_view(other), f@);
            crate::json::lemma_jv_seq_len(its@);
        }
        if !e.is_object() {
            return err("Expected an object");
        }
        let sel = branch_sel_exec(its.len(), PICK_CONSEQUENCE_FIELD);
        let args = match self.convert_list(its, &sel, f) {
            Ok(a) => a,
            Err(er) => return Err(er),
        };
        match struct_field_exec(other, f) {
            Some(o) => match self.convert_to_sql(o) {
                Ok(os) => Ok(case_text_exec(&args, Some(os.as_str()))),
                Err(er) => Err(er),
            },
            None => err("Missing field"),
        }
    }

    fn convert_subscript(&self, e: &Json) -> (r: CompileResult<String>)
        requires
            self.wf(),
        ensures
            res_is(r, self.subscript_sql(e@)),
        decreases jsize(e@), 2nat,
    {
        broadcast use group_json_view;
        let so = e.get("subscript");
        let sub = opt_field(so, "subscript");
        let rec = opt_field(so, "record");
        let rit = record_is_table_exec(&self.vocabulary, rec);
        proof {
            lemma_field_size(e@, "subscript"@);
            lemma_field_size(opt_view(so), "subscript"@);
            lemma_field_size(opt_view(so), "record"@);
        }
        if !e.is_object() {
            return err("Expected an object");
        }
        match subscript_name_exec(sub) {
            Some(f) => {
                match record_entries_exec(rec) {
                    Some(fvs) => {
                        let p = field_pos_exec(fvs, f.as_str());
                        if p < fvs.len() {
                            proof {
                                crate::json::lemma_jv_seq_len(fvs@);
                                crate::json::lemma_jv_seq_index(fvs@, p as int);
                                lemma_record_entries_size(opt_view(rec));
                                lemma_field_pos(jv_seq(fvs@), f@);
                                lemma_item_size(jv_seq(fvs@), p as int);
                                lemma_arg_size(jv_seq(fvs@)[p as int]);
                            }
                            return match arg_exec(&fvs[p]) {
                                Some(x) => self.convert_to_sql(x),
                                None => err("Missing expression"),
                            };
                        }
                        proof {
                            crate::json::lemma_jv_seq_len(fvs@);
                        }
                    },
                    None => {},
                }
                if let Some(im) = opt_field(rec, "implication") {
                    if branches_give_field_exec(im, f.as_str()) {
                        return self.convert_pushed_subscript(e, f.as_str());
                    }
                }
                match rec {
                    Some(rj) => match self.convert_to_sql(rj) {
                        Ok(rs) => Ok(self.dialect.subscript(rs.as_str(), f.as_str(), rit)),
                        Err(er) => Err(er),
                    },
                    None => err("Missing record"),
                }
            },
            None => {
                let rs = match rec {
                    Some(rj) => match self.convert_to_sql(rj) {
                        Ok(s) => s,
                        Err(er) => return Err(er),
                    },
                    None => return err("Missing record"),
                };
                let ss = match sub {
                    Some(sj) => match self.convert_to_sql(sj) {
                        Ok(s) => s,
                        Err(er) => return Err(er),
                    },
                    None => return err("Missing subscript"),
                };
                Ok(self.dialect.subscript(rs.as_str(), ss.as_str(), rit))
            },
        }
    }

    /// Convert an expression for a GROUP BY position: string literals get `|| ''`
    /// and number literals `+ 0`; an error of the conversion is passed on as it
    /// is (see [`group_by_form`]).
    pub fn convert_to_sql_for_group_by(&self, expression: &Json) -> (r: CompileResult<String>)
        requires
            self.wf(),
        ensures
            res_is(r, self.group_by_sql(expression@)),
    {
        let converted = self.convert_to_sql(expression);
        group_by_form(expression, converted)
    }
}

/// The SQL of `expression`, already converted, as a GROUP BY position needs
/// it: a string literal's with `|| ''`, a number literal's with `+ 0`, any
/// other's as it is; an error of the conversion comes back unchanged.
pub open spec fn group_by_text(e: JVal, s: Seq<char>) -> Seq<char> {
    match jget(e, "literal"@) {
        Some(lit) => if has_key(lit, "the_string"@) {
            "("@ + s + " || '')"@
        } else if has_key(lit, "the_number"@) {
            s + " + 0"@
        } else {
            s
        },
        None => s,
    }
}

pub fn group_by_form(expression: &Json, converted: CompileResult<String>) -> (r: CompileResult<String>)
    ensures
        match converted {
            Ok(s) => r matches Ok(v) && v@ == group_by_text(expression@, s@),
            Err(_) => r == converted,
        },
{
    let s = match converted {
        Ok(s) => s,
        Err(er) => return Err(er),
    };
    match expression.get("literal") {
        Some(lit) => if lit.has("the_string") {
            Ok(crate::text::concat3("(", s.as_str(), " || '')"))
        } else if lit.has("the_number") {
            Ok(crate::text::concat2(s.as_str(), " + 0"))
        } else {
            Ok(s)
        },
        None => Ok(s),
    }
}

} // verus!

verus! {

/// Characters allowed in an unquoted SQL column name.
pub open spec fn plain_column_char(c: char) -> bool {
    crate::text::is_alnum_char(c) || c == '_'
}

/// A Logica field as an SQL column name: as it is when it has only letters,
/// digits and underscores, in double quotes otherwise.
pub open spec fn sql_field_name(f: Seq<char>) -> Seq<char> {
    if forall|i: int| 0 <= i < f.len() ==> plain_column_char(#[trigger] f[i]) {
        f
    } else {
        "\""@ + f + "\""@
    }
}

// ---------------------------------------------------------------------------
// Basis functions
// ---------------------------------------------------------------------------

/// Forms the translator handles itself besides the tables: analytic functions
/// and special predicates.
pub open spec fn special_basis(q: Seq<char>) -> bool {
    q == "CumulativeSum"@ || q == "CumulativeMax"@ || q == "CumulativeMin"@ || q == "WindowSum"@
        || q == "WindowMax"@ || q == "WindowMin"@ || q == "SqlExpr"@ || q == "Cast"@ || q == "TryCast"@
        || q == "FlagValue"@ || q == "If"@ || q == "Container"@ || q == "In"@ || q == "ValueOfUnnested"@
        || q == "MagicalEntangle"@
}

/// The names engine `e` translates without a subquery: its built-in functions
/// and infix operators, and the special forms.
pub open spec fn is_basis_function(e: Engine, q: Seq<char>) -> bool {
    layered_function(e, q) is Some || layered_infix(e, q) is Some || special_basis(q)
}

proof fn lemma_names_set_add(s: Seq<Seq<char>>, n: Seq<char>)
    ensures
        forall|m: Seq<char>| #[trigger] set_add(s, n).contains(m) <==> (s.contains(m) || m == n),
{
    assert forall|m: Seq<char>| #[trigger] set_add(s, n).contains(m) <==> (s.contains(m) || m == n) by {
        if !s.contains(n) {
            let t = s.push(n);
            assert(t[s.len() as int] == n);
            if s.contains(m) {
                let k = choose|k: int| 0 <= k < s.len() && s[k] == m;
                assert(t[k] == m);
            }
            if t.contains(m) {
                let k = choose|k: int| 0 <= k < t.len() && t[k] == m;
                if k < s.len() {
                    assert(s[k] == m);
                }
            }
        }
    }
}

fn add_name(names: &mut NameSet, n: &str)
    ensures
        forall|m: Seq<char>| #[trigger] final(names)@.contains(m) <==> (old(names)@.contains(m) || m == n@),
{
    proof {
        lemma_names_set_add(names@, n@);
    }
    names.insert(n.to_string());
}

/// Add the keys of `m` to `names`.
fn add_keys(names: &mut NameSet, m: &StrMap)
    ensures
        forall|q: Seq<char>| #[trigger] final(names)@.contains(q) <==> (old(names)@.contains(q) || sm_get(m@, q) is Some),
{
    let ghost es = m@;
    let mut i: usize = 0;
    while i < m.entries.len()
        invariant
            i <= m.entries.len(),
            es == m@,
            es == sm_view(m.entries@),
            forall|q: Seq<char>| #[trigger] names@.contains(q)
                <==> (old(names)@.contains(q) || exists|j: int| 0 <= j < i && es[j].0 == q),
        decreases m.entries.len() - i,
    {
        let ghost before = names@;
        let k = &m.entries[i].0;
        proof {
            lemma_names_set_add(names@, k@);
        }
        names.insert(k.clone());
        assert forall|q: Seq<char>| #[trigger] names@.contains(q)
            <==> (old(names)@.contains(q) || exists|j: int| 0 <= j < i + 1 && es[j].0 == q) by {
            if q == k@ {
                assert(es[i as int].0 == q);
            }
            if exists|j: int| 0 <= j < i + 1 && es[j].0 == q {
                let j = choose|j: int| 0 <= j < i + 1 && es[j].0 == q;
                if j < i {
                    assert(exists|j2: int| 0 <= j2 < i && es[j2].0 == q);
                }
            }
        }
        i = i + 1;
    }
    assert forall|q: Seq<char>| #[trigger] names@.contains(q) <==> (old(names)@.contains(q) || sm_get(m@, q) is Some) by {
        lemma_sm_index(es, q);
        if sm_get(es, q) is Some {
            assert(es[crate::strmap::sm_index(es, q)].0 == q);
        }
    }
}

/// The names a dialect translates without a subquery (see [`is_basis_function`]).
pub fn basis_functions<D: Dialect + ?Sized>(dialect: &D) -> (r: NameSet)
    ensures
        forall|q: Seq<char>| #[trigger] r@.contains(q) <==> is_basis_function(dialect.kind(), q),
{
    let funcs = function_table(dialect);
    let infix = infix_table(dialect);
    let mut names = NameSet::new();
    add_keys(&mut names, &funcs);
    add_keys(&mut names, &infix);
    add_name(&mut names, "CumulativeSum");
    add_name(&mut names, "CumulativeMax");
    add_name(&mut names, "CumulativeMin");
    add_name(&mut names, "WindowSum");
    add_name(&mut names, "WindowMax");
    add_name(&mut names, "WindowMin");
    add_name(&mut names, "SqlExpr");
    add_name(&mut names, "Cast");
    add_name(&mut names, "TryCast");
    add_name(&mut names, "FlagValue");
    add_name(&mut names, "If");
    add_name(&mut names, "Container");
    add_name(&mut names, "In");
    add_name(&mut names, "ValueOfUnnested");
    add_name(&mut names, "MagicalEntangle");
    names
}


/// Convert a Logica field name to a safe SQL column name.
pub fn logica_field_to_sql_field(field: &str) -> (r: String)
    ensures
        r@ == sql_field_name(field@),
{
    let fc = crate::text::chars_of(field);
    let mut i: usize = 0;
    while i < fc.len()
        invariant
            fc@ == field@,
            i <= fc.len(),
            forall|j: int| 0 <= j < i ==> plain_column_char(#[trigger] field@[j]),
        decreases fc.len() - i,
    {
        let c = fc[i];
        let ok = ('a' <= c && c <= 'z') || ('A' <= c && c <= 'Z') || ('0' <= c && c <= '9') || c == '_';
        if !ok {
            assert(!plain_column_char(field@[i as int]));
            return crate::text::concat3("\"", field, "\"");
        }
        i = i + 1;
    }
    field.to_string()
}


/// A user predicate's value read with one argument is taken from the row
/// whose first column equals it.
pub proof fn law_user_predicate_one_argument(value_field: Seq<char>, table: Seq<char>, a: Seq<char>)
    ensures
        user_predicate_text(value_field, table, seq![a])
            == "(SELECT "@ + value_field + " FROM "@ + table + " WHERE col0 = "@ + a + ")"@,
{
    reveal_strlit("col");
    reveal_strlit(" = ");
    reveal_strlit(" WHERE ");
    reveal_strlit(" WHERE col0 = ");
    reveal_strlit(")");
    let c = column_conditions(seq![a]);
    assert(c.len() == 1);
    assert(int_text(0) =~= seq!['0']);
    assert(c[0] =~= "col0 = "@ + a) by {
        reveal_strlit("col0 = ");
    }
    assert(join(c, " AND "@) == c[0]);
    assert(user_predicate_text(value_field, table, seq![a])
        =~= "(SELECT "@ + value_field + " FROM "@ + table + " WHERE col0 = "@ + a + ")"@);
}

/// One argument more narrows the rows read by one more condition, joined to
/// the others by " AND ": the value comes from a row whose column `n` equals
/// the new argument as well as every earlier column its argument.
pub proof fn law_user_predicate_conditions_conjoined(value_field: Seq<char>, table: Seq<char>, args: Seq<Seq<char>>, a: Seq<char>)
    requires
        args.len() > 0,
    ensures
        ({
            let before = user_predicate_text(value_field, table, args);
            user_predicate_text(value_field, table, args.push(a))
                == before.drop_last() + " AND col"@ + int_text(args.len() as int) + " = "@ + a + ")"@
        }),
{
    reveal_strlit(" AND ");
    reveal_strlit(" AND col");
    reveal_strlit("col");
    reveal_strlit(")");
    let c = column_conditions(args);
    let cond = "col"@ + int_text(args.len() as int) + " = "@ + a;
    assert(column_conditions(args.push(a)) =~= c.push(cond));
    crate::text::lemma_join_push(c, " AND "@, cond);
    let head = "(SELECT "@ + value_field + " FROM "@ + table + " WHERE "@;
    let before = head + join(c, " AND "@) + ")"@;
    assert(before.drop_last() =~= head + join(c, " AND "@));
    assert(user_predicate_text(value_field, table, args.push(a))
        =~= before.drop_last() + " AND col"@ + int_text(args.len() as int) + " = "@ + a + ")"@);
}


/// A call with one argument more lists it last, after ", ", inside the same
/// parentheses.
pub proof fn law_call_arguments_listed(name: Seq<char>, args: Seq<Seq<char>>, a: Seq<char>)
    ensures
        call_text(name, seq![a]) == name + "("@ + a + ")"@,
        args.len() > 0 ==> call_text(name, args.push(a)) == call_text(name, args).drop_last() + ", "@ + a + ")"@,
{
    reveal_strlit(")");
    assert(join(seq![a], ", "@) == a);
    if args.len() > 0 {
        crate::text::lemma_join_push(args, ", "@, a);
        let before = name + "("@ + join(args, ", "@) + ")"@;
        assert(before.drop_last() =~= name + "("@ + join(args, ", "@));
        assert(call_text(name, args.push(a)) =~= before.drop_last() + ", "@ + a + ")"@);
    }
}

proof fn lemma_when_clauses_prefix(args: Seq<Seq<char>>, extra: Seq<Seq<char>>, k: nat)
    requires
        2 * k <= args.len(),
    ensures
        when_clauses(args + extra, k) == when_clauses(args, k),
    decreases k,
{
    if k > 0 {
        lemma_when_clauses_prefix(args, extra, (k - 1) as nat);
        assert((args + extra)[2 * k - 2] == args[2 * k - 2]);
        assert((args + extra)[2 * k - 1] == args[2 * k - 1]);
    }
}

/// An If with one condition/value pair more tests it after the ones before
/// and before the fallback: " WHEN c THEN v" is put in right before the ELSE
/// (or END), all else kept. A single pair with no fallback reads
/// `CASE WHEN c THEN v END`.
pub proof fn law_case_branches_in_order(args: Seq<Seq<char>>, c: Seq<char>, v: Seq<char>, otherwise: Option<Seq<char>>)
    requires
        args.len() % 2 == 0,
    ensures
        case_text(seq![c, v], None) == "CASE WHEN "@ + c + " THEN "@ + v + " END"@,
        exists|a: Seq<char>, b: Seq<char>| {
            &&& case_text(args, otherwise) == a + b
            &&& case_text(args + seq![c, v], otherwise) == a + " WHEN "@ + c + " THEN "@ + v + b
            &&& has_prefix(a, "CASE"@)
        },
{
    reveal_strlit("CASE");
    reveal_strlit(" WHEN ");
    reveal_strlit("CASE WHEN ");
    reveal_strlit("");
    let k = (args.len() / 2) as nat;
    let args2 = args + seq![c, v];
    assert(args2.len() / 2 == k + 1);
    lemma_when_clauses_prefix(args, seq![c, v], k);
    assert(args2[2 * (k + 1) - 2] == c);
    assert(args2[2 * (k + 1) - 1] == v);
    assert(when_clauses(args2, k + 1) == when_clauses(args, k) + " WHEN "@ + c + " THEN "@ + v);
    let tail = match otherwise {
        Some(o) => " ELSE "@ + o,
        None => ""@,
    } + " END"@;
    let a = "CASE"@ + when_clauses(args, k);
    assert(case_text(args, otherwise) =~= a + tail);
    assert(case_text(args2, otherwise) =~= a + " WHEN "@ + c + " THEN "@ + v + tail);
    assert(has_prefix(a, "CASE"@)) by {
        assert(a.subrange(0, 4) =~= "CASE"@);
    }
    let one = seq![c, v];
    assert(one.len() / 2 == 1);
    assert(when_clauses(one, 0) =~= Seq::<char>::empty());
    assert(when_clauses(one, 1) == when_clauses(one, 0) + " WHEN "@ + c + " THEN "@ + v);
    assert(""@ =~= Seq::<char>::empty());
    assert(case_text(one, None) =~= "CASE WHEN "@ + c + " THEN "@ + v + " END"@);
}


/// A string literal in an expression translates, on an engine that quotes
/// with single quotes, to an SQL literal that stands for exactly that string:
/// between single quotes, its quotes doubled, reading back as the string.
pub proof fn law_string_literal_translates_to_its_text<'a, D: Dialect + ?Sized>(t: &ExprTranslator<'a, D>, v: Seq<char>)
    requires
        !(t.engine() is BigQuery || t.engine() is Databricks || t.engine() is DuckDb),
    ensures
        ({
            let e = JVal::Object(seq![("literal"@, JVal::Object(seq![("the_string"@, JVal::Str(v))]))]);
            &&& t.sql_of(e) is Some
            &&& ({
                let r = t.sql_of(e)->Some_0;
                &&& r.len() >= 2
                &&& r[0] == '\''
                &&& r.last() == '\''
                &&& crate::dialects::quotes_doubled(r.subrange(1, r.len() - 1))
                &&& crate::dialects::read_quoted(r.subrange(1, r.len() - 1)) == v
            })
        }),
{
    reveal_strlit("literal");
    reveal_strlit("variable");
    reveal_strlit("the_string");
    reveal_strlit("the_number");
    let lo = JVal::Object(seq![("the_string"@, JVal::Str(v))]);
    let e = JVal::Object(seq![("literal"@, lo)]);
    let es = seq![("literal"@, lo)];
    let los = seq![("the_string"@, JVal::Str(v))];
    assert("literal"@ != "variable"@) by {
        assert("literal"@[0] != "variable"@[0]);
    }
    assert("the_string"@ != "the_number"@) by {
        assert("the_string"@[4] != "the_number"@[4]);
    }
    assert(es.drop_first() =~= Seq::<(Seq<char>, JVal)>::empty());
    assert(los.drop_first() =~= Seq::<(Seq<char>, JVal)>::empty());
    assert(crate::json::entries_get(Seq::<(Seq<char>, JVal)>::empty(), "variable"@) is None);
    assert(crate::json::entries_get(Seq::<(Seq<char>, JVal)>::empty(), "the_number"@) is None);
    assert(es[0].0 == "literal"@);
    assert(los[0].0 == "the_string"@);
    assert(crate::json::entries_get(es, "variable"@) == crate::json::entries_get(es.drop_first(), "variable"@));
    assert(crate::json::entries_get(los, "the_number"@) == crate::json::entries_get(los.drop_first(), "the_number"@));
    assert(jget(e, "variable"@) is None);
    assert(jget(e, "literal"@) == Some(lo));
    assert(jget(lo, "the_number"@) is None);
    assert(jget(lo, "the_string"@) == Some(JVal::Str(v)));
    assert(t.sql_of(e) == t.literal_sql(e));
    assert(t.literal_sql(e) == Some(str_literal_text(t.engine(), v)));
    crate::dialects::law_single_quoted_literal_reads_back(t.engine(), v);
}


proof fn lemma_nat_digits_value(n: nat)
    ensures
        digits_value(nat_digits(n)) == n,
        forall|k: int| 0 <= k < nat_digits(n).len() ==> '0' <= #[trigger] nat_digits(n)[k] <= '9',
    decreases n,
{
    let d = nat_digits(n);
    if n < 10 {
        assert(d == seq![digit_char(n)]);
        assert(d.drop_last() =~= Seq::<char>::empty());
        assert(digit_value(digit_char(n)) == n);
        assert(digits_value(Seq::<char>::empty()) == 0);
        assert(digits_value(d) == digits_value(d.drop_last()) * 10 + digit_value(d.last()));
    } else {
        lemma_nat_digits_value(n / 10);
        let c = digit_char(n % 10);
        assert(d == nat_digits(n / 10) + seq![c]);
        assert(d.drop_last() =~= nat_digits(n / 10));
        assert(d.last() == c);
        assert(digit_value(c) == n % 10);
        assert(n == (n / 10) * 10 + n % 10);
        assert(digits_value(d) == digits_value(d.drop_last()) * 10 + digit_value(d.last()));
        assert forall|k: int| 0 <= k < d.len() implies '0' <= #[trigger] d[k] <= '9' by {
            if k < d.len() - 1 {
                assert(d[k] == nat_digits(n / 10)[k]);
            }
        }
    }
}

/// A whole-number literal translates to the decimal text of that number: a
/// run of digits whose value is the number, behind a "-" when it is
/// negative.
pub proof fn law_number_literal_denotes_its_value(i: i64)
    ensures
        ({
            let r = number_text(JVal::Int(i));
            let digits = if i < 0 { r.drop_first() } else { r };
            &&& (i < 0 ==> r.len() > 0 && r[0] == '-')
            &&& digits.len() > 0
            &&& forall|k: int| 0 <= k < digits.len() ==> '0' <= #[trigger] digits[k] <= '9'
            &&& digits_value(digits) == if i < 0 { -(i as int) } else { i as int }
        }),
{
    let m: nat = if i < 0 { (-(i as int)) as nat } else { i as nat };
    lemma_nat_digits_value(m);
    crate::text::lemma_nat_digits_len(m);
    let r = number_text(JVal::Int(i));
    if i < 0 {
        assert(r == seq!['-'] + nat_digits(m));
        assert(r.drop_first() =~= nat_digits(m));
    } else {
        assert(r == nat_digits(m));
    }
}

/// A boolean literal translates to `true` exactly when it says "true", and
/// to `false` otherwise.
pub proof fn law_bool_literal_denotes_its_value(b: JVal)
    ensures
        bool_text(b) == "true"@ || bool_text(b) == "false"@,
        bool_text(b) == "true"@ <==> (b == JVal::Str("true"@)
            || (b is Object && jget(b, "the_bool"@) == Some(JVal::Str("true"@)))),
{
    reveal_strlit("true");
    reveal_strlit("false");
    assert("true"@ != "false"@) by {
        assert("true"@.len() != "false"@.len());
    }
    match b {
        JVal::Object(_) => {
            match jget(b, "the_bool"@) {
                Some(x) => {
                    if jstr(x) == "true"@ {
                        assert(x == JVal::Str("true"@)) by {
                            if !(x is Str) {
                                assert(jstr(x) =~= Seq::<char>::empty());
                            }
                        }
                    }
                },
                None => {},
            }
        },
        _ => {},
    }
}

} // verus!
