//! Building the type graphs of a parsed program: each rule's head fields and
//! body conjuncts become edges between the expressions they relate.

use vstd::prelude::*;
use crate::json::{
    Json, JVal, jget, jfield, jstr, jitems, jentries, jsize, seq_size, entries_size, jv_seq, lemma_field_size,
    lemma_items_size, lemma_item_size, lemma_entry_size, lemma_entry_index, lemma_entries_get_at, entries_get,
    lemma_jv_seq_len, lemma_jv_seq_index, opt_view, opt_field, opt_elements, group_json_view,
};
use crate::strmap::{kv_index, kv_get, kv_insert, key_position, lemma_kv_index_keys};
use crate::text::{int_text, join, int_to_string, usize_to_string, concat2, concat3};
use crate::type_inference::types::{Type, TypeV};
use crate::type_inference::built_in::restriction;
use crate::type_inference::expression::{
    Expression, ExprInfo, info, expr_text, texts_of, field_texts, field_types, sort_entries, entry_texts,
    type_of, has_own_type,
};
use crate::type_inference::edge::{Edge, EdgeInfo, einfo};
use crate::type_inference::graph::{TypesGraph, GraphV, connect_spec, connect_all, dedup_into, flat_conn};
use crate::type_inference::intersection::Bounds;

verus! {

// ---------------------------------------------------------------------------
// What the graph reads of the expressions the builder makes
// ---------------------------------------------------------------------------

/// A variable.
pub open spec fn var_info(name: Seq<char>) -> ExprInfo {
    ExprInfo { text: "Variable("@ + name + ")"@, ty: TypeV::Any, own: true, field: None, pred: None }
}

/// Field `f` of predicate `p`, typed by the built-in restrictions.
pub open spec fn pred_info(p: Seq<char>, f: Seq<char>) -> ExprInfo {
    ExprInfo {
        text: "PredicateAddressing("@ + p + "."@ + f + ")"@,
        ty: match restriction(p, f) {
            Some(t) => t,
            None => TypeV::Any,
        },
        own: true,
        field: Some(f),
        pred: Some(p),
    }
}

/// Field `f` of the record `base`.
pub open spec fn sub_info(base: ExprInfo, f: Seq<char>) -> ExprInfo {
    ExprInfo { text: "SubscriptAddressing"@ + base.text + "."@ + f, ty: TypeV::Any, own: true, field: Some(f), pred: None }
}

/// A literal of a scalar type.
pub open spec fn lit_info(text: Seq<char>, ty: TypeV) -> ExprInfo {
    ExprInfo { text, ty, own: false, field: None, pred: None }
}

pub open spec fn null_info() -> ExprInfo {
    lit_info("NullLiteral"@, TypeV::Any)
}

/// A list literal of the given elements, typed by its first element.
pub open spec fn list_info(els: Seq<ExprInfo>) -> ExprInfo {
    ExprInfo {
        text: "ListLiteral["@ + join(els.map_values(|i: ExprInfo| i.text), ", "@) + "]"@,
        ty: TypeV::List(Box::new(if els.len() > 0 { els[0].ty } else { TypeV::Any })),
        own: true,
        field: None,
        pred: None,
    }
}

/// A record literal of the given fields.
pub open spec fn rec_info(fs: Seq<(Seq<char>, ExprInfo)>) -> ExprInfo {
    ExprInfo {
        text: "RecordLiteral("@ + join(entry_texts(sort_entries(fs.map_values(|p: (Seq<char>, ExprInfo)| (p.0, p.1.text)))), ", "@) + ")"@,
        ty: TypeV::Record(fs.map_values(|p: (Seq<char>, ExprInfo)| (p.0, p.1.ty)), false),
        own: true,
        field: None,
        pred: None,
    }
}

/// The edges the builder connects.
pub open spec fn eq_edge(a: ExprInfo, b: ExprInfo, bounds: Bounds) -> EdgeInfo {
    EdgeInfo { tag: 0, a, b, bounds }
}

pub open spec fn element_edge(a: ExprInfo, b: ExprInfo, bounds: Bounds) -> EdgeInfo {
    EdgeInfo { tag: 1, a, b, bounds }
}

pub open spec fn field_edge(a: ExprInfo, b: ExprInfo, bounds: Bounds) -> EdgeInfo {
    EdgeInfo { tag: 2, a, b, bounds }
}

pub open spec fn arg_edge(a: ExprInfo, b: ExprInfo, bounds: Bounds) -> EdgeInfo {
    EdgeInfo { tag: 3, a, b, bounds }
}

// ---------------------------------------------------------------------------
// Positions
// ---------------------------------------------------------------------------

/// An integer member of an object.
pub open spec fn int_member(v: JVal, k: Seq<char>) -> Option<i64> {
    match jget(v, k) {
        Some(JVal::Int(i)) => Some(i),
        _ => None,
    }
}

/// The `start` and `stop` of a node (0 where absent).
pub open spec fn bounds_from(v: Option<JVal>) -> Bounds {
    match v {
        Some(x) => if x is Object {
            (
                match int_member(x, "start"@) { Some(i) => i, None => 0 },
                match int_member(x, "stop"@) { Some(i) => i, None => 0 },
            )
        } else {
            (0, 0)
        },
        None => (0, 0),
    }
}

/// The `stop` of a node (0 where absent).
pub open spec fn end_from(v: JVal) -> i64 {
    match int_member(v, "stop"@) {
        Some(i) => i,
        None => 0,
    }
}

pub open spec fn min_ignoring_none_spec(left: Option<i64>, right: i64) -> i64 {
    match left {
        Some(l) => if l < right { l } else { right },
        None => right,
    }
}

pub open spec fn max_ignoring_none_spec(left: Option<i64>, right: i64) -> i64 {
    match left {
        Some(l) => if l > right { l } else { right },
        None => right,
    }
}

/// Bounds widened to the position of the predicate name of a call.
pub open spec fn adjusted(b: Bounds, pn: Option<JVal>) -> Bounds {
    match pn {
        Some(x) => if x is Object {
            (min_ignoring_none_spec(int_member(x, "start"@), b.0), max_ignoring_none_spec(int_member(x, "stop"@), b.1))
        } else {
            b
        },
        None => b,
    }
}

/// The bounds of a list or record around its members' bounds.
pub open spec fn around(lo: Option<i64>, hi: Option<i64>) -> Bounds {
    (
        match lo { Some(m) => (m - 1) as i64, None => 0 },
        match hi { Some(m) => (m + 1) as i64, None => 0 },
    )
}

/// The column name of a field: `colN` for a position, the name for a string.
pub open spec fn field_name_of(f: JVal) -> Option<Seq<char>> {
    match f {
        JVal::Int(i) => Some("col"@ + int_text(i as int)),
        JVal::Str(s) => Some(s),
        _ => None,
    }
}

/// The name a `var_name` gives (empty when it is neither a string nor an integer).
pub open spec fn var_text(v: Option<JVal>) -> Seq<char> {
    match v {
        Some(JVal::Str(s)) => s,
        Some(JVal::Int(i)) => int_text(i as int),
        _ => seq![],
    }
}

// ---------------------------------------------------------------------------
// The builder's state
// ---------------------------------------------------------------------------

/// What the building depends on and changes: the number of `if` expressions
/// met, the expressions cached by text, and the graph.
pub struct BuildV {
    pub ifs: nat,
    pub cache: Seq<(Seq<char>, ExprInfo)>,
    pub g: GraphV,
}

pub open spec fn with_graph(s: BuildV, g: GraphV) -> BuildV {
    BuildV { g, ..s }
}

pub open spec fn connected(s: BuildV, e: EdgeInfo) -> BuildV {
    with_graph(s, connect_spec(s.g, e))
}

/// The cached expression with the text of `e`, or `e`, added to the cache.
pub open spec fn cache_step(c: Seq<(Seq<char>, ExprInfo)>, e: ExprInfo) -> (Seq<(Seq<char>, ExprInfo)>, ExprInfo) {
    match kv_get(c, e.text) {
        Some(x) => (c, x),
        None => (c.push((e.text, e)), e),
    }
}

pub open spec fn cached(s: BuildV, e: ExprInfo) -> (BuildV, ExprInfo) {
    let c = cache_step(s.cache, e);
    (BuildV { cache: c.0, ..s }, c.1)
}

/// Result of converting an expression: the state after, the expression and its
/// bounds.
pub type Conv = (BuildV, ExprInfo, Bounds);

/// The expression a parsed expression stands for.
pub open spec fn cx(s: BuildV, e: JVal) -> Conv
    decreases jsize(e), 6nat, 0nat,
{
    if !(e is Object) {
        (s, var_info("_unknown"@), (0, 0))
    } else if jget(e, "literal"@) is Some {
        proof {
            lemma_field_size(e, "literal"@);
        }
        cl(s, jfield(e, "literal"@))
    } else if jget(e, "variable"@) is Some {
        let var = jfield(e, "variable"@);
        let c = cached(s, var_info(var_text(jget(var, "var_name"@))));
        (c.0, c.1, bounds_from(jget(var, "var_name"@)))
    } else if jget(e, "call"@) is Some {
        proof {
            lemma_field_size(e, "call"@);
        }
        cc(s, jfield(e, "call"@))
    } else if jget(e, "subscript"@) is Some {
        proof {
            lemma_field_size(e, "subscript"@);
        }
        cs(s, jfield(e, "subscript"@))
    } else if jget(e, "record"@) is Some && jget(jfield(e, "record"@), "field_value"@) is Some {
        proof {
            lemma_field_size(e, "record"@);
            lemma_field_size(jfield(e, "record"@), "field_value"@);
        }
        cr(s, jfield(jfield(e, "record"@), "field_value"@))
    } else if jget(e, "implication"@) is Some {
        proof {
            lemma_field_size(e, "implication"@);
        }
        ci(s, jfield(e, "implication"@))
    } else {
        (s, var_info("_unknown"@), (0, 0))
    }
}

/// A literal.
pub open spec fn cl(s: BuildV, lit: JVal) -> Conv
    decreases jsize(lit), 5nat, 0nat,
{
    if jget(lit, "the_string"@) is Some {
        (s, lit_info("StringLiteral"@, TypeV::Str), bounds_from(jget(jfield(lit, "the_string"@), "the_string"@)))
    } else if jget(lit, "the_number"@) is Some {
        (s, lit_info("NumberLiteral"@, TypeV::Number), bounds_from(jget(jfield(lit, "the_number"@), "number"@)))
    } else if jget(lit, "the_bool"@) is Some {
        (s, lit_info("BooleanLiteral"@, TypeV::Bool), bounds_from(jget(jfield(lit, "the_bool"@), "bool"@)))
    } else if jget(lit, "the_null"@) is Some {
        (s, null_info(), bounds_from(jget(jfield(lit, "the_null"@), "null"@)))
    } else if jget(lit, "the_list"@) is Some {
        let the_list = jfield(lit, "the_list"@);
        let items = match jget(the_list, "element"@) {
            Some(x) => jitems(x),
            None => seq![],
        };
        proof {
            lemma_field_size(lit, "the_list"@);
            lemma_field_size(the_list, "element"@);
            lemma_items_size(jfield(the_list, "element"@));
        }
        let r = cl_items(s, items);
        (r.0, list_info(r.1), around(r.2, r.3))
    } else {
        (s, null_info(), (0, 0))
    }
}

/// The elements of a list literal: the state after, their expressions, and the
/// least start and greatest stop of their bounds.
pub open spec fn cl_items(s: BuildV, items: Seq<JVal>) -> (BuildV, Seq<ExprInfo>, Option<i64>, Option<i64>)
    decreases seq_size(items), 0nat, items.len(),
{
    if items.len() == 0 {
        (s, seq![], None, None)
    } else {
        proof {
            lemma_item_size(items, items.len() - 1);
        }
        let p = cl_items(s, items.drop_last());
        let c = cx(p.0, items.last());
        (c.0, p.1.push(c.1), Some(min_ignoring_none_spec(p.2, c.2.0)), Some(max_ignoring_none_spec(p.3, c.2.1)))
    }
}

/// A call: its value, the fields it is given, and bounds widened to its
/// predicate name.
pub open spec fn cc(s: BuildV, call: JVal) -> Conv
    decreases jsize(call), 4nat, 0nat,
{
    match jget(call, "predicate_name"@) {
        Some(pn) => {
            let name = jstr(pn);
            let c = cached(s, pred_info(name, "logica_value"@));
            let f = ff(c.0, name, call, c.1);
            (f.0, c.1, adjusted(f.1, jget(call, "predicate_name"@)))
        },
        None => (s, var_info("_unknown"@), (0, 0)),
    }
}

/// The arguments of a call or predicate: each is equal to the field of the
/// predicate it fills, which is an argument of `result`. Gives the least start
/// and greatest stop of the arguments (0 when there are none).
pub open spec fn ff(s: BuildV, pname: Seq<char>, fields: JVal, result: ExprInfo) -> (BuildV, Bounds)
    decreases jsize(fields), 3nat, 0nat,
{
    let record = jfield(fields, "record"@);
    let fvs = jfield(record, "field_value"@);
    if fields is Object && jget(fields, "record"@) is Some && record is Object && jget(record, "field_value"@) is Some
        && fvs is Array {
        proof {
            lemma_field_size(fields, "record"@);
            lemma_field_size(record, "field_value"@);
            lemma_items_size(fvs);
        }
        let r = ff_items(s, pname, jitems(fvs), result);
        (r.0, (match r.1 { Some(m) => m, None => 0 }, match r.2 { Some(m) => m, None => 0 }))
    } else {
        (s, (0, 0))
    }
}

/// The argument an entry of a `field_value` list gives: its column name and
/// expression, when it has both.
pub open spec fn argument_of(field: JVal) -> Option<(Seq<char>, JVal)> {
    if field is Object {
        match jget(field, "field"@) {
            Some(f) => match field_name_of(f) {
                Some(name) => {
                    let value = jfield(field, "value"@);
                    if jget(field, "value"@) is Some && value is Object && jget(value, "expression"@) is Some {
                        Some((name, jfield(value, "expression"@)))
                    } else {
                        None
                    }
                },
                None => None,
            },
            None => None,
        }
    } else {
        None
    }
}

pub open spec fn ff_items(s: BuildV, pname: Seq<char>, items: Seq<JVal>, result: ExprInfo) -> (BuildV, Option<i64>, Option<i64>)
    decreases seq_size(items), 0nat, items.len(),
{
    if items.len() == 0 {
        (s, None, None)
    } else {
        proof {
            lemma_item_size(items, items.len() - 1);
        }
        let p = ff_items(s, pname, items.drop_last(), result);
        match argument_of(items.last()) {
            Some(a) => {
                proof {
                    lemma_field_size(items.last(), "value"@);
                    lemma_field_size(jfield(items.last(), "value"@), "expression"@);
                }
                let c = cx(p.0, a.1);
                let pf = pred_info(pname, a.0);
                let s2 = connected(connected(c.0, eq_edge(pf, c.1, c.2)), arg_edge(result, pf, c.2));
                (s2, Some(min_ignoring_none_spec(p.1, c.2.0)), Some(max_ignoring_none_spec(p.2, c.2.1)))
            },
            None => p,
        }
    }
}

/// The symbol a subscript names.
pub open spec fn subscript_symbol(sub: JVal) -> Option<JVal> {
    match jget(sub, "subscript"@) {
        Some(x) => match jget(x, "literal"@) {
            Some(l) => match jget(l, "the_symbol"@) {
                Some(t) => jget(t, "symbol"@),
                None => None,
            },
            None => None,
        },
        None => None,
    }
}

/// A subscript `record.field`: a field belonging to the record.
pub open spec fn cs(s: BuildV, sub: JVal) -> Conv
    decreases jsize(sub), 5nat, 0nat,
{
    match jget(sub, "record"@) {
        Some(re) => {
            proof {
                lemma_field_size(sub, "record"@);
            }
            let c = cx(s, re);
            let name = match subscript_symbol(sub) {
                Some(x) => jstr(x),
                None => seq![],
            };
            let end = match subscript_symbol(sub) {
                Some(x) => end_from(x),
                None => 0,
            };
            let r = cached(c.0, sub_info(c.1, name));
            let bounds = (c.2.0, end);
            (connected(r.0, field_edge(c.1, r.1, bounds)), r.1, bounds)
        },
        None => (s, var_info("_unknown"@), (0, 0)),
    }
}

/// A record literal.
pub open spec fn cr(s: BuildV, fvs: JVal) -> Conv
    decreases jsize(fvs), 2nat, 0nat,
{
    proof {
        lemma_items_size(fvs);
    }
    let r = cr_items(s, jitems(fvs));
    (r.0, rec_info(r.1), around(r.2, r.3))
}

/// The field an entry of a record literal gives: its name and expression.
pub open spec fn record_field_of(field: JVal) -> Option<(Seq<char>, JVal)> {
    match jget(field, "field"@) {
        Some(f) => match field_name_of(f) {
            Some(name) => match jget(field, "value"@) {
                Some(v) => match jget(v, "expression"@) {
                    Some(e) => Some((name, e)),
                    None => None,
                },
                None => None,
            },
            None => None,
        },
        None => None,
    }
}

pub open spec fn cr_items(s: BuildV, items: Seq<JVal>) -> (BuildV, Seq<(Seq<char>, ExprInfo)>, Option<i64>, Option<i64>)
    decreases seq_size(items), 0nat, items.len(),
{
    if items.len() == 0 {
        (s, seq![], None, None)
    } else {
        proof {
            lemma_item_size(items, items.len() - 1);
        }
        let p = cr_items(s, items.drop_last());
        match record_field_of(items.last()) {
            Some(a) => {
                proof {
                    lemma_field_size(items.last(), "value"@);
                    lemma_field_size(jfield(items.last(), "value"@), "expression"@);
                }
                let c = cx(p.0, a.1);
                (c.0, kv_insert(p.1, a.0, c.1), Some(min_ignoring_none_spec(p.2, c.2.0)), Some(max_ignoring_none_spec(p.3, c.2.1)))
            },
            None => p,
        }
    }
}

/// An `if` expression: a fresh variable `_IfNodeN` equal to its `otherwise`
/// value and to each consequence; conditions are converted for their edges.
pub open spec fn ci(s: BuildV, imp: JVal) -> Conv
    decreases jsize(imp), 5nat, 0nat,
{
    let s1 = BuildV { ifs: s.ifs + 1, ..s };
    let v = cached(s1, var_info("_IfNode"@ + int_text(s.ifs as int)));
    let o = match jget(imp, "otherwise"@) {
        Some(x) => {
            proof {
                lemma_field_size(imp, "otherwise"@);
            }
            cx(v.0, x)
        },
        None => (v.0, null_info(), (0, 0)),
    };
    let s2 = connected(o.0, eq_edge(v.1, o.1, o.2));
    let items = match jget(imp, "if_then"@) {
        Some(x) => jitems(x),
        None => seq![],
    };
    proof {
        lemma_field_size(imp, "if_then"@);
        lemma_items_size(jfield(imp, "if_then"@));
    }
    let r = ci_items(s2, v.1, items, o.2);
    (r.0, v.1, r.1)
}

pub open spec fn ci_items(s: BuildV, var: ExprInfo, items: Seq<JVal>, b: Bounds) -> (BuildV, Bounds)
    decreases seq_size(items), 0nat, items.len(),
{
    if items.len() == 0 {
        (s, b)
    } else {
        proof {
            lemma_item_size(items, items.len() - 1);
        }
        let p = ci_items(s, var, items.drop_last(), b);
        let it = items.last();
        let s1 = match jget(it, "condition"@) {
            Some(c) => {
                proof {
                    lemma_field_size(it, "condition"@);
                }
                cx(p.0, c).0
            },
            None => p.0,
        };
        match jget(it, "consequence"@) {
            Some(c) => {
                proof {
                    lemma_field_size(it, "consequence"@);
                }
                let q = cx(s1, c);
                (
                    connected(q.0, eq_edge(var, q.1, q.2)),
                    (min_ignoring_none_spec(Some(p.1.0), q.2.0), max_ignoring_none_spec(Some(p.1.1), q.2.1)),
                )
            },
            None => (s1, p.1),
        }
    }
}

/// A head field: the field of the predicate, equal to the field's value (or to
/// the aggregated expression).
pub open spec fn ffield(s: BuildV, pname: Seq<char>, field: JVal) -> BuildV {
    if !(field is Object) {
        s
    } else {
        match jget(field, "field"@) {
            Some(f) => match field_name_of(f) {
                Some(name) => {
                    let v = cached(s, pred_info(pname, name));
                    let value = jfield(field, "value"@);
                    if !(jget(field, "value"@) is Some && value is Object) {
                        v.0
                    } else if jget(value, "aggregation"@) is Some {
                        let agg = jfield(value, "aggregation"@);
                        if agg is Object && jget(agg, "expression"@) is Some {
                            let c = cx(v.0, jfield(agg, "expression"@));
                            connected(c.0, eq_edge(v.1, c.1, c.2))
                        } else {
                            v.0
                        }
                    } else if jget(value, "expression"@) is Some {
                        let c = cx(v.0, jfield(value, "expression"@));
                        connected(c.0, eq_edge(v.1, c.1, c.2))
                    } else {
                        v.0
                    }
                },
                None => s,
            },
            None => s,
        }
    }
}

/// A body conjunct: a unification makes its sides equal, an inclusion makes its
/// element an element of its list, and a predicate gets its arguments.
pub open spec fn fc(s: BuildV, conj: JVal) -> BuildV {
    if !(conj is Object) {
        s
    } else if jget(conj, "unification"@) is Some {
        let u = jfield(conj, "unification"@);
        if !(u is Object) {
            s
        } else {
            match (jget(u, "left_hand_side"@), jget(u, "right_hand_side"@)) {
                (Some(l), Some(r)) => {
                    let a = cx(s, l);
                    let b = cx(a.0, r);
                    connected(b.0, eq_edge(a.1, b.1, (a.2.0, b.2.1)))
                },
                _ => s,
            }
        }
    } else if jget(conj, "inclusion"@) is Some {
        let u = jfield(conj, "inclusion"@);
        if !(u is Object) {
            s
        } else {
            match (jget(u, "list"@), jget(u, "element"@)) {
                (Some(l), Some(el)) => {
                    let a = cx(s, l);
                    let b = cx(a.0, el);
                    connected(b.0, element_edge(a.1, b.1, (b.2.0, a.2.1)))
                },
                _ => s,
            }
        }
    } else if jget(conj, "predicate"@) is Some {
        let p = jfield(conj, "predicate"@);
        if !(p is Object) {
            s
        } else {
            match jget(p, "predicate_name"@) {
                Some(JVal::Str(name)) => ff(s, name, p, pred_info(name, "logica_value"@)).0,
                _ => s,
            }
        }
    } else {
        s
    }
}

pub open spec fn head_fields(s: BuildV, pname: Seq<char>, items: Seq<JVal>) -> BuildV
    decreases items.len(),
{
    if items.len() == 0 {
        s
    } else {
        ffield(head_fields(s, pname, items.drop_last()), pname, items.last())
    }
}

pub open spec fn body_conjuncts(s: BuildV, items: Seq<JVal>) -> BuildV
    decreases items.len(),
{
    if items.len() == 0 {
        s
    } else {
        fc(body_conjuncts(s, items.drop_last()), items.last())
    }
}

pub open spec fn empty_graph() -> GraphV {
    GraphV { conn: seq![], keys: seq![] }
}

/// The entries of the array member `k`, when the member is an array.
pub open spec fn array_member(v: JVal, k: Seq<char>) -> Option<Seq<JVal>> {
    match jget(v, k) {
        Some(JVal::Array(a)) => Some(a),
        _ => None,
    }
}

/// The object member `k`, when the member is an object.
pub open spec fn object_member(v: JVal, k: Seq<char>) -> Option<JVal> {
    match jget(v, k) {
        Some(x) => if x is Object { Some(x) } else { None },
        None => None,
    }
}

/// The graph of one rule of predicate `pname`: its head fields, then its body
/// conjuncts.
pub open spec fn traverse(s: BuildV, pname: Seq<char>, rule: JVal) -> BuildV {
    let s0 = with_graph(s, empty_graph());
    if !(rule is Object) {
        s0
    } else {
        match object_member(rule, "head"@) {
            Some(head) => {
                let s1 = match object_member(head, "record"@) {
                    Some(rec) => match array_member(rec, "field_value"@) {
                        Some(items) => head_fields(s0, pname, items),
                        None => s0,
                    },
                    None => s0,
                };
                match object_member(rule, "body"@) {
                    Some(body) => match object_member(body, "conjunction"@) {
                        Some(conj) => match array_member(conj, "conjunct"@) {
                            Some(items) => body_conjuncts(s1, items),
                            None => s1,
                        },
                        None => s1,
                    },
                    None => s1,
                }
            },
            None => s0,
        }
    }
}

/// The graphs of the rules in order: each rule's graph is merged into the graph
/// of its predicate, the predicates in the order they first occur.
pub open spec fn run_rules(s: BuildV, rules: Seq<JVal>) -> (BuildV, Seq<(Seq<char>, GraphV)>)
    decreases rules.len(),
{
    if rules.len() == 0 {
        (s, seq![])
    } else {
        let p = run_rules(s, rules.drop_last());
        let rule = rules.last();
        match jget(rule, "head"@) {
            Some(head) => match jget(head, "predicate_name"@) {
                Some(pn) => {
                    let name = jstr(pn);
                    let t = traverse(p.0, name, rule);
                    let before = match kv_get(p.1, name) {
                        Some(g) => g,
                        None => empty_graph(),
                    };
                    (t, kv_insert(p.1, name, connect_all(before, dedup_into(seq![], flat_conn(t.g.conn)))))
                },
                None => p,
            },
            None => p,
        }
    }
}

/// The type graphs of a parsed program, by predicate.
pub open spec fn program_graphs(program: JVal) -> Seq<(Seq<char>, GraphV)> {
    let rules = match jget(program, "rule"@) {
        Some(r) => jitems(r),
        None => seq![],
    };
    run_rules(BuildV { ifs: 0, cache: seq![], g: empty_graph() }, rules).1
}

// ---------------------------------------------------------------------------
// Sizes and magnitudes
// ---------------------------------------------------------------------------

/// The largest magnitude of the integers a program may hold: positions stay
/// far from the ends of `i64` as bounds are widened.
pub open spec fn pos_limit() -> int {
    0x4000_0000_0000_0000
}

pub open spec fn small_int(i: i64) -> bool {
    -pos_limit() <= i <= pos_limit()
}

/// Every integer of the tree is small.
pub open spec fn ints_small(v: JVal) -> bool
    decreases v, 1nat,
{
    match v {
        JVal::Int(i) => small_int(i),
        JVal::Object(es) => entries_small(es),
        JVal::Array(a) => items_small(a),
        _ => true,
    }
}

pub open spec fn items_small(a: Seq<JVal>) -> bool
    decreases a, 0nat,
{
    a.len() == 0 || (items_small(a.drop_last()) && ints_small(a.last()))
}

pub open spec fn entries_small(es: Seq<(Seq<char>, JVal)>) -> bool
    decreases es, 0nat,
{
    es.len() == 0 || {
        proof {
            assert(decreases_to!(es => es.last()));
        }
        entries_small(es.drop_last()) && ints_small(es.last().1)
    }
}

proof fn lemma_items_small(a: Seq<JVal>, i: int)
    requires
        items_small(a),
        0 <= i < a.len(),
    ensures
        ints_small(a[i]),
    decreases a.len(),
{
    if i < a.len() - 1 {
        lemma_items_small(a.drop_last(), i);
        assert(a.drop_last()[i] == a[i]);
    }
}

proof fn lemma_entries_small(es: Seq<(Seq<char>, JVal)>, i: int)
    requires
        entries_small(es),
        0 <= i < es.len(),
    ensures
        ints_small(es[i].1),
    decreases es.len(),
{
    if i < es.len() - 1 {
        lemma_entries_small(es.drop_last(), i);
        assert(es.drop_last()[i] == es[i]);
    }
}

/// Members and elements of a tree of small integers are such trees.
proof fn lemma_small_member(v: JVal, k: Seq<char>)
    requires
        ints_small(v),
    ensures
        ints_small(jfield(v, k)),
        jget(v, k) matches Some(x) ==> ints_small(x),
{
    if let JVal::Object(es) = v {
        lemma_entries_get_at(es, k);
        if let Some(x) = entries_get(es, k) {
            let i = choose|i: int| 0 <= i < es.len() && x == es[i].1;
            lemma_entries_small(es, i);
        }
    }
}

proof fn lemma_small_items(v: JVal)
    requires
        ints_small(v),
    ensures
        forall|i: int| 0 <= i < jitems(v).len() ==> ints_small(#[trigger] jitems(v)[i]),
{
    if let JVal::Array(a) = v {
        assert forall|i: int| 0 <= i < jitems(v).len() implies ints_small(#[trigger] jitems(v)[i]) by {
            lemma_items_small(a, i);
        }
    }
}

proof fn lemma_entries_two(es: Seq<(Seq<char>, JVal)>, i: int, j: int)
    requires
        0 <= i < j < es.len(),
    ensures
        jsize(es[i].1) + jsize(es[j].1) + 2 <= entries_size(es),
    decreases es.len(),
{
    if j < es.len() - 1 {
        lemma_entries_two(es.drop_last(), i, j);
        assert(es.drop_last()[i] == es[i] && es.drop_last()[j] == es[j]);
    } else {
        lemma_entry_size(es.drop_last(), i);
        assert(es.drop_last()[i] == es[i]);
    }
}

/// Two different members of an object are together smaller than it.
proof fn lemma_two_members(v: JVal, k1: Seq<char>, k2: Seq<char>)
    requires
        k1 != k2,
        jget(v, k1) is Some,
        jget(v, k2) is Some,
    ensures
        jsize(jfield(v, k1)) + jsize(jfield(v, k2)) + 3 <= jsize(v),
{
    if let JVal::Object(es) = v {
        lemma_entry_index(es, k1);
        lemma_entry_index(es, k2);
        let i1 = crate::json::entry_index(es, k1);
        let i2 = crate::json::entry_index(es, k2);
        if i1 < i2 {
            lemma_entries_two(es, i1, i2);
        } else {
            lemma_entries_two(es, i2, i1);
        }
    }
}

pub open spec fn bounds_ok(b: Bounds, m: int) -> bool {
    -m <= b.0 <= m && -m <= b.1 <= m
}

pub open spec fn opt_val(o: Option<&Json>) -> Option<JVal> {
    match o {
        Some(x) => Some(x@),
        None => None,
    }
}

fn int_member_exec(v: &Json, k: &str) -> (r: Option<i64>)
    ensures
        r == int_member(v@, k@),
{
    match v.get(k) {
        Some(Json::Int(i)) => Some(*i),
        _ => None,
    }
}

/// The `start` and `stop` of a value (0 where absent).
fn get_bounds_from_value(value: Option<&Json>) -> (r: Bounds)
    ensures
        r == bounds_from(opt_val(value)),
        (value matches Some(x) ==> ints_small(x@)) ==> bounds_ok(r, pos_limit()),
{
    match value {
        Some(v) => {
            proof {
                if ints_small(v@) {
                    lemma_small_member(v@, "start"@);
                    lemma_small_member(v@, "stop"@);
                }
            }
            if v.is_object() {
                let start = match int_member_exec(v, "start") {
                    Some(i) => i,
                    None => 0,
                };
                let stop = match int_member_exec(v, "stop") {
                    Some(i) => i,
                    None => 0,
                };
                (start, stop)
            } else {
                (0, 0)
            }
        },
        None => (0, 0),
    }
}

/// The `stop` of a value (0 where absent).
fn get_end_from_value(value: &Json) -> (r: i64)
    ensures
        r == end_from(value@),
        ints_small(value@) ==> small_int(r),
{
    proof {
        if ints_small(value@) {
            lemma_small_member(value@, "stop"@);
        }
    }
    match int_member_exec(value, "stop") {
        Some(i) => i,
        None => 0,
    }
}

fn min_ignoring_none(left: Option<i64>, right: i64) -> (r: i64)
    ensures
        r == min_ignoring_none_spec(left, right),
{
    match left {
        Some(l) => if l < right { l } else { right },
        None => right,
    }
}

fn max_ignoring_none(left: Option<i64>, right: i64) -> (r: i64)
    ensures
        r == max_ignoring_none_spec(left, right),
{
    match left {
        Some(l) => if l > right { l } else { right },
        None => right,
    }
}

/// Bounds widened to the position of a call's predicate name.
fn adjust_bounds_for_predicate(bounds: Bounds, predicate_name: Option<&Json>) -> (r: Bounds)
    ensures
        r == adjusted(bounds, opt_val(predicate_name)),
        forall|m: int| m >= pos_limit() && bounds_ok(bounds, m) && (predicate_name matches Some(x) ==> ints_small(x@))
            ==> bounds_ok(r, m),
{
    match predicate_name {
        Some(pn) => {
            proof {
                if ints_small(pn@) {
                    lemma_small_member(pn@, "start"@);
                    lemma_small_member(pn@, "stop"@);
                }
            }
            if pn.is_object() {
                let start = int_member_exec(pn, "start");
                let stop = int_member_exec(pn, "stop");
                (min_ignoring_none(start, bounds.0), max_ignoring_none(stop, bounds.1))
            } else {
                bounds
            }
        },
        None => bounds,
    }
}

// ---------------------------------------------------------------------------
// The builder
// ---------------------------------------------------------------------------

/// Abstract state of a [`TypesGraphBuilder`]: the `if` expressions met, the
/// cache, and the number of predicate uses counted.
pub struct BuilderV {
    pub ifs: nat,
    pub cache: Seq<(Seq<char>, ExprInfo)>,
    pub used: nat,
}

/// Builder for constructing type graphs from parsed Logica programs.
#[derive(Debug)]
pub struct TypesGraphBuilder {
    /// Count of predicate usages for unique predicate IDs.
    predicate_usages: Vec<(String, usize)>,
    /// Counter for if statement variables.
    if_statements_counter: usize,
    /// Cache of expressions by text.
    expressions_cache: Vec<(String, Expression)>,
}

pub open spec fn usage_sum(s: Seq<(String, usize)>) -> nat
    decreases s.len(),
{
    if s.len() == 0 {
        0
    } else {
        usage_sum(s.drop_last()) + s.last().1 as nat
    }
}

pub open spec fn cache_view(s: Seq<(String, Expression)>) -> Seq<(Seq<char>, ExprInfo)> {
    s.map_values(|p: (String, Expression)| (p.0@, info(p.1)))
}

impl View for TypesGraphBuilder {
    type V = BuilderV;

    closed spec fn view(&self) -> BuilderV {
        BuilderV {
            ifs: self.if_statements_counter as nat,
            cache: cache_view(self.expressions_cache@),
            used: usage_sum(self.predicate_usages@),
        }
    }
}

pub open spec fn st(b: BuilderV, g: GraphV) -> BuildV {
    BuildV { ifs: b.ifs, cache: b.cache, g }
}

/// The counters of the builder.
pub open spec fn steps(b: BuilderV) -> nat {
    b.ifs + b.used
}

/// What converting `v` asks: small integers, a size far below the limits, and
/// room in the counters.
pub open spec fn fits(b: BuilderV, v: JVal) -> bool {
    ints_small(v) && jsize(v) < pos_limit() && steps(b) + jsize(v) <= usize::MAX
}

/// Converting gave what `c` says, with bounds and counters kept within `size`.
pub open spec fn converted(b0: BuilderV, b1: BuilderV, g1: GraphV, r: (Expression, Bounds), c: Conv, size: nat) -> bool {
    &&& st(b1, g1) == c.0
    &&& info(r.0) == c.1
    &&& r.1 == c.2
    &&& bounds_ok(r.1, pos_limit() + size)
    &&& steps(b1) <= steps(b0) + size
}

proof fn lemma_usage_le(s: Seq<(String, usize)>, i: int)
    requires
        0 <= i < s.len(),
    ensures
        s[i].1 <= usage_sum(s),
    decreases s.len(),
{
    if i < s.len() - 1 {
        lemma_usage_le(s.drop_last(), i);
        assert(s.drop_last()[i] == s[i]);
    }
}

proof fn lemma_usage_update(s: Seq<(String, usize)>, i: int, x: (String, usize))
    requires
        0 <= i < s.len(),
        x.1 == s[i].1 + 1,
    ensures
        usage_sum(s.update(i, x)) == usage_sum(s) + 1,
    decreases s.len(),
{
    let t = s.update(i, x);
    if i < s.len() - 1 {
        lemma_usage_update(s.drop_last(), i, x);
        assert(t.drop_last() =~= s.drop_last().update(i, x));
    } else {
        assert(t.drop_last() =~= s.drop_last());
    }
}

impl TypesGraphBuilder {
    /// Create a new builder.
    pub fn new() -> (r: TypesGraphBuilder)
        ensures
            r@ == (BuilderV { ifs: 0, cache: seq![], used: 0 }),
    {
        let r = TypesGraphBuilder { predicate_usages: Vec::new(), if_statements_counter: 0, expressions_cache: Vec::new() };
        assert(cache_view(r.expressions_cache@) =~= Seq::<(Seq<char>, ExprInfo)>::empty());
        r
    }

    /// Reset internal state for a new program.
    fn reset(&mut self)
        ensures
            final(self)@ == (BuilderV { ifs: 0, cache: seq![], used: 0 }),
    {
        self.predicate_usages = Vec::new();
        self.if_statements_counter = 0;
        self.expressions_cache = Vec::new();
        assert(cache_view(self.expressions_cache@) =~= Seq::<(Seq<char>, ExprInfo)>::empty());
    }

    /// The cached expression with the text of `expr`, or `expr`, cached.
    fn get_or_cache(&mut self, expr: Expression) -> (r: Expression)
        ensures
            final(self)@.cache == cache_step(old(self)@.cache, info(expr)).0,
            info(r) == cache_step(old(self)@.cache, info(expr)).1,
            final(self)@.ifs == old(self)@.ifs,
            final(self)@.used == old(self)@.used,
    {
        let key = expr.to_string();
        let p = key_position(&self.expressions_cache, key.as_str());
        proof {
            lemma_kv_index_keys(cache_view(self.expressions_cache@),
                self.expressions_cache@.map_values(|e: (String, Expression)| (e.0@, ())), key@);
        }
        if p < self.expressions_cache.len() {
            self.expressions_cache[p].1.clone()
        } else {
            let ghost before = self.expressions_cache@;
            let copy = expr.clone();
            self.expressions_cache.push((key, copy));
            assert(cache_view(self.expressions_cache@) =~= cache_view(before).push((info(expr).text, info(expr))));
            expr
        }
    }

    /// The number of uses of predicate `name` counted so far.
    fn predicate_id(&self, name: &str) -> (r: usize) {
        let p = key_position(&self.predicate_usages, name);
        if p < self.predicate_usages.len() {
            self.predicate_usages[p].1
        } else {
            0
        }
    }

    /// Count one more use of predicate `name`.
    fn count_usage(&mut self, name: &str)
        requires
            steps(old(self)@) < usize::MAX,
        ensures
            final(self)@.used == old(self)@.used + 1,
            final(self)@.ifs == old(self)@.ifs,
            final(self)@.cache == old(self)@.cache,
    {
        let p = key_position(&self.predicate_usages, name);
        if p < self.predicate_usages.len() {
            proof {
                lemma_usage_le(self.predicate_usages@, p as int);
            }
            let c = self.predicate_usages[p].1;
            let k = self.predicate_usages[p].0.clone();
            let ghost before = self.predicate_usages@;
            self.predicate_usages.set(p, (k, c + 1));
            proof {
                lemma_usage_update(before, p as int, (k, (c + 1) as usize));
            }
        } else {
            let ghost before = self.predicate_usages@;
            self.predicate_usages.push((name.to_string(), 1));
            assert(self.predicate_usages@.drop_last() =~= before);
        }
    }
}

// ---------------------------------------------------------------------------
// Expressions and their infos
// ---------------------------------------------------------------------------

pub open spec fn infos(es: Seq<Expression>) -> Seq<ExprInfo> {
    es.map_values(|e: Expression| info(e))
}

pub open spec fn field_infos(fs: Seq<(String, Expression)>) -> Seq<(Seq<char>, ExprInfo)> {
    fs.map_values(|p: (String, Expression)| (p.0@, info(p.1)))
}

proof fn lemma_texts_of(es: Seq<Expression>)
    ensures
        texts_of(es) == infos(es).map_values(|i: ExprInfo| i.text),
    decreases es.len(),
{
    if es.len() > 0 {
        lemma_texts_of(es.drop_last());
        assert(infos(es).map_values(|i: ExprInfo| i.text) =~= infos(es.drop_last()).map_values(|i: ExprInfo| i.text).push(expr_text(es.last())));
    } else {
        assert(infos(es).map_values(|i: ExprInfo| i.text) =~= Seq::<Seq<char>>::empty());
    }
}

proof fn lemma_field_texts(fs: Seq<(String, Expression)>)
    ensures
        field_texts(fs) == field_infos(fs).map_values(|p: (Seq<char>, ExprInfo)| (p.0, p.1.text)),
    decreases fs.len(),
{
    if fs.len() > 0 {
        lemma_field_texts(fs.drop_last());
        assert(field_infos(fs).map_values(|p: (Seq<char>, ExprInfo)| (p.0, p.1.text)) =~= field_infos(fs.drop_last()).map_values(|p: (Seq<char>, ExprInfo)| (p.0, p.1.text)).push((fs.last().0@, expr_text(fs.last().1))));
    } else {
        assert(field_infos(fs).map_values(|p: (Seq<char>, ExprInfo)| (p.0, p.1.text)) =~= Seq::<(Seq<char>, Seq<char>)>::empty());
    }
}

fn make_list(elements: Vec<Expression>) -> (r: Expression)
    ensures
        info(r) == list_info(infos(elements@)),
{
    proof {
        lemma_texts_of(elements@);
    }
    let r = Expression::list_literal(elements);
    r
}

fn make_record(fields: Vec<(String, Expression)>) -> (r: Expression)
    ensures
        info(r) == rec_info(field_infos(fields@)),
{
    proof {
        lemma_field_texts(fields@);
        assert(field_types(fields@) =~= field_infos(fields@).map_values(|p: (Seq<char>, ExprInfo)| (p.0, p.1.ty)));
    }
    let r = Expression::record_literal(fields);
    r
}

/// The column name of a field: `colN` for a position, the name for a string.
fn field_name_exec(f: &Json) -> (r: Option<String>)
    ensures
        match r {
            Some(n) => field_name_of(f@) == Some(n@),
            None => field_name_of(f@) is None,
        },
{
    match f {
        Json::Int(i) => {
            let t = int_to_string(*i);
            Some(concat2("col", t.as_str()))
        },
        Json::Str(x) => Some(x.clone()),
        _ => None,
    }
}

/// What converting a member `v` of a node asks, with one more step of room
/// for the node's own count.
pub open spec fn fits1(b: BuilderV, v: JVal) -> bool {
    ints_small(v) && jsize(v) < pos_limit() && steps(b) + jsize(v) + 1 <= usize::MAX
}

impl TypesGraphBuilder {
    /// Convert a parsed expression to a typed expression (see [`cx`]).
    #[verifier::rlimit(80)]
    fn convert_expression(&mut self, graph: &mut TypesGraph, expr: &Json) -> (r: (Expression, Bounds))
        requires
            fits(old(self)@, expr@),
        ensures
            converted(old(self)@, final(self)@, final(graph)@, r, cx(st(old(self)@, old(graph)@), expr@), jsize(expr@)),
        decreases jsize(expr@), 6nat,
    {
        if !expr.is_object() {
            return (Expression::variable("_unknown"), (0, 0));
        }
        proof {
            lemma_small_member(expr@, "literal"@);
            lemma_small_member(expr@, "variable"@);
            lemma_small_member(expr@, "call"@);
            lemma_small_member(expr@, "subscript"@);
            lemma_small_member(expr@, "record"@);
            lemma_small_member(jfield(expr@, "record"@), "field_value"@);
            lemma_small_member(expr@, "implication"@);
            lemma_field_size(expr@, "literal"@);
            lemma_field_size(expr@, "variable"@);
            lemma_field_size(expr@, "call"@);
            lemma_field_size(expr@, "subscript"@);
            lemma_field_size(expr@, "record"@);
            lemma_field_size(jfield(expr@, "record"@), "field_value"@);
            lemma_field_size(expr@, "implication"@);
        }
        match expr.get("literal") {
            Some(lit) => {
                return self.convert_literal(graph, lit);
            },
            None => {},
        }
        match expr.get("variable") {
            Some(var) => {
                let vn = var.get("var_name");
                proof {
                    lemma_small_member(var@, "var_name"@);
                }
                let name: String = match vn {
                    Some(Json::Str(x)) => x.clone(),
                    Some(Json::Int(i)) => int_to_string(*i),
                    _ => String::new(),
                };
                let bounds = get_bounds_from_value(vn);
                let e = self.get_or_cache(Expression::variable(name.as_str()));
                return (e, bounds);
            },
            None => {},
        }
        match expr.get("call") {
            Some(call) => {
                return self.convert_call(graph, call);
            },
            None => {},
        }
        match expr.get("subscript") {
            Some(sub) => {
                return self.convert_subscript(graph, sub);
            },
            None => {},
        }
        match expr.get("record") {
            Some(record) => match record.get("field_value") {
                Some(fvs) => {
                    return self.convert_record(graph, fvs);
                },
                None => {},
            },
            None => {},
        }
        match expr.get("implication") {
            Some(imp) => {
                return self.convert_implication(graph, imp);
            },
            None => {},
        }
        (Expression::variable("_unknown"), (0, 0))
    }

    /// Convert a literal (see [`cl`]).
    #[verifier::rlimit(80)]
    fn convert_literal(&mut self, graph: &mut TypesGraph, literal: &Json) -> (r: (Expression, Bounds))
        requires
            fits(old(self)@, literal@),
        ensures
            converted(old(self)@, final(self)@, final(graph)@, r, cl(st(old(self)@, old(graph)@), literal@), jsize(literal@)),
        decreases jsize(literal@), 5nat,
    {
        proof {
            lemma_small_member(literal@, "the_string"@);
            lemma_small_member(literal@, "the_number"@);
            lemma_small_member(literal@, "the_bool"@);
            lemma_small_member(literal@, "the_null"@);
            lemma_small_member(literal@, "the_list"@);
        }
        match literal.get("the_string") {
            Some(x) => {
                proof {
                    lemma_small_member(x@, "the_string"@);
                }
                return (Expression::StringLiteral, get_bounds_from_value(x.get("the_string")));
            },
            None => {},
        }
        match literal.get("the_number") {
            Some(x) => {
                proof {
                    lemma_small_member(x@, "number"@);
                }
                return (Expression::NumberLiteral, get_bounds_from_value(x.get("number")));
            },
            None => {},
        }
        match literal.get("the_bool") {
            Some(x) => {
                proof {
                    lemma_small_member(x@, "bool"@);
                }
                return (Expression::BooleanLiteral, get_bounds_from_value(x.get("bool")));
            },
            None => {},
        }
        match literal.get("the_null") {
            Some(x) => {
                proof {
                    lemma_small_member(x@, "null"@);
                }
                return (Expression::NullLiteral, get_bounds_from_value(x.get("null")));
            },
            None => {},
        }
        match literal.get("the_list") {
            Some(the_list) => {
                let items = opt_elements(the_list.get("element"));
                let ghost iv = jv_seq(items@);
                let ghost s0 = st(self@, graph@);
                let ghost b0 = self@;
                proof {
                    lemma_field_size(literal@, "the_list"@);
                    lemma_field_size(the_list@, "element"@);
                    lemma_items_size(jfield(the_list@, "element"@));
                    lemma_small_member(the_list@, "element"@);
                    lemma_small_items(jfield(the_list@, "element"@));
                    lemma_jv_seq_len(items@);
                    assert(iv.take(0) =~= Seq::<JVal>::empty());
                }
                let mut elements: Vec<Expression> = Vec::new();
                let mut total_min: Option<i64> = None;
                let mut total_max: Option<i64> = None;
                let mut i: usize = 0;
                proof {
                    assert(infos(elements@) =~= Seq::<ExprInfo>::empty());
                }
                while i < items.len()
                    invariant
                        i <= items.len(),
                        iv == jv_seq(items@),
                        iv.len() == items.len(),
                        seq_size(iv) + 2 <= jsize(literal@),
                        forall|k: int| 0 <= k < iv.len() ==> ints_small(#[trigger] iv[k]),
                        fits(b0, literal@),
                        cl_items(s0, iv.take(i as int)) == (st(self@, graph@), infos(elements@), total_min, total_max),
                        elements@.len() == i,
                        steps(self@) <= steps(b0) + seq_size(iv.take(i as int)),
                        total_min matches Some(m) ==> -(pos_limit() + seq_size(iv)) <= m <= pos_limit() + seq_size(iv),
                        total_max matches Some(m) ==> -(pos_limit() + seq_size(iv)) <= m <= pos_limit() + seq_size(iv),
                    decreases items.len() - i,
                {
                    proof {
                        lemma_jv_seq_index(items@, i as int);
                        assert(iv.take(i + 1).drop_last() =~= iv.take(i as int));
                        assert(iv.take(i + 1).last() == iv[i as int]);
                        lemma_item_size(iv, i as int);
                        lemma_item_size(iv.take(i + 1), i as int);
                        assert(seq_size(iv.take(i + 1)) == seq_size(iv.take(i as int)) + 1 + jsize(iv[i as int]));
                        crate::json::lemma_seq_size_prefix(iv, i + 1);
                    }
                    let (e, b) = self.convert_expression(graph, &items[i]);
                    let ghost before = elements@;
                    elements.push(e);
                    proof {
                        assert(infos(elements@) =~= infos(before).push(info(elements@[i as int])));
                    }
                    total_min = Some(min_ignoring_none(total_min, b.0));
                    total_max = Some(max_ignoring_none(total_max, b.1));
                    i = i + 1;
                }
                assert(iv.take(i as int) =~= iv);
                let lo = match total_min {
                    Some(m) => m - 1,
                    None => 0,
                };
                let hi = match total_max {
                    Some(m) => m + 1,
                    None => 0,
                };
                let r = make_list(elements);
                return (r, (lo, hi));
            },
            None => {},
        }
        (Expression::NullLiteral, (0, 0))
    }

    /// Convert a call (see [`cc`]).
    #[verifier::rlimit(80)]
    fn convert_call(&mut self, graph: &mut TypesGraph, call: &Json) -> (r: (Expression, Bounds))
        requires
            fits1(old(self)@, call@),
        ensures
            converted(old(self)@, final(self)@, final(graph)@, r, cc(st(old(self)@, old(graph)@), call@), jsize(call@) + 1),
        decreases jsize(call@), 4nat,
    {
        let pn = match call.get("predicate_name") {
            Some(x) => x,
            None => {
                return (Expression::variable("_unknown"), (0, 0));
            },
        };
        proof {
            lemma_small_member(call@, "predicate_name"@);
        }
        let name = pn.as_str().to_string();
        let id = self.predicate_id(name.as_str());
        let result = self.get_or_cache(Expression::predicate_addressing(name.as_str(), "logica_value", id));
        let bounds = self.fill_fields(graph, name.as_str(), call, &result);
        self.count_usage(name.as_str());
        let adjusted = adjust_bounds_for_predicate(bounds, call.get("predicate_name"));
        (result, adjusted)
    }

    /// Fill the fields of a call or predicate (see [`ff`]).
    #[verifier::rlimit(80)]
    fn fill_fields(&mut self, graph: &mut TypesGraph, predicate_name: &str, fields: &Json, result: &Expression) -> (r: Bounds)
        requires
            fits(old(self)@, fields@),
        ensures
            st(final(self)@, final(graph)@) == ff(st(old(self)@, old(graph)@), predicate_name@, fields@, info(*result)).0,
            r == ff(st(old(self)@, old(graph)@), predicate_name@, fields@, info(*result)).1,
            bounds_ok(r, pos_limit() + jsize(fields@)),
            steps(final(self)@) <= steps(old(self)@) + jsize(fields@),
        decreases jsize(fields@), 3nat,
    {
        if !fields.is_object() {
            return (0, 0);
        }
        let record = match fields.get("record") {
            Some(x) => x,
            None => {
                return (0, 0);
            },
        };
        if !record.is_object() {
            return (0, 0);
        }
        let fvs = match record.get("field_value") {
            Some(x) => x,
            None => {
                return (0, 0);
            },
        };
        if !fvs.is_array() {
            return (0, 0);
        }
        let items = opt_elements(Some(fvs));
        let ghost iv = jv_seq(items@);
        let ghost s0 = st(self@, graph@);
        let ghost b0 = self@;
        let ghost ri = info(*result);
        proof {
            lemma_field_size(fields@, "record"@);
            lemma_field_size(record@, "field_value"@);
            lemma_items_size(fvs@);
            lemma_small_member(fields@, "record"@);
            lemma_small_member(record@, "field_value"@);
            lemma_small_items(fvs@);
            lemma_jv_seq_len(items@);
            assert(iv.take(0) =~= Seq::<JVal>::empty());
        }
        let id = self.predicate_id(predicate_name);
        let mut total_min: Option<i64> = None;
        let mut total_max: Option<i64> = None;
        let mut i: usize = 0;
        while i < items.len()
            invariant
                i <= items.len(),
                iv == jv_seq(items@),
                iv.len() == items.len(),
                seq_size(iv) + 2 <= jsize(fields@),
                forall|k: int| 0 <= k < iv.len() ==> ints_small(#[trigger] iv[k]),
                fits(b0, fields@),
                ri == info(*result),
                ff_items(s0, predicate_name@, iv.take(i as int), ri) == (st(self@, graph@), total_min, total_max),
                steps(self@) <= steps(b0) + seq_size(iv.take(i as int)),
                total_min matches Some(m) ==> -(pos_limit() + seq_size(iv)) <= m <= pos_limit() + seq_size(iv),
                total_max matches Some(m) ==> -(pos_limit() + seq_size(iv)) <= m <= pos_limit() + seq_size(iv),
            decreases items.len() - i,
        {
            proof {
                lemma_jv_seq_index(items@, i as int);
                assert(iv.take(i + 1).drop_last() =~= iv.take(i as int));
                assert(iv.take(i + 1).last() == iv[i as int]);
                lemma_item_size(iv, i as int);
                crate::json::lemma_seq_size_prefix(iv, i + 1);
                assert(seq_size(iv.take(i + 1)) == seq_size(iv.take(i as int)) + 1 + jsize(iv[i as int]));
            }
            let field = &items[i];
            if field.is_object() {
                let fname = match field.get("field") {
                    Some(f) => field_name_exec(f),
                    None => None,
                };
                match fname {
                    Some(field_name) => {
                        match field.get("value") {
                            Some(value) => {
                                if value.is_object() {
                                    match value.get("expression") {
                                        Some(e) => {
                                            proof {
                                                lemma_field_size(field@, "value"@);
                                                lemma_field_size(value@, "expression"@);
                                                lemma_small_member(field@, "value"@);
                                                lemma_small_member(value@, "expression"@);
                                            }
                                            let (converted, b) = self.convert_expression(graph, e);
                                            total_min = Some(min_ignoring_none(total_min, b.0));
                                            total_max = Some(max_ignoring_none(total_max, b.1));
                                            let pf = Expression::predicate_addressing(predicate_name, field_name.as_str(), id);
                                            graph.connect(Edge::equality(pf.clone(), converted, b));
                                            graph.connect(Edge::predicate_argument(result.clone(), pf, b));
                                        },
                                        None => {},
                                    }
                                }
                            },
                            None => {},
                        }
                    },
                    None => {},
                }
            }
            i = i + 1;
        }
        assert(iv.take(i as int) =~= iv);
        let lo = match total_min {
            Some(m) => m,
            None => 0,
        };
        let hi = match total_max {
            Some(m) => m,
            None => 0,
        };
        (lo, hi)
    }

    /// Convert a subscript expression (see [`cs`]).
    #[verifier::rlimit(80)]
    fn convert_subscript(&mut self, graph: &mut TypesGraph, subscript: &Json) -> (r: (Expression, Bounds))
        requires
            fits(old(self)@, subscript@),
        ensures
            converted(old(self)@, final(self)@, final(graph)@, r, cs(st(old(self)@, old(graph)@), subscript@), jsize(subscript@)),
        decreases jsize(subscript@), 5nat,
    {
        let record_expr = match subscript.get("record") {
            Some(x) => x,
            None => {
                return (Expression::variable("_unknown"), (0, 0));
            },
        };
        proof {
            lemma_field_size(subscript@, "record"@);
            lemma_small_member(subscript@, "record"@);
        }
        let ghost c0 = cx(st(old(self)@, old(graph)@), record_expr@);
        assert(jget(subscript@, "record"@) == Some(record_expr@));
        let (record, b) = self.convert_expression(graph, record_expr);
        assert(st(self@, graph@) == c0.0 && info(record) == c0.1 && b == c0.2);
        let symbol = opt_field(opt_field(opt_field(subscript.get("subscript"), "literal"), "the_symbol"), "symbol");
        let ghost sv = subscript@;
        proof {
            lemma_small_member(sv, "subscript"@);
            lemma_small_member(jfield(sv, "subscript"@), "literal"@);
            lemma_small_member(jfield(jfield(sv, "subscript"@), "literal"@), "the_symbol"@);
            lemma_small_member(jfield(jfield(jfield(sv, "subscript"@), "literal"@), "the_symbol"@), "symbol"@);
        }
        proof {
            assert(opt_val(symbol) == subscript_symbol(sv));
        }
        let field_name = match symbol {
            Some(x) => x.as_str(),
            None => "",
        };
        proof {
            reveal_strlit("");
        }
        let field_end = match symbol {
            Some(x) => get_end_from_value(x),
            None => 0,
        };
        let ghost s1 = st(self@, graph@);
        let ghost rec_info = info(record);
        assert(field_name@ == match subscript_symbol(sv) { Some(x) => jstr(x), None => seq![] });
        assert(s1 == c0.0);
        let sa = Expression::subscript_addressing(record.clone(), field_name);
        assert(info(sa) == sub_info(rec_info, field_name@));
        let result = self.get_or_cache(sa);
        let bounds = (b.0, field_end);
        let ghost s2 = st(self@, graph@);
        assert(s2 == cached(s1, sub_info(rec_info, field_name@)).0);
        graph.connect(Edge::field_belonging(record, result.clone(), bounds));
        assert(st(self@, graph@) == connected(s2, field_edge(rec_info, info(result), bounds)));
        assert(bounds_ok(bounds, pos_limit() + jsize(subscript@)));
        assert(st(self@, graph@) == cs(st(old(self)@, old(graph)@), subscript@).0);
        assert(info(result) == cs(st(old(self)@, old(graph)@), subscript@).1);
        assert(bounds == cs(st(old(self)@, old(graph)@), subscript@).2);
        assert(steps(self@) <= steps(old(self)@) + jsize(subscript@));
        (result, bounds)
    }

    /// Convert a record expression (see [`cr`]).
    #[verifier::rlimit(80)]
    fn convert_record(&mut self, graph: &mut TypesGraph, field_values: &Json) -> (r: (Expression, Bounds))
        requires
            fits(old(self)@, field_values@),
        ensures
            converted(old(self)@, final(self)@, final(graph)@, r, cr(st(old(self)@, old(graph)@), field_values@), jsize(field_values@)),
        decreases jsize(field_values@), 2nat,
    {
        let items = opt_elements(Some(field_values));
        let ghost iv = jv_seq(items@);
        let ghost s0 = st(self@, graph@);
        let ghost b0 = self@;
        proof {
            lemma_items_size(field_values@);
            lemma_small_items(field_values@);
            lemma_jv_seq_len(items@);
            assert(iv.take(0) =~= Seq::<JVal>::empty());
        }
        let mut fields: Vec<(String, Expression)> = Vec::new();
        let mut total_min: Option<i64> = None;
        let mut total_max: Option<i64> = None;
        let mut i: usize = 0;
        proof {
            assert(field_infos(fields@) =~= Seq::<(Seq<char>, ExprInfo)>::empty());
        }
        while i < items.len()
            invariant
                i <= items.len(),
                iv == jv_seq(items@),
                iv.len() == items.len(),
                seq_size(iv) <= jsize(field_values@),
                forall|k: int| 0 <= k < iv.len() ==> ints_small(#[trigger] iv[k]),
                fits(b0, field_values@),
                cr_items(s0, iv.take(i as int)) == (st(self@, graph@), field_infos(fields@), total_min, total_max),
                steps(self@) <= steps(b0) + seq_size(iv.take(i as int)),
                total_min matches Some(m) ==> -(pos_limit() + seq_size(iv) - 1) <= m <= pos_limit() + seq_size(iv) - 1,
                total_max matches Some(m) ==> -(pos_limit() + seq_size(iv) - 1) <= m <= pos_limit() + seq_size(iv) - 1,
            decreases items.len() - i,
        {
            proof {
                lemma_jv_seq_index(items@, i as int);
                assert(iv.take(i + 1).drop_last() =~= iv.take(i as int));
                assert(iv.take(i + 1).last() == iv[i as int]);
                lemma_item_size(iv, i as int);
                crate::json::lemma_seq_size_prefix(iv, i + 1);
                assert(seq_size(iv.take(i + 1)) == seq_size(iv.take(i as int)) + 1 + jsize(iv[i as int]));
            }
            let field = &items[i];
            let fname = match field.get("field") {
                Some(f) => field_name_exec(f),
                None => None,
            };
            match fname {
                Some(field_name) => {
                    match field.get("value") {
                        Some(value) => {
                            match value.get("expression") {
                                Some(e) => {
                                    proof {
                                        lemma_field_size(field@, "value"@);
                                        lemma_field_size(value@, "expression"@);
                                        lemma_small_member(field@, "value"@);
                                        lemma_small_member(value@, "expression"@);
                                    }
                                    let (converted, b) = self.convert_expression(graph, e);
                                    let ghost before = field_infos(fields@);
                                    let p = key_position(&fields, field_name.as_str());
                                    proof {
                                        lemma_kv_index_keys(before, fields@.map_values(|x: (String, Expression)| (x.0@, ())), field_name@);
                                    }
                                    let ghost ci = info(converted);
                                    if p < fields.len() {
                                        fields.set(p, (field_name, converted));
                                    } else {
                                        fields.push((field_name, converted));
                                    }
                                    proof {
                                        assert(field_infos(fields@) =~= kv_insert(before, fname->0@, ci));
                                    }
                                    total_min = Some(min_ignoring_none(total_min, b.0));
                                    total_max = Some(max_ignoring_none(total_max, b.1));
                                },
                                None => {},
                            }
                        },
                        None => {},
                    }
                },
                None => {},
            }
            i = i + 1;
        }
        assert(iv.take(i as int) =~= iv);
        let lo = match total_min {
            Some(m) => m - 1,
            None => 0,
        };
        let hi = match total_max {
            Some(m) => m + 1,
            None => 0,
        };
        let r = make_record(fields);
        (r, (lo, hi))
    }

    /// Convert an `if` expression (see [`ci`]).
    #[verifier::rlimit(80)]
    fn convert_implication(&mut self, graph: &mut TypesGraph, implication: &Json) -> (r: (Expression, Bounds))
        requires
            fits1(old(self)@, implication@),
        ensures
            converted(old(self)@, final(self)@, final(graph)@, r, ci(st(old(self)@, old(graph)@), implication@), jsize(implication@) + 1),
        decreases jsize(implication@), 5nat,
    {
        let num = usize_to_string(self.if_statements_counter);
        let inner_var_name = concat2("_IfNode", num.as_str());
        self.if_statements_counter = self.if_statements_counter + 1;
        let inner_variable = self.get_or_cache(Expression::variable(inner_var_name.as_str()));
        let ghost iv_info = info(inner_variable);
        proof {
            lemma_small_member(implication@, "otherwise"@);
            lemma_small_member(implication@, "if_then"@);
            lemma_field_size(implication@, "otherwise"@);
            lemma_field_size(implication@, "if_then"@);
            reveal_strlit("otherwise");
            reveal_strlit("if_then");
            assert("otherwise"@.len() != "if_then"@.len());
            if jget(implication@, "otherwise"@) is Some && jget(implication@, "if_then"@) is Some {
                lemma_two_members(implication@, "otherwise"@, "if_then"@);
            }
        }
        let (otherwise_expr, ob) = match implication.get("otherwise") {
            Some(o) => self.convert_expression(graph, o),
            None => (Expression::NullLiteral, (0, 0)),
        };
        let mut common_left = ob.0;
        let mut common_right = ob.1;
        graph.connect(Edge::equality(inner_variable.clone(), otherwise_expr, ob));
        let items = opt_elements(implication.get("if_then"));
        let ghost itv = jv_seq(items@);
        let ghost s0 = st(self@, graph@);
        let ghost b0 = self@;
        proof {
            lemma_items_size(jfield(implication@, "if_then"@));
            lemma_small_items(jfield(implication@, "if_then"@));
            lemma_jv_seq_len(items@);
            assert(itv.take(0) =~= Seq::<JVal>::empty());
        }
        let mut i: usize = 0;
        while i < items.len()
            invariant
                i <= items.len(),
                itv == jv_seq(items@),
                itv.len() == items.len(),
                forall|k: int| 0 <= k < itv.len() ==> ints_small(#[trigger] itv[k]),
                itv.len() == 0 || seq_size(itv) < jsize(implication@),
                steps(b0) + seq_size(itv) <= usize::MAX,
                seq_size(itv) < pos_limit(),
                iv_info == info(inner_variable),
                ci_items(s0, iv_info, itv.take(i as int), ob) == (st(self@, graph@), (common_left, common_right)),
                steps(self@) <= steps(b0) + seq_size(itv.take(i as int)),
                -(pos_limit() + seq_size(itv) + jsize(jfield(implication@, "otherwise"@))) <= common_left <= pos_limit() + seq_size(itv) + jsize(jfield(implication@, "otherwise"@)),
                -(pos_limit() + seq_size(itv) + jsize(jfield(implication@, "otherwise"@))) <= common_right <= pos_limit() + seq_size(itv) + jsize(jfield(implication@, "otherwise"@)),
            decreases items.len() - i,
        {
            proof {
                lemma_jv_seq_index(items@, i as int);
                assert(itv.take(i + 1).drop_last() =~= itv.take(i as int));
                assert(itv.take(i + 1).last() == itv[i as int]);
                lemma_item_size(itv, i as int);
                crate::json::lemma_seq_size_prefix(itv, i + 1);
                assert(seq_size(itv.take(i + 1)) == seq_size(itv.take(i as int)) + 1 + jsize(itv[i as int]));
            }
            let it = &items[i];
            proof {
                lemma_small_member(it@, "condition"@);
                lemma_small_member(it@, "consequence"@);
                lemma_field_size(it@, "condition"@);
                lemma_field_size(it@, "consequence"@);
                reveal_strlit("condition");
                reveal_strlit("consequence");
                assert("condition"@.len() != "consequence"@.len());
                if jget(it@, "condition"@) is Some && jget(it@, "consequence"@) is Some {
                    lemma_two_members(it@, "condition"@, "consequence"@);
                }
            }
            match it.get("condition") {
                Some(c) => {
                    let _ = self.convert_expression(graph, c);
                },
                None => {},
            }
            match it.get("consequence") {
                Some(c) => {
                    let (value_expr, vb) = self.convert_expression(graph, c);
                    graph.connect(Edge::equality(inner_variable.clone(), value_expr, vb));
                    common_left = min_ignoring_none(Some(common_left), vb.0);
                    common_right = max_ignoring_none(Some(common_right), vb.1);
                },
                None => {},
            }
            i = i + 1;
        }
        assert(itv.take(i as int) =~= itv);
        (inner_variable, (common_left, common_right))
    }
}

impl TypesGraphBuilder {
    /// Process a field of the head (see [`ffield`]).
    #[verifier::rlimit(60)]
    fn fill_field(&mut self, graph: &mut TypesGraph, predicate_name: &str, field: &Json)
        requires
            fits(old(self)@, field@),
        ensures
            st(final(self)@, final(graph)@) == ffield(st(old(self)@, old(graph)@), predicate_name@, field@),
            steps(final(self)@) <= steps(old(self)@) + jsize(field@),
    {
        if !field.is_object() {
            return;
        }
        let field_name = match field.get("field") {
            Some(f) => match field_name_exec(f) {
                Some(n) => n,
                None => {
                    return;
                },
            },
            None => {
                return;
            },
        };
        let id = self.predicate_id(predicate_name);
        let variable = self.get_or_cache(Expression::predicate_addressing(predicate_name, field_name.as_str(), id));
        let value = match field.get("value") {
            Some(v) => if v.is_object() {
                v
            } else {
                return;
            },
            None => {
                return;
            },
        };
        proof {
            lemma_field_size(field@, "value"@);
            lemma_small_member(field@, "value"@);
            lemma_field_size(value@, "aggregation"@);
            lemma_small_member(value@, "aggregation"@);
            lemma_field_size(value@, "expression"@);
            lemma_small_member(value@, "expression"@);
        }
        match value.get("aggregation") {
            Some(agg) => {
                if agg.is_object() {
                    match agg.get("expression") {
                        Some(e) => {
                            proof {
                                lemma_field_size(agg@, "expression"@);
                                lemma_small_member(agg@, "expression"@);
                            }
                            let (converted, b) = self.convert_expression(graph, e);
                            graph.connect(Edge::equality(variable, converted, b));
                        },
                        None => {},
                    }
                }
                return;
            },
            None => {},
        }
        match value.get("expression") {
            Some(e) => {
                let (converted, b) = self.convert_expression(graph, e);
                graph.connect(Edge::equality(variable, converted, b));
            },
            None => {},
        }
    }

    /// Process a conjunct of the body (see [`fc`]).
    #[verifier::rlimit(60)]
    fn fill_conjunct(&mut self, graph: &mut TypesGraph, conjunct: &Json)
        requires
            fits(old(self)@, conjunct@),
        ensures
            st(final(self)@, final(graph)@) == fc(st(old(self)@, old(graph)@), conjunct@),
            steps(final(self)@) <= steps(old(self)@) + jsize(conjunct@),
    {
        if !conjunct.is_object() {
            return;
        }
        proof {
            lemma_field_size(conjunct@, "unification"@);
            lemma_small_member(conjunct@, "unification"@);
            lemma_field_size(conjunct@, "inclusion"@);
            lemma_small_member(conjunct@, "inclusion"@);
            lemma_field_size(conjunct@, "predicate"@);
            lemma_small_member(conjunct@, "predicate"@);
        }
        match conjunct.get("unification") {
            Some(unification) => {
                if !unification.is_object() {
                    return;
                }
                match (unification.get("left_hand_side"), unification.get("right_hand_side")) {
                    (Some(lhs), Some(rhs)) => {
                        proof {
                            reveal_strlit("left_hand_side");
                            reveal_strlit("right_hand_side");
                            assert("left_hand_side"@.len() != "right_hand_side"@.len());
                            lemma_two_members(unification@, "left_hand_side"@, "right_hand_side"@);
                            lemma_small_member(unification@, "left_hand_side"@);
                            lemma_small_member(unification@, "right_hand_side"@);
                        }
                        let (left_expr, lb) = self.convert_expression(graph, lhs);
                        let (right_expr, rb) = self.convert_expression(graph, rhs);
                        graph.connect(Edge::equality(left_expr, right_expr, (lb.0, rb.1)));
                    },
                    _ => {},
                }
                return;
            },
            None => {},
        }
        match conjunct.get("inclusion") {
            Some(inclusion) => {
                if !inclusion.is_object() {
                    return;
                }
                match (inclusion.get("list"), inclusion.get("element")) {
                    (Some(list), Some(element)) => {
                        proof {
                            reveal_strlit("list");
                            reveal_strlit("element");
                            assert("list"@.len() != "element"@.len());
                            lemma_two_members(inclusion@, "list"@, "element"@);
                            lemma_small_member(inclusion@, "list"@);
                            lemma_small_member(inclusion@, "element"@);
                        }
                        let (list_expr, lb) = self.convert_expression(graph, list);
                        let (elem_expr, eb) = self.convert_expression(graph, element);
                        graph.connect(Edge::equality_of_element(list_expr, elem_expr, (eb.0, lb.1)));
                    },
                    _ => {},
                }
                return;
            },
            None => {},
        }
        match conjunct.get("predicate") {
            Some(predicate) => {
                if !predicate.is_object() {
                    return;
                }
                match predicate.get("predicate_name") {
                    Some(Json::Str(name)) => {
                        let id = self.predicate_id(name.as_str());
                        let logica_value = Expression::predicate_addressing(name.as_str(), "logica_value", id);
                        let _ = self.fill_fields(graph, name.as_str(), predicate, &logica_value);
                        self.count_usage(name.as_str());
                    },
                    _ => {},
                }
            },
            None => {},
        }
    }

    /// The type graph of one rule (see [`traverse`]).
    #[verifier::rlimit(60)]
    fn traverse_tree(&mut self, predicate_name: &str, rule: &Json) -> (r: TypesGraph)
        requires
            fits(old(self)@, rule@),
        ensures
            st(final(self)@, r@) == traverse(st(old(self)@, empty_graph()), predicate_name@, rule@),
            steps(final(self)@) <= steps(old(self)@) + jsize(rule@),
    {
        let mut graph = TypesGraph::new();
        proof {
            assert(graph@.conn =~= empty_graph().conn);
            assert(graph@.keys =~= empty_graph().keys);
        }
        if !rule.is_object() {
            return graph;
        }
        let head = match rule.get("head") {
            Some(h) => if h.is_object() {
                h
            } else {
                return graph;
            },
            None => {
                return graph;
            },
        };
        let ghost b0 = self@;
        proof {
            lemma_field_size(rule@, "head"@);
            lemma_small_member(rule@, "head"@);
            lemma_field_size(rule@, "body"@);
            lemma_small_member(rule@, "body"@);
            reveal_strlit("head");
            reveal_strlit("body");
            assert("head"@ != "body"@) by {
                assert("head"@[0] != "body"@[0]);
            }
            if jget(rule@, "body"@) is Some {
                lemma_two_members(rule@, "head"@, "body"@);
            }
            lemma_field_size(head@, "record"@);
            lemma_small_member(head@, "record"@);
        }
        let ghost s0 = st(self@, graph@);
        match head.get("record") {
            Some(record) => {
                if record.is_object() {
                    match record.get("field_value") {
                        Some(fvs) => {
                            if fvs.is_array() {
                                let items = opt_elements(Some(fvs));
                                let ghost iv = jv_seq(items@);
                                proof {
                                    lemma_field_size(record@, "field_value"@);
                                    lemma_small_member(record@, "field_value"@);
                                    lemma_items_size(fvs@);
                                    lemma_small_items(fvs@);
                                    lemma_jv_seq_len(items@);
                                    assert(iv.take(0) =~= Seq::<JVal>::empty());
                                }
                                let mut i: usize = 0;
                                while i < items.len()
                                    invariant
                                        i <= items.len(),
                                        iv == jv_seq(items@),
                                        iv.len() == items.len(),
                                        forall|k: int| 0 <= k < iv.len() ==> ints_small(#[trigger] iv[k]),
                                        seq_size(iv) < jsize(head@),
                                        jsize(head@) < jsize(rule@),
                                        fits(b0, rule@),
                                        head_fields(s0, predicate_name@, iv.take(i as int)) == st(self@, graph@),
                                        steps(self@) <= steps(b0) + seq_size(iv.take(i as int)),
                                    decreases items.len() - i,
                                {
                                    proof {
                                        lemma_jv_seq_index(items@, i as int);
                                        assert(iv.take(i + 1).drop_last() =~= iv.take(i as int));
                                        assert(iv.take(i + 1).last() == iv[i as int]);
                                        lemma_item_size(iv, i as int);
                                        crate::json::lemma_seq_size_prefix(iv, i + 1);
                                        assert(seq_size(iv.take(i + 1)) == seq_size(iv.take(i as int)) + 1 + jsize(iv[i as int]));
                                    }
                                    self.fill_field(&mut graph, predicate_name, &items[i]);
                                    i = i + 1;
                                }
                                assert(iv.take(i as int) =~= iv);
                            }
                        },
                        None => {},
                    }
                }
            },
            None => {},
        }
        let ghost s1 = st(self@, graph@);
        let ghost b1 = self@;
        match rule.get("body") {
            Some(body) => {
                if body.is_object() {
                    proof {
                        lemma_field_size(body@, "conjunction"@);
                        lemma_small_member(body@, "conjunction"@);
                    }
                    match body.get("conjunction") {
                        Some(conjunction) => {
                            if conjunction.is_object() {
                                proof {
                                    lemma_field_size(conjunction@, "conjunct"@);
                                    lemma_small_member(conjunction@, "conjunct"@);
                                }
                                match conjunction.get("conjunct") {
                                    Some(cs_json) => {
                                        if cs_json.is_array() {
                                            let items = opt_elements(Some(cs_json));
                                            let ghost iv = jv_seq(items@);
                                            proof {
                                                lemma_items_size(cs_json@);
                                                lemma_small_items(cs_json@);
                                                lemma_jv_seq_len(items@);
                                                assert(iv.take(0) =~= Seq::<JVal>::empty());
                                            }
                                            let mut i: usize = 0;
                                            while i < items.len()
                                                invariant
                                                    i <= items.len(),
                                                    iv == jv_seq(items@),
                                                    iv.len() == items.len(),
                                                    forall|k: int| 0 <= k < iv.len() ==> ints_small(#[trigger] iv[k]),
                                                    seq_size(iv) < jsize(body@),
                                                    steps(b1) + jsize(body@) <= usize::MAX,
                                                    jsize(body@) < pos_limit(),
                                                    body_conjuncts(s1, iv.take(i as int)) == st(self@, graph@),
                                                    steps(self@) <= steps(b1) + seq_size(iv.take(i as int)),
                                                decreases items.len() - i,
                                            {
                                                proof {
                                                    lemma_jv_seq_index(items@, i as int);
                                                    assert(iv.take(i + 1).drop_last() =~= iv.take(i as int));
                                                    assert(iv.take(i + 1).last() == iv[i as int]);
                                                    lemma_item_size(iv, i as int);
                                                    crate::json::lemma_seq_size_prefix(iv, i + 1);
                                                    assert(seq_size(iv.take(i + 1)) == seq_size(iv.take(i as int)) + 1 + jsize(iv[i as int]));
                                                }
                                                self.fill_conjunct(&mut graph, &items[i]);
                                                i = i + 1;
                                            }
                                            assert(iv.take(i as int) =~= iv);
                                        }
                                    },
                                    None => {},
                                }
                            }
                        },
                        None => {},
                    }
                }
            },
            None => {},
        }
        graph
    }
}

pub open spec fn graphs_view(v: Seq<(String, TypesGraph)>) -> Seq<(Seq<char>, GraphV)> {
    v.map_values(|p: (String, TypesGraph)| (p.0@, p.1@))
}

impl TypesGraphBuilder {
    /// Build the type graphs of a parsed program, by predicate (see
    /// [`program_graphs`]): the predicates in the order their first rules come,
    /// each with the graph its rules make together.
    #[verifier::rlimit(60)]
    pub fn run(&mut self, parsed_program: &Json) -> (r: Vec<(String, TypesGraph)>)
        requires
            ints_small(parsed_program@),
            jsize(parsed_program@) < pos_limit(),
            jsize(parsed_program@) <= usize::MAX,
        ensures
            graphs_view(r@) == program_graphs(parsed_program@),
    {
        self.reset();
        let mut graphs: Vec<(String, TypesGraph)> = Vec::new();
        let rules = opt_elements(parsed_program.get("rule"));
        let ghost rv = jv_seq(rules@);
        let ghost fresh = BuildV { ifs: 0, cache: seq![], g: empty_graph() };
        proof {
            lemma_field_size(parsed_program@, "rule"@);
            lemma_small_member(parsed_program@, "rule"@);
            lemma_items_size(jfield(parsed_program@, "rule"@));
            lemma_small_items(jfield(parsed_program@, "rule"@));
            lemma_jv_seq_len(rules@);
            assert(rv.take(0) =~= Seq::<JVal>::empty());
            assert(graphs_view(graphs@) =~= Seq::<(Seq<char>, GraphV)>::empty());
        }
        let mut i: usize = 0;
        while i < rules.len()
            invariant
                i <= rules.len(),
                rv == jv_seq(rules@),
                rv.len() == rules.len(),
                forall|k: int| 0 <= k < rv.len() ==> ints_small(#[trigger] rv[k]),
                seq_size(rv) <= jsize(parsed_program@),
                jsize(parsed_program@) < pos_limit(),
                jsize(parsed_program@) <= usize::MAX,
                run_rules(fresh, rv.take(i as int)).0.ifs == self@.ifs,
                run_rules(fresh, rv.take(i as int)).0.cache == self@.cache,
                run_rules(fresh, rv.take(i as int)).1 == graphs_view(graphs@),
                steps(self@) <= seq_size(rv.take(i as int)),
            decreases rules.len() - i,
        {
            proof {
                lemma_jv_seq_index(rules@, i as int);
                assert(rv.take(i + 1).drop_last() =~= rv.take(i as int));
                assert(rv.take(i + 1).last() == rv[i as int]);
                lemma_item_size(rv, i as int);
                crate::json::lemma_seq_size_prefix(rv, i + 1);
                assert(seq_size(rv.take(i + 1)) == seq_size(rv.take(i as int)) + 1 + jsize(rv[i as int]));
            }
            let rule = &rules[i];
            match rule.get("head") {
                Some(head) => match head.get("predicate_name") {
                    Some(pn) => {
                        let name = pn.as_str().to_string();
                        let ghost before = graphs_view(graphs@);
                        let rule_graph = self.traverse_tree(name.as_str(), rule);
                        let p = key_position(&graphs, name.as_str());
                        proof {
                            lemma_kv_index_keys(before, graphs@.map_values(|x: (String, TypesGraph)| (x.0@, ())), name@);
                        }
                        if p < graphs.len() {
                            let mut entry = graphs.remove(p);
                            entry.1.merge(rule_graph);
                            graphs.insert(p, entry);
                        } else {
                            let mut g = TypesGraph::new();
                            proof {
                                assert(g@.conn =~= empty_graph().conn);
                                assert(g@.keys =~= empty_graph().keys);
                            }
                            g.merge(rule_graph);
                            graphs.push((name, g));
                        }
                        proof {
                            assert(graphs_view(graphs@) =~= run_rules(fresh, rv.take(i + 1)).1);
                        }
                    },
                    None => {},
                },
                None => {},
            }
            i = i + 1;
        }
        assert(rv.take(i as int) =~= rv);
        graphs
    }
}

impl Default for TypesGraphBuilder {
    fn default() -> (r: TypesGraphBuilder)
        ensures
            r@ == (BuilderV { ifs: 0, cache: seq![], used: 0 }),
    {
        TypesGraphBuilder::new()
    }
}

// ---------------------------------------------------------------------------
// Which predicates get a graph
// ---------------------------------------------------------------------------

/// The predicate a rule defines, when its head names one.
pub open spec fn head_name(rule: JVal) -> Option<Seq<char>> {
    match jget(rule, "head"@) {
        Some(head) => match jget(head, "predicate_name"@) {
            Some(pn) => Some(jstr(pn)),
            None => None,
        },
        None => None,
    }
}

/// The rules of a parsed program.
pub open spec fn program_rules(program: JVal) -> Seq<JVal> {
    match jget(program, "rule"@) {
        Some(r) => jitems(r),
        None => seq![],
    }
}

pub open spec fn graph_names(gs: Seq<(Seq<char>, GraphV)>) -> Seq<Seq<char>> {
    gs.map_values(|p: (Seq<char>, GraphV)| p.0)
}

proof fn lemma_kv_insert_names(m: Seq<(Seq<char>, GraphV)>, k: Seq<char>, v: GraphV)
    ensures
        forall|q: Seq<char>| #[trigger] graph_names(kv_insert(m, k, v)).contains(q) <==> (graph_names(m).contains(q) || q == k),
{
    lemma_kv_index_keys(m, m, k);
    let i = kv_index(m, k);
    let r = kv_insert(m, k, v);
    let gm = graph_names(m);
    let gr = graph_names(r);
    if i < m.len() {
        assert(gr =~= gm);
        assert(gm[i] == k);
        assert forall|q: Seq<char>| #[trigger] gr.contains(q) <==> (gm.contains(q) || q == k) by {
            if q == k {
                assert(gm.contains(q));
            }
        }
    } else {
        assert(gr =~= gm.push(k));
        assert forall|q: Seq<char>| #[trigger] gr.contains(q) <==> (gm.contains(q) || q == k) by {
            if gr.contains(q) {
                let j = choose|j: int| 0 <= j < gr.len() && gr[j] == q;
                if j < gm.len() {
                    assert(gm[j] == q);
                }
            }
            if gm.contains(q) {
                let j = choose|j: int| 0 <= j < gm.len() && gm[j] == q;
                assert(gr[j] == q);
            }
            if q == k {
                assert(gr[gm.len() as int] == q);
            }
        }
    }
}

proof fn lemma_run_rules_names(s: BuildV, rules: Seq<JVal>)
    ensures
        forall|q: Seq<char>| #[trigger] graph_names(run_rules(s, rules).1).contains(q)
            <==> exists|i: int| 0 <= i < rules.len() && head_name(rules[i]) == Some(q),
    decreases rules.len(),
{
    if rules.len() == 0 {
        assert(graph_names(run_rules(s, rules).1) =~= Seq::<Seq<char>>::empty());
    } else {
        let prefix = rules.drop_last();
        lemma_run_rules_names(s, prefix);
        let p = run_rules(s, prefix);
        let rule = rules.last();
        assert forall|q: Seq<char>| #[trigger] graph_names(run_rules(s, rules).1).contains(q)
            <==> exists|i: int| 0 <= i < rules.len() && head_name(rules[i]) == Some(q) by {
            if let Some(n) = head_name(rule) {
                let t = traverse(p.0, n, rule);
                let before = match kv_get(p.1, n) {
                    Some(g) => g,
                    None => empty_graph(),
                };
                lemma_kv_insert_names(p.1, n, connect_all(before, dedup_into(seq![], flat_conn(t.g.conn))));
            }
            if exists|i: int| 0 <= i < rules.len() && head_name(rules[i]) == Some(q) {
                let i = choose|i: int| 0 <= i < rules.len() && head_name(rules[i]) == Some(q);
                if i < rules.len() - 1 {
                    assert(prefix[i] == rules[i]);
                }
            }
            if exists|i: int| 0 <= i < prefix.len() && head_name(prefix[i]) == Some(q) {
                let i = choose|i: int| 0 <= i < prefix.len() && head_name(prefix[i]) == Some(q);
                assert(rules[i] == prefix[i]);
            }
            if head_name(rule) == Some(q) {
                assert(rules[rules.len() - 1] == rule);
            }
        }
    }
}

/// A program's graphs are those of exactly the predicates its rules define.
pub proof fn law_graph_for_each_defined_predicate(program: JVal, q: Seq<char>)
    ensures
        graph_names(program_graphs(program)).contains(q)
            <==> exists|i: int| 0 <= i < program_rules(program).len() && head_name(program_rules(program)[i]) == Some(q),
{
    lemma_run_rules_names(BuildV { ifs: 0, cache: seq![], g: empty_graph() }, program_rules(program));
}


/// A literal converts to an expression of the literal's own kind and type: a
/// string literal to a `StringLiteral` of type Str, a number literal to a
/// `NumberLiteral` of type Number, a boolean literal to a `BooleanLiteral` of
/// type Bool, a null literal to a `NullLiteral` of type Any (the first of
/// these keys present decides). `e` is the expression that conversion gives,
/// whose information is that of [`cl`].
pub proof fn law_literal_type_matches_kind(s: BuildV, lit: JVal, e: Expression)
    requires
        info(e) == cl(s, lit).1,
    ensures
        jget(lit, "the_string"@) is Some ==> e is StringLiteral && type_of(e) == TypeV::Str,
        jget(lit, "the_string"@) is None && jget(lit, "the_number"@) is Some
            ==> e is NumberLiteral && type_of(e) == TypeV::Number,
        jget(lit, "the_string"@) is None && jget(lit, "the_number"@) is None && jget(lit, "the_bool"@) is Some
            ==> e is BooleanLiteral && type_of(e) == TypeV::Bool,
        jget(lit, "the_string"@) is None && jget(lit, "the_number"@) is None && jget(lit, "the_bool"@) is None
            && jget(lit, "the_null"@) is Some ==> e is NullLiteral && type_of(e) == TypeV::Any,
{
    if jget(lit, "the_string"@) is Some || jget(lit, "the_number"@) is Some || jget(lit, "the_bool"@) is Some
        || jget(lit, "the_null"@) is Some {
        assert(!cl(s, lit).1.own);
        assert(!has_own_type(e));
        assert(type_of(e) == info(e).ty);
    }
}


proof fn lemma_cl_items_first(s: BuildV, items: Seq<JVal>)
    ensures
        cl_items(s, items).1.len() == items.len(),
        items.len() > 0 ==> cl_items(s, items).1[0] == cx(s, items[0]).1,
    decreases items.len(),
{
    if items.len() > 0 {
        lemma_cl_items_first(s, items.drop_last());
        if items.len() == 1 {
            assert(items.drop_last() =~= Seq::<JVal>::empty());
            assert(items.last() == items[0]);
        } else {
            assert(items.drop_last()[0] == items[0]);
        }
    }
}

/// A list literal is a list of the type its first element has when
/// converted on its own (of any type when it has none).
pub proof fn law_list_literal_typed_by_first(s: BuildV, lit: JVal, e: Expression)
    requires
        info(e) == cl(s, lit).1,
        jget(lit, "the_string"@) is None,
        jget(lit, "the_number"@) is None,
        jget(lit, "the_bool"@) is None,
        jget(lit, "the_null"@) is None,
        jget(lit, "the_list"@) is Some,
    ensures
        ({
            let items = match jget(jfield(lit, "the_list"@), "element"@) {
                Some(x) => jitems(x),
                None => seq![],
            };
            type_of(e) == TypeV::List(Box::new(if items.len() > 0 { cx(s, items[0]).1.ty } else { TypeV::Any }))
        }),
{
    let items = match jget(jfield(lit, "the_list"@), "element"@) {
        Some(x) => jitems(x),
        None => seq![],
    };
    lemma_cl_items_first(s, items);
    assert(type_of(e) == info(e).ty);
}

} // verus!
