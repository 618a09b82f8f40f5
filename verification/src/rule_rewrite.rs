//! Rewrites of a rule's syntax tree before it is translated: the variables an
//! expression mentions, replacing a variable by an expression, and the small
//! expressions the rewrites build.

use vstd::prelude::*;
use crate::json::{
    Json, JsonObject, JVal, jget, jfield, jitems, jstr, jentries, jv, jv_seq, jv_entries, jsize, seq_size,
    entries_remove, insert_all, group_json_view, lemma_jv_seq_len, lemma_jv_seq_index, lemma_jv_entries_len,
    lemma_jv_entries_index, lemma_jv_entries_append, lemma_jv_seq_append, lemma_field_size, lemma_items_size, lemma_item_size,
    opt_elements, opt_field, opt_str, obj1, obj2, entries_size, lemma_entry_size, lemma_entries_get_at,
};
use crate::strmap::{NameSet, set_add, names_view};
use crate::text::{int_text, int_to_string, str_eq, contains_seq, contains_str, concat3, text_lt, lemma_text_lt_total, lemma_text_lt_asymmetric, lemma_text_lt_irreflexive};
use crate::dialects::{Engine, BigQueryDialect, SqLiteDialect, PostgreSqlDialect, DuckDbDialect};
use crate::expr_translate::{is_basis_function, basis_functions};
use crate::rule_translate::{NamesAllocator, var_name, var_expr, with_member, make_var_expr, has_object};
use crate::functors::{sorted_names, sorted_within, sorted_within_exec, strictly_sorted, law_sorted_within};

verus! {

// ---------------------------------------------------------------------------
// Variable references
// ---------------------------------------------------------------------------

/// The variable a node refers to: the `var_name` of its `variable` member, a
/// string as it is and an integer in decimal.
pub open spec fn var_ref(v: JVal) -> Option<Seq<char>> {
    match jget(v, "variable"@) {
        Some(var) => match jget(var, "var_name"@) {
            Some(JVal::Str(s)) => Some(s),
            Some(JVal::Int(n)) => Some(int_text(n as int)),
            _ => None,
        },
        None => None,
    }
}

/// Name of the variable an expression refers to, if it is a variable reference.
pub fn extract_var_name(expr: &Json) -> (r: Option<String>)
    ensures
        match r {
            Some(s) => var_ref(expr@) == Some(s@),
            None => var_ref(expr@) is None,
        },
{
    match expr.get("variable") {
        Some(var) => match var.get("var_name") {
            Some(Json::Str(s)) => Some(s.clone()),
            Some(Json::Int(n)) => Some(int_to_string(*n)),
            _ => None,
        },
        None => None,
    }
}

/// The variable a node refers to, counted as mentioned when its name is not
/// empty and the node is not the top of a select.
pub open spec fn own_var(v: JVal, skip: bool) -> Set<Seq<char>> {
    match var_ref(v) {
        Some(n) => if !skip && n.len() > 0 { set![n] } else { Set::empty() },
        None => Set::empty(),
    }
}

/// The variables mentioned in a tree. Members named `combine` open a scope of
/// their own and are left out unless `dive` is set; with `skip` the node itself
/// is not read as a variable reference (its members still are).
pub open spec fn mentioned(v: JVal, dive: bool, skip: bool) -> Set<Seq<char>>
    decreases v, 1nat,
{
    match v {
        JVal::Object(es) => own_var(v, skip) + entries_mentioned(es, dive),
        JVal::Array(a) => items_mentioned(a, dive),
        _ => Set::empty(),
    }
}

pub open spec fn items_mentioned(a: Seq<JVal>, dive: bool) -> Set<Seq<char>>
    decreases a, 0nat,
{
    if a.len() == 0 {
        Set::empty()
    } else {
        items_mentioned(a.drop_last(), dive) + mentioned(a.last(), dive, false)
    }
}

pub open spec fn entries_mentioned(es: Seq<(Seq<char>, JVal)>, dive: bool) -> Set<Seq<char>>
    decreases es, 0nat,
{
    if es.len() == 0 {
        Set::empty()
    } else {
        proof {
            assert(decreases_to!(es => es.last()));
        }
        entries_mentioned(es.drop_last(), dive) + if es.last().0 == "combine"@ && !dive {
            Set::<Seq<char>>::empty()
        } else {
            mentioned(es.last().1, dive, false)
        }
    }
}

proof fn lemma_set_add(s: Seq<Seq<char>>, n: Seq<char>)
    ensures
        forall|m: Seq<char>| #[trigger] set_add(s, n).contains(m) <==> (s.contains(m) || m == n),
{
    assert forall|m: Seq<char>| #[trigger] set_add(s, n).contains(m) <==> (s.contains(m) || m == n) by {
        if !s.contains(n) {
            let t = s.push(n);
            assert(t[s.len() as int] == n);
            if s.contains(m) {
                let k = choose|k: int| 0 <= k < s.len() && s[k] == m;
                assert(t[k] == m);
            }
            if t.contains(m) {
                let k = choose|k: int| 0 <= k < t.len() && t[k] == m;
                if k < s.len() {
                    assert(s[k] == m);
                }
            }
        }
    }
}

/// Add to `vars` the variables mentioned in `expr` (see [`mentioned`]).
#[verifier::loop_isolation(false)]
pub fn all_mentioned_variables_full(expr: &Json, vars: &mut NameSet, dive_in_combines: bool, this_is_select: bool)
    ensures
        forall|n: Seq<char>| #[trigger] final(vars)@.contains(n)
            <==> (old(vars)@.contains(n) || mentioned(expr@, dive_in_combines, this_is_select).contains(n)),
    decreases expr,
{
    match expr {
        Json::Object(o) => {
            let ghost before = vars@;
            if !this_is_select {
                match extract_var_name(expr) {
                    Some(s) => {
                        if s.as_str().unicode_len() > 0 {
                            proof {
                                lemma_set_add(vars@, s@);
                            }
                            vars.insert(s);
                        }
                    },
                    None => {},
                }
            }
            let ghost own = vars@;
            assert forall|n: Seq<char>| #[trigger] own.contains(n)
                <==> (before.contains(n) || own_var(expr@, this_is_select).contains(n)) by {}
            let ghost es = jv_entries(o.entries@);
            let mut i: usize = 0;
            proof {
                lemma_jv_entries_len(o.entries@);
                assert(es.take(0) =~= Seq::<(Seq<char>, JVal)>::empty());
            }
            while i < o.entries.len()
                invariant
                    i <= o.entries.len(),
                    es == jv_entries(o.entries@),
                    es.len() == o.entries.len(),
                    *expr == Json::Object(*o),
                    forall|n: Seq<char>| #[trigger] vars@.contains(n)
                        <==> (own.contains(n) || entries_mentioned(es.take(i as int), dive_in_combines).contains(n)),
                decreases o.entries.len() - i,
            {
                proof {
                    lemma_jv_entries_index(o.entries@, i as int);
                    assert(es.take(i + 1).drop_last() =~= es.take(i as int));
                    assert(decreases_to!(*expr => o.entries@[i as int].1));
                    reveal_strlit("combine");
                }
                let skipped = str_eq(o.entries[i].0.as_str(), "combine") && !dive_in_combines;
                if !skipped {
                    all_mentioned_variables_full(&o.entries[i].1, vars, dive_in_combines, false);
                }
                i = i + 1;
            }
            assert(es.take(i as int) =~= es);
        },
        Json::Array(a) => {
            let ghost own = vars@;
            let ghost items = jv_seq(a@);
            let mut i: usize = 0;
            proof {
                lemma_jv_seq_len(a@);
                assert(items.take(0) =~= Seq::<JVal>::empty());
            }
            while i < a.len()
                invariant
                    i <= a.len(),
                    items == jv_seq(a@),
                    items.len() == a.len(),
                    *expr == Json::Array(*a),
                    forall|n: Seq<char>| #[trigger] vars@.contains(n)
                        <==> (own.contains(n) || items_mentioned(items.take(i as int), dive_in_combines).contains(n)),
                decreases a.len() - i,
            {
                proof {
                    lemma_jv_seq_index(a@, i as int);
                    assert(items.take(i + 1).drop_last() =~= items.take(i as int));
                    assert(decreases_to!(*expr => a@[i as int]));
                }
                all_mentioned_variables_full(&a[i], vars, dive_in_combines, false);
                i = i + 1;
            }
            assert(items.take(i as int) =~= items);
        },
        _ => {},
    }
}

/// Add to `vars` the variables mentioned in `expr` outside its combines.
pub fn all_mentioned_variables(expr: &Json, vars: &mut NameSet)
    ensures
        forall|n: Seq<char>| #[trigger] final(vars)@.contains(n)
            <==> (old(vars)@.contains(n) || mentioned(expr@, false, false).contains(n)),
{
    all_mentioned_variables_full(expr, vars, false, false);
}

/// Add to `vars` the variables mentioned in `expr`, inside its combines too
/// when `dive_in_combines` is set.
pub fn all_mentioned_variables_impl(expr: &Json, vars: &mut NameSet, dive_in_combines: bool)
    ensures
        forall|n: Seq<char>| #[trigger] final(vars)@.contains(n)
            <==> (old(vars)@.contains(n) || mentioned(expr@, dive_in_combines, false).contains(n)),
{
    all_mentioned_variables_full(expr, vars, dive_in_combines, false);
}

// ---------------------------------------------------------------------------
// Replacing a variable
// ---------------------------------------------------------------------------

/// `v` with every reference to variable `name` replaced by `new`.
pub open spec fn replaced(v: JVal, name: Seq<char>, new: JVal) -> JVal
    decreases v, 1nat,
{
    match v {
        JVal::Object(es) => if var_ref(v) == Some(name) {
            new
        } else {
            JVal::Object(replaced_entries(es, name, new))
        },
        JVal::Array(a) => JVal::Array(replaced_items(a, name, new)),
        _ => v,
    }
}

pub open spec fn replaced_items(a: Seq<JVal>, name: Seq<char>, new: JVal) -> Seq<JVal>
    decreases a, 0nat,
{
    if a.len() == 0 {
        seq![]
    } else {
        replaced_items(a.drop_last(), name, new).push(replaced(a.last(), name, new))
    }
}

pub open spec fn replaced_entries(es: Seq<(Seq<char>, JVal)>, name: Seq<char>, new: JVal) -> Seq<(Seq<char>, JVal)>
    decreases es, 0nat,
{
    if es.len() == 0 {
        seq![]
    } else {
        proof {
            assert(decreases_to!(es => es.last()));
        }
        replaced_entries(es.drop_last(), name, new).push((es.last().0, replaced(es.last().1, name, new)))
    }
}

/// Whether `expr` refers to variable `name`.
fn refers_to(expr: &Json, name: &str) -> (r: bool)
    ensures
        r == (var_ref(expr@) == Some(name@)),
{
    match extract_var_name(expr) {
        Some(s) => str_eq(s.as_str(), name),
        None => false,
    }
}

#[verifier::loop_isolation(false)]
fn replaced_json(node: &Json, old_var: &str, new_expr: &Json) -> (r: Json)
    ensures
        r@ == replaced(node@, old_var@, new_expr@),
    decreases node,
{
    match node {
        Json::Object(o) => {
            if refers_to(node, old_var) {
                return new_expr.clone();
            }
            let ghost es = jv_entries(o.entries@);
            let mut out: Vec<(String, Json)> = Vec::new();
            let mut i: usize = 0;
            proof {
                lemma_jv_entries_len(o.entries@);
                assert(es.take(0) =~= Seq::<(Seq<char>, JVal)>::empty());
            }
            while i < o.entries.len()
                invariant
                    i <= o.entries.len(),
                    es == jv_entries(o.entries@),
                    es.len() == o.entries.len(),
                    *node == Json::Object(*o),
                    jv_entries(out@) == replaced_entries(es.take(i as int), old_var@, new_expr@),
                decreases o.entries.len() - i,
            {
                proof {
                    lemma_jv_entries_index(o.entries@, i as int);
                    assert(es.take(i + 1).drop_last() =~= es.take(i as int));
                    assert(decreases_to!(*node => o.entries@[i as int].1));
                }
                let x = replaced_json(&o.entries[i].1, old_var, new_expr);
                let ghost before = out@;
                out.push((o.entries[i].0.clone(), x));
                proof {
                    assert(out@.drop_last() =~= before);
                }
                i = i + 1;
            }
            assert(es.take(i as int) =~= es);
            Json::Object(JsonObject { entries: out })
        },
        Json::Array(a) => {
            let ghost items = jv_seq(a@);
            let mut out: Vec<Json> = Vec::new();
            let mut i: usize = 0;
            proof {
                lemma_jv_seq_len(a@);
                assert(items.take(0) =~= Seq::<JVal>::empty());
            }
            while i < a.len()
                invariant
                    i <= a.len(),
                    items == jv_seq(a@),
                    items.len() == a.len(),
                    *node == Json::Array(*a),
                    jv_seq(out@) == replaced_items(items.take(i as int), old_var@, new_expr@),
                decreases a.len() - i,
            {
                proof {
                    lemma_jv_seq_index(a@, i as int);
                    assert(items.take(i + 1).drop_last() =~= items.take(i as int));
                    assert(decreases_to!(*node => a@[i as int]));
                }
                let x = replaced_json(&a[i], old_var, new_expr);
                let ghost before = out@;
                out.push(x);
                proof {
                    assert(out@.drop_last() =~= before);
                }
                i = i + 1;
            }
            assert(items.take(i as int) =~= items);
            Json::Array(out)
        },
        _ => node.clone(),
    }
}

/// Replace every reference to variable `old_var` in `node` by `new_expr`.
pub fn replace_variable(old_var: &str, new_expr: &Json, node: &mut Json)
    ensures
        final(node)@ == replaced(old(node)@, old_var@, new_expr@),
{
    let r = replaced_json(node, old_var, new_expr);
    *node = r;
}

// ---------------------------------------------------------------------------
// Small queries and builders
// ---------------------------------------------------------------------------

/// Whether some object in the tree has a `variable` member.
pub open spec fn has_var_deep(v: JVal) -> bool
    decreases v, 1nat,
{
    match v {
        JVal::Object(es) => jget(v, "variable"@) is Some || entries_have_var(es),
        JVal::Array(a) => items_have_var(a),
        _ => false,
    }
}

pub open spec fn items_have_var(a: Seq<JVal>) -> bool
    decreases a, 0nat,
{
    a.len() > 0 && (items_have_var(a.drop_last()) || has_var_deep(a.last()))
}

pub open spec fn entries_have_var(es: Seq<(Seq<char>, JVal)>) -> bool
    decreases es, 0nat,
{
    es.len() > 0 && {
        proof {
            assert(decreases_to!(es => es.last()));
        }
        entries_have_var(es.drop_last()) || has_var_deep(es.last().1)
    }
}

/// Whether the expression holds a variable reference anywhere.
#[verifier::loop_isolation(false)]
pub fn has_variable_deep(expr: &Json) -> (r: bool)
    ensures
        r == has_var_deep(expr@),
    decreases expr,
{
    match expr {
        Json::Object(o) => {
            if expr.has("variable") {
                return true;
            }
            let ghost es = jv_entries(o.entries@);
            let mut i: usize = 0;
            proof {
                lemma_jv_entries_len(o.entries@);
            }
            while i < o.entries.len()
                invariant
                    i <= o.entries.len(),
                    es == jv_entries(o.entries@),
                    es.len() == o.entries.len(),
                    *expr == Json::Object(*o),
                    !entries_have_var(es.take(i as int)),
                decreases o.entries.len() - i,
            {
                proof {
                    lemma_jv_entries_index(o.entries@, i as int);
                    assert(es.take(i + 1).drop_last() =~= es.take(i as int));
                    assert(decreases_to!(*expr => o.entries@[i as int].1));
                }
                if has_variable_deep(&o.entries[i].1) {
                    proof {
                        lemma_entries_have_var_prefix(es, i as nat + 1);
                    }
                    return true;
                }
                i = i + 1;
            }
            assert(es.take(i as int) =~= es);
            false
        },
        Json::Array(a) => {
            let ghost items = jv_seq(a@);
            let mut i: usize = 0;
            proof {
                lemma_jv_seq_len(a@);
            }
            while i < a.len()
                invariant
                    i <= a.len(),
                    items == jv_seq(a@),
                    items.len() == a.len(),
                    *expr == Json::Array(*a),
                    !items_have_var(items.take(i as int)),
                decreases a.len() - i,
            {
                proof {
                    lemma_jv_seq_index(a@, i as int);
                    assert(items.take(i + 1).drop_last() =~= items.take(i as int));
                    assert(decreases_to!(*expr => a@[i as int]));
                }
                if has_variable_deep(&a[i]) {
                    proof {
                        lemma_items_have_var_prefix(items, i as nat + 1);
                    }
                    return true;
                }
                i = i + 1;
            }
            assert(items.take(i as int) =~= items);
            false
        },
        _ => false,
    }
}

proof fn lemma_entries_have_var_prefix(es: Seq<(Seq<char>, JVal)>, n: nat)
    requires
        n <= es.len(),
        entries_have_var(es.take(n as int)),
    ensures
        entries_have_var(es),
    decreases es.len() - n,
{
    if n < es.len() {
        assert(es.take(n as int + 1).drop_last() =~= es.take(n as int));
        lemma_entries_have_var_prefix(es, n + 1);
    } else {
        assert(es.take(n as int) =~= es);
    }
}

proof fn lemma_items_have_var_prefix(a: Seq<JVal>, n: nat)
    requires
        n <= a.len(),
        items_have_var(a.take(n as int)),
    ensures
        items_have_var(a),
    decreases a.len() - n,
{
    if n < a.len() {
        assert(a.take(n as int + 1).drop_last() =~= a.take(n as int));
        lemma_items_have_var_prefix(a, n + 1);
    } else {
        assert(a.take(n as int) =~= a);
    }
}

/// Whether an expression is a record.
pub fn is_record(expr: &Json) -> (r: bool)
    ensures
        r == (jget(expr@, "record"@) is Some),
{
    expr.has("record")
}

/// Whether an expression has a `record` member.
pub fn has_record(expr: &Json) -> (r: bool)
    ensures
        r == (jget(expr@, "record"@) is Some),
{
    expr.has("record")
}

/// The expression `source.field_name`.
pub open spec fn subscript_of(source: JVal, field_name: Seq<char>) -> JVal {
    JVal::Object(seq![("subscript"@, JVal::Object(seq![
        ("record"@, source),
        ("subscript"@, JVal::Object(seq![("literal"@, JVal::Object(seq![
            ("the_symbol"@, JVal::Object(seq![("symbol"@, JVal::Str(field_name))])),
        ]))])),
    ]))])
}

/// Build the subscript expression `source.field_name`.
pub fn make_subscript(source: &Json, field_name: &str) -> (r: Json)
    ensures
        r@ == subscript_of(source@, field_name@),
{
    let symbol = obj1("literal", obj1("the_symbol", obj1("symbol", Json::Str(field_name.to_string()))));
    obj1("subscript", obj2("record", source.clone(), "subscript", symbol))
}

/// The argument `field` of a call, holding expression `e`.
pub open spec fn named_arg(field: Seq<char>, e: JVal) -> JVal {
    JVal::Object(seq![("field"@, JVal::Str(field)), ("value"@, JVal::Object(seq![("expression"@, e)]))])
}

/// The expression `left == right`.
pub open spec fn equality_of(left: JVal, right: JVal) -> JVal {
    JVal::Object(seq![("call"@, JVal::Object(seq![
        ("predicate_name"@, JVal::Str("=="@)),
        ("record"@, JVal::Object(seq![("field_value"@, JVal::Array(seq![
            named_arg("left"@, left),
            named_arg("right"@, right),
        ]))])),
    ]))])
}

/// Build the expression `left == right`.
pub fn make_equality(left: &Json, right: &Json) -> (r: Json)
    ensures
        r@ == equality_of(left@, right@),
{
    broadcast use group_json_view;
    let l = obj2("field", Json::Str("left".to_string()), "value", obj1("expression", left.clone()));
    let r = obj2("field", Json::Str("right".to_string()), "value", obj1("expression", right.clone()));
    let ghost lv = l@;
    let ghost rv = r@;
    let args = vec![l, r];
    proof {
        assert(jv_seq(args@) =~= seq![lv, rv]);
    }
    obj1("call", obj2("predicate_name", Json::Str("==".to_string()), "record", obj1("field_value", Json::Array(args))))
}

/// Whether one side of a unification is a variable that the other side mentions
/// (as in `x == {f: x.f}`).
pub open spec fn self_referential(left: JVal, right: JVal) -> bool {
    ||| (var_ref(left) matches Some(n) && mentioned(right, false, false).contains(n))
    ||| (var_ref(right) matches Some(n) && mentioned(left, false, false).contains(n))
}

fn refers_into(a: &Json, b: &Json) -> (r: bool)
    ensures
        r == (var_ref(a@) matches Some(n) && mentioned(b@, false, false).contains(n)),
{
    match extract_var_name(a) {
        Some(name) => {
            let mut vars = NameSet::new();
            all_mentioned_variables(b, &mut vars);
            vars.contains(name.as_str())
        },
        None => false,
    }
}

/// Whether a unification is self-referential (see [`self_referential`]).
pub fn is_self_referential_unification(left: &Json, right: &Json) -> (r: bool)
    ensures
        r == self_referential(left@, right@),
{
    refers_into(left, right) || refers_into(right, left)
}

/// Whether every name of `a` is in `b`.
pub fn is_subset(a: &NameSet, b: &NameSet) -> (r: bool)
    ensures
        r == (forall|x: Seq<char>| a@.contains(x) ==> b@.contains(x)),
{
    let mut i: usize = 0;
    while i < a.names.len()
        invariant
            i <= a.names.len(),
            a@.len() == a.names.len(),
            forall|j: int| 0 <= j < i ==> b@.contains(#[trigger] a@[j]),
        decreases a.names.len() - i,
    {
        if !b.contains(a.names[i].as_str()) {
            assert(a@.contains(a@[i as int]));
            return false;
        }
        i = i + 1;
    }
    assert forall|x: Seq<char>| a@.contains(x) implies b@.contains(x) by {
        let j = choose|j: int| 0 <= j < a@.len() && a@[j] == x;
        assert(b@.contains(a@[j]));
    }
    true
}

/// The predicates that compile to conditions rather than tables.
pub open spec fn constraint_predicate(name: Seq<char>) -> bool {
    name == "=="@ || name == "!="@ || name == "<"@ || name == ">"@ || name == "<="@ || name == ">="@
        || name == "&&"@ || name == "||"@ || name == "~"@ || name == "in"@ || name == "is"@
        || name == "is not"@ || name == "Like"@ || name == "!"@ || name == "IsNull"@ || name == "Constraint"@
}

/// Whether `name` is a predicate that compiles to a condition.
pub fn is_constraint_predicate(name: &str) -> (r: bool)
    ensures
        r == constraint_predicate(name@),
{
    str_eq(name, "==") || str_eq(name, "!=") || str_eq(name, "<") || str_eq(name, ">")
        || str_eq(name, "<=") || str_eq(name, ">=") || str_eq(name, "&&") || str_eq(name, "||")
        || str_eq(name, "~") || str_eq(name, "in") || str_eq(name, "is") || str_eq(name, "is not")
        || str_eq(name, "Like") || str_eq(name, "!") || str_eq(name, "IsNull") || str_eq(name, "Constraint")
}

// ---------------------------------------------------------------------------
// Assignments from record patterns
// ---------------------------------------------------------------------------

/// For a unification of the record pattern `target` with `source`, the variables
/// of the pattern that are internal and not bound by `source`, each with the
/// subscript of `source` it stands for; nested records give subscripts of
/// subscripts.
pub open spec fn record_assignments(target: JVal, source: JVal, internal: Seq<Seq<char>>, bound: Seq<Seq<char>>) -> Seq<(Seq<char>, JVal)>
    decreases jsize(target), 1nat,
{
    match jget(target, "record"@) {
        Some(rec) => match jget(rec, "field_value"@) {
            Some(fvs) => {
                proof {
                    lemma_field_size(target, "record"@);
                    lemma_field_size(rec, "field_value"@);
                    lemma_items_size(fvs);
                }
                field_assignments(jitems(fvs), source, internal, bound)
            },
            None => seq![],
        },
        None => seq![],
    }
}

/// The expression an argument holds.
pub open spec fn arg_expression(fv: JVal) -> JVal {
    jfield(jfield(fv, "value"@), "expression"@)
}

pub open spec fn field_assignments(fvs: Seq<JVal>, source: JVal, internal: Seq<Seq<char>>, bound: Seq<Seq<char>>) -> Seq<(Seq<char>, JVal)>
    decreases seq_size(fvs), 0nat,
{
    if fvs.len() == 0 {
        seq![]
    } else {
        let fv = fvs.last();
        let e = arg_expression(fv);
        let sub = subscript_of(source, jstr(jfield(fv, "field"@)));
        let direct = match var_ref(e) {
            Some(v) => if internal.contains(v) && !bound.contains(v) { seq![(v, sub)] } else { seq![] },
            None => seq![],
        };
        proof {
            lemma_item_size(fvs, fvs.len() - 1);
            lemma_field_size(fv, "value"@);
            lemma_field_size(jfield(fv, "value"@), "expression"@);
        }
        field_assignments(fvs.drop_last(), source, internal, bound) + direct + if jget(e, "record"@) is Some {
            record_assignments(e, sub, internal, bound)
        } else {
            seq![]
        }
    }
}

/// The assignments [`record_assignments`] describes.
pub fn collect_record_assignments(target: &Json, source: &Json, internal_vars: &NameSet, source_vars: &NameSet) -> (r: Vec<(String, Json)>)
    ensures
        jv_entries(r@) == record_assignments(target@, source@, internal_vars@, source_vars@),
    decreases jsize(target@),
{
    broadcast use group_json_view;
    let mut out: Vec<(String, Json)> = Vec::new();
    match target.get("record") {
        Some(rec) => match rec.get("field_value") {
            Some(fvs) => {
                let items = opt_elements(Some(fvs));
                let ghost fs = jitems(fvs@);
                proof {
                    lemma_field_size(target@, "record"@);
                    lemma_field_size(rec@, "field_value"@);
                    lemma_items_size(fvs@);
                    assert(fs.take(0) =~= Seq::<JVal>::empty());
                }
                let mut i: usize = 0;
                while i < items.len()
                    invariant
                        i <= items.len(),
                        jv_seq(items@) == fs,
                        fs.len() == items.len(),
                        seq_size(fs) < jsize(target@),
                        jv_entries(out@) == field_assignments(fs.take(i as int), source@, internal_vars@, source_vars@),
                    decreases items.len() - i,
                {
                    proof {
                        lemma_jv_seq_index(items@, i as int);
                        lemma_item_size(fs, i as int);
                        assert(fs.take(i + 1).drop_last() =~= fs.take(i as int));
                        assert(fs.take(i + 1).last() == fs[i as int]);
                    }
                    let fv = &items[i];
                    let field = opt_str(fv.get("field"));
                    let null = Json::Null;
                    let e: &Json = match opt_field(fv.get("value"), "expression") {
                        Some(x) => x,
                        None => &null,
                    };
                    proof {
                        lemma_field_size(fv@, "value"@);
                        lemma_field_size(jfield(fv@, "value"@), "expression"@);
                    }
                    let sub = make_subscript(source, field);
                    let ghost before = jv_entries(out@);
                    match extract_var_name(e) {
                        Some(v) => {
                            if internal_vars.contains(v.as_str()) && !source_vars.contains(v.as_str()) {
                                let ghost o = out@;
                                let ghost vv = v@;
                                out.push((v, sub.clone()));
                                proof {
                                    assert(out@.drop_last() =~= o);
                                    assert(jv_entries(out@) =~= before + seq![(vv, sub@)]);
                                }
                            } else {
                                assert(before =~= before + Seq::<(Seq<char>, JVal)>::empty());
                            }
                        },
                        None => {
                            assert(before =~= before + Seq::<(Seq<char>, JVal)>::empty());
                        },
                    }
                    let ghost mid = jv_entries(out@);
                    if is_record(e) {
                        let mut nested = collect_record_assignments(e, &sub, internal_vars, source_vars);
                        let ghost o = out@;
                        let ghost n = nested@;
                        out.append(&mut nested);
                        proof {
                            lemma_jv_entries_append(o, n);
                        }
                    } else {
                        assert(mid =~= mid + Seq::<(Seq<char>, JVal)>::empty());
                    }
                    i = i + 1;
                }
                assert(fs.take(i as int) =~= fs);
            },
            None => {},
        },
        None => {},
    }
    proof {
        assert(jv_entries(Seq::<(String, Json)>::empty()) =~= Seq::<(Seq<char>, JVal)>::empty());
    }
    out
}

// ---------------------------------------------------------------------------
// Inline assignments
// ---------------------------------------------------------------------------

/// Argument `field` of an `=` call: the last argument with that field name, its
/// value's `expression` member (or the value itself when it has none).
pub open spec fn eq_arg(fvs: Seq<JVal>, field: Seq<char>) -> Option<JVal>
    decreases fvs.len(),
{
    if fvs.len() == 0 {
        None
    } else {
        let fv = fvs.last();
        if jstr(jfield(fv, "field"@)) == field {
            let val = jfield(fv, "value"@);
            Some(match jget(val, "expression"@) {
                Some(e) => e,
                None => val,
            })
        } else {
            eq_arg(fvs.drop_last(), field)
        }
    }
}

/// The inline assignment a node holds: when its `call` is `=` with a `left` and
/// a `right` argument, those two.
pub open spec fn assignment_at(v: JVal) -> Option<(JVal, JVal)> {
    match jget(v, "call"@) {
        Some(call) => if jstr(jfield(call, "predicate_name"@)) == "="@ {
            let fvs = jitems(jfield(jfield(call, "record"@), "field_value"@));
            match (eq_arg(fvs, "left"@), eq_arg(fvs, "right"@)) {
                (Some(l), Some(r)) => Some((l, r)),
                _ => None,
            }
        } else {
            None
        },
        None => None,
    }
}

/// A node holding the assignment `left = right`, replaced by `right`: an object
/// `right` is merged into the node's other members (its own members win).
pub open spec fn assigned_node(v: JVal, right: JVal) -> JVal {
    match right {
        JVal::Object(inner) => JVal::Object(insert_all(entries_remove(jentries(v), "call"@) + inner)),
        _ => right,
    }
}

/// `v` with its inline assignments replaced by their right-hand sides, bottom up
/// (members in order, each node after its members), and the assignments in the
/// order they were met.
pub open spec fn inlined(v: JVal) -> (JVal, Seq<(JVal, JVal)>)
    decreases v, 1nat,
{
    match v {
        JVal::Object(es) => {
            let p = inlined_entries(es);
            let w = JVal::Object(p.0);
            match assignment_at(w) {
                Some(a) => (assigned_node(w, a.1), p.1.push(a)),
                None => (w, p.1),
            }
        },
        JVal::Array(a) => {
            let p = inlined_items(a);
            (JVal::Array(p.0), p.1)
        },
        _ => (v, seq![]),
    }
}

pub open spec fn inlined_items(a: Seq<JVal>) -> (Seq<JVal>, Seq<(JVal, JVal)>)
    decreases a, 0nat,
{
    if a.len() == 0 {
        (seq![], seq![])
    } else {
        let p = inlined_items(a.drop_last());
        let q = inlined(a.last());
        (p.0.push(q.0), p.1 + q.1)
    }
}

pub open spec fn inlined_entries(es: Seq<(Seq<char>, JVal)>) -> (Seq<(Seq<char>, JVal)>, Seq<(JVal, JVal)>)
    decreases es, 0nat,
{
    if es.len() == 0 {
        (seq![], seq![])
    } else {
        proof {
            assert(decreases_to!(es => es.last()));
        }
        let p = inlined_entries(es.drop_last());
        let q = inlined(es.last().1);
        (p.0.push((es.last().0, q.0)), p.1 + q.1)
    }
}

/// Views of a list of unifications.
pub open spec fn pairs_view(s: Seq<(Json, Json)>) -> Seq<(JVal, JVal)> {
    s.map_values(|p: (Json, Json)| (p.0@, p.1@))
}

pub open spec fn opt_json(o: Option<Json>) -> Option<JVal> {
    match o {
        Some(x) => Some(x@),
        None => None,
    }
}

fn eq_arg_exec(fvs: &[Json], field: &str) -> (r: Option<Json>)
    ensures
        opt_json(r) == eq_arg(jv_seq(fvs@), field@),
{
    broadcast use group_json_view;
    let ghost fs = jv_seq(fvs@);
    let mut cur: Option<Json> = None;
    let mut i: usize = 0;
    while i < fvs.len()
        invariant
            i <= fvs.len(),
            fs == jv_seq(fvs@),
            fs.len() == fvs.len(),
            opt_json(cur) == eq_arg(fs.take(i as int), field@),
        decreases fvs.len() - i,
    {
        proof {
            lemma_jv_seq_index(fvs@, i as int);
            assert(fs.take(i + 1).drop_last() =~= fs.take(i as int));
            assert(fs.take(i + 1).last() == fs[i as int]);
        }
        let fv = &fvs[i];
        if str_eq(opt_str(fv.get("field")), field) {
            match fv.get("value") {
                Some(val) => {
                    match val.get("expression") {
                        Some(e) => {
                            cur = Some(e.clone());
                        },
                        None => {
                            cur = Some(val.clone());
                        },
                    }
                },
                None => {
                    cur = Some(Json::Null);
                },
            }
        }
        i = i + 1;
    }
    assert(fs.take(i as int) =~= fs);
    cur
}

fn assignment_of(node: &Json) -> (r: Option<(Json, Json)>)
    ensures
        match r {
            Some(p) => assignment_at(node@) == Some((p.0@, p.1@)),
            None => assignment_at(node@) is None,
        },
{
    match node.get("call") {
        Some(call) => {
            proof {
                reveal_strlit("=");
            }
            if !str_eq(opt_str(call.get("predicate_name")), "=") {
                return None;
            }
            let fvs = opt_elements(opt_field(call.get("record"), "field_value"));
            let l = eq_arg_exec(fvs, "left");
            let r = eq_arg_exec(fvs, "right");
            match (l, r) {
                (Some(a), Some(b)) => Some((a, b)),
                _ => None,
            }
        },
        None => None,
    }
}

fn assigned_node_exec(w: &Json, right: Json) -> (r: Json)
    ensures
        r@ == assigned_node(w@, right@),
{
    broadcast use group_json_view;
    match right {
        Json::Object(inner) => {
            let mut others: Vec<(String, Json)> = match w.clone() {
                Json::Object(o) => {
                    let mut o2 = o;
                    o2.remove("call");
                    o2.entries
                },
                _ => Vec::new(),
            };
            proof {
                assert(jentries(w@) =~= jentries(w@));
                if !(w@ is Object) {
                    assert(jv_entries(Seq::<(String, Json)>::empty()) =~= Seq::<(Seq<char>, JVal)>::empty());
                    assert(entries_remove(Seq::<(Seq<char>, JVal)>::empty(), "call"@) =~= Seq::<(Seq<char>, JVal)>::empty());
                }
            }
            let ghost a = others@;
            let mut rest = inner.entries;
            let ghost b = rest@;
            others.append(&mut rest);
            proof {
                lemma_jv_entries_append(a, b);
            }
            let ghost all = jv_entries(others@);
            let mut obj = JsonObject::new();
            let mut j: usize = 0;
            proof {
                lemma_jv_entries_len(others@);
                assert(all.take(0) =~= Seq::<(Seq<char>, JVal)>::empty());
            }
            while j < others.len()
                invariant
                    j <= others.len(),
                    all == jv_entries(others@),
                    all.len() == others.len(),
                    obj@ == insert_all(all.take(j as int)),
                decreases others.len() - j,
            {
                proof {
                    lemma_jv_entries_index(others@, j as int);
                    assert(all.take(j + 1).drop_last() =~= all.take(j as int));
                    assert(all.take(j + 1).last() == all[j as int]);
                }
                obj.insert(others[j].0.clone(), others[j].1.clone());
                j = j + 1;
            }
            assert(all.take(j as int) =~= all);
            Json::Object(obj)
        },
        _ => right,
    }
}

#[verifier::loop_isolation(false)]
fn inline_rec(node: &Json, unifications: &mut Vec<(Json, Json)>) -> (r: Json)
    ensures
        r@ == inlined(node@).0,
        pairs_view(final(unifications)@) == pairs_view(old(unifications)@) + inlined(node@).1,
    decreases node,
{
    match node {
        Json::Object(o) => {
            let ghost es = jv_entries(o.entries@);
            let ghost u0 = pairs_view(unifications@);
            let mut out: Vec<(String, Json)> = Vec::new();
            let mut i: usize = 0;
            proof {
                lemma_jv_entries_len(o.entries@);
                assert(es.take(0) =~= Seq::<(Seq<char>, JVal)>::empty());
                assert(u0 + Seq::<(JVal, JVal)>::empty() =~= u0);
            }
            while i < o.entries.len()
                invariant
                    i <= o.entries.len(),
                    es == jv_entries(o.entries@),
                    es.len() == o.entries.len(),
                    *node == Json::Object(*o),
                    jv_entries(out@) == inlined_entries(es.take(i as int)).0,
                    pairs_view(unifications@) == u0 + inlined_entries(es.take(i as int)).1,
                decreases o.entries.len() - i,
            {
                proof {
                    lemma_jv_entries_index(o.entries@, i as int);
                    assert(es.take(i + 1).drop_last() =~= es.take(i as int));
                    assert(es.take(i + 1).last() == es[i as int]);
                    assert(decreases_to!(*node => o.entries@[i as int].1));
                }
                let ghost ub = pairs_view(unifications@);
                let x = inline_rec(&o.entries[i].1, unifications);
                let ghost before = out@;
                out.push((o.entries[i].0.clone(), x));
                proof {
                    assert(out@.drop_last() =~= before);
                    assert(u0 + inlined_entries(es.take(i + 1)).1 =~= ub + inlined(es[i as int].1).1);
                }
                i = i + 1;
            }
            assert(es.take(i as int) =~= es);
            let w = Json::Object(JsonObject { entries: out });
            match assignment_of(&w) {
                Some((l, r)) => {
                    let rc = r.clone();
                    let ghost ub = unifications@;
                    unifications.push((l, r));
                    proof {
                        assert(pairs_view(unifications@) =~= pairs_view(ub).push((l@, rc@)));
                    }
                    assigned_node_exec(&w, rc)
                },
                None => w,
            }
        },
        Json::Array(a) => {
            let ghost items = jv_seq(a@);
            let ghost u0 = pairs_view(unifications@);
            let mut out: Vec<Json> = Vec::new();
            let mut i: usize = 0;
            proof {
                lemma_jv_seq_len(a@);
                assert(items.take(0) =~= Seq::<JVal>::empty());
                assert(u0 + Seq::<(JVal, JVal)>::empty() =~= u0);
            }
            while i < a.len()
                invariant
                    i <= a.len(),
                    items == jv_seq(a@),
                    items.len() == a.len(),
                    *node == Json::Array(*a),
                    jv_seq(out@) == inlined_items(items.take(i as int)).0,
                    pairs_view(unifications@) == u0 + inlined_items(items.take(i as int)).1,
                decreases a.len() - i,
            {
                proof {
                    lemma_jv_seq_index(a@, i as int);
                    assert(items.take(i + 1).drop_last() =~= items.take(i as int));
                    assert(items.take(i + 1).last() == items[i as int]);
                    assert(decreases_to!(*node => a@[i as int]));
                }
                let ghost ub = pairs_view(unifications@);
                let x = inline_rec(&a[i], unifications);
                let ghost before = out@;
                out.push(x);
                proof {
                    assert(out@.drop_last() =~= before);
                    assert(u0 + inlined_items(items.take(i + 1)).1 =~= ub + inlined(items[i as int]).1);
                }
                i = i + 1;
            }
            assert(items.take(i as int) =~= items);
            Json::Array(out)
        },
        _ => {
            proof {
                assert(pairs_view(unifications@) =~= pairs_view(unifications@) + Seq::<(JVal, JVal)>::empty());
            }
            node.clone()
        },
    }
}

/// Replace the inline assignments (`=` calls) of an expression by their
/// right-hand sides, and add each assignment to `unifications` as a pair of
/// its two sides (see [`inlined`]).
pub fn extract_inline_assignments(expr: &Json, unifications: &mut Vec<(Json, Json)>) -> (r: Json)
    ensures
        r@ == inlined(expr@).0,
        pairs_view(final(unifications)@) == pairs_view(old(unifications)@) + inlined(expr@).1,
{
    inline_rec(expr, unifications)
}

// ---------------------------------------------------------------------------
// Inlining predicate values
// ---------------------------------------------------------------------------

/// The functions that translate without a subquery on some engine.
pub open spec fn built_in_name(q: Seq<char>) -> bool {
    is_basis_function(Engine::BigQuery, q) || is_basis_function(Engine::SqLite, q)
        || is_basis_function(Engine::Psql, q) || is_basis_function(Engine::DuckDb, q)
}

fn add_all(names: &mut NameSet, more: &NameSet)
    ensures
        forall|q: Seq<char>| #[trigger] final(names)@.contains(q) <==> (old(names)@.contains(q) || more@.contains(q)),
{
    let mut i: usize = 0;
    while i < more.names.len()
        invariant
            i <= more.names.len(),
            more@.len() == more.names.len(),
            forall|q: Seq<char>| #[trigger] names@.contains(q)
                <==> (old(names)@.contains(q) || exists|j: int| 0 <= j < i && more@[j] == q),
        decreases more.names.len() - i,
    {
        let n = more.names[i].clone();
        proof {
            lemma_set_add(names@, n@);
        }
        names.insert(n);
        assert forall|q: Seq<char>| #[trigger] names@.contains(q)
            <==> (old(names)@.contains(q) || exists|j: int| 0 <= j < i + 1 && more@[j] == q) by {
            if q == more@[i as int] {
                assert(more@[i as int] == q);
            }
            if exists|j: int| 0 <= j < i + 1 && more@[j] == q {
                let j = choose|j: int| 0 <= j < i + 1 && more@[j] == q;
                if j < i {
                    assert(exists|j2: int| 0 <= j2 < i && more@[j2] == q);
                }
            }
        }
        i = i + 1;
    }
    assert forall|q: Seq<char>| #[trigger] names@.contains(q) <==> (old(names)@.contains(q) || more@.contains(q)) by {
        if more@.contains(q) {
            let j = choose|j: int| 0 <= j < more@.len() && more@[j] == q;
            assert(0 <= j < i && more@[j] == q);
        }
    }
}

/// The names of the functions that translate without a subquery on the
/// BigQuery, SQLite, PostgreSQL or DuckDB engines.
pub fn built_in_function_names() -> (r: NameSet)
    ensures
        forall|q: Seq<char>| #[trigger] r@.contains(q) <==> built_in_name(q),
{
    let mut s = basis_functions(&BigQueryDialect);
    add_all(&mut s, &basis_functions(&SqLiteDialect));
    add_all(&mut s, &basis_functions(&PostgreSqlDialect));
    add_all(&mut s, &basis_functions(&DuckDbDialect));
    s
}

/// The argument `logica_value: aux` added to an inlined call.
pub open spec fn value_arg(aux: Seq<char>) -> JVal {
    JVal::Object(seq![("field"@, JVal::Str("logica_value"@)), ("value"@, JVal::Object(seq![("expression"@, var_expr(aux))]))])
}

/// A call with the argument `logica_value: aux` appended to its record.
pub open spec fn value_call(call: JVal, aux: Seq<char>) -> JVal {
    let rec = jfield(call, "record"@);
    with_member(call, "record"@, with_member(rec, "field_value"@, JVal::Array(jitems(jfield(rec, "field_value"@)).push(value_arg(aux)))))
}

/// The `variable` member naming `aux`.
pub open spec fn var_member(aux: Seq<char>) -> JVal {
    JVal::Object(seq![("var_name"@, JVal::Str(aux))])
}

/// A node after its members were processed: a call of a predicate that is not a
/// built-in function becomes the fresh variable `x_n`, and the call, with
/// `logica_value: x_n` added, a conjunct of the body.
pub open spec fn pv_node(w: JVal, cs: Seq<JVal>, n: nat) -> (JVal, Seq<JVal>, nat) {
    match jget(w, "call"@) {
        Some(call) => if built_in_name(jstr(jfield(call, "predicate_name"@))) {
            (w, cs, n)
        } else {
            let aux = var_name(n);
            (
                JVal::Object(crate::json::entries_insert(entries_remove(jentries(w), "call"@), "variable"@, var_member(aux))),
                cs.push(JVal::Object(seq![("predicate"@, value_call(call, aux))])),
                n + 1,
            )
        },
        None => (w, cs, n),
    }
}

/// Predicate values inlined in `v`, bottom up, the members of an object in the
/// order of their keys (those named `combine` and `type` left alone), with `n`
/// variables allocated before: the new tree, the conjuncts it needs, and the
/// number of variables allocated after.
pub open spec fn pv(v: JVal, n: nat) -> (JVal, Seq<JVal>, nat)
    decreases jsize(v), 1nat, 0nat,
{
    match v {
        JVal::Object(es) => {
            let p = pv_keys(v, sorted_names(es.map_values(|e: (Seq<char>, JVal)| e.0)), n);
            pv_node(JVal::Object(p.0), p.1, p.2)
        },
        JVal::Array(a) => {
            let p = pv_items(a, n);
            (JVal::Array(p.0), p.1, p.2)
        },
        _ => (v, seq![], n),
    }
}

pub open spec fn pv_keys(v: JVal, keys: Seq<Seq<char>>, n: nat) -> (Seq<(Seq<char>, JVal)>, Seq<JVal>, nat)
    decreases jsize(v), 0nat, keys.len(),
{
    if keys.len() == 0 {
        (jentries(v), seq![], n)
    } else {
        let p = pv_keys(v, keys.drop_last(), n);
        let k = keys.last();
        if k == "combine"@ || k == "type"@ {
            p
        } else {
            match jget(v, k) {
                Some(x) => {
                    proof {
                        lemma_field_size(v, k);
                    }
                    let q = pv(x, p.2);
                    (crate::json::entries_insert(p.0, k, q.0), p.1 + q.1, q.2)
                },
                None => p,
            }
        }
    }
}

pub open spec fn pv_items(a: Seq<JVal>, n: nat) -> (Seq<JVal>, Seq<JVal>, nat)
    decreases seq_size(a), 0nat, a.len(),
{
    if a.len() == 0 {
        (seq![], seq![], n)
    } else {
        proof {
            lemma_item_size(a, a.len() - 1);
        }
        let p = pv_items(a.drop_last(), n);
        let q = pv(a.last(), p.2);
        (p.0.push(q.0), p.1 + q.1, q.2)
    }
}

proof fn lemma_pv_grows(v: JVal, n: nat)
    ensures
        pv(v, n).2 >= n,
    decreases jsize(v), 1nat, 0nat,
{
    match v {
        JVal::Object(es) => {
            lemma_pv_keys_grows(v, sorted_names(es.map_values(|e: (Seq<char>, JVal)| e.0)), n);
        },
        JVal::Array(a) => {
            lemma_pv_items_grows(a, n);
        },
        _ => {},
    }
}

proof fn lemma_pv_keys_grows(v: JVal, keys: Seq<Seq<char>>, n: nat)
    ensures
        pv_keys(v, keys, n).2 >= n,
    decreases jsize(v), 0nat, keys.len(),
{
    if keys.len() > 0 {
        lemma_pv_keys_grows(v, keys.drop_last(), n);
        let p = pv_keys(v, keys.drop_last(), n);
        let k = keys.last();
        if !(k == "combine"@ || k == "type"@) {
            if let Some(x) = jget(v, k) {
                lemma_field_size(v, k);
                lemma_pv_grows(x, p.2);
            }
        }
    }
}

proof fn lemma_pv_items_grows(a: Seq<JVal>, n: nat)
    ensures
        pv_items(a, n).2 >= n,
    decreases seq_size(a), 0nat, a.len(),
{
    if a.len() > 0 {
        lemma_item_size(a, a.len() - 1);
        lemma_pv_items_grows(a.drop_last(), n);
        lemma_pv_grows(a.last(), pv_items(a.drop_last(), n).2);
    }
}

proof fn lemma_pv_keys_prefix(v: JVal, keys: Seq<Seq<char>>, n: nat, i: int)
    requires
        0 <= i <= keys.len(),
    ensures
        pv_keys(v, keys.take(i), n).2 <= pv_keys(v, keys, n).2,
    decreases keys.len() - i,
{
    if i < keys.len() {
        lemma_pv_keys_prefix(v, keys, n, i + 1);
        let t = keys.take(i + 1);
        assert(t.drop_last() =~= keys.take(i));
        let p = pv_keys(v, keys.take(i), n);
        let k = t.last();
        if !(k == "combine"@ || k == "type"@) {
            if let Some(x) = jget(v, k) {
                lemma_pv_grows(x, p.2);
            }
        }
    } else {
        assert(keys.take(i) =~= keys);
    }
}

proof fn lemma_pv_items_prefix(a: Seq<JVal>, n: nat, i: int)
    requires
        0 <= i <= a.len(),
    ensures
        pv_items(a.take(i), n).2 <= pv_items(a, n).2,
    decreases a.len() - i,
{
    if i < a.len() {
        lemma_pv_items_prefix(a, n, i + 1);
        let t = a.take(i + 1);
        assert(t.drop_last() =~= a.take(i));
        lemma_pv_grows(t.last(), pv_items(a.take(i), n).2);
    } else {
        assert(a.take(i) =~= a);
    }
}

/// `v` with member `k` set to `x`.
fn with_member_exec(v: &Json, k: &str, x: Json) -> (r: Json)
    ensures
        r@ == with_member(v@, k@, x@),
{
    let mut o = match v.clone() {
        Json::Object(o) => o,
        _ => JsonObject::new(),
    };
    o.insert(k.to_string(), x);
    Json::Object(o)
}

fn value_call_exec(call: &Json, aux: &str) -> (r: Json)
    ensures
        r@ == value_call(call@, aux@),
{
    broadcast use group_json_view;
    let rec = match call.get("record") {
        Some(x) => x.clone(),
        None => Json::Null,
    };
    let mut items: Vec<Json> = match rec.get("field_value") {
        Some(f) => match f.clone() {
            Json::Array(a) => a,
            _ => Vec::new(),
        },
        None => Vec::new(),
    };
    proof {
        assert(jv_seq(Seq::<Json>::empty()) =~= Seq::<JVal>::empty());
    }
    let arg = obj2("field", Json::Str("logica_value".to_string()), "value", obj1("expression", make_var_expr(aux)));
    let ghost before = items@;
    let ghost av = arg@;
    items.push(arg);
    proof {
        assert(items@.drop_last() =~= before);
    }
    let rec2 = with_member_exec(&rec, "field_value", Json::Array(items));
    with_member_exec(call, "record", rec2)
}

/// The keys of an object's entries.
fn entry_keys(o: &JsonObject) -> (r: Vec<String>)
    ensures
        names_view(r@) == o@.map_values(|e: (Seq<char>, JVal)| e.0),
{
    broadcast use group_json_view;
    let mut keys: Vec<String> = Vec::new();
    let mut i: usize = 0;
    while i < o.entries.len()
        invariant
            i <= o.entries.len(),
            o@.len() == o.entries.len(),
            names_view(keys@) == o@.map_values(|e: (Seq<char>, JVal)| e.0).take(i as int),
        decreases o.entries.len() - i,
    {
        proof {
            lemma_jv_entries_index(o.entries@, i as int);
        }
        let ghost before = keys@;
        keys.push(o.entries[i].0.clone());
        proof {
            assert(names_view(keys@) =~= names_view(before).push(o@[i as int].0));
            assert(o@.map_values(|e: (Seq<char>, JVal)| e.0).take(i + 1) =~= o@.map_values(|e: (Seq<char>, JVal)| e.0).take(i as int).push(o@[i as int].0));
        }
        i = i + 1;
    }
    assert(o@.map_values(|e: (Seq<char>, JVal)| e.0).take(i as int) =~= o@.map_values(|e: (Seq<char>, JVal)| e.0));
    keys
}

#[verifier::loop_isolation(false)]
#[verifier::rlimit(60)]
fn pv_exec(node: &Json, conjuncts: &mut Vec<Json>, allocator: &mut NamesAllocator, known: &NameSet) -> (r: Json)
    requires
        forall|q: Seq<char>| #[trigger] known@.contains(q) <==> built_in_name(q),
        pv(node@, old(allocator)@.var_count).2 <= usize::MAX,
    ensures
        r@ == pv(node@, old(allocator)@.var_count).0,
        jv_seq(final(conjuncts)@) == jv_seq(old(conjuncts)@) + pv(node@, old(allocator)@.var_count).1,
        final(allocator)@.var_count == pv(node@, old(allocator)@.var_count).2,
        final(allocator)@.table_count == old(allocator)@.table_count,
        final(allocator)@.tables == old(allocator)@.tables,
        final(allocator)@.custom_udfs == old(allocator)@.custom_udfs,
    decreases jsize(node@),
{
    broadcast use group_json_view;
    let ghost n0 = allocator@.var_count;
    let ghost c0 = jv_seq(conjuncts@);
    match node {
        Json::Object(o) => {
            let keys = entry_keys(o);
            let sorted = sorted_within_exec(&keys, &keys);
            let ghost ks = names_view(sorted@);
            let mut out = match node.clone() {
                Json::Object(o2) => o2,
                _ => JsonObject::new(),
            };
            proof {
                assert(ks.take(0) =~= Seq::<Seq<char>>::empty());
                assert(c0 + Seq::<JVal>::empty() =~= c0);
                lemma_pv_keys_prefix(node@, ks, n0, 0);
            }
            let mut i: usize = 0;
            while i < sorted.len()
                invariant
                    i <= sorted.len(),
                    ks == names_view(sorted@),
                    ks.len() == sorted.len(),
                    ks == sorted_names(jentries(node@).map_values(|e: (Seq<char>, JVal)| e.0)),
                    out@ == pv_keys(node@, ks.take(i as int), n0).0,
                    jv_seq(conjuncts@) == c0 + pv_keys(node@, ks.take(i as int), n0).1,
                    allocator@.var_count == pv_keys(node@, ks.take(i as int), n0).2,
                    allocator@.table_count == old(allocator)@.table_count,
                    allocator@.tables == old(allocator)@.tables,
                    allocator@.custom_udfs == old(allocator)@.custom_udfs,
                    pv_keys(node@, ks, n0).2 <= usize::MAX,
                decreases sorted.len() - i,
            {
                proof {
                    assert(ks.take(i + 1).drop_last() =~= ks.take(i as int));
                    assert(ks.take(i + 1).last() == ks[i as int]);
                    lemma_pv_keys_prefix(node@, ks, n0, i + 1);
                    reveal_strlit("combine");
                    reveal_strlit("type");
                }
                let k = &sorted[i];
                if !(str_eq(k.as_str(), "combine") || str_eq(k.as_str(), "type")) {
                    match node.get(k.as_str()) {
                        Some(x) => {
                            proof {
                                lemma_field_size(node@, k@);
                            }
                            let ghost cb = jv_seq(conjuncts@);
                            let x2 = pv_exec(x, conjuncts, allocator, known);
                            out.insert(k.clone(), x2);
                            proof {
                                assert(c0 + pv_keys(node@, ks.take(i + 1), n0).1 =~= cb + pv(x@, pv_keys(node@, ks.take(i as int), n0).2).1);
                            }
                        },
                        None => {},
                    }
                }
                i = i + 1;
            }
            assert(ks.take(i as int) =~= ks);
            let ghost p = pv_keys(node@, ks, n0);
            let w = Json::Object(out);
            match w.get("call") {
                Some(call) => {
                    let pn = opt_str(call.get("predicate_name"));
                    if known.contains(pn) {
                        w
                    } else {
                        let aux = allocator.alloc_var();
                        let vc = value_call_exec(call, aux.as_str());
                        let conjunct = obj1("predicate", vc);
                        let ghost cb = conjuncts@;
                        conjuncts.push(conjunct);
                        proof {
                            assert(conjuncts@.drop_last() =~= cb);
                            assert(jv_seq(conjuncts@) =~= c0 + p.1.push(conjunct@));
                        }
                        let mut o3 = match w {
                            Json::Object(o) => o,
                            _ => JsonObject::new(),
                        };
                        o3.remove("call");
                        o3.insert("variable".to_string(), obj1("var_name", Json::Str(aux)));
                        Json::Object(o3)
                    }
                },
                None => w,
            }
        },
        Json::Array(a) => {
            let ghost items = jv_seq(a@);
            let mut out: Vec<Json> = Vec::new();
            let mut i: usize = 0;
            proof {
                lemma_jv_seq_len(a@);
                assert(items.take(0) =~= Seq::<JVal>::empty());
                assert(c0 + Seq::<JVal>::empty() =~= c0);
                lemma_pv_items_prefix(items, n0, 0);
            }
            while i < a.len()
                invariant
                    i <= a.len(),
                    items == jv_seq(a@),
                    items.len() == a.len(),
                    node@ == JVal::Array(items),
                    jv_seq(out@) == pv_items(items.take(i as int), n0).0,
                    jv_seq(conjuncts@) == c0 + pv_items(items.take(i as int), n0).1,
                    allocator@.var_count == pv_items(items.take(i as int), n0).2,
                    allocator@.table_count == old(allocator)@.table_count,
                    allocator@.tables == old(allocator)@.tables,
                    allocator@.custom_udfs == old(allocator)@.custom_udfs,
                    pv_items(items, n0).2 <= usize::MAX,
                decreases a.len() - i,
            {
                proof {
                    lemma_jv_seq_index(a@, i as int);
                    assert(items.take(i + 1).drop_last() =~= items.take(i as int));
                    assert(items.take(i + 1).last() == items[i as int]);
                    lemma_pv_items_prefix(items, n0, i + 1);
                    lemma_item_size(items, i as int);
                }
                let ghost cb = jv_seq(conjuncts@);
                let x2 = pv_exec(&a[i], conjuncts, allocator, known);
                let ghost before = out@;
                out.push(x2);
                proof {
                    assert(out@.drop_last() =~= before);
                    assert(c0 + pv_items(items.take(i + 1), n0).1 =~= cb + pv(items[i as int], pv_items(items.take(i as int), n0).2).1);
                }
                i = i + 1;
            }
            assert(items.take(i as int) =~= items);
            Json::Array(out)
        },
        _ => {
            proof {
                assert(c0 + Seq::<JVal>::empty() =~= c0);
            }
            node.clone()
        },
    }
}

/// Inline predicate values of `node` in place, adding the conjuncts they need to
/// `conjuncts` (see [`pv`]).
pub fn inline_predicate_values_recursive(node: &mut Json, conjuncts: &mut Vec<Json>, allocator: &mut NamesAllocator, known_functions: &NameSet)
    requires
        forall|q: Seq<char>| #[trigger] known_functions@.contains(q) <==> built_in_name(q),
        pv(old(node)@, old(allocator)@.var_count).2 <= usize::MAX,
    ensures
        final(node)@ == pv(old(node)@, old(allocator)@.var_count).0,
        jv_seq(final(conjuncts)@) == jv_seq(old(conjuncts)@) + pv(old(node)@, old(allocator)@.var_count).1,
        final(allocator)@.var_count == pv(old(node)@, old(allocator)@.var_count).2,
        final(allocator)@.table_count == old(allocator)@.table_count,
        final(allocator)@.tables == old(allocator)@.tables,
        final(allocator)@.custom_udfs == old(allocator)@.custom_udfs,
{
    let r = pv_exec(node, conjuncts, allocator, known_functions);
    *node = r;
}

/// A rule with conjuncts `cs` added at the end of its body (a body is made when
/// there is none).
pub open spec fn with_conjuncts(rule: JVal, cs: Seq<JVal>) -> JVal {
    if cs.len() == 0 {
        rule
    } else {
        let body = match jget(rule, "body"@) {
            Some(b) => b,
            None => JVal::Object(seq![("conjunction"@, JVal::Object(seq![("conjunct"@, JVal::Array(seq![]))]))]),
        };
        let conj = jfield(body, "conjunction"@);
        with_member(rule, "body"@, with_member(body, "conjunction"@,
            with_member(conj, "conjunct"@, JVal::Array(jitems(jfield(conj, "conjunct"@)) + cs))))
    }
}

/// Turn the calls of user predicates in value position into conjuncts of the
/// body: `F() = T1()` becomes `F(logica_value: x) :- T1(logica_value: x)`
/// (see [`pv`]; the conjuncts go to the end of the body). A rule that is no
/// object is only accepted when nothing in it is inlined.
pub fn inline_predicate_values(rule: &mut Json, allocator: &mut NamesAllocator)
    requires
        pv(old(rule)@, old(allocator)@.var_count).1.len() > 0 ==> old(rule)@ is Object,
        pv(old(rule)@, old(allocator)@.var_count).2 <= usize::MAX,
    ensures
        final(rule)@ == with_conjuncts(pv(old(rule)@, old(allocator)@.var_count).0, pv(old(rule)@, old(allocator)@.var_count).1),
        final(allocator)@.var_count == pv(old(rule)@, old(allocator)@.var_count).2,
        final(allocator)@.table_count == old(allocator)@.table_count,
        final(allocator)@.tables == old(allocator)@.tables,
        final(allocator)@.custom_udfs == old(allocator)@.custom_udfs,
{
    broadcast use group_json_view;
    let known = built_in_function_names();
    let mut extra: Vec<Json> = Vec::new();
    proof {
        assert(jv_seq(extra@) =~= Seq::<JVal>::empty());
    }
    inline_predicate_values_recursive(rule, &mut extra, allocator, &known);
    proof {
        assert(jv_seq(extra@) =~= pv(old(rule)@, old(allocator)@.var_count).1);
        lemma_jv_seq_len(extra@);
    }
    if extra.len() > 0 {
        let body = match rule.get("body") {
            Some(b) => b.clone(),
            None => {
                let empty: Vec<Json> = Vec::new();
                proof {
                    assert(jv_seq(empty@) =~= Seq::<JVal>::empty());
                }
                obj1("conjunction", obj1("conjunct", Json::Array(empty)))
            },
        };
        let conj = match body.get("conjunction") {
            Some(c) => c.clone(),
            None => Json::Null,
        };
        let mut items: Vec<Json> = match conj.get("conjunct") {
            Some(c) => match c.clone() {
                Json::Array(a) => a,
                _ => Vec::new(),
            },
            None => Vec::new(),
        };
        proof {
            assert(jv_seq(Seq::<Json>::empty()) =~= Seq::<JVal>::empty());
        }
        let ghost a = items@;
        let ghost b = extra@;
        items.append(&mut extra);
        proof {
            lemma_jv_seq_append(a, b);
        }
        let conj2 = with_member_exec(&conj, "conjunct", Json::Array(items));
        let body2 = with_member_exec(&body, "conjunction", conj2);
        let r2 = with_member_exec(rule, "body", body2);
        *rule = r2;
    }
}

// ---------------------------------------------------------------------------
// Variables of combines
// ---------------------------------------------------------------------------

/// The names of a finite set in increasing order.
pub open spec fn sorted_listing(s: Set<Seq<char>>) -> Seq<Seq<char>> {
    choose|t: Seq<Seq<char>>| strictly_sorted(t) && forall|y: Seq<char>| #[trigger] t.contains(y) <==> s.contains(y)
}

/// Two increasing listings of the same names are the same listing.
pub proof fn lemma_sorted_unique(a: Seq<Seq<char>>, b: Seq<Seq<char>>)
    requires
        strictly_sorted(a),
        strictly_sorted(b),
        forall|y: Seq<char>| #[trigger] a.contains(y) <==> b.contains(y),
    ensures
        a == b,
    decreases a.len(),
{
    if a.len() == 0 {
        if b.len() > 0 {
            assert(b.contains(b[0]));
            assert(a.contains(b[0]));
        }
        assert(a =~= b);
    } else {
        assert(a.contains(a[0]));
        assert(b.contains(a[0]));
        assert(b.len() > 0);
        assert(b.contains(b[0]));
        assert(a.contains(b[0]));
        if a[0] != b[0] {
            let j = choose|j: int| 0 <= j < b.len() && b[j] == a[0];
            let k = choose|k: int| 0 <= k < a.len() && a[k] == b[0];
            assert(j > 0 && k > 0);
            assert(text_lt(b[0], b[j]));
            assert(text_lt(a[0], a[k]));
            lemma_text_lt_asymmetric(a[0], b[0]);
        }
        let ta = a.drop_first();
        let tb = b.drop_first();
        assert forall|i: int, j: int| 0 <= i < j < ta.len() implies text_lt(#[trigger] ta[i], #[trigger] ta[j]) by {
            assert(ta[i] == a[i + 1] && ta[j] == a[j + 1]);
        }
        assert forall|i: int, j: int| 0 <= i < j < tb.len() implies text_lt(#[trigger] tb[i], #[trigger] tb[j]) by {
            assert(tb[i] == b[i + 1] && tb[j] == b[j + 1]);
        }
        assert forall|y: Seq<char>| #[trigger] ta.contains(y) <==> tb.contains(y) by {
            if ta.contains(y) {
                let i = choose|i: int| 0 <= i < ta.len() && ta[i] == y;
                assert(a[i + 1] == y);
                assert(a.contains(y));
                assert(b.contains(y));
                let j = choose|j: int| 0 <= j < b.len() && b[j] == y;
                if j == 0 {
                    assert(text_lt(a[0], a[i + 1]));
                    lemma_text_lt_irreflexive(y);
                }
                assert(tb[j - 1] == y);
            }
            if tb.contains(y) {
                let i = choose|i: int| 0 <= i < tb.len() && tb[i] == y;
                assert(b[i + 1] == y);
                assert(b.contains(y));
                assert(a.contains(y));
                let j = choose|j: int| 0 <= j < a.len() && a[j] == y;
                if j == 0 {
                    assert(text_lt(b[0], b[i + 1]));
                    lemma_text_lt_irreflexive(y);
                }
                assert(ta[j - 1] == y);
            }
        }
        lemma_sorted_unique(ta, tb);
        assert(a =~= seq![a[0]] + ta);
        assert(b =~= seq![b[0]] + tb);
    }
}

/// The text that marks a renamed combine variable.
pub open spec fn rename_marker() -> Seq<char> {
    " # disambiguated with "@
}

/// The variables a combine introduces: those it mentions (outside nested
/// combines) that the outer scope does not, and that were not renamed before.
pub open spec fn introduced(c: JVal, outer: Set<Seq<char>>) -> Set<Seq<char>> {
    Set::new(|v: Seq<char>| mentioned(c, false, false).contains(v) && !outer.contains(v) && !contains_seq(v, rename_marker()))
}

/// `c` with the variables `names` renamed in turn, the `i`th to
/// `name # disambiguated with x_(n + i)`.
pub open spec fn renamed(c: JVal, names: Seq<Seq<char>>, n: nat) -> JVal
    decreases names.len(),
{
    if names.len() == 0 {
        c
    } else {
        let v = names.last();
        replaced(renamed(c, names.drop_last(), n), v, var_expr(v + rename_marker() + var_name((n + names.len() - 1) as nat)))
    }
}

proof fn lemma_member_size(v: JVal, k: Seq<char>)
    ensures
        jget(v, k) matches Some(x) ==> jsize(v) >= 2 + jsize(x),
{
    if let JVal::Object(es) = v {
        lemma_entries_get_at(es, k);
        if let Some(x) = entries_get_of(es, k) {
            let i = choose|i: int| 0 <= i < es.len() && x == es[i].1;
            lemma_entry_size(es, i);
        }
    }
}

pub open spec fn entries_get_of(es: Seq<(Seq<char>, JVal)>, k: Seq<char>) -> Option<JVal> {
    crate::json::entries_get(es, k)
}

proof fn lemma_var_expr_size(x: Seq<char>)
    ensures
        jsize(var_expr(x)) == 4,
{
    let inner = JVal::Object(seq![("var_name"@, JVal::Str(x))]);
    let es1 = seq![("var_name"@, JVal::Str(x))];
    assert(es1.drop_last() =~= Seq::<(Seq<char>, JVal)>::empty());
    assert(es1.last().1 == JVal::Str(x));
    assert(jsize(JVal::Str(x)) == 0);
    assert(entries_size(es1.drop_last()) == 0);
    assert(entries_size(es1) == 1);
    assert(jsize(inner) == 2);
    let es2 = seq![("variable"@, inner)];
    assert(es2.drop_last() =~= Seq::<(Seq<char>, JVal)>::empty());
    assert(es2.last().1 == inner);
    assert(entries_size(es2.drop_last()) == 0);
    assert(entries_size(es2) == 3);
}

proof fn lemma_replaced_size(v: JVal, name: Seq<char>, new: JVal)
    requires
        jsize(new) <= 4,
    ensures
        jsize(replaced(v, name, new)) <= jsize(v),
    decreases v, 1nat,
{
    match v {
        JVal::Object(es) => {
            if var_ref(v) == Some(name) {
                let var = jget(v, "variable"@)->0;
                lemma_member_size(v, "variable"@);
                lemma_member_size(var, "var_name"@);
            } else {
                lemma_replaced_entries_size(es, name, new);
            }
        },
        JVal::Array(a) => {
            lemma_replaced_items_size(a, name, new);
        },
        _ => {},
    }
}

proof fn lemma_replaced_items_size(a: Seq<JVal>, name: Seq<char>, new: JVal)
    requires
        jsize(new) <= 4,
    ensures
        seq_size(replaced_items(a, name, new)) <= seq_size(a),
    decreases a, 0nat,
{
    if a.len() > 0 {
        lemma_replaced_items_size(a.drop_last(), name, new);
        lemma_replaced_size(a.last(), name, new);
        let r = replaced_items(a, name, new);
        assert(r.drop_last() =~= replaced_items(a.drop_last(), name, new));
    }
}

proof fn lemma_replaced_entries_size(es: Seq<(Seq<char>, JVal)>, name: Seq<char>, new: JVal)
    requires
        jsize(new) <= 4,
    ensures
        entries_size(replaced_entries(es, name, new)) <= entries_size(es),
    decreases es, 0nat,
{
    if es.len() > 0 {
        assert(decreases_to!(es => es.last()));
        lemma_replaced_entries_size(es.drop_last(), name, new);
        lemma_replaced_size(es.last().1, name, new);
        let r = replaced_entries(es, name, new);
        assert(r.drop_last() =~= replaced_entries(es.drop_last(), name, new));
    }
}

pub proof fn lemma_renamed_size(c: JVal, names: Seq<Seq<char>>, n: nat)
    ensures
        jsize(renamed(c, names, n)) <= jsize(c),
    decreases names.len(),
{
    if names.len() > 0 {
        lemma_renamed_size(c, names.drop_last(), n);
        let v = names.last();
        let x = var_expr(v + rename_marker() + var_name((n + names.len() - 1) as nat));
        lemma_var_expr_size(v + rename_marker() + var_name((n + names.len() - 1) as nat));
        lemma_replaced_size(renamed(c, names.drop_last(), n), v, x);
    }
}

/// The variables of each combine in `v` renamed apart from the scope around it
/// (see [`introduced`] and [`renamed`]), with `n` variables allocated before:
/// the new tree and the number of variables allocated after. In an object with
/// a `combine` member only that member is visited; nested combines see the
/// variables of the combines around them as outer.
pub open spec fn dis(v: JVal, outer: Set<Seq<char>>, n: nat) -> (JVal, nat)
    decreases jsize(v), 1nat, 0nat,
{
    match v {
        JVal::Object(es) => match jget(v, "combine"@) {
            Some(c) => {
                let intro = sorted_listing(introduced(c, outer));
                let c1 = renamed(c, intro, n);
                proof {
                    lemma_renamed_size(c, intro, n);
                    lemma_field_size(v, "combine"@);
                }
                let q = dis(c1, outer + mentioned(c1, false, false), n + intro.len());
                (JVal::Object(crate::json::entries_insert(es, "combine"@, q.0)), q.1)
            },
            None => {
                let p = dis_keys(v, es.map_values(|e: (Seq<char>, JVal)| e.0), outer, n);
                (JVal::Object(p.0), p.1)
            },
        },
        JVal::Array(a) => {
            let p = dis_items(a, outer, n);
            (JVal::Array(p.0), p.1)
        },
        _ => (v, n),
    }
}

pub open spec fn dis_keys(v: JVal, keys: Seq<Seq<char>>, outer: Set<Seq<char>>, n: nat) -> (Seq<(Seq<char>, JVal)>, nat)
    decreases jsize(v), 0nat, keys.len(),
{
    if keys.len() == 0 {
        (jentries(v), n)
    } else {
        let p = dis_keys(v, keys.drop_last(), outer, n);
        let k = keys.last();
        match jget(v, k) {
            Some(x) => {
                proof {
                    lemma_field_size(v, k);
                }
                let q = dis(x, outer, p.1);
                (crate::json::entries_insert(p.0, k, q.0), q.1)
            },
            None => p,
        }
    }
}

pub open spec fn dis_items(a: Seq<JVal>, outer: Set<Seq<char>>, n: nat) -> (Seq<JVal>, nat)
    decreases seq_size(a), 0nat, a.len(),
{
    if a.len() == 0 {
        (seq![], n)
    } else {
        proof {
            lemma_item_size(a, a.len() - 1);
        }
        let p = dis_items(a.drop_last(), outer, n);
        let q = dis(a.last(), outer, p.1);
        (p.0.push(q.0), q.1)
    }
}

proof fn lemma_dis_grows(v: JVal, outer: Set<Seq<char>>, n: nat)
    ensures
        dis(v, outer, n).1 >= n,
    decreases jsize(v), 1nat, 0nat,
{
    match v {
        JVal::Object(es) => match jget(v, "combine"@) {
            Some(c) => {
                let intro = sorted_listing(introduced(c, outer));
                let c1 = renamed(c, intro, n);
                lemma_renamed_size(c, intro, n);
                lemma_field_size(v, "combine"@);
                lemma_dis_grows(c1, outer + mentioned(c1, false, false), n + intro.len());
            },
            None => {
                lemma_dis_keys_grows(v, es.map_values(|e: (Seq<char>, JVal)| e.0), outer, n);
            },
        },
        JVal::Array(a) => {
            lemma_dis_items_grows(a, outer, n);
        },
        _ => {},
    }
}

proof fn lemma_dis_keys_grows(v: JVal, keys: Seq<Seq<char>>, outer: Set<Seq<char>>, n: nat)
    ensures
        dis_keys(v, keys, outer, n).1 >= n,
    decreases jsize(v), 0nat, keys.len(),
{
    if keys.len() > 0 {
        lemma_dis_keys_grows(v, keys.drop_last(), outer, n);
        if let Some(x) = jget(v, keys.last()) {
            lemma_field_size(v, keys.last());
            lemma_dis_grows(x, outer, dis_keys(v, keys.drop_last(), outer, n).1);
        }
    }
}

proof fn lemma_dis_items_grows(a: Seq<JVal>, outer: Set<Seq<char>>, n: nat)
    ensures
        dis_items(a, outer, n).1 >= n,
    decreases seq_size(a), 0nat, a.len(),
{
    if a.len() > 0 {
        lemma_item_size(a, a.len() - 1);
        lemma_dis_items_grows(a.drop_last(), outer, n);
        lemma_dis_grows(a.last(), outer, dis_items(a.drop_last(), outer, n).1);
    }
}

proof fn lemma_dis_keys_prefix(v: JVal, keys: Seq<Seq<char>>, outer: Set<Seq<char>>, n: nat, i: int)
    requires
        0 <= i <= keys.len(),
    ensures
        dis_keys(v, keys.take(i), outer, n).1 <= dis_keys(v, keys, outer, n).1,
    decreases keys.len() - i,
{
    if i < keys.len() {
        lemma_dis_keys_prefix(v, keys, outer, n, i + 1);
        let t = keys.take(i + 1);
        assert(t.drop_last() =~= keys.take(i));
        if let Some(x) = jget(v, t.last()) {
            lemma_dis_grows(x, outer, dis_keys(v, keys.take(i), outer, n).1);
        }
    } else {
        assert(keys.take(i) =~= keys);
    }
}

proof fn lemma_dis_items_prefix(a: Seq<JVal>, outer: Set<Seq<char>>, n: nat, i: int)
    requires
        0 <= i <= a.len(),
    ensures
        dis_items(a.take(i), outer, n).1 <= dis_items(a, outer, n).1,
    decreases a.len() - i,
{
    if i < a.len() {
        lemma_dis_items_prefix(a, outer, n, i + 1);
        let t = a.take(i + 1);
        assert(t.drop_last() =~= a.take(i));
        lemma_dis_grows(t.last(), outer, dis_items(a.take(i), outer, n).1);
    } else {
        assert(a.take(i) =~= a);
    }
}

/// The variables [`introduced`] by combine `c`, in increasing order.
fn introduced_exec(c: &Json, outer: &NameSet) -> (r: Vec<String>)
    ensures
        names_view(r@) == sorted_listing(introduced(c@, outer@.to_set())),
{
    let ghost outer_set = outer@.to_set();
    let mut cv = NameSet::new();
    all_mentioned_variables_impl(c, &mut cv, false);
    let mut cand: Vec<String> = Vec::new();
    let mut i: usize = 0;
    proof {
        reveal_strlit(" # disambiguated with ");
    }
    while i < cv.names.len()
        invariant
            i <= cv.names.len(),
            cv@.len() == cv.names.len(),
            forall|q: Seq<char>| #[trigger] cv@.contains(q) <==> mentioned(c@, false, false).contains(q),
            forall|q: Seq<char>| #[trigger] outer@.contains(q) <==> outer_set.contains(q),
            forall|q: Seq<char>| #[trigger] names_view(cand@).contains(q)
                <==> (exists|j: int| 0 <= j < i && cv@[j] == q) && !outer_set.contains(q) && !contains_seq(q, rename_marker()),
        decreases cv.names.len() - i,
    {
        let name = &cv.names[i];
        let ghost before = names_view(cand@);
        let keep = !outer.contains(name.as_str()) && !contains_str(name.as_str(), " # disambiguated with ");
        if keep {
            cand.push(name.clone());
        }
        proof {
            let after = names_view(cand@);
            if keep {
                assert(after =~= before.push(name@));
            } else {
                assert(after =~= before);
            }
            assert(cv@[i as int] == name@);
            assert forall|q: Seq<char>| #[trigger] after.contains(q)
                <==> (exists|j: int| 0 <= j < i + 1 && cv@[j] == q) && !outer_set.contains(q) && !contains_seq(q, rename_marker()) by {
                if after.contains(q) {
                    if !before.contains(q) {
                        let k = choose|k: int| 0 <= k < after.len() && after[k] == q;
                        assert(keep && k == before.len());
                        assert(q == name@);
                    }
                }
                if before.contains(q) {
                    let k = choose|k: int| 0 <= k < before.len() && before[k] == q;
                    assert(after[k] == q);
                }
                if exists|j: int| 0 <= j < i + 1 && cv@[j] == q {
                    let j = choose|j: int| 0 <= j < i + 1 && cv@[j] == q;
                    if j < i {
                        assert(exists|j2: int| 0 <= j2 < i && cv@[j2] == q);
                    } else if !outer_set.contains(q) && !contains_seq(q, rename_marker()) {
                        assert(after[after.len() - 1] == q);
                    }
                }
            }
        }
        i = i + 1;
    }
    let r = sorted_within_exec(&cand, &cand);
    proof {
        let cs = names_view(cand@);
        law_sorted_within(cs, cs);
        let rv = names_view(r@);
        let want = introduced(c@, outer_set);
        assert forall|y: Seq<char>| #[trigger] rv.contains(y) <==> want.contains(y) by {
            if cv@.contains(y) {
                let j = choose|j: int| 0 <= j < cv@.len() && cv@[j] == y;
                assert(exists|j2: int| 0 <= j2 < i && cv@[j2] == y);
            }
        }
        assert(strictly_sorted(rv) && forall|y: Seq<char>| #[trigger] rv.contains(y) <==> want.contains(y));
        let t = sorted_listing(want);
        lemma_sorted_unique(rv, t);
    }
    r
}

#[verifier::loop_isolation(false)]
#[verifier::rlimit(60)]
fn dis_exec(node: &Json, outer: &NameSet, allocator: &mut NamesAllocator) -> (r: Json)
    requires
        dis(node@, outer@.to_set(), old(allocator)@.var_count).1 <= usize::MAX,
    ensures
        r@ == dis(node@, outer@.to_set(), old(allocator)@.var_count).0,
        final(allocator)@.var_count == dis(node@, outer@.to_set(), old(allocator)@.var_count).1,
        final(allocator)@.table_count == old(allocator)@.table_count,
        final(allocator)@.tables == old(allocator)@.tables,
        final(allocator)@.custom_udfs == old(allocator)@.custom_udfs,
    decreases jsize(node@),
{
    broadcast use group_json_view;
    let ghost n0 = allocator@.var_count;
    let ghost os = outer@.to_set();
    match node {
        Json::Object(o) => {
            match node.get("combine") {
                Some(c) => {
                    let intro = introduced_exec(c, outer);
                    let ghost iv = names_view(intro@);
                    let mut c1 = c.clone();
                    proof {
                        lemma_renamed_size(c@, iv, n0);
                        lemma_field_size(node@, "combine"@);
                        lemma_dis_grows(renamed(c@, iv, n0), os + mentioned(renamed(c@, iv, n0), false, false), n0 + iv.len());
                        assert(iv.take(0) =~= Seq::<Seq<char>>::empty());
                        reveal_strlit(" # disambiguated with ");
                    }
                    let mut j: usize = 0;
                    while j < intro.len()
                        invariant
                            j <= intro.len(),
                            iv == names_view(intro@),
                            iv.len() == intro.len(),
                            c1@ == renamed(c@, iv.take(j as int), n0),
                            allocator@.var_count == n0 + j,
                            n0 + iv.len() <= usize::MAX,
                            allocator@.table_count == old(allocator)@.table_count,
                            allocator@.tables == old(allocator)@.tables,
                            allocator@.custom_udfs == old(allocator)@.custom_udfs,
                        decreases intro.len() - j,
                    {
                        proof {
                            assert(iv.take(j + 1).drop_last() =~= iv.take(j as int));
                            assert(iv.take(j + 1).last() == iv[j as int]);
                        }
                        let aux = allocator.alloc_var();
                        let new_name = concat3(intro[j].as_str(), " # disambiguated with ", aux.as_str());
                        let e = make_var_expr(new_name.as_str());
                        replace_variable(intro[j].as_str(), &e, &mut c1);
                        j = j + 1;
                    }
                    assert(iv.take(j as int) =~= iv);
                    let mut new_outer = outer.clone();
                    all_mentioned_variables_impl(&c1, &mut new_outer, false);
                    proof {
                        assert(new_outer@.to_set() =~= os + mentioned(c1@, false, false));
                    }
                    let c2 = dis_exec(&c1, &new_outer, allocator);
                    let mut o2 = match node.clone() {
                        Json::Object(o) => o,
                        _ => JsonObject::new(),
                    };
                    o2.insert("combine".to_string(), c2);
                    Json::Object(o2)
                },
                None => {
                    let keys = entry_keys(o);
                    let ghost ks = names_view(keys@);
                    let mut out = match node.clone() {
                        Json::Object(o2) => o2,
                        _ => JsonObject::new(),
                    };
                    proof {
                        assert(ks.take(0) =~= Seq::<Seq<char>>::empty());
                        lemma_dis_keys_prefix(node@, ks, os, n0, 0);
                    }
                    let mut i: usize = 0;
                    while i < keys.len()
                        invariant
                            i <= keys.len(),
                            ks == names_view(keys@),
                            ks.len() == keys.len(),
                            ks == jentries(node@).map_values(|e: (Seq<char>, JVal)| e.0),
                            out@ == dis_keys(node@, ks.take(i as int), os, n0).0,
                            allocator@.var_count == dis_keys(node@, ks.take(i as int), os, n0).1,
                            allocator@.table_count == old(allocator)@.table_count,
                            allocator@.tables == old(allocator)@.tables,
                            allocator@.custom_udfs == old(allocator)@.custom_udfs,
                            dis_keys(node@, ks, os, n0).1 <= usize::MAX,
                        decreases keys.len() - i,
                    {
                        proof {
                            assert(ks.take(i + 1).drop_last() =~= ks.take(i as int));
                            assert(ks.take(i + 1).last() == ks[i as int]);
                            lemma_dis_keys_prefix(node@, ks, os, n0, i + 1);
                        }
                        let k = &keys[i];
                        match node.get(k.as_str()) {
                            Some(x) => {
                                proof {
                                    lemma_field_size(node@, k@);
                                }
                                let x2 = dis_exec(x, outer, allocator);
                                out.insert(k.clone(), x2);
                            },
                            None => {},
                        }
                        i = i + 1;
                    }
                    assert(ks.take(i as int) =~= ks);
                    Json::Object(out)
                },
            }
        },
        Json::Array(a) => {
            let ghost items = jv_seq(a@);
            let mut out: Vec<Json> = Vec::new();
            let mut i: usize = 0;
            proof {
                lemma_jv_seq_len(a@);
                assert(items.take(0) =~= Seq::<JVal>::empty());
                lemma_dis_items_prefix(items, os, n0, 0);
            }
            while i < a.len()
                invariant
                    i <= a.len(),
                    items == jv_seq(a@),
                    items.len() == a.len(),
                    node@ == JVal::Array(items),
                    jv_seq(out@) == dis_items(items.take(i as int), os, n0).0,
                    allocator@.var_count == dis_items(items.take(i as int), os, n0).1,
                    allocator@.table_count == old(allocator)@.table_count,
                    allocator@.tables == old(allocator)@.tables,
                    allocator@.custom_udfs == old(allocator)@.custom_udfs,
                    dis_items(items, os, n0).1 <= usize::MAX,
                decreases a.len() - i,
            {
                proof {
                    lemma_jv_seq_index(a@, i as int);
                    assert(items.take(i + 1).drop_last() =~= items.take(i as int));
                    assert(items.take(i + 1).last() == items[i as int]);
                    lemma_dis_items_prefix(items, os, n0, i + 1);
                    lemma_item_size(items, i as int);
                }
                let x2 = dis_exec(&a[i], outer, allocator);
                let ghost before = out@;
                out.push(x2);
                proof {
                    assert(out@.drop_last() =~= before);
                }
                i = i + 1;
            }
            assert(items.take(i as int) =~= items);
            Json::Array(out)
        },
        _ => node.clone(),
    }
}

/// Rename the variables each combine of `node` introduces apart from the scope
/// around it (see [`dis`]); `outer_variables` are the variables of that scope.
pub fn disambiguate_combines_recursive(node: &mut Json, outer_variables: &NameSet, allocator: &mut NamesAllocator)
    requires
        dis(old(node)@, outer_variables@.to_set(), old(allocator)@.var_count).1 <= usize::MAX,
    ensures
        final(node)@ == dis(old(node)@, outer_variables@.to_set(), old(allocator)@.var_count).0,
        final(allocator)@.var_count == dis(old(node)@, outer_variables@.to_set(), old(allocator)@.var_count).1,
        final(allocator)@.table_count == old(allocator)@.table_count,
        final(allocator)@.tables == old(allocator)@.tables,
        final(allocator)@.custom_udfs == old(allocator)@.custom_udfs,
{
    let r = dis_exec(node, outer_variables, allocator);
    *node = r;
}

/// Rename the variables that the combines of a rule introduce, so that they do
/// not clash with the rule's own variables or with each other: each is renamed
/// to `name # disambiguated with x_N` within its combine.
pub fn disambiguate_combine_variables(rule: &mut Json, allocator: &mut NamesAllocator)
    requires
        dis(old(rule)@, mentioned(old(rule)@, false, false), old(allocator)@.var_count).1 <= usize::MAX,
    ensures
        final(rule)@ == dis(old(rule)@, mentioned(old(rule)@, false, false), old(allocator)@.var_count).0,
        final(allocator)@.var_count == dis(old(rule)@, mentioned(old(rule)@, false, false), old(allocator)@.var_count).1,
        final(allocator)@.table_count == old(allocator)@.table_count,
        final(allocator)@.tables == old(allocator)@.tables,
        final(allocator)@.custom_udfs == old(allocator)@.custom_udfs,
{
    let mut top = NameSet::new();
    all_mentioned_variables_impl(rule, &mut top, false);
    proof {
        assert(top@.to_set() =~= mentioned(rule@, false, false));
    }
    disambiguate_combines_recursive(rule, &top, allocator);
}

// ---------------------------------------------------------------------------
// Record unifications field by field
// ---------------------------------------------------------------------------

/// The field name of an argument.
pub open spec fn field_key(fv: JVal) -> Seq<char> {
    jstr(jfield(fv, "field"@))
}

/// The field names of an argument list, each once, in the order they first occur.
pub open spec fn distinct_fields(fvs: Seq<JVal>) -> Seq<Seq<char>>
    decreases fvs.len(),
{
    if fvs.len() == 0 {
        seq![]
    } else {
        set_add(distinct_fields(fvs.drop_last()), field_key(fvs.last()))
    }
}

/// The expression of the last argument with field `f`.
pub open spec fn field_value_of(fvs: Seq<JVal>, f: Seq<char>) -> Option<JVal>
    decreases fvs.len(),
{
    if fvs.len() == 0 {
        None
    } else if field_key(fvs.last()) == f {
        Some(arg_expression(fvs.last()))
    } else {
        field_value_of(fvs.drop_last(), f)
    }
}

/// The unification of two records split into one per field: when both are
/// records with the same fields, the pairs of their values, in the order the
/// fields first occur on the left (for a field given twice, its last value).
pub open spec fn expanded_pair(left: JVal, right: JVal) -> Option<Seq<(JVal, JVal)>> {
    match (jget(left, "record"@), jget(right, "record"@)) {
        (Some(lr), Some(rr)) => match (jget(lr, "field_value"@), jget(rr, "field_value"@)) {
            (Some(lf), Some(rf)) => {
                let ls = jitems(lf);
                let rs = jitems(rf);
                let lk = distinct_fields(ls);
                let rk = distinct_fields(rs);
                if lk.len() == rk.len() && forall|i: int| 0 <= i < lk.len() ==> rk.contains(#[trigger] lk[i]) {
                    Some(lk.map_values(|f: Seq<char>| (field_value_of(ls, f)->0, field_value_of(rs, f)->0)))
                } else {
                    None
                }
            },
            _ => None,
        },
        _ => None,
    }
}

proof fn lemma_distinct_fields(fvs: Seq<JVal>)
    ensures
        forall|f: Seq<char>| #[trigger] distinct_fields(fvs).contains(f) <==> field_value_of(fvs, f) is Some,
    decreases fvs.len(),
{
    if fvs.len() > 0 {
        lemma_distinct_fields(fvs.drop_last());
        lemma_set_add(distinct_fields(fvs.drop_last()), field_key(fvs.last()));
    }
}

/// The distinct field names of an argument list, each with its last value.
#[verifier::loop_isolation(false)]
fn field_map(fvs: &[Json]) -> (r: (Vec<String>, Vec<Json>))
    ensures
        names_view(r.0@) == distinct_fields(jv_seq(fvs@)),
        r.1@.len() == r.0@.len(),
        forall|p: int| 0 <= p < r.0@.len() ==> field_value_of(jv_seq(fvs@), #[trigger] r.0@[p]@) == Some(r.1@[p]@),
{
    broadcast use group_json_view;
    let ghost fs = jv_seq(fvs@);
    let mut keys: Vec<String> = Vec::new();
    let mut vals: Vec<Json> = Vec::new();
    let mut i: usize = 0;
    while i < fvs.len()
        invariant
            i <= fvs.len(),
            fs == jv_seq(fvs@),
            fs.len() == fvs.len(),
            names_view(keys@) == distinct_fields(fs.take(i as int)),
            vals@.len() == keys@.len(),
            forall|m1: int, m2: int| 0 <= m1 < m2 < keys@.len() ==> #[trigger] keys@[m1]@ != #[trigger] keys@[m2]@,
            forall|p: int| 0 <= p < keys@.len() ==> field_value_of(fs.take(i as int), #[trigger] keys@[p]@) == Some(vals@[p]@),
        decreases fvs.len() - i,
    {
        proof {
            lemma_jv_seq_index(fvs@, i as int);
            assert(fs.take(i + 1).drop_last() =~= fs.take(i as int));
            assert(fs.take(i + 1).last() == fs[i as int]);
        }
        let fv = &fvs[i];
        let f = opt_str(fv.get("field"));
        let null = Json::Null;
        let e: &Json = match opt_field(fv.get("value"), "expression") {
            Some(x) => x,
            None => &null,
        };
        let mut p: usize = 0;
        while p < keys.len() && !str_eq(keys[p].as_str(), f)
            invariant
                p <= keys.len(),
                forall|m: int| 0 <= m < p ==> keys@[m]@ != f@,
            decreases keys.len() - p,
        {
            p = p + 1;
        }
        let ghost kb = names_view(keys@);
        let ghost vb = vals@;
        if p < keys.len() {
            vals.set(p, e.clone());
            proof {
                assert(kb.contains(f@)) by {
                    assert(kb[p as int] == f@);
                }
                assert(set_add(kb, f@) == kb);
            }
        } else {
            keys.push(f.to_string());
            vals.push(e.clone());
            proof {
                assert(!kb.contains(f@)) by {
                    if kb.contains(f@) {
                        let m = choose|m: int| 0 <= m < kb.len() && kb[m] == f@;
                        assert(keys@[m]@ == f@);
                    }
                }
                assert(names_view(keys@) =~= kb.push(f@));
            }
        }
        proof {
            assert(f@ == field_key(fs[i as int]));
            assert(e@ == arg_expression(fs[i as int]));
            assert forall|m: int| 0 <= m < keys@.len() implies field_value_of(fs.take(i + 1), #[trigger] keys@[m]@) == Some(vals@[m]@) by {
                if keys@[m]@ != f@ {
                    assert(m < vb.len());
                    assert(vals@[m] == vb[m]);
                } else if p < kb.len() {
                    if m != p {
                        if m < p {
                            assert(keys@[m]@ != keys@[p as int]@);
                        } else {
                            assert(keys@[p as int]@ != keys@[m]@);
                        }
                    }
                } else {
                    if m < kb.len() {
                        assert(kb[m] == f@);
                        assert(kb.contains(f@));
                    }
                }
            }
            assert forall|m1: int, m2: int| 0 <= m1 < m2 < keys@.len() implies #[trigger] keys@[m1]@ != #[trigger] keys@[m2]@ by {
                if m2 == kb.len() && p == kb.len() {
                    assert(kb[m1] == keys@[m1]@);
                    if keys@[m1]@ == f@ {
                        assert(kb.contains(f@));
                    }
                }
            }
        }
        i = i + 1;
    }
    assert(fs.take(i as int) =~= fs);
    (keys, vals)
}

/// Split the unification of two records into one unification per field (see
/// [`expanded_pair`]); `None` when they are not both records with the same fields.
#[verifier::loop_isolation(false)]
pub fn try_expand_record_pair(left: &Json, right: &Json) -> (r: Option<Vec<(Json, Json)>>)
    ensures
        match r {
            Some(v) => expanded_pair(left@, right@) == Some(pairs_view(v@)),
            None => expanded_pair(left@, right@) is None,
        },
{
    let left_rec = match left.get("record") {
        Some(x) => x,
        None => return None,
    };
    let right_rec = match right.get("record") {
        Some(x) => x,
        None => return None,
    };
    let left_fvs = match left_rec.get("field_value") {
        Some(x) => x,
        None => return None,
    };
    let right_fvs = match right_rec.get("field_value") {
        Some(x) => x,
        None => return None,
    };
    let (lk, lv) = field_map(opt_elements(Some(left_fvs)));
    let (rk, rv) = field_map(opt_elements(Some(right_fvs)));
    let ghost ls = jitems(left_fvs@);
    let ghost rs = jitems(right_fvs@);
    let ghost lkv = names_view(lk@);
    let ghost rkv = names_view(rk@);
    if lk.len() != rk.len() {
        return None;
    }
    proof {
        lemma_distinct_fields(ls);
        lemma_distinct_fields(rs);
    }
    let mut result: Vec<(Json, Json)> = Vec::new();
    let mut p: usize = 0;
    while p < lk.len()
        invariant
            p <= lk.len(),
            lkv == names_view(lk@),
            rkv == names_view(rk@),
            lkv == distinct_fields(ls),
            rkv == distinct_fields(rs),
            lk@.len() == lv@.len(),
            rk@.len() == rv@.len(),
            forall|m: int| 0 <= m < lk@.len() ==> field_value_of(ls, #[trigger] lk@[m]@) == Some(lv@[m]@),
            forall|m: int| 0 <= m < rk@.len() ==> field_value_of(rs, #[trigger] rk@[m]@) == Some(rv@[m]@),
            forall|f: Seq<char>| #[trigger] rkv.contains(f) <==> field_value_of(rs, f) is Some,
            forall|m: int| 0 <= m < p ==> rkv.contains(#[trigger] lkv[m]),
            pairs_view(result@) == lkv.take(p as int).map_values(|f: Seq<char>| (field_value_of(ls, f)->0, field_value_of(rs, f)->0)),
        decreases lk.len() - p,
    {
        let mut q: usize = 0;
        while q < rk.len() && !str_eq(rk[q].as_str(), lk[p].as_str())
            invariant
                q <= rk.len(),
                forall|m: int| 0 <= m < q ==> rk@[m]@ != lk@[p as int]@,
            decreases rk.len() - q,
        {
            q = q + 1;
        }
        if q == rk.len() {
            proof {
                assert(!rkv.contains(lkv[p as int])) by {
                    if rkv.contains(lkv[p as int]) {
                        let m = choose|m: int| 0 <= m < rkv.len() && rkv[m] == lkv[p as int];
                        assert(rk@[m]@ == lk@[p as int]@);
                    }
                }
            }
            return None;
        }
        let ghost before = result@;
        result.push((lv[p].clone(), rv[q].clone()));
        proof {
            assert(rkv[q as int] == lkv[p as int]);
            assert(rkv.contains(lkv[p as int]));
            assert(lkv.take(p + 1) =~= lkv.take(p as int).push(lkv[p as int]));
            assert(pairs_view(result@) =~= pairs_view(before).push((lv@[p as int]@, rv@[q as int]@)));
        }
        p = p + 1;
    }
    proof {
        assert(lkv.take(p as int) =~= lkv);
    }
    Some(result)
}

} // verus!
