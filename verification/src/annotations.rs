//! Annotations of a Logica program: `@Engine`, `@Ground`, `@OrderBy`, `@Limit`,
//! flags and the other special predicates, read from the parsed rules.

use vstd::prelude::*;
use crate::json::{
    JVal, Json, JsonObject, jv, jv_seq, jv_entries, jget, jfield, jstr, jint, jitems, jentries,
    entries_get, entries_insert, has_key, group_json_view, lemma_jv_seq_index, lemma_jv_seq_len,
    lemma_jv_entries_index, lemma_jv_entries_len,
};
use crate::strmap::{StrMap, NameSet, sm_get, sm_insert, sm_view, overlay_get, set_add, kv_index, kv_get, kv_insert, lemma_kv_first_match, lemma_kv_no_match};
use crate::text::{
    chars_of, str_eq, int_text, int_to_string, parse_int, parse_int_exec, concat2, concat3,
    concat4, join, join_strings, has_suffix, ends_with_str,
};
use crate::{CompileError, CompileResult, home_schema, test_schema, home_schema_name, test_schema_name};

verus! {

broadcast use group_json_view;

// ---------------------------------------------------------------------------
// Reading annotation arguments
// ---------------------------------------------------------------------------

/// The special predicates a program may use.
pub open spec fn allowed_annotations() -> Seq<Seq<char>> {
    seq![
        "@Limit"@, "@OrderBy"@, "@Ground"@, "@Flag"@, "@DefineFlag"@, "@NoInject"@, "@Make"@,
        "@CompileAsTvf"@, "@With"@, "@NoWith"@, "@CompileAsUdf"@, "@ResetFlagValue"@,
        "@Dataset"@, "@AttachDatabase"@, "@Engine"@, "@Recursive"@, "@Iteration"@,
        "@BareAggregation"@,
    ]
}

/// The message of the error for a special predicate outside [`allowed_annotations`].
pub open spec fn refusal_message() -> Seq<char> {
    "Only @Limit, @OrderBy, @Ground, @Flag, @DefineFlag, @NoInject, @Make, @CompileAsTvf, @With, @NoWith, @CompileAsUdf, @ResetFlagValue, @Dataset, @AttachDatabase, @Engine, @Recursive, @Iteration and @BareAggregation special predicates are allowed."@
}

/// The text of a string literal expression: `{"literal": {"the_string": s}}`,
/// where `s` is the string or an object holding it under `the_string`.
pub open spec fn string_literal(e: JVal) -> Option<Seq<char>> {
    match jget(e, "literal"@) {
        Some(lit) => match jget(lit, "the_string"@) {
            Some(ts) => if ts is Str {
                Some(jstr(ts))
            } else {
                match jget(ts, "the_string"@) {
                    Some(inner) => Some(jstr(inner)),
                    None => None,
                }
            },
            None => None,
        },
        None => None,
    }
}

/// The name an argument denotes: a variable's name, or a predicate literal's name.
pub open spec fn predicate_name(v: JVal) -> Option<Seq<char>> {
    match jget(v, "variable"@) {
        Some(var) => Some(jstr(jfield(var, "var_name"@))),
        None => match jget(v, "literal"@) {
            Some(lit) => match jget(lit, "the_predicate"@) {
                Some(p) => Some(jstr(jfield(p, "predicate_name"@))),
                None => None,
            },
            None => None,
        },
    }
}

/// The key of an argument: its position or its name.
pub open spec fn field_key(f: JVal) -> Seq<char> {
    if f is Int {
        int_text(jint(f) as int)
    } else {
        jstr(f)
    }
}

/// The expression of an argument value.
pub open spec fn value_expr(v: JVal) -> JVal {
    match jget(v, "expression"@) {
        Some(e) => e,
        None => v,
    }
}

pub open spec fn field_entry(fv: JVal) -> (Seq<char>, JVal) {
    (field_key(jfield(fv, "field"@)), value_expr(jfield(fv, "value"@)))
}

/// The arguments of a rule head, as `(key, expression)` pairs in order.
pub open spec fn field_values(head: JVal) -> Seq<(Seq<char>, JVal)> {
    jitems(jfield(jfield(head, "record"@), "field_value"@)).map_values(|fv: JVal| field_entry(fv))
}

/// The name an argument with key `k` denotes.
pub open spec fn predicate_name_from_field(fvs: Seq<(Seq<char>, JVal)>, k: Seq<char>) -> Option<Seq<char>> {
    match entries_get(fvs, k) {
        Some(v) => predicate_name(v),
        None => None,
    }
}

/// The string literal that argument `k` holds.
pub open spec fn string_from_field(fvs: Seq<(Seq<char>, JVal)>, k: Seq<char>) -> Option<Seq<char>> {
    match entries_get(fvs, k) {
        Some(v) => string_literal(v),
        None => None,
    }
}

/// `es` with every argument but the first positional one set in turn.
pub open spec fn insert_named(es: Seq<(Seq<char>, JVal)>, fvs: Seq<(Seq<char>, JVal)>) -> Seq<(Seq<char>, JVal)>
    decreases fvs.len(),
{
    if fvs.len() == 0 {
        es
    } else {
        let prev = insert_named(es, fvs.drop_last());
        if fvs.last().0 != "0"@ {
            entries_insert(prev, fvs.last().0, fvs.last().1)
        } else {
            prev
        }
    }
}

// ---------------------------------------------------------------------------
// Exec readers
// ---------------------------------------------------------------------------

fn lit_text(s: &str) -> (r: String)
    ensures
        r@ == s@,
{
    s.to_string()
}

/// Text of a string literal expression.
pub fn extract_string_literal(expr: &Json) -> (r: Option<String>)
    ensures
        r.is_some() == string_literal(expr@).is_some(),
        r matches Some(s) ==> string_literal(expr@) == Some(s@),
{
    if let Some(lit) = expr.get("literal") {
        if let Some(ts) = lit.get("the_string") {
            if ts.is_string() {
                return Some(lit_text(ts.as_str()));
            }
            if let Some(inner) = ts.get("the_string") {
                return Some(lit_text(inner.as_str()));
            }
        }
    }
    None
}


/// The name an argument denotes (a variable or a predicate literal).
pub fn extract_predicate_name(val: &Json) -> (r: Option<String>)
    ensures
        r.is_some() == predicate_name(val@).is_some(),
        r matches Some(s) ==> predicate_name(val@) == Some(s@),
{
    if let Some(var) = val.get("variable") {
        let n = var.get("var_name");
        let name = match n {
            Some(x) => lit_text(x.as_str()),
            None => lit_text(""),
        };
        proof {
            reveal_strlit("");
        }
        return Some(name);
    }
    if let Some(lit) = val.get("literal") {
        if let Some(pred) = lit.get("the_predicate") {
            let n = pred.get("predicate_name");
            let name = match n {
                Some(x) => lit_text(x.as_str()),
                None => lit_text(""),
            };
            proof {
                reveal_strlit("");
            }
            return Some(name);
        }
    }
    None
}

/// The arguments of a rule head, as `(key, expression)` entries in order.
pub fn head_field_values(head: &Json) -> (r: JsonObject)
    ensures
        r@ == field_values(head@),
{
    let record = head.get("record");
    let fvs = match record {
        Some(rec) => rec.get("field_value"),
        None => None,
    };
    let ghost items = jitems(jfield(jfield(head@, "record"@), "field_value"@));
    let mut out: Vec<(String, Json)> = Vec::new();
    if let Some(fv_json) = fvs {
        if let Some(arr) = fv_json.items() {
            assert(jv_seq(arr@) == items);
            let mut i: usize = 0;
            while i < arr.len()
                invariant
                    i <= arr.len(),
                    jv_seq(arr@) == items,
                    jv_entries(out@) == items.subrange(0, i as int).map_values(|fv: JVal| field_entry(fv)),
                decreases arr.len() - i,
            {
                proof {
                    lemma_jv_seq_index(arr@, i as int);
                    lemma_jv_seq_len(arr@);
                }
                let fv = &arr[i];
                let field = fv.get("field");
                let value = fv.get("value");
                let key: String = match field {
                    Some(f) => if f.is_int() {
                        int_to_string(f.as_int())
                    } else {
                        lit_text(f.as_str())
                    },
                    None => {
                        proof {
                            reveal_strlit("");
                        }
                        lit_text("")
                    },
                };
                let val: Json = match value {
                    Some(v) => match v.get("expression") {
                        Some(e) => e.clone(),
                        None => v.clone(),
                    },
                    None => Json::Null,
                };
                let ghost before = out@;
                out.push((key, val));
                proof {
                    assert(out@.drop_last() =~= before);
                    assert(jv_entries(out@) == jv_entries(before).push((out@.last().0@, jv(out@.last().1))));
                    assert(field_entry(items[i as int]) == (out@.last().0@, jv(out@.last().1)));
                    assert(items.subrange(0, i + 1).drop_last() =~= items.subrange(0, i as int));
                    assert(items.subrange(0, i + 1).map_values(|fv: JVal| field_entry(fv)) =~=
                        items.subrange(0, i as int).map_values(|fv: JVal| field_entry(fv)).push(field_entry(items[i as int])));
                }
                i = i + 1;
            }
            proof {
                lemma_jv_seq_len(arr@);
                assert(items.subrange(0, i as int) =~= items);
            }
        } else {
            assert(items =~= Seq::<JVal>::empty());
            assert(jv_entries(out@) =~= items.map_values(|fv: JVal| field_entry(fv)));
        }
    } else {
        assert(items =~= Seq::<JVal>::empty());
        assert(jv_entries(out@) =~= items.map_values(|fv: JVal| field_entry(fv)));
    }
    JsonObject { entries: out }
}

/// The name that argument `k` denotes.
pub fn name_from_field(fvs: &JsonObject, k: &str) -> (r: Option<String>)
    ensures
        r.is_some() == predicate_name_from_field(fvs@, k@).is_some(),
        r matches Some(s) ==> predicate_name_from_field(fvs@, k@) == Some(s@),
{
    match fvs.get(k) {
        Some(v) => extract_predicate_name(v),
        None => None,
    }
}

/// The string literal that argument `k` holds.
fn string_from_field_exec(fvs: &JsonObject, k: &str) -> (r: Option<String>)
    ensures
        r.is_some() == string_from_field(fvs@, k@).is_some(),
        r matches Some(s) ==> string_from_field(fvs@, k@) == Some(s@),
{
    match fvs.get(k) {
        Some(v) => extract_string_literal(v),
        None => None,
    }
}

/// Set, in `es`, every argument of `fvs` but the first positional one.
fn insert_named_exec(es: &mut JsonObject, fvs: &JsonObject)
    ensures
        final(es)@ == insert_named(old(es)@, fvs@),
{
    let ghost fv = fvs@;
    let ghost base = old(es)@;
    let mut i: usize = 0;
    proof {
        lemma_jv_entries_len(fvs.entries@);
        assert(fv.subrange(0, 0) =~= Seq::<(Seq<char>, JVal)>::empty());
    }
    while i < fvs.entries.len()
        invariant
            i <= fvs.entries.len(),
            fv == fvs@,
            fv.len() == fvs.entries.len(),
            es@ == insert_named(base, fv.subrange(0, i as int)),
        decreases fvs.entries.len() - i,
    {
        proof {
            lemma_jv_entries_index(fvs.entries@, i as int);
            assert(fv.subrange(0, i + 1).drop_last() =~= fv.subrange(0, i as int));
        }
        let k = &fvs.entries[i].0;
        if !str_eq(k.as_str(), "0") {
            es.insert(k.clone(), fvs.entries[i].1.clone());
        }
        i = i + 1;
    }
    assert(fv.subrange(0, i as int) =~= fv);
}


// ---------------------------------------------------------------------------
// First pass: engine, engine options and flags
// ---------------------------------------------------------------------------

/// The name of the predicate a rule defines.
pub open spec fn rule_name(rule: JVal) -> Seq<char> {
    jstr(jfield(jfield(rule, "head"@), "predicate_name"@))
}

/// Whether a rule is an annotation: it has a head whose name starts with `@`.
pub open spec fn is_annotation(rule: JVal) -> bool {
    has_key(rule, "head"@) && rule_name(rule).len() > 0 && rule_name(rule)[0] == '@'
}

/// Whether a rule is an annotation by a special predicate that does not exist.
pub open spec fn is_refused(rule: JVal) -> bool {
    is_annotation(rule) && !allowed_annotations().contains(rule_name(rule))
}

/// What the first pass gathers.
pub struct FirstPass {
    pub engine: Seq<char>,
    pub options: Seq<(Seq<char>, JVal)>,
    pub defaults: Seq<(Seq<char>, Seq<char>)>,
    pub resets: Seq<(Seq<char>, Seq<char>)>,
}

pub open spec fn first_pass_start() -> FirstPass {
    FirstPass { engine: "duckdb"@, options: seq![], defaults: seq![], resets: seq![] }
}

/// The value argument of `@DefineFlag` and `@ResetFlagValue`; empty when absent.
pub open spec fn flag_argument(fvs: Seq<(Seq<char>, JVal)>) -> Seq<char> {
    match string_from_field(fvs, "1"@) {
        Some(s) => s,
        None => seq![],
    }
}

/// The first pass over one rule.
pub open spec fn first_pass_step(p: FirstPass, rule: JVal) -> FirstPass {
    if !is_annotation(rule) {
        p
    } else {
        let name = rule_name(rule);
        let fvs = field_values(jfield(rule, "head"@));
        if name == "@Engine"@ {
            FirstPass {
                engine: match string_from_field(fvs, "0"@) {
                    Some(s) => s,
                    None => p.engine,
                },
                options: insert_named(p.options, fvs),
                ..p
            }
        } else if name == "@DefineFlag"@ {
            match string_from_field(fvs, "0"@) {
                Some(n) => if sm_get(p.defaults, n) is None {
                    FirstPass { defaults: sm_insert(p.defaults, n, flag_argument(fvs)), ..p }
                } else {
                    p
                },
                None => p,
            }
        } else if name == "@ResetFlagValue"@ {
            match string_from_field(fvs, "0"@) {
                Some(n) => FirstPass { resets: sm_insert(p.resets, n, flag_argument(fvs)), ..p },
                None => p,
            }
        } else {
            p
        }
    }
}

/// The first pass over the rules in order: what it gathers, or the first refused
/// annotation.
pub open spec fn first_pass(rules: Seq<JVal>) -> Result<FirstPass, JVal>
    decreases rules.len(),
{
    if rules.len() == 0 {
        Ok(first_pass_start())
    } else {
        match first_pass(rules.drop_last()) {
            Err(bad) => Err(bad),
            Ok(p) => if is_refused(rules.last()) {
                Err(rules.last())
            } else {
                Ok(first_pass_step(p, rules.last()))
            },
        }
    }
}

/// Once a prefix of the rules is refused, so are all the rules.
proof fn lemma_first_pass_refused(rules: Seq<JVal>, i: int)
    requires
        0 <= i <= rules.len(),
        first_pass(rules.subrange(0, i)) is Err,
    ensures
        first_pass(rules) == first_pass(rules.subrange(0, i)),
    decreases rules.len() - i,
{
    if i < rules.len() {
        let next = rules.subrange(0, i + 1);
        assert(next.drop_last() =~= rules.subrange(0, i));
        lemma_first_pass_refused(rules, i + 1);
    } else {
        assert(rules.subrange(0, i) =~= rules);
    }
}

/// The views of the rules.
pub open spec fn rule_views(rules: Seq<(String, Json)>) -> Seq<JVal> {
    rules.map_values(|r: (String, Json)| r.1@)
}

/// The special predicates, in the order of [`allowed_annotations`].
fn allowed_annotation_names() -> (r: Vec<&'static str>)
    ensures
        r@.map_values(|s: &'static str| s@) == allowed_annotations(),
{
    let r = vec![
        "@Limit", "@OrderBy", "@Ground", "@Flag", "@DefineFlag", "@NoInject", "@Make",
        "@CompileAsTvf", "@With", "@NoWith", "@CompileAsUdf", "@ResetFlagValue",
        "@Dataset", "@AttachDatabase", "@Engine", "@Recursive", "@Iteration",
        "@BareAggregation",
    ];
    assert(r@.map_values(|s: &'static str| s@) =~= allowed_annotations());
    r
}

fn is_allowed_annotation(name: &str) -> (r: bool)
    ensures
        r == allowed_annotations().contains(name@),
{
    let names = allowed_annotation_names();
    let ghost views = names@.map_values(|s: &'static str| s@);
    let mut i: usize = 0;
    while i < names.len()
        invariant
            i <= names.len(),
            views == names@.map_values(|s: &'static str| s@),
            views == allowed_annotations(),
            forall|j: int| 0 <= j < i ==> views[j] != name@,
        decreases names.len() - i,
    {
        if str_eq(names[i], name) {
            assert(views[i as int] == name@);
            return true;
        }
        i = i + 1;
    }
    false
}

fn starts_with_at(name: &str) -> (r: bool)
    ensures
        r == (name@.len() > 0 && name@[0] == '@'),
{
    let c = chars_of(name);
    c.len() > 0 && c[0] == '@'
}

/// The name of the predicate a rule defines.
fn rule_name_exec(rule: &Json) -> (r: &str)
    ensures
        r@ == rule_name(rule@),
{
    let head = rule.get("head");
    match head {
        Some(h) => match h.get("predicate_name") {
            Some(n) => n.as_str(),
            None => {
                proof {
                    reveal_strlit("");
                }
                ""
            },
        },
        None => {
            proof {
                reveal_strlit("");
            }
            ""
        },
    }
}


/// What the first pass has gathered so far.
struct FirstPassState {
    engine: String,
    options: JsonObject,
    defaults: StrMap,
    resets: StrMap,
}

impl FirstPassState {
    spec fn model(&self) -> FirstPass {
        FirstPass {
            engine: self.engine@,
            options: self.options@,
            defaults: self.defaults@,
            resets: self.resets@,
        }
    }
}

fn empty_text() -> (r: String)
    ensures
        r@ == Seq::<char>::empty(),
{
    proof {
        reveal_strlit("");
    }
    lit_text("")
}

fn flag_argument_exec(fvs: &JsonObject) -> (r: String)
    ensures
        r@ == flag_argument(fvs@),
{
    match string_from_field_exec(fvs, "1") {
        Some(s) => s,
        None => empty_text(),
    }
}

/// The first pass over one annotation rule that is not refused.
fn first_pass_rule(st: &mut FirstPassState, rule: &Json)
    requires
        !is_refused(rule@),
    ensures
        final(st).model() == first_pass_step(old(st).model(), rule@),
{
    let head = match rule.get("head") {
        Some(h) => h,
        None => {
            return;
        },
    };
    let name = rule_name_exec(rule);
    if !starts_with_at(name) {
        return;
    }
    let fvs = head_field_values(head);
    if str_eq(name, "@Engine") {
        match string_from_field_exec(&fvs, "0") {
            Some(s) => {
                st.engine = s;
            },
            None => {},
        }
        insert_named_exec(&mut st.options, &fvs);
    } else if str_eq(name, "@DefineFlag") {
        match string_from_field_exec(&fvs, "0") {
            Some(n) => {
                if !st.defaults.contains_key(n.as_str()) {
                    let d = flag_argument_exec(&fvs);
                    st.defaults.insert(n, d);
                }
            },
            None => {},
        }
    } else if str_eq(name, "@ResetFlagValue") {
        match string_from_field_exec(&fvs, "0") {
            Some(n) => {
                let d = flag_argument_exec(&fvs);
                st.resets.insert(n, d);
            },
            None => {},
        }
    }
}

/// The first pass over all rules, refusing unknown special predicates.
fn first_pass_exec(rules: &[(String, Json)]) -> (r: Result<FirstPassState, CompileError>)
    ensures
        match first_pass(rule_views(rules@)) {
            Err(bad) => r matches Err(e) && e.message@ == refusal_message() && e.rule_text@ == jstr(
                jfield(bad, "full_text"@),
            ),
            Ok(p) => r matches Ok(st) && st.model() == p,
        },
{
    let ghost rv = rule_views(rules@);
    let mut st = FirstPassState {
        engine: lit_text("duckdb"),
        options: JsonObject::new(),
        defaults: StrMap::new(),
        resets: StrMap::new(),
    };
    assert(rv.subrange(0, 0) =~= Seq::<JVal>::empty());
    let mut i: usize = 0;
    while i < rules.len()
        invariant
            i <= rules.len(),
            rv == rule_views(rules@),
            rv.len() == rules@.len(),
            first_pass(rv.subrange(0, i as int)) == Ok::<FirstPass, JVal>(st.model()),
        decreases rules.len() - i,
    {
        let rule = &rules[i].1;
        proof {
            assert(rv[i as int] == rule@);
            assert(rv.subrange(0, i + 1).drop_last() =~= rv.subrange(0, i as int));
            assert(rv.subrange(0, i + 1).last() == rule@);
        }
        if rule.has("head") {
            let name = rule_name_exec(rule);
            if starts_with_at(name) && !is_allowed_annotation(name) {
                let ft: &str = match rule.get("full_text") {
                    Some(x) => x.as_str(),
                    None => {
                        proof {
                            reveal_strlit("");
                        }
                        ""
                    },
                };
                proof {
                    lemma_first_pass_refused(rv, i + 1);
                }
                return Err(CompileError::new(
                    "Only @Limit, @OrderBy, @Ground, @Flag, @DefineFlag, @NoInject, @Make, @CompileAsTvf, @With, @NoWith, @CompileAsUdf, @ResetFlagValue, @Dataset, @AttachDatabase, @Engine, @Recursive, @Iteration and @BareAggregation special predicates are allowed.",
                    ft,
                ));
            }
        }
        first_pass_rule(&mut st, rule);
        i = i + 1;
    }
    assert(rv.subrange(0, i as int) =~= rv);
    Ok(st)
}


// ---------------------------------------------------------------------------
// Second pass: per-predicate annotations and program-wide settings
// ---------------------------------------------------------------------------

/// The view of a list of names per predicate.
pub open spec fn name_lists_view(v: Seq<(String, Vec<String>)>) -> Seq<(Seq<char>, Seq<Seq<char>>)> {
    v.map_values(|e: (String, Vec<String>)| (e.0@, e.1@.map_values(|n: String| n@)))
}

/// Bind `k` to `v` in a list of names per predicate.
fn name_lists_insert(es: &mut Vec<(String, Vec<String>)>, k: String, v: Vec<String>)
    ensures
        name_lists_view(final(es)@) == kv_insert(name_lists_view(old(es)@), k@, v@.map_values(|n: String| n@)),
{
    let ghost view0 = name_lists_view(es@);
    let ghost kv = k@;
    let ghost vv = v@.map_values(|n: String| n@);
    let kc = chars_of(k.as_str());
    let mut i: usize = 0;
    while i < es.len()
        invariant
            kc@ == kv,
            kv == k@,
            vv == v@.map_values(|n: String| n@),
            i <= es.len(),
            es@ == old(es)@,
            view0 == name_lists_view(es@),
            forall|j: int| 0 <= j < i ==> view0[j].0 != kv,
        decreases es.len() - i,
    {
        let ec = chars_of(es[i].0.as_str());
        if crate::text::chars_eq(&ec, &kc) {
            proof {
                lemma_kv_first_match(view0, kv, i as int);
            }
            let ghost before = es@;
            es.set(i, (k, v));
            proof {
                assert(es@ == before.update(i as int, es@[i as int]));
                assert(name_lists_view(es@)[i as int] == (kv, vv));
                assert forall|j: int| 0 <= j < es@.len() && j != i implies name_lists_view(es@)[j] == view0[j] by {
                    assert(es@[j] == before[j]);
                }
            }
            assert(name_lists_view(es@) =~= kv_insert(view0, kv, vv));
            return;
        }
        i = i + 1;
    }
    proof {
        lemma_kv_no_match(view0, kv);
    }
    es.push((k, v));
    assert(name_lists_view(es@) =~= kv_insert(view0, kv, vv));
}

/// The members already recorded for predicate `t`.
pub open spec fn members_of(per: Seq<(Seq<char>, JVal)>, t: Seq<char>) -> Seq<(Seq<char>, JVal)> {
    match entries_get(per, t) {
        Some(o) => jentries(o),
        None => seq![],
    }
}

/// `per` with member `key` of predicate `t` set to `val`.
pub open spec fn set_member(per: Seq<(Seq<char>, JVal)>, t: Seq<char>, key: Seq<char>, val: JVal) -> Seq<(Seq<char>, JVal)> {
    entries_insert(per, t, JVal::Object(entries_insert(members_of(per, t), key, val)))
}

/// The arguments after the first positional one, in order.
pub open spec fn other_args(fvs: Seq<(Seq<char>, JVal)>) -> Seq<JVal>
    decreases fvs.len(),
{
    if fvs.len() == 0 {
        seq![]
    } else if fvs.last().0 != "0"@ {
        other_args(fvs.drop_last()).push(fvs.last().1)
    } else {
        other_args(fvs.drop_last())
    }
}

/// The names that the items denote, skipping the other items.
pub open spec fn names_in(items: Seq<JVal>) -> Seq<Seq<char>>
    decreases items.len(),
{
    if items.len() == 0 {
        seq![]
    } else {
        match predicate_name(items.last()) {
            Some(n) => names_in(items.drop_last()).push(n),
            None => names_in(items.drop_last()),
        }
    }
}

/// The argument names of `@CompileAsTvf`: the names in its second argument when
/// that is an array.
pub open spec fn tvf_args(fvs: Seq<(Seq<char>, JVal)>) -> Seq<Seq<char>> {
    match entries_get(fvs, "1"@) {
        Some(lv) => if lv is Array {
            names_in(jitems(lv))
        } else {
            seq![]
        },
        None => seq![],
    }
}

/// The members `@Ground` records for predicate `t`: the table (the second
/// argument's name, else `t`), and `overwrite` and `copy_to_file` when given.
pub open spec fn ground_members(members: Seq<(Seq<char>, JVal)>, t: Seq<char>, fvs: Seq<(Seq<char>, JVal)>) -> Seq<(Seq<char>, JVal)> {
    let table = match entries_get(fvs, "1"@) {
        Some(tv) => match predicate_name(tv) {
            Some(n) => n,
            None => t,
        },
        None => t,
    };
    let a = entries_insert(members, "ground"@, JVal::Str(table));
    let b = match entries_get(fvs, "overwrite"@) {
        Some(ow) => entries_insert(a, "ground_overwrite"@, ow),
        None => a,
    };
    match entries_get(fvs, "copy_to_file"@) {
        Some(cf) => entries_insert(b, "ground_copy_to_file"@, cf),
        None => b,
    }
}

/// The dataset `@Dataset` names: a string literal, or else a name.
pub open spec fn dataset_arg(fvs: Seq<(Seq<char>, JVal)>, prev: Option<Seq<char>>) -> Option<Seq<char>> {
    match entries_get(fvs, "0"@) {
        Some(v) => match string_literal(v) {
            Some(s) => Some(s),
            None => match predicate_name(v) {
                Some(n) => Some(n),
                None => prev,
            },
        },
        None => prev,
    }
}

/// What the second pass gathers.
pub struct SecondPass {
    pub per: Seq<(Seq<char>, JVal)>,
    pub attached: Seq<(Seq<char>, Seq<char>)>,
    pub dataset: Option<Seq<char>>,
    pub udf: Seq<Seq<char>>,
    pub tvf: Seq<(Seq<char>, Seq<Seq<char>>)>,
    pub bare: Seq<(Seq<char>, Seq<char>)>,
}

pub open spec fn second_pass_start() -> SecondPass {
    SecondPass { per: seq![], attached: seq![], dataset: None, udf: seq![], tvf: seq![], bare: seq![] }
}

/// The key under which `@Iteration` named `t` is recorded.
pub open spec fn iteration_key(t: Seq<char>) -> Seq<char> {
    "@Iteration_"@ + t
}

/// The second pass over one rule.
pub open spec fn second_pass_step(p: SecondPass, rule: JVal) -> SecondPass {
    if !is_annotation(rule) {
        p
    } else {
        let name = rule_name(rule);
        let fvs = field_values(jfield(rule, "head"@));
        let target = predicate_name_from_field(fvs, "0"@);
        if name == "@OrderBy"@ {
            match target {
                Some(t) => SecondPass { per: set_member(p.per, t, "order_by"@, JVal::Array(other_args(fvs))), ..p },
                None => p,
            }
        } else if name == "@Limit"@ {
            match (target, entries_get(fvs, "1"@)) {
                (Some(t), Some(l)) => SecondPass { per: set_member(p.per, t, "limit"@, l), ..p },
                _ => p,
            }
        } else if name == "@Ground"@ {
            match target {
                Some(t) => SecondPass {
                    per: entries_insert(p.per, t, JVal::Object(ground_members(members_of(p.per, t), t, fvs))),
                    ..p
                },
                None => p,
            }
        } else if name == "@With"@ {
            match target {
                Some(t) => SecondPass { per: set_member(p.per, t, "with"@, JVal::Bool(true)), ..p },
                None => p,
            }
        } else if name == "@NoWith"@ {
            match target {
                Some(t) => SecondPass { per: set_member(p.per, t, "with"@, JVal::Bool(false)), ..p },
                None => p,
            }
        } else if name == "@NoInject"@ {
            match target {
                Some(t) => SecondPass { per: set_member(p.per, t, "no_inject"@, JVal::Bool(true)), ..p },
                None => p,
            }
        } else if name == "@Dataset"@ {
            SecondPass { dataset: dataset_arg(fvs, p.dataset), ..p }
        } else if name == "@AttachDatabase"@ {
            match (target, string_from_field(fvs, "1"@)) {
                (Some(t), Some(path)) => SecondPass { attached: sm_insert(p.attached, t, path), ..p },
                _ => p,
            }
        } else if name == "@CompileAsUdf"@ {
            match target {
                Some(t) => SecondPass { udf: set_add(p.udf, t), ..p },
                None => p,
            }
        } else if name == "@CompileAsTvf"@ {
            match target {
                Some(t) => SecondPass { tvf: kv_insert(p.tvf, t, tvf_args(fvs)), ..p },
                None => p,
            }
        } else if name == "@BareAggregation"@ {
            match (target, entries_get(fvs, "semigroup"@)) {
                (Some(t), Some(sg)) => match predicate_name(sg) {
                    Some(n) => SecondPass { bare: sm_insert(p.bare, t, n), ..p },
                    None => p,
                },
                _ => p,
            }
        } else if name == "@Iteration"@ {
            match target {
                Some(t) => SecondPass {
                    per: entries_insert(
                        p.per,
                        iteration_key(t),
                        JVal::Object(insert_named(members_of(p.per, iteration_key(t)), fvs)),
                    ),
                    ..p
                },
                None => p,
            }
        } else {
            p
        }
    }
}

/// The second pass over the rules in order.
pub open spec fn second_pass(rules: Seq<JVal>) -> SecondPass
    decreases rules.len(),
{
    if rules.len() == 0 {
        second_pass_start()
    } else {
        second_pass_step(second_pass(rules.drop_last()), rules.last())
    }
}


/// The members already recorded for predicate `t`.
fn members_of_exec(per: &JsonObject, t: &str) -> (r: JsonObject)
    ensures
        r@ == members_of(per@, t@),
{
    match per.get(t) {
        Some(o) => match o.object() {
            Some(obj) => obj.clone(),
            None => JsonObject::new(),
        },
        None => JsonObject::new(),
    }
}

/// Set member `key` of predicate `t` to `val`.
fn set_member_exec(per: &mut JsonObject, t: String, key: &str, val: Json)
    ensures
        final(per)@ == set_member(old(per)@, t@, key@, val@),
{
    let mut members = members_of_exec(per, t.as_str());
    members.insert(lit_text(key), val);
    per.insert(t, Json::Object(members));
}

/// The arguments after the first positional one.
fn other_args_exec(fvs: &JsonObject) -> (r: Vec<Json>)
    ensures
        jv_seq(r@) == other_args(fvs@),
{
    let ghost fv = fvs@;
    let mut out: Vec<Json> = Vec::new();
    let mut i: usize = 0;
    proof {
        lemma_jv_entries_len(fvs.entries@);
        assert(fv.subrange(0, 0) =~= Seq::<(Seq<char>, JVal)>::empty());
    }
    while i < fvs.entries.len()
        invariant
            i <= fvs.entries.len(),
            fv == fvs@,
            fv.len() == fvs.entries.len(),
            jv_seq(out@) == other_args(fv.subrange(0, i as int)),
        decreases fvs.entries.len() - i,
    {
        proof {
            lemma_jv_entries_index(fvs.entries@, i as int);
            assert(fv.subrange(0, i + 1).drop_last() =~= fv.subrange(0, i as int));
        }
        if !str_eq(fvs.entries[i].0.as_str(), "0") {
            let ghost before = out@;
            out.push(fvs.entries[i].1.clone());
            assert(out@.drop_last() =~= before);
        }
        i = i + 1;
    }
    assert(fv.subrange(0, i as int) =~= fv);
    out
}

/// The names that the items denote.
fn names_in_exec(items: &Vec<Json>) -> (r: Vec<String>)
    ensures
        r@.map_values(|n: String| n@) == names_in(jv_seq(items@)),
{
    let ghost iv = jv_seq(items@);
    let mut out: Vec<String> = Vec::new();
    let mut i: usize = 0;
    proof {
        lemma_jv_seq_len(items@);
        assert(iv.subrange(0, 0) =~= Seq::<JVal>::empty());
        assert(out@.map_values(|n: String| n@) =~= Seq::<Seq<char>>::empty());
    }
    while i < items.len()
        invariant
            i <= items.len(),
            iv == jv_seq(items@),
            iv.len() == items.len(),
            out@.map_values(|n: String| n@) == names_in(iv.subrange(0, i as int)),
        decreases items.len() - i,
    {
        proof {
            lemma_jv_seq_index(items@, i as int);
            assert(iv.subrange(0, i + 1).drop_last() =~= iv.subrange(0, i as int));
        }
        match extract_predicate_name(&items[i]) {
            Some(n) => {
                let ghost before = out@;
                out.push(n);
                assert(out@.map_values(|n: String| n@) =~= before.map_values(|n: String| n@).push(out@.last()@));
            },
            None => {},
        }
        i = i + 1;
    }
    assert(iv.subrange(0, i as int) =~= iv);
    out
}

fn tvf_args_exec(fvs: &JsonObject) -> (r: Vec<String>)
    ensures
        r@.map_values(|n: String| n@) == tvf_args(fvs@),
{
    match fvs.get("1") {
        Some(lv) => match lv.items() {
            Some(items) => names_in_exec(items),
            None => {
                let v: Vec<String> = Vec::new();
                assert(v@.map_values(|n: String| n@) =~= Seq::<Seq<char>>::empty());
                v
            },
        },
        None => {
            let v: Vec<String> = Vec::new();
            assert(v@.map_values(|n: String| n@) =~= Seq::<Seq<char>>::empty());
            v
        },
    }
}

fn ground_members_exec(members: &mut JsonObject, t: &str, fvs: &JsonObject)
    ensures
        final(members)@ == ground_members(old(members)@, t@, fvs@),
{
    let table: String = match fvs.get("1") {
        Some(tv) => match extract_predicate_name(tv) {
            Some(n) => n,
            None => lit_text(t),
        },
        None => lit_text(t),
    };
    members.insert(lit_text("ground"), Json::Str(table));
    match fvs.get("overwrite") {
        Some(ow) => members.insert(lit_text("ground_overwrite"), ow.clone()),
        None => {},
    }
    match fvs.get("copy_to_file") {
        Some(cf) => members.insert(lit_text("ground_copy_to_file"), cf.clone()),
        None => {},
    }
}

fn dataset_arg_exec(fvs: &JsonObject, prev: Option<String>) -> (r: Option<String>)
    ensures
        r.is_some() == dataset_arg(fvs@, opt_text(prev)).is_some(),
        r matches Some(s) ==> dataset_arg(fvs@, opt_text(prev)) == Some(s@),
{
    match fvs.get("0") {
        Some(v) => match extract_string_literal(v) {
            Some(s) => Some(s),
            None => match extract_predicate_name(v) {
                Some(n) => Some(n),
                None => prev,
            },
        },
        None => prev,
    }
}

/// The characters of an optional string.
pub open spec fn opt_text(o: Option<String>) -> Option<Seq<char>> {
    match o {
        Some(s) => Some(s@),
        None => None,
    }
}


/// What the second pass has gathered so far.
struct SecondPassState {
    per: JsonObject,
    attached: StrMap,
    dataset: Option<String>,
    udf: NameSet,
    tvf: Vec<(String, Vec<String>)>,
    bare: StrMap,
}

impl SecondPassState {
    spec fn model(&self) -> SecondPass {
        SecondPass {
            per: self.per@,
            attached: self.attached@,
            dataset: opt_text(self.dataset),
            udf: self.udf@,
            tvf: name_lists_view(self.tvf@),
            bare: self.bare@,
        }
    }
}

/// The second pass over one rule.
#[verifier::rlimit(40)]
fn second_pass_rule(st: &mut SecondPassState, rule: &Json)
    ensures
        final(st).model() == second_pass_step(old(st).model(), rule@),
{
    let head = match rule.get("head") {
        Some(h) => h,
        None => {
            return;
        },
    };
    let name = rule_name_exec(rule);
    if !starts_with_at(name) {
        return;
    }
    let fvs = head_field_values(head);
    let target = name_from_field(&fvs, "0");
    if str_eq(name, "@OrderBy") {
        if let Some(t) = target {
            let args = other_args_exec(&fvs);
            set_member_exec(&mut st.per, t, "order_by", Json::Array(args));
        }
    } else if str_eq(name, "@Limit") {
        if let Some(t) = target {
            if let Some(l) = fvs.get("1") {
                set_member_exec(&mut st.per, t, "limit", l.clone());
            }
        }
    } else if str_eq(name, "@Ground") {
        if let Some(t) = target {
            let mut members = members_of_exec(&st.per, t.as_str());
            ground_members_exec(&mut members, t.as_str(), &fvs);
            st.per.insert(t, Json::Object(members));
        }
    } else if str_eq(name, "@With") {
        if let Some(t) = target {
            set_member_exec(&mut st.per, t, "with", Json::Bool(true));
        }
    } else if str_eq(name, "@NoWith") {
        if let Some(t) = target {
            set_member_exec(&mut st.per, t, "with", Json::Bool(false));
        }
    } else if str_eq(name, "@NoInject") {
        if let Some(t) = target {
            set_member_exec(&mut st.per, t, "no_inject", Json::Bool(true));
        }
    } else if str_eq(name, "@Dataset") {
        let prev = st.dataset.take();
        st.dataset = dataset_arg_exec(&fvs, prev);
    } else if str_eq(name, "@AttachDatabase") {
        if let Some(t) = target {
            if let Some(path) = string_from_field_exec(&fvs, "1") {
                st.attached.insert(t, path);
            }
        }
    } else if str_eq(name, "@CompileAsUdf") {
        if let Some(t) = target {
            st.udf.insert(t);
        }
    } else if str_eq(name, "@CompileAsTvf") {
        if let Some(t) = target {
            let args = tvf_args_exec(&fvs);
            name_lists_insert(&mut st.tvf, t, args);
        }
    } else if str_eq(name, "@BareAggregation") {
        if let Some(t) = target {
            if let Some(sg) = fvs.get("semigroup") {
                if let Some(n) = extract_predicate_name(sg) {
                    st.bare.insert(t, n);
                }
            }
        }
    } else if str_eq(name, "@Iteration") {
        if let Some(t) = target {
            let key = concat2("@Iteration_", t.as_str());
            let mut members = members_of_exec(&st.per, key.as_str());
            insert_named_exec(&mut members, &fvs);
            st.per.insert(key, Json::Object(members));
        }
    }
}

fn second_pass_exec(rules: &[(String, Json)]) -> (r: SecondPassState)
    ensures
        r.model() == second_pass(rule_views(rules@)),
{
    let ghost rv = rule_views(rules@);
    let mut st = SecondPassState {
        per: JsonObject::new(),
        attached: StrMap::new(),
        dataset: None,
        udf: NameSet::new(),
        tvf: Vec::new(),
        bare: StrMap::new(),
    };
    assert(rv.subrange(0, 0) =~= Seq::<JVal>::empty());
    assert(name_lists_view(st.tvf@) =~= Seq::<(Seq<char>, Seq<Seq<char>>)>::empty());
    let mut i: usize = 0;
    while i < rules.len()
        invariant
            i <= rules.len(),
            rv == rule_views(rules@),
            rv.len() == rules@.len(),
            second_pass(rv.subrange(0, i as int)) == st.model(),
        decreases rules.len() - i,
    {
        let rule = &rules[i].1;
        proof {
            assert(rv[i as int] == rule@);
            assert(rv.subrange(0, i + 1).drop_last() =~= rv.subrange(0, i as int));
            assert(rv.subrange(0, i + 1).last() == rule@);
        }
        second_pass_rule(&mut st, rule);
        i = i + 1;
    }
    assert(rv.subrange(0, i as int) =~= rv);
    st
}


// ---------------------------------------------------------------------------
// Annotations
// ---------------------------------------------------------------------------

/// The annotations of a program.
#[derive(Debug)]
pub struct Annotations {
    /// Members recorded per predicate: `order_by`, `limit`, `ground`, `with`,
    /// `no_inject`, ...; an `@Iteration` is recorded under `@Iteration_` and its name.
    pub annotations: JsonObject,
    /// Flag values: the defaults of `@DefineFlag`, overridden by `@ResetFlagValue`.
    pub flag_values: StrMap,
    /// The engine the program targets.
    pub engine: String,
    /// Databases named by `@AttachDatabase`, with their paths.
    pub user_attached_databases: StrMap,
    /// The dataset `@Dataset` names.
    pub dataset_override: Option<String>,
    /// Predicates marked `@CompileAsUdf`.
    pub compile_as_udf: NameSet,
    /// Predicates marked `@CompileAsTvf`, with their argument names.
    pub compile_as_tvf: Vec<(String, Vec<String>)>,
    /// Predicates marked `@BareAggregation`, with their semigroup.
    pub bare_aggregation: StrMap,
    /// The named arguments of `@Engine` (`motherduck`, `threads`, `type_checking`, ...).
    pub engine_options: JsonObject,
    /// The annotation rules themselves, in order.
    pub annotation_rules: Vec<Json>,
}

/// Where a grounded predicate is stored.
#[derive(Debug)]
pub struct Ground {
    pub table_name: String,
    pub overwrite: bool,
    pub copy_to_file: Option<String>,
}

impl Annotations {
    /// Whether these annotations are the ones gathered by the two passes.
    pub open spec fn fits(&self, p1: FirstPass, p2: SecondPass) -> bool {
        &&& self.engine@ == p1.engine
        &&& self.engine_options@ == p1.options
        &&& forall|q: Seq<char>| #[trigger] sm_get(self.flag_values@, q) == overlay_get(p1.resets, p1.defaults, q)
        &&& self.annotations@ == p2.per
        &&& self.user_attached_databases@ == p2.attached
        &&& opt_text(self.dataset_override) == p2.dataset
        &&& self.compile_as_udf@ == p2.udf
        &&& name_lists_view(self.compile_as_tvf@) == p2.tvf
        &&& self.bare_aggregation@ == p2.bare
    }

    /// Read the annotations of the rules (pairs of a predicate name and a rule).
    /// A first pass reads `@Engine`, `@DefineFlag` and `@ResetFlagValue` and refuses
    /// an unknown special predicate; a second pass reads the other annotations.
    pub fn extract(rules: &[(String, Json)]) -> (r: CompileResult<Annotations>)
        ensures
            match first_pass(rule_views(rules@)) {
                Err(bad) => r matches Err(e) && e.message@ == refusal_message() && e.rule_text@ == jstr(
                    jfield(bad, "full_text"@),
                ),
                Ok(p1) => r matches Ok(a) && a.fits(p1, second_pass(rule_views(rules@)))
                    && jv_seq(a.annotation_rules@) == annotation_rules_in(rule_views(rules@)),
            },
    {
        let p1 = match first_pass_exec(rules) {
            Ok(p) => p,
            Err(e) => {
                return Err(e);
            },
        };
        let FirstPassState { engine, options, defaults, resets } = p1;
        let mut flag_values = defaults;
        flag_values.insert_all(&resets.entries);
        let p2 = second_pass_exec(rules);
        let SecondPassState { per, attached, dataset, udf, tvf, bare } = p2;
        let annotation_rules = collect_annotation_rules(rules);
        Ok(Annotations {
            annotations: per,
            flag_values,
            engine,
            user_attached_databases: attached,
            dataset_override: dataset,
            compile_as_udf: udf,
            compile_as_tvf: tvf,
            bare_aggregation: bare,
            engine_options: options,
            annotation_rules,
        })
    }
}


// ---------------------------------------------------------------------------
// Reading annotations back
// ---------------------------------------------------------------------------

/// Member `key` recorded for predicate `pred`.
pub open spec fn annotation_of(per: Seq<(Seq<char>, JVal)>, pred: Seq<char>, key: Seq<char>) -> Option<JVal> {
    match entries_get(per, pred) {
        Some(o) => jget(o, key),
        None => None,
    }
}

/// A boolean member: its value when it is a boolean, `other` when it is another
/// value, `absent` when there is none.
pub open spec fn bool_member(v: Option<JVal>, other: bool, absent: bool) -> bool {
    match v {
        Some(JVal::Bool(b)) => b,
        Some(_) => other,
        None => absent,
    }
}

/// The names of the predicates with a `ground` member, in order.
pub open spec fn grounded_names(per: Seq<(Seq<char>, JVal)>) -> Seq<Seq<char>>
    decreases per.len(),
{
    if per.len() == 0 {
        seq![]
    } else if has_key(per.last().1, "ground"@) {
        grounded_names(per.drop_last()).push(per.last().0)
    } else {
        grounded_names(per.drop_last())
    }
}

/// The number `@Limit` holds: `{"literal": {"the_number": n}}` with `n` an integer,
/// or an object holding its decimal text under `number`.
pub open spec fn limit_value(v: JVal) -> Option<i64> {
    match jget(v, "literal"@) {
        Some(lit) => match jget(lit, "the_number"@) {
            Some(num) => if num is Int {
                Some(jint(num))
            } else {
                match jget(num, "number"@) {
                    Some(t) => parse_int(jstr(t)),
                    None => None,
                }
            },
            None => None,
        },
        None => None,
    }
}

/// The column an `@OrderBy` argument names: a name, or a string literal.
pub open spec fn order_name(v: JVal) -> Option<Seq<char>> {
    match predicate_name(v) {
        Some(n) => Some(n),
        None => string_literal(v),
    }
}

/// The columns the items name, skipping the other items.
pub open spec fn order_names(items: Seq<JVal>) -> Seq<Seq<char>>
    decreases items.len(),
{
    if items.len() == 0 {
        seq![]
    } else {
        match order_name(items.last()) {
            Some(n) => order_names(items.drop_last()).push(n),
            None => order_names(items.drop_last()),
        }
    }
}

/// The terms of an `ORDER BY` from column `i` on: a column followed by `DESC`
/// gives `column DESC`, and the `DESC` itself gives nothing.
pub open spec fn order_terms(cols: Seq<Seq<char>>, i: int) -> Seq<Seq<char>>
    decreases cols.len() - i,
{
    if i < 0 || i >= cols.len() {
        seq![]
    } else if cols[i] == "DESC"@ {
        order_terms(cols, i + 1)
    } else if i + 1 < cols.len() && cols[i + 1] == "DESC"@ {
        seq![cols[i] + " DESC"@] + order_terms(cols, i + 1)
    } else {
        seq![cols[i]] + order_terms(cols, i + 1)
    }
}

/// The statements attaching the databases, in order; DuckDB first detaches each
/// and reads `.sqlite` files as SQLite.
pub open spec fn attach_lines(dbs: Seq<(Seq<char>, Seq<char>)>, duck: bool) -> Seq<Seq<char>>
    decreases dbs.len(),
{
    if dbs.len() == 0 {
        seq![]
    } else {
        let (k, v) = dbs.last();
        let prev = attach_lines(dbs.drop_last(), duck);
        let with_detach = if duck {
            prev.push("DETACH DATABASE IF EXISTS "@ + k + ";"@)
        } else {
            prev
        };
        let kind = if duck && has_suffix(v, ".sqlite"@) {
            " (TYPE SQLITE)"@
        } else {
            Seq::<char>::empty()
        };
        with_detach.push("ATTACH DATABASE '"@ + v + "' AS "@ + k + kind + ";"@)
    }
}

/// The PostgreSQL part of the preamble.
pub open spec fn psql_preamble(home: Seq<char>) -> Seq<char> {
    "-- Initializing PostgreSQL environment.\nset client_min_messages to warning;\ncreate schema if not exists "@
        + home
        + ";\n-- Empty logica type: logicarecord893574736;\nDO $$ BEGIN if not exists (select 'I(am) :- I(think)' from pg_type where typname = 'logicarecord893574736') then create type logicarecord893574736 as (nirvana numeric); end if; END $$;\n\n"@
}

/// The DuckDB statement giving the thread count, when `@Engine` sets `threads`
/// to a number or to a string literal holding one.
pub open spec fn threads_line(opts: Seq<(Seq<char>, JVal)>) -> Seq<char> {
    match entries_get(opts, "threads"@) {
        Some(tv) => match string_literal(tv) {
            Some(t) => match parse_int(t) {
                Some(n) => "set threads to "@ + int_text(n as int) + ";\n"@,
                None => seq![],
            },
            None => if tv is Int {
                "set threads to "@ + int_text(jint(tv) as int) + ";\n"@
            } else {
                seq![]
            },
        },
        None => seq![],
    }
}

/// A predicate that `@Iteration` lists: its own name when it is an object with
/// `predicate_name`.
pub open spec fn listed_predicate(p: JVal) -> Option<Seq<char>> {
    match jget(p, "predicate_name"@) {
        Some(pn) => Some(jstr(pn)),
        None => None,
    }
}

pub open spec fn listed_predicates(items: Seq<JVal>) -> Seq<Seq<char>>
    decreases items.len(),
{
    if items.len() == 0 {
        seq![]
    } else {
        match listed_predicate(items.last()) {
            Some(n) => listed_predicates(items.drop_last()).push(n),
            None => listed_predicates(items.drop_last()),
        }
    }
}

/// A list element naming a predicate: `{"literal": {"the_predicate": {"predicate_name": n}}}`.
pub open spec fn element_predicate(e: JVal) -> Option<Seq<char>> {
    match jget(e, "literal"@) {
        Some(l) => match jget(l, "the_predicate"@) {
            Some(p) => listed_predicate(p),
            None => None,
        },
        None => None,
    }
}

pub open spec fn element_predicates(items: Seq<JVal>) -> Seq<Seq<char>>
    decreases items.len(),
{
    if items.len() == 0 {
        seq![]
    } else {
        match element_predicate(items.last()) {
            Some(n) => element_predicates(items.drop_last()).push(n),
            None => element_predicates(items.drop_last()),
        }
    }
}

/// The predicates of an `@Iteration`: an array of predicates, one predicate, or a
/// list literal (`the_list` with its `element`s).
pub open spec fn listed_in(v: JVal) -> Seq<Seq<char>> {
    match v {
        JVal::Array(a) => listed_predicates(a),
        JVal::Object(_) => match jget(v, "predicate_name"@) {
            Some(pn) => seq![jstr(pn)],
            None => match jget(v, "the_list"@) {
                Some(l) => match jget(l, "element"@) {
                    Some(es) => element_predicates(jitems(es)),
                    None => seq![],
                },
                None => seq![],
            },
        },
        _ => seq![],
    }
}

/// The repetitions of an `@Iteration`: an integer, or the decimal text an object
/// holds under `number`; ten otherwise.
pub open spec fn number_in(v: JVal) -> i64 {
    if v is Int {
        jint(v)
    } else if v is Object {
        match jget(v, "number"@) {
            Some(n) => match parse_int(jstr(n)) {
                Some(x) => x,
                None => 10,
            },
            None => 10,
        }
    } else {
        10
    }
}

/// The predicates of an `@Iteration` as written: a list literal (`literal` with
/// `the_list`), or what [`listed_in`] reads.
pub open spec fn iteration_predicates(v: JVal) -> Seq<Seq<char>> {
    match jget(v, "literal"@) {
        Some(lit) => listed_in(lit),
        None => listed_in(v),
    }
}

/// The repetitions of an `@Iteration` as written: a number literal (`literal`
/// with `the_number`), or what [`number_in`] reads; ten otherwise.
pub open spec fn iteration_repetitions(v: JVal) -> i64 {
    match jget(v, "literal"@) {
        Some(lit) => match jget(lit, "the_number"@) {
            Some(n) => number_in(n),
            None => 10,
        },
        None => number_in(v),
    }
}

/// A boolean setting: a boolean value, or a boolean literal (`literal` with
/// `the_bool`, its text directly or under `the_bool`), true exactly when the
/// text is `true`; `None` for anything else.
pub open spec fn bool_setting(v: JVal) -> Option<bool> {
    match v {
        JVal::Bool(b) => Some(b),
        _ => match jget(v, "literal"@) {
            Some(lit) => match jget(lit, "the_bool"@) {
                Some(b) => if b is Str {
                    Some(jstr(b) == "true"@)
                } else {
                    Some(jstr(jfield(b, "the_bool"@)) == "true"@)
                },
                None => None,
            },
            None => None,
        },
    }
}

/// The annotation rules among `rules`, in order.
pub open spec fn annotation_rules_in(rules: Seq<JVal>) -> Seq<JVal>
    decreases rules.len(),
{
    if rules.len() == 0 {
        seq![]
    } else if is_annotation(rules.last()) {
        annotation_rules_in(rules.drop_last()).push(rules.last())
    } else {
        annotation_rules_in(rules.drop_last())
    }
}

/// The rules of `rules` whose head is `name`, in order.
pub open spec fn rules_named(rules: Seq<JVal>, name: Seq<char>) -> Seq<JVal>
    decreases rules.len(),
{
    if rules.len() == 0 {
        seq![]
    } else if rule_name(rules.last()) == name {
        rules_named(rules.drop_last(), name).push(rules.last())
    } else {
        rules_named(rules.drop_last(), name)
    }
}

fn collect_annotation_rules(rules: &[(String, Json)]) -> (r: Vec<Json>)
    ensures
        jv_seq(r@) == annotation_rules_in(rule_views(rules@)),
{
    let ghost rv = rule_views(rules@);
    let mut out: Vec<Json> = Vec::new();
    let mut i: usize = 0;
    assert(rv.take(0) =~= Seq::<JVal>::empty());
    while i < rules.len()
        invariant
            i <= rules.len(),
            rv == rule_views(rules@),
            rv.len() == rules.len(),
            jv_seq(out@) == annotation_rules_in(rv.take(i as int)),
        decreases rules.len() - i,
    {
        proof {
            assert(rv.take(i + 1).drop_last() =~= rv.take(i as int));
            assert(rv.take(i + 1).last() == rules@[i as int].1@);
        }
        let rule = &rules[i].1;
        if rule.has("head") && starts_with_at(rule_name_exec(rule)) {
            let ghost before = out@;
            out.push(rule.clone());
            assert(out@.drop_last() =~= before);
        }
        i = i + 1;
    }
    assert(rv.take(i as int) =~= rv);
    out
}

fn bool_setting_exec(v: &Json) -> (r: Option<bool>)
    ensures
        r == bool_setting(v@),
{
    match v {
        Json::Bool(b) => Some(*b),
        _ => match v.get("literal") {
            Some(lit) => match lit.get("the_bool") {
                Some(b) => {
                    let text = if b.is_string() {
                        b.as_str()
                    } else {
                        crate::json::opt_str(b.get("the_bool"))
                    };
                    Some(crate::text::str_eq(text, "true"))
                },
                None => None,
            },
            None => None,
        },
    }
}

/// An iteration, abstractly: predicates, repetitions and stop signal.
pub struct IterationV {
    pub predicates: Seq<Seq<char>>,
    pub repetitions: i64,
    pub stop_signal: Option<Seq<char>>,
}

/// The iteration recorded under `@Iteration_` and `name`, or the error it gives:
/// `(message, name)`.
pub open spec fn iteration_of(name: Seq<char>, members: JVal) -> Result<IterationV, (Seq<char>, Seq<char>)> {
    match jget(members, "predicates"@) {
        None => Err(("Iteration must specify list of predicates."@, name)),
        Some(pv) => match jget(members, "repetitions"@) {
            None => Err(("Iteration must specify number of repetitions."@, name)),
            Some(rv) => Ok(IterationV {
                predicates: iteration_predicates(pv),
                repetitions: iteration_repetitions(rv),
                stop_signal: match jget(members, "stop_signal"@) {
                    Some(ss) => listed_predicate(ss),
                    None => None,
                },
            }),
        },
    }
}

/// The iterations recorded in `per`, in order, or the error of the first one
/// that lacks predicates or repetitions.
pub open spec fn iterations_of(per: Seq<(Seq<char>, JVal)>) -> Result<Seq<(Seq<char>, IterationV)>, (Seq<char>, Seq<char>)>
    decreases per.len(),
{
    if per.len() == 0 {
        Ok(seq![])
    } else {
        match iterations_of(per.drop_last()) {
            Err(e) => Err(e),
            Ok(acc) => {
                let (key, members) = per.last();
                if crate::text::has_prefix(key, "@Iteration_"@) {
                    let name = key.subrange(11, key.len() as int);
                    match iteration_of(name, members) {
                        Err(e) => Err(e),
                        Ok(it) => Ok(acc.push((name, it))),
                    }
                } else {
                    Ok(acc)
                }
            },
        }
    }
}


impl Annotations {
    /// The dataset: the one `@Dataset` names, else the home schema for PostgreSQL
    /// and DuckDB, and for SQLite when the user attached it; else the test schema.
    pub open spec fn dataset_name(&self) -> Seq<char> {
        match opt_text(self.dataset_override) {
            Some(ds) => ds,
            None => if self.engine@ == "psql"@ || self.engine@ == "duckdb"@ {
                home_schema_name()
            } else if self.engine@ == "sqlite"@ && sm_get(self.user_attached_databases@, home_schema_name()) is Some {
                home_schema_name()
            } else {
                test_schema_name()
            },
        }
    }

    /// The databases to attach: the user's, and the test schema in memory for
    /// SQLite when a predicate is grounded and the user did not attach it.
    pub open spec fn attached_list(&self) -> Seq<(Seq<char>, Seq<char>)> {
        if self.engine@ == "sqlite"@ && sm_get(self.user_attached_databases@, test_schema_name()) is None
            && grounded_names(self.annotations@).len() > 0 {
            self.user_attached_databases@.push((test_schema_name(), ":memory:"@))
        } else {
            self.user_attached_databases@
        }
    }

    pub open spec fn statements_text(&self) -> Seq<char> {
        join(attach_lines(self.attached_list(), self.engine@ == "duckdb"@), "\n"@)
    }

    /// The preamble: the attach statements, then the engine's set-up.
    pub open spec fn preamble_text(&self) -> Seq<char> {
        let attach = self.statements_text();
        let start = if attach.len() > 0 { attach + "\n\n"@ } else { Seq::<char>::empty() };
        if self.engine@ == "psql"@ {
            start + psql_preamble(home_schema_name())
        } else if self.engine@ == "duckdb"@ {
            let home = home_schema_name();
            let home_line = if sm_get(self.user_attached_databases@, home) is Some {
                "-- "@ + home + " attached by user.\n"@
            } else {
                "create schema if not exists "@ + home + ";\n"@
            };
            let sequence = if self.motherduck() {
                "\n"@
            } else {
                "create sequence if not exists eternal_logical_sequence;\n\n"@
            };
            start + "-- Initializing DuckDB environment.\n"@ + home_line
                + "-- Empty record, has to have a field by DuckDB syntax.\ndrop type if exists logicarecord893574736 cascade; create type logicarecord893574736 as struct(nirvana numeric);\n"@
                + sequence + threads_line(self.engine_options@)
        } else {
            start
        }
    }

    pub open spec fn motherduck(&self) -> bool {
        entries_get(self.engine_options@, "motherduck"@) matches Some(v) && !(v is Null)
    }

    pub open spec fn order_by_of(&self, pred: Seq<char>) -> Option<Seq<Seq<char>>> {
        match annotation_of(self.annotations@, pred, "order_by"@) {
            Some(v) => Some(order_names(jitems(v))),
            None => None,
        }
    }

    pub open spec fn limit_of_spec(&self, pred: Seq<char>) -> Option<i64> {
        match annotation_of(self.annotations@, pred, "limit"@) {
            Some(v) => limit_value(v),
            None => None,
        }
    }

    /// The table a grounded predicate is stored in. With no table given, it is
    /// the predicate in the dataset; a table that is itself a grounded predicate
    /// with no table given is that predicate in the dataset.
    pub open spec fn ground_table(&self, pred: Seq<char>, raw: Seq<char>) -> Seq<char> {
        if raw == pred {
            self.dataset_name() + "."@ + raw
        } else {
            match annotation_of(self.annotations@, raw, "ground"@) {
                Some(o) => if jstr(o) == raw {
                    self.dataset_name() + "."@ + jstr(o)
                } else {
                    jstr(o)
                },
                None => raw,
            }
        }
    }

    /// Whether a grounded table is overwritten: the boolean given, or a string
    /// literal other than `false`; by default it is.
    pub open spec fn ground_overwrite(&self, pred: Seq<char>) -> bool {
        match annotation_of(self.annotations@, pred, "ground_overwrite"@) {
            Some(JVal::Bool(b)) => b,
            Some(ow) => match string_literal(ow) {
                Some(t) => t != "false"@,
                None => true,
            },
            None => true,
        }
    }

    pub open spec fn ground_copy(&self, pred: Seq<char>) -> Option<Seq<char>> {
        match annotation_of(self.annotations@, pred, "ground_copy_to_file"@) {
            Some(cf) => string_literal(cf),
            None => None,
        }
    }

    pub open spec fn no_inject_spec(&self, pred: Seq<char>) -> bool {
        bool_member(annotation_of(self.annotations@, pred, "no_inject"@), false, false)
    }

    pub open spec fn force_with_spec(&self, pred: Seq<char>) -> bool {
        bool_member(annotation_of(self.annotations@, pred, "with"@), false, false)
    }

    /// Member `key` recorded for predicate `pred`.
    fn annotation(&self, pred: &str, key: &str) -> (r: Option<&Json>)
        ensures
            r.is_some() == annotation_of(self.annotations@, pred@, key@).is_some(),
            r matches Some(x) ==> annotation_of(self.annotations@, pred@, key@) == Some(x@),
    {
        match self.annotations.get(pred) {
            Some(o) => o.get(key),
            None => None,
        }
    }

    /// The engine the program targets.
    pub fn engine(&self) -> (r: &str)
        ensures
            r@ == self.engine@,
    {
        self.engine.as_str()
    }

    /// Whether `@Engine` sets `motherduck`.
    pub fn is_motherduck(&self) -> (r: bool)
        ensures
            r == self.motherduck(),
    {
        match self.engine_options.get("motherduck") {
            Some(v) => !v.is_null(),
            None => false,
        }
    }

    /// Whether `@Engine` sets `clingo`.
    pub fn needs_clingo(&self) -> (r: bool)
        ensures
            r == (entries_get(self.engine_options@, "clingo"@) matches Some(v) && !(v is Null)),
    {
        match self.engine_options.get("clingo") {
            Some(v) => !v.is_null(),
            None => false,
        }
    }

    /// Whether types are checked: as `@Engine` sets `type_checking` when it sets
    /// it to a boolean (a boolean value, or a boolean literal as parsed); otherwise
    /// they are.
    pub fn should_typecheck(&self) -> (r: bool)
        ensures
            r == match entries_get(self.engine_options@, "type_checking"@) {
                Some(v) => match bool_setting(v) {
                    Some(b) => b,
                    None => true,
                },
                None => true,
            },
    {
        let by_default = self.engine_typechecks_by_default();
        match self.engine_options.get("type_checking") {
            Some(tc) => match bool_setting_exec(tc) {
                Some(b) => b,
                None => true,
            },
            None => by_default,
        }
    }

    /// Every engine checks types by default.
    fn engine_typechecks_by_default(&self) -> (r: bool)
        ensures
            r,
    {
        true
    }

    /// The dataset the program's tables go to.
    pub fn dataset(&self) -> (r: String)
        ensures
            r@ == self.dataset_name(),
    {
        if let Some(ds) = &self.dataset_override {
            return ds.clone();
        }
        let home = home_schema();
        let test = test_schema();
        if str_eq(self.engine.as_str(), "psql") || str_eq(self.engine.as_str(), "duckdb") {
            lit_text(home)
        } else if str_eq(self.engine.as_str(), "sqlite") && self.user_attached_databases.contains_key(home) {
            lit_text(home)
        } else {
            lit_text(test)
        }
    }
}


impl Annotations {
    /// The predicates that are grounded, in the order they were first annotated.
    pub fn grounded_predicates(&self) -> (r: NameSet)
        ensures
            r@ == grounded_names(self.annotations@),
    {
        let ghost per = self.annotations@;
        let entries = &self.annotations.entries;
        let mut names: Vec<String> = Vec::new();
        let mut i: usize = 0;
        proof {
            lemma_jv_entries_len(entries@);
            assert(per.subrange(0, 0) =~= Seq::<(Seq<char>, JVal)>::empty());
            assert(crate::strmap::names_view(names@) =~= Seq::<Seq<char>>::empty());
        }
        while i < entries.len()
            invariant
                i <= entries.len(),
                per == self.annotations@,
                per == jv_entries(entries@),
                per.len() == entries.len(),
                crate::strmap::names_view(names@) == grounded_names(per.subrange(0, i as int)),
            decreases entries.len() - i,
        {
            proof {
                lemma_jv_entries_index(entries@, i as int);
                assert(per.subrange(0, i + 1).drop_last() =~= per.subrange(0, i as int));
            }
            if entries[i].1.has("ground") {
                let ghost before = names@;
                names.push(entries[i].0.clone());
                assert(crate::strmap::names_view(names@) =~= crate::strmap::names_view(before).push(per[i as int].0));
            }
            i = i + 1;
        }
        assert(per.subrange(0, i as int) =~= per);
        NameSet { names }
    }

    /// The databases to attach, with their paths.
    pub fn attached_databases(&self) -> (r: Vec<(String, String)>)
        ensures
            sm_view(r@) == self.attached_list(),
    {
        let copy = self.user_attached_databases.clone();
        let mut result = copy.entries;
        let test = test_schema();
        if str_eq(self.engine.as_str(), "sqlite") && !self.user_attached_databases.contains_key(test)
            && !self.grounded_predicates().is_empty() {
            let ghost before = result@;
            result.push((lit_text(test), lit_text(":memory:")));
            assert(sm_view(result@) =~= sm_view(before).push((test_schema_name(), ":memory:"@)));
        }
        result
    }

    /// The statements attaching the databases, one per line.
    pub fn attach_database_statements(&self) -> (r: String)
        ensures
            r@ == self.statements_text(),
    {
        let dbs = self.attached_databases();
        let duck = str_eq(self.engine.as_str(), "duckdb");
        let ghost dv = sm_view(dbs@);
        let mut lines: Vec<String> = Vec::new();
        let mut i: usize = 0;
        assert(dv.subrange(0, 0) =~= Seq::<(Seq<char>, Seq<char>)>::empty());
        assert(lines@.map_values(|p: String| p@) =~= Seq::<Seq<char>>::empty());
        while i < dbs.len()
            invariant
                i <= dbs.len(),
                dv == sm_view(dbs@),
                dv.len() == dbs.len(),
                duck == (self.engine@ == "duckdb"@),
                lines@.map_values(|p: String| p@) == attach_lines(dv.subrange(0, i as int), duck),
            decreases dbs.len() - i,
        {
            proof {
                assert(dv.subrange(0, i + 1).drop_last() =~= dv.subrange(0, i as int));
                assert(dv.subrange(0, i + 1).last() == dv[i as int]);
            }
            let k = dbs[i].0.as_str();
            let v = dbs[i].1.as_str();
            let ghost l0 = lines@.map_values(|p: String| p@);
            if duck {
                let d = concat3("DETACH DATABASE IF EXISTS ", k, ";");
                lines.push(d);
            }
            let ghost l1 = lines@.map_values(|p: String| p@);
            proof {
                if duck {
                    assert(l1 =~= l0.push("DETACH DATABASE IF EXISTS "@ + k@ + ";"@));
                } else {
                    assert(l1 =~= l0);
                }
            }
            let kind: &str = if duck && ends_with_str(v, ".sqlite") {
                " (TYPE SQLITE)"
            } else {
                proof {
                    reveal_strlit("");
                }
                ""
            };
            let a0 = concat3("ATTACH DATABASE '", v, "' AS ");
            let a = concat4(a0.as_str(), k, kind, ";");
            assert(a@ =~= "ATTACH DATABASE '"@ + v@ + "' AS "@ + k@ + kind@ + ";"@);
            lines.push(a);
            assert(lines@.map_values(|p: String| p@) =~= l1.push(a@));
            proof {
                let q = dv.subrange(0, i + 1);
                assert(dv[i as int] == (k@, v@));
                assert(kind@ == if duck && has_suffix(v@, ".sqlite"@) {
                    " (TYPE SQLITE)"@
                } else {
                    Seq::<char>::empty()
                });
                assert(attach_lines(q, duck) == lines@.map_values(|p: String| p@));
            }
            i = i + 1;
        }
        assert(dv.subrange(0, i as int) =~= dv);
        join_strings(&lines, "\n")
    }
}


/// The thread-count statement of the DuckDB preamble.
fn threads_line_exec(opts: &JsonObject) -> (r: String)
    ensures
        r@ == threads_line(opts@),
{
    match opts.get("threads") {
        Some(tv) => match extract_string_literal(tv) {
            Some(t) => match parse_int_exec(t.as_str()) {
                Some(n) => {
                    let d = int_to_string(n);
                    concat3("set threads to ", d.as_str(), ";\n")
                },
                None => empty_text(),
            },
            None => if tv.is_int() {
                let d = int_to_string(tv.as_int());
                concat3("set threads to ", d.as_str(), ";\n")
            } else {
                empty_text()
            },
        },
        None => empty_text(),
    }
}

impl Annotations {
    /// The text run before the program: attach statements and engine set-up.
    pub fn preamble(&self) -> (r: String)
        ensures
            r@ == self.preamble_text(),
    {
        let attach = self.attach_database_statements();
        let mut out: Vec<char> = Vec::new();
        if attach.as_str().unicode_len() > 0 {
            crate::text::extend_str(&mut out, attach.as_str());
            crate::text::extend_str(&mut out, "\n\n");
        }
        let ghost start = out@;
        assert(start =~= if attach@.len() > 0 { attach@ + "\n\n"@ } else { Seq::<char>::empty() });
        let home = home_schema();
        if str_eq(self.engine.as_str(), "psql") {
            crate::text::extend_str(&mut out, "-- Initializing PostgreSQL environment.\nset client_min_messages to warning;\ncreate schema if not exists ");
            crate::text::extend_str(&mut out, home);
            crate::text::extend_str(&mut out, ";\n-- Empty logica type: logicarecord893574736;\nDO $$ BEGIN if not exists (select 'I(am) :- I(think)' from pg_type where typname = 'logicarecord893574736') then create type logicarecord893574736 as (nirvana numeric); end if; END $$;\n\n");
            assert(out@ =~= start + psql_preamble(home_schema_name()));
        } else if str_eq(self.engine.as_str(), "duckdb") {
            crate::text::extend_str(&mut out, "-- Initializing DuckDB environment.\n");
            let ghost s1 = out@;
            if self.user_attached_databases.contains_key(home) {
                crate::text::extend_str(&mut out, "-- ");
                crate::text::extend_str(&mut out, home);
                crate::text::extend_str(&mut out, " attached by user.\n");
            } else {
                crate::text::extend_str(&mut out, "create schema if not exists ");
                crate::text::extend_str(&mut out, home);
                crate::text::extend_str(&mut out, ";\n");
            }
            let ghost s2 = out@;
            crate::text::extend_str(&mut out, "-- Empty record, has to have a field by DuckDB syntax.\ndrop type if exists logicarecord893574736 cascade; create type logicarecord893574736 as struct(nirvana numeric);\n");
            let ghost s3 = out@;
            if self.is_motherduck() {
                crate::text::extend_str(&mut out, "\n");
            } else {
                crate::text::extend_str(&mut out, "create sequence if not exists eternal_logical_sequence;\n\n");
            }
            let ghost s4 = out@;
            let t = threads_line_exec(&self.engine_options);
            crate::text::extend_str(&mut out, t.as_str());
            proof {
                let hl = if sm_get(self.user_attached_databases@, home_schema_name()) is Some {
                    "-- "@ + home_schema_name() + " attached by user.\n"@
                } else {
                    "create schema if not exists "@ + home_schema_name() + ";\n"@
                };
                assert(s2 =~= s1 + hl);
                let sq = if self.motherduck() {
                    "\n"@
                } else {
                    "create sequence if not exists eternal_logical_sequence;\n\n"@
                };
                assert(s4 =~= s3 + sq);
                assert(out@ =~= self.preamble_text());
            }
        }
        crate::text::string_of(&out)
    }

    /// Where a grounded predicate is stored, if it is grounded.
    pub fn ground(&self, pred_name: &str) -> (r: Option<Ground>)
        ensures
            r.is_some() == annotation_of(self.annotations@, pred_name@, "ground"@).is_some(),
            r matches Some(g) ==> {
                &&& g.table_name@ == self.ground_table(
                    pred_name@,
                    jstr(annotation_of(self.annotations@, pred_name@, "ground"@)->0),
                )
                &&& g.overwrite == self.ground_overwrite(pred_name@)
                &&& opt_text(g.copy_to_file) == self.ground_copy(pred_name@)
            },
    {
        let v = match self.annotation(pred_name, "ground") {
            Some(v) => v,
            None => {
                return None;
            },
        };
        let raw = v.as_str();
        let table_name: String = if str_eq(raw, pred_name) {
            let ds = self.dataset();
            concat3(ds.as_str(), ".", raw)
        } else {
            match self.annotation(raw, "ground") {
                Some(other) => {
                    let other_raw = other.as_str();
                    if str_eq(other_raw, raw) {
                        let ds = self.dataset();
                        concat3(ds.as_str(), ".", other_raw)
                    } else {
                        lit_text(other_raw)
                    }
                },
                None => lit_text(raw),
            }
        };
        let overwrite = match self.annotation(pred_name, "ground_overwrite") {
            Some(ow) => match ow {
                Json::Bool(b) => *b,
                _ => match extract_string_literal(ow) {
                    Some(t) => !str_eq(t.as_str(), "false"),
                    None => true,
                },
            },
            None => true,
        };
        let copy_to_file = match self.annotation(pred_name, "ground_copy_to_file") {
            Some(cf) => extract_string_literal(cf),
            None => None,
        };
        Some(Ground { table_name, overwrite, copy_to_file })
    }
}



impl Annotations {
    /// The columns `@OrderBy` gives for a predicate, if it has one.
    pub fn order_by(&self, pred_name: &str) -> (r: Option<Vec<String>>)
        ensures
            r.is_some() == self.order_by_of(pred_name@).is_some(),
            r matches Some(cols) ==> Some(cols@.map_values(|c: String| c@)) == self.order_by_of(pred_name@),
    {
        let v = match self.annotation(pred_name, "order_by") {
            Some(v) => v,
            None => {
                return None;
            },
        };
        let empty: Vec<Json> = Vec::new();
        let items: &Vec<Json> = match v.items() {
            Some(a) => a,
            None => &empty,
        };
        let ghost iv = jv_seq(items@);
        assert(iv == jitems(v@)) by {
            if !(v@ is Array) {
                assert(jv_seq(empty@) =~= Seq::<JVal>::empty());
            }
        }
        let mut out: Vec<String> = Vec::new();
        let mut i: usize = 0;
        proof {
            lemma_jv_seq_len(items@);
            assert(iv.subrange(0, 0) =~= Seq::<JVal>::empty());
            assert(out@.map_values(|c: String| c@) =~= Seq::<Seq<char>>::empty());
        }
        while i < items.len()
            invariant
                i <= items.len(),
                iv == jv_seq(items@),
                iv.len() == items.len(),
                out@.map_values(|c: String| c@) == order_names(iv.subrange(0, i as int)),
            decreases items.len() - i,
        {
            proof {
                lemma_jv_seq_index(items@, i as int);
                assert(iv.subrange(0, i + 1).drop_last() =~= iv.subrange(0, i as int));
            }
            let name = match extract_predicate_name(&items[i]) {
                Some(n) => Some(n),
                None => extract_string_literal(&items[i]),
            };
            match name {
                Some(n) => {
                    let ghost before = out@;
                    out.push(n);
                    assert(out@.map_values(|c: String| c@) =~= before.map_values(|c: String| c@).push(out@.last()@));
                },
                None => {},
            }
            i = i + 1;
        }
        assert(iv.subrange(0, i as int) =~= iv);
        Some(out)
    }

    /// The `ORDER BY` clause of a predicate, empty when it has no columns.
    pub fn order_by_clause(&self, pred_name: &str) -> (r: String)
        ensures
            r@ == match self.order_by_of(pred_name@) {
                Some(cols) => if cols.len() > 0 {
                    " ORDER BY "@ + join(order_terms(cols, 0), ", "@)
                } else {
                    Seq::<char>::empty()
                },
                None => Seq::<char>::empty(),
            },
    {
        let cols = match self.order_by(pred_name) {
            Some(c) => c,
            None => {
                return empty_text();
            },
        };
        if cols.len() == 0 {
            return empty_text();
        }
        let ghost cv = cols@.map_values(|c: String| c@);
        let len = cols.len();
        let mut parts: Vec<String> = Vec::new();
        let mut i: usize = 0;
        assert(parts@.map_values(|p: String| p@) + order_terms(cv, 0) =~= order_terms(cv, 0));
        while i < len
            invariant
                len == cols.len(),
                i <= len,
                cv == cols@.map_values(|c: String| c@),
                cv.len() == len,
                parts@.map_values(|p: String| p@) + order_terms(cv, i as int) == order_terms(cv, 0),
            decreases len - i,
        {
            let ghost before = parts@.map_values(|p: String| p@);
            if str_eq(cols[i].as_str(), "DESC") {
                assert(order_terms(cv, i as int) == order_terms(cv, i + 1));
            } else if i + 1 < len && str_eq(cols[i + 1].as_str(), "DESC") {
                let t = concat2(cols[i].as_str(), " DESC");
                parts.push(t);
                assert(parts@.map_values(|p: String| p@) =~= before.push(cv[i as int] + " DESC"@));
                assert(order_terms(cv, i as int) == seq![cv[i as int] + " DESC"@] + order_terms(cv, i + 1));
                assert(parts@.map_values(|p: String| p@) + order_terms(cv, i + 1) =~= before + order_terms(cv, i as int));
            } else {
                let t = cols[i].clone();
                parts.push(t);
                assert(parts@.map_values(|p: String| p@) =~= before.push(cv[i as int]));
                assert(order_terms(cv, i as int) == seq![cv[i as int]] + order_terms(cv, i + 1));
                assert(parts@.map_values(|p: String| p@) + order_terms(cv, i + 1) =~= before + order_terms(cv, i as int));
            }
            i = i + 1;
        }
        assert(order_terms(cv, i as int) =~= Seq::<Seq<char>>::empty());
        assert(parts@.map_values(|p: String| p@) =~= order_terms(cv, 0));
        let body = join_strings(&parts, ", ");
        concat2(" ORDER BY ", body.as_str())
    }

    /// The `@Limit` of a predicate, if it has one.
    pub fn limit_of(&self, pred_name: &str) -> (r: Option<i64>)
        ensures
            r == self.limit_of_spec(pred_name@),
    {
        let v = match self.annotation(pred_name, "limit") {
            Some(v) => v,
            None => {
                return None;
            },
        };
        let lit = match v.get("literal") {
            Some(l) => l,
            None => {
                return None;
            },
        };
        let num = match lit.get("the_number") {
            Some(n) => n,
            None => {
                return None;
            },
        };
        if num.is_int() {
            Some(num.as_int())
        } else {
            match num.get("number") {
                Some(t) => parse_int_exec(t.as_str()),
                None => None,
            }
        }
    }

    /// The `LIMIT` clause of a predicate, empty when it has none.
    pub fn limit_clause(&self, pred_name: &str) -> (r: String)
        ensures
            r@ == match self.limit_of_spec(pred_name@) {
                Some(n) => " LIMIT "@ + int_text(n as int),
                None => Seq::<char>::empty(),
            },
    {
        match self.limit_of(pred_name) {
            Some(n) => {
                let d = int_to_string(n);
                concat2(" LIMIT ", d.as_str())
            },
            None => empty_text(),
        }
    }

    /// Whether a predicate is computed in a `WITH` clause: unless `@NoWith` says
    /// otherwise, it is.
    pub fn use_with(&self, pred_name: &str) -> (r: bool)
        ensures
            r == bool_member(annotation_of(self.annotations@, pred_name@, "with"@), true, true),
    {
        match self.annotation(pred_name, "with") {
            Some(v) => match v {
                Json::Bool(b) => *b,
                _ => true,
            },
            None => true,
        }
    }

    /// Whether a predicate is marked `@NoInject`.
    pub fn no_inject(&self, pred_name: &str) -> (r: bool)
        ensures
            r == self.no_inject_spec(pred_name@),
    {
        match self.annotation(pred_name, "no_inject") {
            Some(v) => match v {
                Json::Bool(b) => *b,
                _ => false,
            },
            None => false,
        }
    }

    /// Whether a predicate is marked `@With`.
    pub fn force_with(&self, pred_name: &str) -> (r: bool)
        ensures
            r == self.force_with_spec(pred_name@),
    {
        match self.annotation(pred_name, "with") {
            Some(v) => match v {
                Json::Bool(b) => *b,
                _ => false,
            },
            None => false,
        }
    }

    /// Whether a predicate may be inlined into its callers: not when it has an
    /// order, a limit or a ground, or is marked `@NoInject` or `@With`.
    pub fn ok_injection(&self, pred_name: &str) -> (r: bool)
        ensures
            r == !(self.order_by_of(pred_name@).is_some() || self.limit_of_spec(pred_name@).is_some()
                || annotation_of(self.annotations@, pred_name@, "ground"@).is_some()
                || self.no_inject_spec(pred_name@) || self.force_with_spec(pred_name@)),
    {
        if self.order_by(pred_name).is_some() || self.limit_of(pred_name).is_some()
            || self.ground(pred_name).is_some() || self.no_inject(pred_name)
            || self.force_with(pred_name) {
            return false;
        }
        true
    }

    /// The rules of annotation `annotation` (such as `@Recursive`), in order;
    /// `None` when there is none.
    pub fn get_annotation_rules(&self, annotation: &str) -> (r: Option<Vec<Json>>)
        ensures
            ({
                let named = rules_named(jv_seq(self.annotation_rules@), annotation@);
                match r {
                    Some(v) => named.len() > 0 && jv_seq(v@) == named,
                    None => named.len() == 0,
                }
            }),
    {
        let ghost rv = jv_seq(self.annotation_rules@);
        let mut out: Vec<Json> = Vec::new();
        let mut i: usize = 0;
        proof {
            crate::json::lemma_jv_seq_len(self.annotation_rules@);
            assert(rv.take(0) =~= Seq::<JVal>::empty());
        }
        while i < self.annotation_rules.len()
            invariant
                i <= self.annotation_rules.len(),
                rv == jv_seq(self.annotation_rules@),
                rv.len() == self.annotation_rules.len(),
                jv_seq(out@) == rules_named(rv.take(i as int), annotation@),
            decreases self.annotation_rules.len() - i,
        {
            proof {
                crate::json::lemma_jv_seq_index(self.annotation_rules@, i as int);
                assert(rv.take(i + 1).drop_last() =~= rv.take(i as int));
                assert(rv.take(i + 1).last() == rv[i as int]);
            }
            let name = rule_name_exec(&self.annotation_rules[i]);
            if crate::text::str_eq(name, annotation) {
                let ghost before = out@;
                out.push(self.annotation_rules[i].clone());
                assert(out@.drop_last() =~= before);
            }
            i = i + 1;
        }
        assert(rv.take(i as int) =~= rv);
        if out.len() == 0 {
            proof {
                crate::json::lemma_jv_seq_len(out@);
            }
            None
        } else {
            proof {
                crate::json::lemma_jv_seq_len(out@);
            }
            Some(out)
        }
    }
}


/// An iteration of a group of predicates.
#[derive(Debug)]
pub struct IterationDef {
    pub predicates: Vec<String>,
    pub repetitions: i64,
    pub stop_signal: Option<String>,
}

impl IterationDef {
    pub open spec fn model(&self) -> IterationV {
        IterationV {
            predicates: self.predicates@.map_values(|n: String| n@),
            repetitions: self.repetitions,
            stop_signal: opt_text(self.stop_signal),
        }
    }
}

fn listed_predicate_exec(p: &Json) -> (r: Option<String>)
    ensures
        opt_text(r) == listed_predicate(p@),
{
    match p.get("predicate_name") {
        Some(pn) => Some(lit_text(pn.as_str())),
        None => None,
    }
}

fn element_predicate_exec(e: &Json) -> (r: Option<String>)
    ensures
        opt_text(r) == element_predicate(e@),
{
    match e.get("literal") {
        Some(l) => match l.get("the_predicate") {
            Some(p) => listed_predicate_exec(p),
            None => None,
        },
        None => None,
    }
}

/// The predicates the items list (each an object with `predicate_name`), or,
/// with `elements`, the predicates the list elements name.
fn listed_predicates_exec(items: &Vec<Json>, elements: bool) -> (r: Vec<String>)
    ensures
        r@.map_values(|n: String| n@) == if elements {
            element_predicates(jv_seq(items@))
        } else {
            listed_predicates(jv_seq(items@))
        },
{
    let ghost iv = jv_seq(items@);
    let mut out: Vec<String> = Vec::new();
    let mut i: usize = 0;
    proof {
        lemma_jv_seq_len(items@);
        assert(iv.subrange(0, 0) =~= Seq::<JVal>::empty());
        assert(out@.map_values(|n: String| n@) =~= Seq::<Seq<char>>::empty());
    }
    while i < items.len()
        invariant
            i <= items.len(),
            iv == jv_seq(items@),
            iv.len() == items.len(),
            out@.map_values(|n: String| n@) == if elements {
                element_predicates(iv.subrange(0, i as int))
            } else {
                listed_predicates(iv.subrange(0, i as int))
            },
        decreases items.len() - i,
    {
        proof {
            lemma_jv_seq_index(items@, i as int);
            assert(iv.subrange(0, i + 1).drop_last() =~= iv.subrange(0, i as int));
        }
        let name = if elements {
            element_predicate_exec(&items[i])
        } else {
            listed_predicate_exec(&items[i])
        };
        match name {
            Some(n) => {
                let ghost before = out@;
                out.push(n);
                assert(out@.map_values(|n: String| n@) =~= before.map_values(|n: String| n@).push(out@.last()@));
            },
            None => {},
        }
        i = i + 1;
    }
    assert(iv.subrange(0, i as int) =~= iv);
    out
}

fn no_names() -> (r: Vec<String>)
    ensures
        r@.map_values(|n: String| n@) == Seq::<Seq<char>>::empty(),
{
    let r: Vec<String> = Vec::new();
    assert(r@.map_values(|n: String| n@) =~= Seq::<Seq<char>>::empty());
    r
}

fn iteration_predicates_exec(v: &Json) -> (r: Vec<String>)
    ensures
        r@.map_values(|n: String| n@) == iteration_predicates(v@),
{
    match v.get("literal") {
        Some(lit) => listed_in_exec(lit),
        None => listed_in_exec(v),
    }
}

fn listed_in_exec(v: &Json) -> (r: Vec<String>)
    ensures
        r@.map_values(|n: String| n@) == listed_in(v@),
{
    match v {
        Json::Array(a) => listed_predicates_exec(a, false),
        Json::Object(_) => match v.get("predicate_name") {
            Some(pn) => {
                let mut r: Vec<String> = Vec::new();
                r.push(lit_text(pn.as_str()));
                assert(r@.map_values(|n: String| n@) =~= seq![jstr(pn@)]);
                r
            },
            None => match v.get("the_list") {
                Some(l) => match l.get("element") {
                    Some(es) => match es.items() {
                        Some(items) => listed_predicates_exec(items, true),
                        None => {
                            let r = no_names();
                            assert(jitems(es@) =~= Seq::<JVal>::empty());
                            r
                        },
                    },
                    None => no_names(),
                },
                None => no_names(),
            },
        },
        _ => no_names(),
    }
}

fn iteration_repetitions_exec(v: &Json) -> (r: i64)
    ensures
        r == iteration_repetitions(v@),
{
    match v.get("literal") {
        Some(lit) => match lit.get("the_number") {
            Some(n) => number_in_exec(n),
            None => 10,
        },
        None => number_in_exec(v),
    }
}

fn number_in_exec(v: &Json) -> (r: i64)
    ensures
        r == number_in(v@),
{
    if v.is_int() {
        v.as_int()
    } else if v.is_object() {
        match v.get("number") {
            Some(n) => match parse_int_exec(n.as_str()) {
                Some(x) => x,
                None => 10,
            },
            None => 10,
        }
    } else {
        10
    }
}

/// The characters of `s` from position `start` on.
fn text_from(s: &str, start: usize) -> (r: String)
    requires
        start <= s@.len(),
    ensures
        r@ == s@.subrange(start as int, s@.len() as int),
{
    let c = chars_of(s);
    let mut out: Vec<char> = Vec::new();
    let mut i: usize = start;
    while i < c.len()
        invariant
            c@ == s@,
            start <= i <= c.len(),
            out@ == s@.subrange(start as int, i as int),
        decreases c.len() - i,
    {
        out.push(c[i]);
        i = i + 1;
        assert(out@ =~= s@.subrange(start as int, i as int));
    }
    crate::text::string_of(&out)
}

impl Annotations {
    /// The iterations `@Iteration` defines, in order; an iteration without
    /// predicates or repetitions is an error naming it.
    pub fn iterations(&self) -> (r: CompileResult<Vec<(String, IterationDef)>>)
        ensures
            match iterations_of(self.annotations@) {
                Ok(its) => r matches Ok(v) && v@.map_values(|e: (String, IterationDef)| (e.0@, e.1.model())) == its,
                Err(err) => r matches Err(e) && e.message@ == err.0 && e.rule_text@ == err.1,
            },
    {
        let ghost per = self.annotations@;
        let entries = &self.annotations.entries;
        let mut result: Vec<(String, IterationDef)> = Vec::new();
        let mut i: usize = 0;
        proof {
            lemma_jv_entries_len(entries@);
            assert(per.subrange(0, 0) =~= Seq::<(Seq<char>, JVal)>::empty());
            assert(result@.map_values(|e: (String, IterationDef)| (e.0@, e.1.model())) =~= Seq::<(Seq<char>, IterationV)>::empty());
            reveal_strlit("@Iteration_");
        }
        while i < entries.len()
            invariant
                i <= entries.len(),
                per == self.annotations@,
                per == jv_entries(entries@),
                per.len() == entries.len(),
                "@Iteration_"@.len() == 11,
                iterations_of(per.subrange(0, i as int)) == Ok::<Seq<(Seq<char>, IterationV)>, (Seq<char>, Seq<char>)>(
                    result@.map_values(|e: (String, IterationDef)| (e.0@, e.1.model())),
                ),
            decreases entries.len() - i,
        {
            proof {
                lemma_jv_entries_index(entries@, i as int);
                assert(per.subrange(0, i + 1).drop_last() =~= per.subrange(0, i as int));
                assert(per.subrange(0, i + 1).last() == per[i as int]);
            }
            let key = entries[i].0.as_str();
            let annot = &entries[i].1;
            if crate::text::starts_with_str(key, "@Iteration_") {
                let name = text_from(key, 11);
                let preds_json = match annot.get("predicates") {
                    Some(p) => p,
                    None => {
                        proof {
                            lemma_iterations_err(per, i as int + 1);
                        }
                        return Err(CompileError::new("Iteration must specify list of predicates.", name.as_str()));
                    },
                };
                let rep_json = match annot.get("repetitions") {
                    Some(p) => p,
                    None => {
                        proof {
                            lemma_iterations_err(per, i as int + 1);
                        }
                        return Err(CompileError::new("Iteration must specify number of repetitions.", name.as_str()));
                    },
                };
                let predicates = iteration_predicates_exec(preds_json);
                let repetitions = iteration_repetitions_exec(rep_json);
                let stop_signal = match annot.get("stop_signal") {
                    Some(ss) => listed_predicate_exec(ss),
                    None => None,
                };
                let ghost before = result@;
                result.push((name, IterationDef { predicates, repetitions, stop_signal }));
                assert(result@.map_values(|e: (String, IterationDef)| (e.0@, e.1.model())) =~=
                    before.map_values(|e: (String, IterationDef)| (e.0@, e.1.model())).push((result@.last().0@, result@.last().1.model())));
            }
            i = i + 1;
        }
        assert(per.subrange(0, i as int) =~= per);
        Ok(result)
    }
}

/// Once the iterations of a prefix give an error, so do those of the whole.
proof fn lemma_iterations_err(per: Seq<(Seq<char>, JVal)>, i: int)
    requires
        0 <= i <= per.len(),
        iterations_of(per.subrange(0, i)) is Err,
    ensures
        iterations_of(per) == iterations_of(per.subrange(0, i)),
    decreases per.len() - i,
{
    if i < per.len() {
        assert(per.subrange(0, i + 1).drop_last() =~= per.subrange(0, i));
        lemma_iterations_err(per, i + 1);
    } else {
        assert(per.subrange(0, i) =~= per);
    }
}


proof fn lemma_first_pass_accepts(rules: Seq<JVal>)
    requires
        forall|j: int| 0 <= j < rules.len() ==> !is_refused(#[trigger] rules[j]),
    ensures
        first_pass(rules) is Ok,
    decreases rules.len(),
{
    if rules.len() > 0 {
        assert forall|j: int| 0 <= j < rules.drop_last().len() implies !is_refused(#[trigger] rules.drop_last()[j]) by {
            assert(rules.drop_last()[j] == rules[j]);
        }
        lemma_first_pass_accepts(rules.drop_last());
        assert(!is_refused(rules[rules.len() - 1]));
    }
}

/// The annotations of rules are refused exactly when a rule uses a special
/// predicate that does not exist; the error is about the first such rule.
pub proof fn law_first_refused_rule_is_reported(rules: Seq<JVal>)
    ensures
        first_pass(rules) is Err <==> exists|i: int| 0 <= i < rules.len() && is_refused(#[trigger] rules[i]),
        forall|i: int| #![trigger rules[i]] 0 <= i < rules.len() && is_refused(rules[i])
            && (forall|j: int| 0 <= j < i ==> !is_refused(#[trigger] rules[j])) ==> first_pass(rules) == Err::<FirstPass, JVal>(rules[i]),
{
    assert forall|i: int| #![trigger rules[i]] 0 <= i < rules.len() && is_refused(rules[i])
        && (forall|j: int| 0 <= j < i ==> !is_refused(#[trigger] rules[j])) implies first_pass(rules) == Err::<FirstPass, JVal>(rules[i]) by {
        let pre = rules.take(i);
        assert forall|j: int| 0 <= j < pre.len() implies !is_refused(#[trigger] pre[j]) by {
            assert(pre[j] == rules[j]);
        }
        lemma_first_pass_accepts(pre);
        assert(rules.take(i + 1).drop_last() =~= pre);
        assert(rules.take(i + 1).last() == rules[i]);
        lemma_first_pass_refused(rules, i + 1);
    }
    if exists|i: int| 0 <= i < rules.len() && is_refused(#[trigger] rules[i]) {
        let k = lemma_first_refused(rules);
        assert(first_pass(rules) == Err::<FirstPass, JVal>(rules[k]));
    } else {
        lemma_first_pass_accepts(rules);
    }
}

proof fn lemma_first_refused(rules: Seq<JVal>) -> (k: int)
    requires
        exists|i: int| 0 <= i < rules.len() && is_refused(#[trigger] rules[i]),
    ensures
        0 <= k < rules.len(),
        is_refused(rules[k]),
        forall|j: int| 0 <= j < k ==> !is_refused(#[trigger] rules[j]),
    decreases rules.len(),
{
    let s = rules.drop_last();
    if exists|i: int| 0 <= i < s.len() && is_refused(#[trigger] s[i]) {
        let k = lemma_first_refused(s);
        assert(rules[k] == s[k]);
        assert forall|j: int| 0 <= j < k implies !is_refused(#[trigger] rules[j]) by {
            assert(rules[j] == s[j]);
        }
        k
    } else {
        let i = choose|i: int| 0 <= i < rules.len() && is_refused(#[trigger] rules[i]);
        if i < rules.len() - 1 {
            assert(s[i] == rules[i]);
        }
        assert forall|j: int| 0 <= j < rules.len() - 1 implies !is_refused(#[trigger] rules[j]) by {
            assert(s[j] == rules[j]);
        }
        rules.len() - 1
    }
}


// ---------------------------------------------------------------------------
// Laws
// ---------------------------------------------------------------------------

/// Each database the rules attach is attached once: `@AttachDatabase` binds a
/// name, and a later one for the same name replaces its path.
pub proof fn law_extracted_attachments_distinct(rules: Seq<JVal>)
    ensures
        crate::strmap::keys_distinct(second_pass(rules).attached),
    decreases rules.len(),
{
    if rules.len() > 0 {
        law_extracted_attachments_distinct(rules.drop_last());
        let p = second_pass(rules.drop_last());
        let rule = rules.last();
        if is_annotation(rule) && rule_name(rule) == "@AttachDatabase"@ {
            let fvs = field_values(jfield(rule, "head"@));
            match (predicate_name_from_field(fvs, "0"@), string_from_field(fvs, "1"@)) {
                (Some(t), Some(path)) => crate::strmap::law_insert_keeps_keys_distinct(p.attached, t, path),
                _ => {},
            }
        }
    }
}

impl Annotations {
    /// The databases to attach repeat no name, when the user's do not: the
    /// test schema is added only when the user did not attach it.
    pub proof fn law_attached_databases_distinct(&self)
        requires
            crate::strmap::keys_distinct(self.user_attached_databases@),
        ensures
            crate::strmap::keys_distinct(self.attached_list()),
    {
        let u = self.user_attached_databases@;
        if self.attached_list() != u {
            crate::strmap::lemma_sm_index(u, test_schema_name());
            let l = self.attached_list();
            assert forall|i: int, j: int| 0 <= i < j < l.len() implies l[i].0 != l[j].0 by {
                if j == u.len() {
                    assert(u[i].0 != test_schema_name());
                } else {
                    assert(l[i] == u[i] && l[j] == u[j]);
                }
            }
        }
    }

    /// The attach statements are empty exactly when no database is attached.
    pub proof fn law_statements_empty_iff_none(&self)
        ensures
            (self.statements_text().len() == 0) <==> (self.attached_list().len() == 0),
    {
        let dbs = self.attached_list();
        let lines = attach_lines(dbs, self.engine@ == "duckdb"@);
        if dbs.len() > 0 {
            lemma_attach_lines_last(dbs, self.engine@ == "duckdb"@);
            lemma_join_nonempty(lines, "\n"@);
        }
    }

    /// The preamble starts with the attach statements (and a blank line when
    /// there are some); it is just that for engines other than PostgreSQL and
    /// DuckDB; PostgreSQL's creates the home schema; DuckDB's creates the
    /// eternal sequence unless MotherDuck is used.
    pub proof fn law_preamble(&self)
        ensures
            ({
                let attach = self.statements_text();
                let start = if attach.len() > 0 { attach + "\n\n"@ } else { Seq::<char>::empty() };
                &&& crate::text::has_prefix(self.preamble_text(), start)
                &&& (self.engine@ != "psql"@ && self.engine@ != "duckdb"@ ==> self.preamble_text() == start)
                &&& (self.engine@ == "psql"@ ==> crate::text::contains_seq(self.preamble_text(), "create schema if not exists logica_home"@))
                &&& (self.engine@ == "duckdb"@ && !self.motherduck() ==> crate::text::contains_seq(self.preamble_text(), "create sequence if not exists eternal_logical_sequence;"@))
            }),
    {
        let attach = self.statements_text();
        let start = if attach.len() > 0 { attach + "\n\n"@ } else { Seq::<char>::empty() };
        let t = self.preamble_text();
        assert(t.subrange(0, start.len() as int) =~= start);
        if self.engine@ == "psql"@ {
            reveal_strlit("-- Initializing PostgreSQL environment.\nset client_min_messages to warning;\ncreate schema if not exists ");
            reveal_strlit("logica_home");
            reveal_strlit("create schema if not exists logica_home");
            let lit = "-- Initializing PostgreSQL environment.\nset client_min_messages to warning;\ncreate schema if not exists "@;
            let pre = start + lit.subrange(0, lit.len() - 28);
            let pat = "create schema if not exists logica_home"@;
            assert(t.subrange(pre.len() as int, (pre.len() + pat.len()) as int) =~= pat);
            assert(crate::text::occurs_at(t, pat, pre.len() as int));
        }
        if self.engine@ == "duckdb"@ && !self.motherduck() {
            let home = home_schema_name();
            let home_line = if sm_get(self.user_attached_databases@, home) is Some {
                "-- "@ + home + " attached by user.\n"@
            } else {
                "create schema if not exists "@ + home + ";\n"@
            };
            let pre = start + "-- Initializing DuckDB environment.\n"@ + home_line
                + "-- Empty record, has to have a field by DuckDB syntax.\ndrop type if exists logicarecord893574736 cascade; create type logicarecord893574736 as struct(nirvana numeric);\n"@;
            let pat = "create sequence if not exists eternal_logical_sequence;"@;
            reveal_strlit("create sequence if not exists eternal_logical_sequence;");
            reveal_strlit("create sequence if not exists eternal_logical_sequence;\n\n");
            reveal_strlit("duckdb");
            reveal_strlit("psql");
            assert("duckdb"@.len() != "psql"@.len());
            let seq_lit = "create sequence if not exists eternal_logical_sequence;\n\n"@;
            assert(seq_lit.subrange(0, pat.len() as int) =~= pat);
            let rest = seq_lit + threads_line(self.engine_options@);
            assert(t =~= pre + rest);
            assert(rest.subrange(0, pat.len() as int) =~= pat);
            assert(t.subrange(pre.len() as int, (pre.len() + pat.len()) as int) =~= rest.subrange(0, pat.len() as int));
            assert(crate::text::occurs_at(t, pat, pre.len() as int));
        }
    }

    /// Setting a predicate's WITH clause forces it only when it is also used.
    pub proof fn law_force_with_implies_use_with(&self, pred: Seq<char>)
        ensures
            self.force_with_spec(pred) ==> bool_member(annotation_of(self.annotations@, pred, "with"@), true, true),
    {
    }
}

proof fn lemma_attach_lines_last(dbs: Seq<(Seq<char>, Seq<char>)>, duck: bool)
    requires
        dbs.len() > 0,
    ensures
        attach_lines(dbs, duck).len() > 0,
        attach_lines(dbs, duck).last().len() > 0,
{
    reveal_strlit("ATTACH DATABASE '");
}

proof fn lemma_join_nonempty(parts: Seq<Seq<char>>, sep: Seq<char>)
    requires
        parts.len() > 0,
        parts.last().len() > 0,
    ensures
        join(parts, sep).len() > 0,
{
}

/// Whether the last `@With` or `@NoWith` of predicate `p` among the rules is
/// `@With`; `None` when there is none.
pub open spec fn last_with(rules: Seq<JVal>, p: Seq<char>) -> Option<bool>
    decreases rules.len(),
{
    if rules.len() == 0 {
        None
    } else {
        let rule = rules.last();
        let target = predicate_name_from_field(field_values(jfield(rule, "head"@)), "0"@);
        if is_annotation(rule) && rule_name(rule) == "@With"@ && target == Some(p) {
            Some(true)
        } else if is_annotation(rule) && rule_name(rule) == "@NoWith"@ && target == Some(p) {
            Some(false)
        } else {
            last_with(rules.drop_last(), p)
        }
    }
}

proof fn lemma_set_member_other(per: Seq<(Seq<char>, JVal)>, t: Seq<char>, key: Seq<char>, val: JVal, p: Seq<char>)
    requires
        t != p || key != "with"@,
    ensures
        annotation_of(set_member(per, t, key, val), p, "with"@) == annotation_of(per, p, "with"@),
{
    crate::json::lemma_entries_insert_get(per, t, JVal::Object(entries_insert(members_of(per, t), key, val)), p);
    if t == p {
        crate::json::lemma_entries_insert_get(members_of(per, t), key, val, "with"@);
    }
}

/// A predicate's WITH setting is that of the last `@With` or `@NoWith` naming
/// it: forced by `@With`, refused by `@NoWith`, absent without either. Names
/// under which `@Iteration` records its arguments (`@Iteration_<name>`) are
/// left out: a named argument `with` of `@Iteration` sets them too.
pub proof fn law_with_follows_last_annotation(rules: Seq<JVal>, p: Seq<char>)
    requires
        !crate::text::has_prefix(p, "@Iteration_"@),
    ensures
        annotation_of(second_pass(rules).per, p, "with"@) == match last_with(rules, p) {
            Some(b) => Some(JVal::Bool(b)),
            None => None::<JVal>,
        },
    decreases rules.len(),
{
    reveal_strlit("with");
    reveal_strlit("order_by");
    reveal_strlit("limit");
    reveal_strlit("no_inject");
    reveal_strlit("ground");
    reveal_strlit("ground_overwrite");
    reveal_strlit("ground_copy_to_file");
    reveal_strlit("@Iteration_");
    assert("order_by"@.len() == 8 && "with"@.len() == 4 && "limit"@.len() == 5 && "no_inject"@.len() == 9);
    assert("ground"@.len() == 6 && "ground_overwrite"@.len() == 16 && "ground_copy_to_file"@.len() == 19);
    reveal_strlit("@OrderBy");
    reveal_strlit("@Limit");
    reveal_strlit("@Ground");
    reveal_strlit("@With");
    reveal_strlit("@NoWith");
    reveal_strlit("@NoInject");
    reveal_strlit("@Dataset");
    reveal_strlit("@AttachDatabase");
    reveal_strlit("@CompileAsUdf");
    reveal_strlit("@CompileAsTvf");
    reveal_strlit("@BareAggregation");
    reveal_strlit("@Iteration");
    assert("@OrderBy"@.len() == 8 && "@Limit"@.len() == 6 && "@Ground"@.len() == 7 && "@With"@.len() == 5 && "@NoWith"@.len() == 7 && "@NoInject"@.len() == 9 && "@Dataset"@.len() == 8 && "@AttachDatabase"@.len() == 15 && "@CompileAsUdf"@.len() == 13 && "@CompileAsTvf"@.len() == 13 && "@BareAggregation"@.len() == 16 && "@Iteration"@.len() == 10);
    assert("@With"@[1] == 'W' && "@NoWith"@[1] == 'N' && "@Ground"@[1] == 'G' && "@Limit"@[1] == 'L' && "@NoInject"@[1] == 'N' && "@Dataset"@[1] == 'D' && "@NoInject"@[3] == 'I' && "@NoWith"@[3] == 'W');
    if rules.len() > 0 {
        law_with_follows_last_annotation(rules.drop_last(), p);
        let s0 = second_pass(rules.drop_last());
        let per = s0.per;
        let rule = rules.last();
        let name = rule_name(rule);
        let fvs = field_values(jfield(rule, "head"@));
        let target = predicate_name_from_field(fvs, "0"@);
        if is_annotation(rule) {
            match target {
                Some(t) => {
                    if name == "@OrderBy"@ {
                        lemma_set_member_other(per, t, "order_by"@, JVal::Array(other_args(fvs)), p);
                    } else if name == "@Limit"@ {
                        match entries_get(fvs, "1"@) {
                            Some(l) => lemma_set_member_other(per, t, "limit"@, l, p),
                            None => {},
                        }
                    } else if name == "@Ground"@ {
                        let gm = ground_members(members_of(per, t), t, fvs);
                        crate::json::lemma_entries_insert_get(per, t, JVal::Object(gm), p);
                        if t == p {
                            let table = match entries_get(fvs, "1"@) {
                                Some(tv) => match predicate_name(tv) {
                                    Some(n) => n,
                                    None => t,
                                },
                                None => t,
                            };
                            let a = entries_insert(members_of(per, t), "ground"@, JVal::Str(table));
                            crate::json::lemma_entries_insert_get(members_of(per, t), "ground"@, JVal::Str(table), "with"@);
                            let b = match entries_get(fvs, "overwrite"@) {
                                Some(ow) => entries_insert(a, "ground_overwrite"@, ow),
                                None => a,
                            };
                            match entries_get(fvs, "overwrite"@) {
                                Some(ow) => crate::json::lemma_entries_insert_get(a, "ground_overwrite"@, ow, "with"@),
                                None => {},
                            }
                            match entries_get(fvs, "copy_to_file"@) {
                                Some(cf) => crate::json::lemma_entries_insert_get(b, "ground_copy_to_file"@, cf, "with"@),
                                None => {},
                            }
                        }
                    } else if name == "@With"@ {
                        if t != p {
                            lemma_set_member_other(per, t, "with"@, JVal::Bool(true), p);
                        } else {
                            crate::json::lemma_entries_insert_get(per, t, JVal::Object(entries_insert(members_of(per, t), "with"@, JVal::Bool(true))), p);
                            crate::json::lemma_entries_insert_get(members_of(per, t), "with"@, JVal::Bool(true), "with"@);
                        }
                    } else if name == "@NoWith"@ {
                        if t != p {
                            lemma_set_member_other(per, t, "with"@, JVal::Bool(false), p);
                        } else {
                            crate::json::lemma_entries_insert_get(per, t, JVal::Object(entries_insert(members_of(per, t), "with"@, JVal::Bool(false))), p);
                            crate::json::lemma_entries_insert_get(members_of(per, t), "with"@, JVal::Bool(false), "with"@);
                        }
                    } else if name == "@NoInject"@ {
                        lemma_set_member_other(per, t, "no_inject"@, JVal::Bool(true), p);
                    } else if name == "@Iteration"@ {
                        let k = iteration_key(t);
                        if k == p {
                            assert(k.subrange(0, "@Iteration_"@.len() as int) =~= "@Iteration_"@);
                            assert(crate::text::has_prefix(p, "@Iteration_"@));
                        }
                        assert(k != p);
                        crate::json::lemma_entries_insert_get(per, k, JVal::Object(insert_named(members_of(per, k), fvs)), p);
                    }
                },
                None => {},
            }
        }
    }
}

/// Whether some `@NoInject` among the rules names `p`.
pub open spec fn no_injected(rules: Seq<JVal>, p: Seq<char>) -> bool
    decreases rules.len(),
{
    if rules.len() == 0 {
        false
    } else {
        let rule = rules.last();
        let target = predicate_name_from_field(field_values(jfield(rule, "head"@)), "0"@);
        (is_annotation(rule) && rule_name(rule) == "@NoInject"@ && target == Some(p)) || no_injected(rules.drop_last(), p)
    }
}

proof fn lemma_set_member_key(per: Seq<(Seq<char>, JVal)>, t: Seq<char>, key: Seq<char>, val: JVal, p: Seq<char>, k2: Seq<char>)
    requires
        t != p || key != k2,
    ensures
        annotation_of(set_member(per, t, key, val), p, k2) == annotation_of(per, p, k2),
{
    crate::json::lemma_entries_insert_get(per, t, JVal::Object(entries_insert(members_of(per, t), key, val)), p);
    if t == p {
        crate::json::lemma_entries_insert_get(members_of(per, t), key, val, k2);
    }
}

/// A predicate is kept from injection exactly when an `@NoInject` names it.
/// Names under which `@Iteration` records its arguments (`@Iteration_<name>`)
/// are left out: a named argument `no_inject` of `@Iteration` sets them too.
pub proof fn law_no_inject_follows_annotations(rules: Seq<JVal>, p: Seq<char>)
    requires
        !crate::text::has_prefix(p, "@Iteration_"@),
    ensures
        annotation_of(second_pass(rules).per, p, "no_inject"@) == if no_injected(rules, p) { Some(JVal::Bool(true)) } else { None::<JVal> },
    decreases rules.len(),
{
    reveal_strlit("with");
    reveal_strlit("order_by");
    reveal_strlit("limit");
    reveal_strlit("no_inject");
    reveal_strlit("ground");
    reveal_strlit("ground_overwrite");
    reveal_strlit("ground_copy_to_file");
    reveal_strlit("@Iteration_");
    assert("order_by"@.len() == 8 && "with"@.len() == 4 && "limit"@.len() == 5 && "no_inject"@.len() == 9);
    assert("ground"@.len() == 6 && "ground_overwrite"@.len() == 16 && "ground_copy_to_file"@.len() == 19);
    reveal_strlit("@OrderBy");
    reveal_strlit("@Limit");
    reveal_strlit("@Ground");
    reveal_strlit("@With");
    reveal_strlit("@NoWith");
    reveal_strlit("@NoInject");
    reveal_strlit("@Dataset");
    reveal_strlit("@AttachDatabase");
    reveal_strlit("@CompileAsUdf");
    reveal_strlit("@CompileAsTvf");
    reveal_strlit("@BareAggregation");
    reveal_strlit("@Iteration");
    assert("@OrderBy"@.len() == 8 && "@Limit"@.len() == 6 && "@Ground"@.len() == 7 && "@With"@.len() == 5 && "@NoWith"@.len() == 7 && "@NoInject"@.len() == 9 && "@Dataset"@.len() == 8 && "@AttachDatabase"@.len() == 15 && "@CompileAsUdf"@.len() == 13 && "@CompileAsTvf"@.len() == 13 && "@BareAggregation"@.len() == 16 && "@Iteration"@.len() == 10);
    assert("@With"@[1] == 'W' && "@NoWith"@[1] == 'N' && "@Ground"@[1] == 'G' && "@Limit"@[1] == 'L' && "@NoInject"@[1] == 'N' && "@Dataset"@[1] == 'D' && "@NoInject"@[3] == 'I' && "@NoWith"@[3] == 'W');
    if rules.len() > 0 {
        law_no_inject_follows_annotations(rules.drop_last(), p);
        let s0 = second_pass(rules.drop_last());
        let per = s0.per;
        let rule = rules.last();
        let name = rule_name(rule);
        let fvs = field_values(jfield(rule, "head"@));
        let target = predicate_name_from_field(fvs, "0"@);
        if is_annotation(rule) {
            match target {
                Some(t) => {
                    if name == "@OrderBy"@ {
                        lemma_set_member_key(per, t, "order_by"@, JVal::Array(other_args(fvs)), p, "no_inject"@);
                    } else if name == "@Limit"@ {
                        match entries_get(fvs, "1"@) {
                            Some(l) => lemma_set_member_key(per, t, "limit"@, l, p, "no_inject"@),
                            None => {},
                        }
                    } else if name == "@Ground"@ {
                        let gm = ground_members(members_of(per, t), t, fvs);
                        crate::json::lemma_entries_insert_get(per, t, JVal::Object(gm), p);
                        if t == p {
                            let table = match entries_get(fvs, "1"@) {
                                Some(tv) => match predicate_name(tv) {
                                    Some(n) => n,
                                    None => t,
                                },
                                None => t,
                            };
                            let a = entries_insert(members_of(per, t), "ground"@, JVal::Str(table));
                            crate::json::lemma_entries_insert_get(members_of(per, t), "ground"@, JVal::Str(table), "no_inject"@);
                            let b = match entries_get(fvs, "overwrite"@) {
                                Some(ow) => entries_insert(a, "ground_overwrite"@, ow),
                                None => a,
                            };
                            match entries_get(fvs, "overwrite"@) {
                                Some(ow) => crate::json::lemma_entries_insert_get(a, "ground_overwrite"@, ow, "no_inject"@),
                                None => {},
                            }
                            match entries_get(fvs, "copy_to_file"@) {
                                Some(cf) => crate::json::lemma_entries_insert_get(b, "ground_copy_to_file"@, cf, "no_inject"@),
                                None => {},
                            }
                        }
                    } else if name == "@With"@ {
                        lemma_set_member_key(per, t, "with"@, JVal::Bool(true), p, "no_inject"@);
                    } else if name == "@NoWith"@ {
                        lemma_set_member_key(per, t, "with"@, JVal::Bool(false), p, "no_inject"@);
                    } else if name == "@NoInject"@ {
                        if t != p {
                            lemma_set_member_key(per, t, "no_inject"@, JVal::Bool(true), p, "no_inject"@);
                        } else {
                            crate::json::lemma_entries_insert_get(per, t, JVal::Object(entries_insert(members_of(per, t), "no_inject"@, JVal::Bool(true))), p);
                            crate::json::lemma_entries_insert_get(members_of(per, t), "no_inject"@, JVal::Bool(true), "no_inject"@);
                        }
                    } else if name == "@Iteration"@ {
                        let k = iteration_key(t);
                        if k == p {
                            assert(k.subrange(0, "@Iteration_"@.len() as int) =~= "@Iteration_"@);
                            assert(crate::text::has_prefix(p, "@Iteration_"@));
                        }
                        assert(k != p);
                        crate::json::lemma_entries_insert_get(per, k, JVal::Object(insert_named(members_of(per, k), fvs)), p);
                    }
                },
                None => {},
            }
        }
    }
}


impl Annotations {
    /// With the annotations read from `rules`: WITH is forced for `p` exactly
    /// when the last `@With` or `@NoWith` naming it is `@With`, and used
    /// unless that is `@NoWith` (see [`law_with_follows_last_annotation`]).
    pub proof fn law_with_of_rules(&self, rules: Seq<JVal>, p: Seq<char>)
        requires
            self.annotations@ == second_pass(rules).per,
            !crate::text::has_prefix(p, "@Iteration_"@),
        ensures
            self.force_with_spec(p) <==> last_with(rules, p) == Some(true),
            bool_member(annotation_of(self.annotations@, p, "with"@), true, true) <==> last_with(rules, p) != Some(false),
    {
        law_with_follows_last_annotation(rules, p);
    }

    /// With the annotations read from `rules`: `p` is kept from injection
    /// exactly when an `@NoInject` names it.
    pub proof fn law_no_inject_of_rules(&self, rules: Seq<JVal>, p: Seq<char>)
        requires
            self.annotations@ == second_pass(rules).per,
            !crate::text::has_prefix(p, "@Iteration_"@),
        ensures
            self.no_inject_spec(p) <==> no_injected(rules, p),
    {
        law_no_inject_follows_annotations(rules, p);
    }
}


/// The line attaching database `k` at path `v`.
pub open spec fn attach_line(k: Seq<char>, v: Seq<char>, duck: bool) -> Seq<char> {
    "ATTACH DATABASE '"@ + v + "' AS "@ + k + (if duck && has_suffix(v, ".sqlite"@) { " (TYPE SQLITE)"@ } else { Seq::<char>::empty() }) + ";"@
}

/// The attach statements hold, for each database in order, one line: on
/// DuckDB a line detaching it comes first, and a path ending in `.sqlite` is
/// attached as SQLite; the statements are these lines joined by new lines.
pub proof fn law_attach_lines_per_database(dbs: Seq<(Seq<char>, Seq<char>)>, duck: bool)
    ensures
        attach_lines(dbs, duck).len() == if duck { 2 * dbs.len() } else { dbs.len() },
        forall|i: int| 0 <= i < dbs.len() ==> if duck {
            &&& attach_lines(dbs, duck)[2 * i] == "DETACH DATABASE IF EXISTS "@ + (#[trigger] dbs[i]).0 + ";"@
            &&& attach_lines(dbs, duck)[2 * i + 1] == attach_line(dbs[i].0, dbs[i].1, duck)
        } else {
            attach_lines(dbs, duck)[i] == attach_line((#[trigger] dbs[i]).0, dbs[i].1, duck)
        },
    decreases dbs.len(),
{
    if dbs.len() > 0 {
        let prev = dbs.drop_last();
        law_attach_lines_per_database(prev, duck);
        let l = attach_lines(dbs, duck);
        let lp = attach_lines(prev, duck);
        assert forall|i: int| 0 <= i < dbs.len() implies if duck {
            &&& attach_lines(dbs, duck)[2 * i] == "DETACH DATABASE IF EXISTS "@ + (#[trigger] dbs[i]).0 + ";"@
            &&& attach_lines(dbs, duck)[2 * i + 1] == attach_line(dbs[i].0, dbs[i].1, duck)
        } else {
            attach_lines(dbs, duck)[i] == attach_line((#[trigger] dbs[i]).0, dbs[i].1, duck)
        } by {
            if i < prev.len() {
                assert(dbs[i] == prev[i]);
                if duck {
                    assert(l[2 * i] == lp[2 * i]);
                    assert(l[2 * i + 1] == lp[2 * i + 1]);
                } else {
                    assert(l[i] == lp[i]);
                }
            }
        }
    }
}

impl Annotations {
    /// The attach statements are the lines of
    /// [`law_attach_lines_per_database`] for the databases to attach, joined
    /// by new lines.
    pub proof fn law_statements_by_database(&self)
        ensures
            self.statements_text() == join(attach_lines(self.attached_list(), self.engine@ == "duckdb"@), "\n"@),
            attach_lines(self.attached_list(), self.engine@ == "duckdb"@).len()
                == if self.engine@ == "duckdb"@ { 2 * self.attached_list().len() } else { self.attached_list().len() },
    {
        law_attach_lines_per_database(self.attached_list(), self.engine@ == "duckdb"@);
    }
}
} // verus!
