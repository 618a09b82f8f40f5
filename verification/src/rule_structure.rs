//! The structure of a rule ready for SQL generation: the tables it reads,
//! the columns it selects, its conditions, and how it groups.

use vstd::prelude::*;
use crate::{CompileError, CompileResult};
use crate::json::{Json, JVal, jv_seq, jget, jfield, jstr, group_json_view, lemma_jv_seq_index, lemma_jv_seq_len};
use crate::strmap::{StrMap, names_view, sm_get, sm_insert, kv_get};
use crate::text::{join, join_strings, concat2, concat3, has_suffix, has_prefix, replace_all, int_text, chars_of, string_of};
use crate::dialects::{Dialect, Engine, GroupBySpec, subscript_text, unnest_text, group_by_of};
use crate::expr_translate::{ExprTranslator, SubqueryTranslator, sql_field_name, logica_field_to_sql_field, res_is};
use crate::rule_translate::NamesAllocator;

verus! {

/// A rule taken apart for SQL generation.
pub struct RuleStructure {
    pub this_predicate_name: String,
    /// Each table alias with the predicate it reads, in order.
    pub tables: StrMap,
    /// Each variable with the table alias and field it is read from.
    pub inv_vars_map: Vec<(String, (String, String))>,
    pub vars_unification: Vec<(Json, Json)>,
    /// Conditions: they make the WHERE clause.
    pub constraints: Vec<Json>,
    /// Output columns with their expressions, in order.
    pub select: Vec<(String, Json)>,
    /// Each element alias with the list it ranges over.
    pub unnestings: Vec<(String, Json)>,
    /// Fields to group by.
    pub distinct_vars: Vec<String>,
    pub allocator: NamesAllocator,
    pub full_rule_text: String,
    pub distinct_denoted: bool,
    pub aggregated_fields: Vec<String>,
    /// Variables of an enclosing rule, with their SQL.
    pub external_vocabulary: Option<StrMap>,
    /// Spread variables with the fields they leave out: variable, table alias, fields.
    pub except_info: Vec<(String, (String, Vec<String>))>,
}

/// A rule structure as plain values.
pub struct RuleStructureV {
    pub full_rule_text: Seq<char>,
    pub tables: Seq<(Seq<char>, Seq<char>)>,
    pub inv_vars: Seq<(Seq<char>, (Seq<char>, Seq<char>))>,
    pub constraints: Seq<JVal>,
    pub select: Seq<(Seq<char>, JVal)>,
    pub unnestings: Seq<(Seq<char>, JVal)>,
    pub distinct_vars: Seq<Seq<char>>,
    pub distinct_denoted: bool,
    pub external_vocabulary: Option<Seq<(Seq<char>, Seq<char>)>>,
    pub except_info: Seq<(Seq<char>, (Seq<char>, Seq<Seq<char>>))>,
}

pub open spec fn named_view(v: Seq<(String, Json)>) -> Seq<(Seq<char>, JVal)> {
    v.map_values(|e: (String, Json)| (e.0@, e.1@))
}

pub open spec fn inv_view(v: Seq<(String, (String, String))>) -> Seq<(Seq<char>, (Seq<char>, Seq<char>))> {
    v.map_values(|e: (String, (String, String))| (e.0@, (e.1.0@, e.1.1@)))
}

pub open spec fn except_view(v: Seq<(String, (String, Vec<String>))>) -> Seq<(Seq<char>, (Seq<char>, Seq<Seq<char>>))> {
    v.map_values(|e: (String, (String, Vec<String>))| (e.0@, (e.1.0@, names_view(e.1.1@))))
}

impl View for RuleStructure {
    type V = RuleStructureV;

    open spec fn view(&self) -> RuleStructureV {
        RuleStructureV {
            full_rule_text: self.full_rule_text@,
            tables: self.tables@,
            inv_vars: inv_view(self.inv_vars_map@),
            constraints: jv_seq(self.constraints@),
            select: named_view(self.select@),
            unnestings: named_view(self.unnestings@),
            distinct_vars: names_view(self.distinct_vars@),
            distinct_denoted: self.distinct_denoted,
            external_vocabulary: match self.external_vocabulary {
                Some(m) => Some(m@),
                None => None,
            },
            except_info: except_view(self.except_info@),
        }
    }
}

impl RuleStructure {
    /// An empty structure.
    pub fn new() -> (r: RuleStructure)
        ensures
            r@.tables.len() == 0,
            r@.select.len() == 0,
            r@.constraints.len() == 0,
            r@.unnestings.len() == 0,
            r@.distinct_vars.len() == 0,
            r@.inv_vars.len() == 0,
            !r@.distinct_denoted,
            r@.external_vocabulary is None,
    {
        RuleStructure {
            this_predicate_name: String::new(),
            tables: StrMap::new(),
            inv_vars_map: Vec::new(),
            vars_unification: Vec::new(),
            constraints: Vec::new(),
            select: Vec::new(),
            unnestings: Vec::new(),
            distinct_vars: Vec::new(),
            allocator: NamesAllocator::new(),
            full_rule_text: String::new(),
            distinct_denoted: false,
            aggregated_fields: Vec::new(),
            external_vocabulary: None,
            except_info: Vec::new(),
        }
    }
}

// ---------------------------------------------------------------------------
// The vocabulary of a rule
// ---------------------------------------------------------------------------

/// The SQL a variable read from `table`'s `field` stands for: the bare field
/// without a table, a spread of the table (less the fields the variable
/// leaves out, if any) for `*`, else `table.field`.
pub open spec fn vocab_entry(var: Seq<char>, table: Seq<char>, field: Seq<char>, except: Seq<(Seq<char>, (Seq<char>, Seq<Seq<char>>))>, engine: Engine) -> Seq<char> {
    if table.len() == 0 {
        sql_field_name(field)
    } else if field == "*"@ {
        match kv_get(except, var) {
            Some(ei) => "(SELECT AS STRUCT "@ + table + ".* EXCEPT ("@ + join(ei.1, ","@) + ")).*"@,
            None => subscript_text(engine, table, "*"@, true),
        }
    } else {
        table + "."@ + sql_field_name(field)
    }
}

/// `m` with the entries `es` set one after another.
pub open spec fn add_entries(m: Seq<(Seq<char>, Seq<char>)>, es: Seq<(Seq<char>, Seq<char>)>) -> Seq<(Seq<char>, Seq<char>)>
    decreases es.len(),
{
    if es.len() == 0 {
        m
    } else {
        sm_insert(add_entries(m, es.drop_last()), es.last().0, es.last().1)
    }
}

/// `m` with each variable of `inv` set to the SQL it stands for.
pub open spec fn add_vars(m: Seq<(Seq<char>, Seq<char>)>, inv: Seq<(Seq<char>, (Seq<char>, Seq<char>))>, except: Seq<(Seq<char>, (Seq<char>, Seq<Seq<char>>))>, engine: Engine) -> Seq<(Seq<char>, Seq<char>)>
    decreases inv.len(),
{
    if inv.len() == 0 {
        m
    } else {
        let e = inv.last();
        sm_insert(add_vars(m, inv.drop_last(), except, engine), e.0, vocab_entry(e.0, e.1.0, e.1.1, except, engine))
    }
}

/// The variables of a rule with their SQL: those of an enclosing rule, then
/// the rule's own.
pub open spec fn vocabulary_of(rs: RuleStructureV, engine: Engine) -> Seq<(Seq<char>, Seq<char>)> {
    let start = match rs.external_vocabulary {
        Some(e) => add_entries(seq![], e),
        None => seq![],
    };
    add_vars(start, rs.inv_vars, rs.except_info, engine)
}

fn lookup_except<'b>(v: &'b Vec<(String, (String, Vec<String>))>, k: &str) -> (r: Option<&'b Vec<String>>)
    ensures
        match r {
            Some(x) => kv_get(except_view(v@), k@) matches Some(e) && e.1 == names_view(x@),
            None => kv_get(except_view(v@), k@) is None,
        },
{
    let p = crate::strmap::key_position(v, k);
    proof {
        crate::strmap::lemma_kv_index_keys(except_view(v@), v@.map_values(|e: (String, (String, Vec<String>))| (e.0@, ())), k@);
    }
    if p < v.len() {
        Some(&v[p].1.1)
    } else {
        None
    }
}

impl RuleStructure {
    /// The variables of the rule with the SQL each stands for (see
    /// [`vocabulary_of`]).
    pub fn vars_vocabulary<D: Dialect + ?Sized>(&self, dialect: &D) -> (r: StrMap)
        ensures
            r@ == vocabulary_of(self@, dialect.kind()),
    {
        let mut vocab = StrMap::new();
        let ghost start = match self@.external_vocabulary {
            Some(e) => add_entries(seq![], e),
            None => seq![],
        };
        match &self.external_vocabulary {
            Some(ext) => {
                let ghost ev = ext@;
                let mut i: usize = 0;
                assert(ev.take(0) =~= Seq::<(Seq<char>, Seq<char>)>::empty());
                while i < ext.entries.len()
                    invariant
                        i <= ext.entries.len(),
                        ev == ext@,
                        ev.len() == ext.entries.len(),
                        vocab@ == add_entries(seq![], ev.take(i as int)),
                    decreases ext.entries.len() - i,
                {
                    proof {
                        assert(ev.take(i + 1).drop_last() =~= ev.take(i as int));
                        assert(ev.take(i + 1).last() == ev[i as int]);
                    }
                    vocab.insert(ext.entries[i].0.clone(), ext.entries[i].1.clone());
                    i = i + 1;
                }
                assert(ev.take(i as int) =~= ev);
            },
            None => {},
        }
        let ghost iv = inv_view(self.inv_vars_map@);
        let ghost ex = except_view(self.except_info@);
        let mut j: usize = 0;
        assert(iv.take(0) =~= Seq::<(Seq<char>, (Seq<char>, Seq<char>))>::empty());
        while j < self.inv_vars_map.len()
            invariant
                j <= self.inv_vars_map.len(),
                iv == inv_view(self.inv_vars_map@),
                ex == except_view(self.except_info@),
                vocab@ == add_vars(start, iv.take(j as int), ex, dialect.kind()),
            decreases self.inv_vars_map.len() - j,
        {
            proof {
                assert(iv.take(j + 1).drop_last() =~= iv.take(j as int));
                assert(iv.take(j + 1).last() == iv[j as int]);
            }
            let var = &self.inv_vars_map[j].0;
            let table = &self.inv_vars_map[j].1.0;
            let field = &self.inv_vars_map[j].1.1;
            let sql_field = logica_field_to_sql_field(field.as_str());
            let entry = if table.as_str().unicode_len() == 0 {
                proof {
                    assert(table@.len() == 0);
                }
                sql_field
            } else if crate::text::str_eq(field.as_str(), "*") {
                proof {
                    assert(table@.len() > 0) by {
                        if table@.len() == 0 {
                            assert(table@ =~= Seq::<char>::empty());
                        }
                    }
                }
                match lookup_except(&self.except_info, var.as_str()) {
                    Some(fields) => {
                        let list = join_strings(fields, ",");
                        assert(fields@.map_values(|p: String| p@) =~= names_view(fields@));
                        let head = concat3("(SELECT AS STRUCT ", table.as_str(), ".* EXCEPT (");
                        concat3(head.as_str(), list.as_str(), ")).*")
                    },
                    None => dialect.subscript(table.as_str(), "*", true),
                }
            } else {
                proof {
                    assert(table@.len() > 0) by {
                        if table@.len() == 0 {
                            assert(table@ =~= Seq::<char>::empty());
                        }
                    }
                }
                concat3(table.as_str(), ".", sql_field.as_str())
            };
            vocab.insert(var.clone(), entry);
            j = j + 1;
        }
        assert(iv.take(j as int) =~= iv);
        vocab
    }
}


// ---------------------------------------------------------------------------
// Lines of text
// ---------------------------------------------------------------------------

/// The pieces of `s` between new lines (one more than there are new lines).
pub open spec fn split_nl(s: Seq<char>) -> Seq<Seq<char>>
    decreases s.len(),
{
    if s.len() == 0 {
        seq![seq![]]
    } else {
        let r = split_nl(s.drop_last());
        if s.last() == '\n' {
            r.push(seq![])
        } else {
            r.update(r.len() - 1, r.last().push(s.last()))
        }
    }
}

proof fn lemma_split_nl_len(s: Seq<char>)
    ensures
        split_nl(s).len() > 0,
    decreases s.len(),
{
    if s.len() > 0 {
        lemma_split_nl_len(s.drop_last());
    }
}

/// A line without the carriage return that ended it.
pub open spec fn strip_cr(l: Seq<char>) -> Seq<char> {
    if l.len() > 0 && l.last() == '\r' { l.drop_last() } else { l }
}

/// The lines of `s`: the pieces between new lines, without the carriage
/// return before a new line; a last piece that is empty is no line.
pub open spec fn lines_of(s: Seq<char>) -> Seq<Seq<char>> {
    let p = split_nl(s);
    let heads = p.take(p.len() - 1).map_values(|l: Seq<char>| strip_cr(l));
    if p.last().len() == 0 { heads } else { heads.push(p.last()) }
}

/// Each line indented by two spaces.
pub open spec fn indented(ls: Seq<Seq<char>>) -> Seq<Seq<char>> {
    ls.map_values(|l: Seq<char>| "  "@ + l)
}

/// A block of text indented by two spaces, its lines as [`lines_of`] reads them.
pub open spec fn indent_block(s: Seq<char>) -> Seq<char> {
    join(indented(lines_of(s)), "\n"@)
}

/// Text indented by two spaces on every piece between new lines.
pub open spec fn indent2(s: Seq<char>) -> Seq<char> {
    join(indented(split_nl(s)), "\n"@)
}

fn split_nl_exec(s: &str) -> (r: Vec<String>)
    ensures
        names_view(r@) == split_nl(s@),
{
    let cs = chars_of(s);
    let mut parts: Vec<String> = Vec::new();
    let mut cur: Vec<char> = Vec::new();
    let mut i: usize = 0;
    assert(s@.take(0) =~= Seq::<char>::empty());
    assert(names_view(parts@).push(cur@) =~= seq![Seq::<char>::empty()]);
    while i < cs.len()
        invariant
            i <= cs.len(),
            cs@ == s@,
            names_view(parts@).push(cur@) == split_nl(s@.take(i as int)),
        decreases cs.len() - i,
    {
        let ghost prev = split_nl(s@.take(i as int));
        proof {
            assert(s@.take(i + 1).drop_last() =~= s@.take(i as int));
            assert(s@.take(i + 1).last() == cs@[i as int]);
        }
        if cs[i] == '\n' {
            let ghost pv = names_view(parts@);
            let ghost cv = cur@;
            parts.push(string_of(&cur));
            cur = Vec::new();
            proof {
                assert(names_view(parts@) =~= pv.push(cv));
                assert(names_view(parts@).push(cur@) =~= prev.push(seq![]));
            }
        } else {
            let ghost cv = cur@;
            cur.push(cs[i]);
            proof {
                assert(names_view(parts@).push(cur@) =~= prev.update(prev.len() - 1, prev.last().push(cs@[i as int])));
            }
        }
        i = i + 1;
    }
    assert(s@.take(i as int) =~= s@);
    let ghost pv = names_view(parts@);
    parts.push(string_of(&cur));
    assert(names_view(parts@) =~= pv.push(cur@));
    parts
}

fn strip_cr_exec(l: &String) -> (r: String)
    ensures
        r@ == strip_cr(l@),
{
    let cs = chars_of(l.as_str());
    if cs.len() > 0 && cs[cs.len() - 1] == '\r' {
        let mut v = cs.clone();
        v.pop();
        assert(v@ =~= l@.drop_last());
        string_of(&v)
    } else {
        l.clone()
    }
}

fn indent_all(ls: &Vec<String>) -> (r: Vec<String>)
    ensures
        names_view(r@) == indented(names_view(ls@)),
{
    let mut out: Vec<String> = Vec::new();
    let mut i: usize = 0;
    while i < ls.len()
        invariant
            i <= ls.len(),
            names_view(out@) == indented(names_view(ls@).take(i as int)),
        decreases ls.len() - i,
    {
        let ghost before = names_view(out@);
        out.push(concat2("  ", ls[i].as_str()));
        proof {
            assert(names_view(out@) =~= before.push("  "@ + names_view(ls@)[i as int]));
            assert(indented(names_view(ls@).take(i + 1)) =~= indented(names_view(ls@).take(i as int)).push("  "@ + names_view(ls@)[i as int]));
        }
        i = i + 1;
    }
    assert(names_view(ls@).take(i as int) =~= names_view(ls@));
    out
}

fn join_lines(ls: &Vec<String>) -> (r: String)
    ensures
        r@ == join(names_view(ls@), "\n"@),
{
    let r = join_strings(ls, "\n");
    assert(ls@.map_values(|p: String| p@) =~= names_view(ls@));
    r
}

/// [`indent_block`] of `s`.
pub fn indent_block_exec(s: &str) -> (r: String)
    ensures
        r@ == indent_block(s@),
{
    let parts = split_nl_exec(s);
    let ghost p = split_nl(s@);
    proof {
        lemma_split_nl_len(s@);
    }
    let n = parts.len();
    let mut ls: Vec<String> = Vec::new();
    let mut i: usize = 0;
    while i + 1 < n
        invariant
            n == parts.len(),
            n > 0,
            i < n,
            p == names_view(parts@),
            names_view(ls@) == p.take(i as int).map_values(|l: Seq<char>| strip_cr(l)),
        decreases n - i,
    {
        let ghost before = names_view(ls@);
        ls.push(strip_cr_exec(&parts[i]));
        proof {
            assert(names_view(ls@) =~= before.push(strip_cr(p[i as int])));
            assert(p.take(i + 1).map_values(|l: Seq<char>| strip_cr(l)) =~= p.take(i as int).map_values(|l: Seq<char>| strip_cr(l)).push(strip_cr(p[i as int])));
        }
        i = i + 1;
    }
    assert(i == n - 1);
    if parts[n - 1].as_str().unicode_len() > 0 {
        let ghost before = names_view(ls@);
        ls.push(parts[n - 1].clone());
        assert(names_view(ls@) =~= before.push(p.last()));
    } else {
        assert(p.last().len() == 0);
    }
    let ind = indent_all(&ls);
    join_lines(&ind)
}

/// [`indent2`] of `s`.
pub fn indent2_exec(s: &str) -> (r: String)
    ensures
        r@ == indent2(s@),
{
    let parts = split_nl_exec(s);
    let ind = indent_all(&parts);
    join_lines(&ind)
}

// ---------------------------------------------------------------------------
// SQL of a rule
// ---------------------------------------------------------------------------

/// A selected column: the SQL of its expression named after the field, but
/// for `*` and spreads (`….*`).
pub open spec fn select_field(name: Seq<char>, s: Seq<char>) -> Seq<char> {
    if name == "*"@ || has_suffix(s, ".*"@) { s } else { s + " AS "@ + sql_field_name(name) }
}

/// The selected columns from the `i`-th on, after `acc`; `None` when an
/// expression does not translate.
pub open spec fn select_fields_from<'a, D: Dialect + ?Sized>(t: &ExprTranslator<'a, D>, sel: Seq<(Seq<char>, JVal)>, i: int, acc: Seq<Seq<char>>) -> Option<Seq<Seq<char>>>
    decreases sel.len() - i,
{
    if i < 0 || i >= sel.len() {
        Some(acc)
    } else {
        match t.sql_of(sel[i].1) {
            None => None,
            Some(x) => select_fields_from(t, sel, i + 1, acc.push(select_field(sel[i].0, x))),
        }
    }
}

/// The tables read, from the `i`-th on after `acc`: each as its SQL (the
/// `i`-th of `ts`), named by its alias unless that is the SQL; `None` when a
/// table does not translate.
pub open spec fn table_parts_from(ts: Seq<Option<Seq<char>>>, tables: Seq<(Seq<char>, Seq<char>)>, i: int, acc: Seq<Seq<char>>) -> Option<Seq<Seq<char>>>
    decreases tables.len() - i,
{
    if i < 0 || i >= tables.len() {
        Some(acc)
    } else {
        match ts[i] {
            None => None,
            Some(x) => table_parts_from(ts, tables, i + 1, acc.push(if x != tables[i].0 { x + " AS "@ + tables[i].0 } else { x })),
        }
    }
}

/// The unnestings from the `i`-th on after `acc`: the engine's phrase with
/// the list's SQL and the element's alias put in.
pub open spec fn unnest_parts_from<'a, D: Dialect + ?Sized>(t: &ExprTranslator<'a, D>, uns: Seq<(Seq<char>, JVal)>, i: int, acc: Seq<Seq<char>>) -> Option<Seq<Seq<char>>>
    decreases uns.len() - i,
{
    if i < 0 || i >= uns.len() {
        Some(acc)
    } else {
        match t.sql_of(uns[i].1) {
            None => None,
            Some(x) => unnest_parts_from(t, uns, i + 1, acc.push(replace_all(replace_all(unnest_text(t.dialect.kind()), "{0}"@, x), "{1}"@, uns[i].0))),
        }
    }
}

/// The relation read when a rule reads no table.
pub open spec fn singleton_relation() -> Seq<char> {
    "(SELECT 'singleton' as s) as unused_singleton"@
}

/// Whether the statement has a FROM clause.
pub open spec fn has_from(rs: RuleStructureV) -> bool {
    rs.tables.len() > 0 || rs.unnestings.len() > 0 || rs.constraints.len() > 0 || rs.distinct_denoted
}

/// The FROM clause: the tables (their SQL in `ts`) and unnestings (or the
/// singleton relation), joined by commas and indented.
pub open spec fn from_clause<'a, D: Dialect + ?Sized>(t: &ExprTranslator<'a, D>, ts: Seq<Option<Seq<char>>>, rs: RuleStructureV) -> Option<Seq<char>> {
    if !has_from(rs) {
        Some(seq![])
    } else {
        match table_parts_from(ts, rs.tables, 0, seq![]) {
            None => None,
            Some(tp) => match unnest_parts_from(t, rs.unnestings, 0, tp) {
                None => None,
                Some(parts) => {
                    let ps = if parts.len() == 0 { seq![singleton_relation()] } else { parts };
                    Some("\nFROM\n"@ + indent_block(join(ps, ", "@)))
                },
            },
        }
    }
}

/// A condition that only serves type inference.
pub open spec fn ephemeral(c: JVal) -> bool {
    match jget(c, "call"@) {
        Some(call) => jstr(jfield(call, "predicate_name"@)) == "~"@,
        None => false,
    }
}

/// The conditions from the `i`-th on after `acc`, each translated and
/// indented, leaving out those of type inference.
pub open spec fn where_items_from<'a, D: Dialect + ?Sized>(t: &ExprTranslator<'a, D>, cs: Seq<JVal>, i: int, acc: Seq<Seq<char>>) -> Option<Seq<Seq<char>>>
    decreases cs.len() - i,
{
    if i < 0 || i >= cs.len() {
        Some(acc)
    } else if ephemeral(cs[i]) {
        where_items_from(t, cs, i + 1, acc)
    } else {
        match t.sql_of(cs[i]) {
            None => None,
            Some(x) => where_items_from(t, cs, i + 1, acc.push(indent2(x))),
        }
    }
}

pub open spec fn where_clause(ws: Seq<Seq<char>>) -> Seq<char> {
    if ws.len() == 0 { seq![] } else { "\nWHERE\n"@ + join(ws, " AND\n"@) }
}

/// One item to group by for field `v`: its name, its position among the
/// selected columns (counting from 1), or the SQL of its expression, as the
/// engine groups; none when the field is not selected or does not translate.
pub open spec fn group_item<'a, D: Dialect + ?Sized>(t: &ExprTranslator<'a, D>, sel: Seq<(Seq<char>, JVal)>, v: Seq<char>) -> Option<Seq<char>> {
    match group_by_of(t.dialect.kind()) {
        GroupBySpec::Name => Some(sql_field_name(v)),
        GroupBySpec::Index => {
            let k = crate::strmap::kv_index(sel, v);
            if k < sel.len() { Some(int_text(k + 1)) } else { None }
        },
        GroupBySpec::Expr => match kv_get(sel, v) {
            Some(e) => t.group_by_sql(e),
            None => None,
        },
    }
}

/// The items to group by for the fields from the `i`-th on, after `acc`.
pub open spec fn group_items_from<'a, D: Dialect + ?Sized>(t: &ExprTranslator<'a, D>, sel: Seq<(Seq<char>, JVal)>, vs: Seq<Seq<char>>, i: int, acc: Seq<Seq<char>>) -> Seq<Seq<char>>
    decreases vs.len() - i,
{
    if i < 0 || i >= vs.len() {
        acc
    } else {
        match group_item(t, sel, vs[i]) {
            Some(x) => group_items_from(t, sel, vs, i + 1, acc.push(x)),
            None => group_items_from(t, sel, vs, i + 1, acc),
        }
    }
}

pub open spec fn group_clause(items: Seq<Seq<char>>) -> Seq<char> {
    if items.len() == 0 { seq![] } else { "\nGROUP BY "@ + join(items, ", "@) }
}

/// The SELECT statement of a rule, its expressions translated by `t` and its
/// tables given by `ts`: the columns, the FROM clause, the WHERE clause and
/// the GROUP BY clause; `None` when a part does not translate.
pub open spec fn rule_sql<'a, D: Dialect + ?Sized>(t: &ExprTranslator<'a, D>, ts: Seq<Option<Seq<char>>>, rs: RuleStructureV) -> Option<Seq<char>> {
    match select_fields_from(t, rs.select, 0, seq![]) {
        None => None,
        Some(fields) => match from_clause(t, ts, rs) {
            None => None,
            Some(fr) => match where_items_from(t, rs.constraints, 0, seq![]) {
                None => None,
                Some(ws) => Some("SELECT\n"@ + join(indented(fields), ",\n"@) + fr + where_clause(ws)
                    + group_clause(group_items_from(t, rs.select, rs.distinct_vars, 0, seq![]))),
            },
        },
    }
}

fn join_with(ls: &Vec<String>, sep: &str) -> (r: String)
    ensures
        r@ == join(names_view(ls@), sep@),
{
    let r = join_strings(ls, sep);
    assert(ls@.map_values(|p: String| p@) =~= names_view(ls@));
    r
}

/// Whether a result is the list `v`, or an error where there is none.
pub open spec fn list_is(r: CompileResult<Vec<String>>, v: Option<Seq<Seq<char>>>) -> bool {
    match v {
        Some(x) => r matches Ok(l) && names_view(l@) == x,
        None => r is Err,
    }
}

fn select_fields_exec<'a, D: Dialect + ?Sized>(ql: &ExprTranslator<'a, D>, select: &Vec<(String, Json)>) -> (r: CompileResult<Vec<String>>)
    requires
        ql.wf(),
    ensures
        list_is(r, select_fields_from(ql, named_view(select@), 0, seq![])),
{
    let ghost sel = named_view(select@);
    let mut fields: Vec<String> = Vec::new();
    let mut i: usize = 0;
    assert(names_view(fields@) =~= Seq::<Seq<char>>::empty());
    while i < select.len()
        invariant
            i <= select.len(),
            ql.wf(),
            sel == named_view(select@),
            select_fields_from(ql, sel, i as int, names_view(fields@)) == select_fields_from(ql, sel, 0, seq![]),
        decreases select.len() - i,
    {
        assert(sel[i as int] == (select@[i as int].0@, select@[i as int].1@));
        let sql = match ql.convert_to_sql(&select[i].1) {
            Ok(x) => x,
            Err(e) => return Err(e),
        };
        let name = select[i].0.as_str();
        let field = if crate::text::str_eq(name, "*") || crate::text::ends_with_str(sql.as_str(), ".*") {
            sql
        } else {
            let f = logica_field_to_sql_field(name);
            concat3(sql.as_str(), " AS ", f.as_str())
        };
        let ghost before = names_view(fields@);
        fields.push(field);
        assert(names_view(fields@) =~= before.push(select_field(sel[i as int].0, ql.sql_of(sel[i as int].1)->Some_0)));
        i = i + 1;
    }
    Ok(fields)
}

fn table_parts_exec<S: SubqueryTranslator + ?Sized>(st: &S, tables: &StrMap, Ghost(ts): Ghost<Seq<Option<Seq<char>>>>) -> (r: CompileResult<Vec<String>>)
    requires
        ts.len() == tables@.len(),
        forall|i: int| 0 <= i < ts.len() ==> #[trigger] ts[i] == st.table_sql(tables@[i].1, None),
    ensures
        list_is(r, table_parts_from(ts, tables@, 0, seq![])),
{
    let mut parts: Vec<String> = Vec::new();
    let mut k: usize = 0;
    assert(names_view(parts@) =~= Seq::<Seq<char>>::empty());
    while k < tables.entries.len()
        invariant
            k <= tables.entries.len(),
            tables@.len() == tables.entries.len(),
            ts.len() == tables@.len(),
            forall|i: int| 0 <= i < ts.len() ==> #[trigger] ts[i] == st.table_sql(tables@[i].1, None),
            table_parts_from(ts, tables@, k as int, names_view(parts@)) == table_parts_from(ts, tables@, 0, seq![]),
        decreases tables.entries.len() - k,
    {
        let alias = tables.entries[k].0.as_str();
        let pred = tables.entries[k].1.as_str();
        assert(tables@[k as int] == (alias@, pred@));
        let tsql = match st.translate_table(pred, None) {
            Ok(x) => x,
            Err(e) => {
                assert(ts[k as int] is None);
                assert(table_parts_from(ts, tables@, k as int, names_view(parts@)) is None);
                return Err(e);
            },
        };
        assert(ts[k as int] == Some(tsql@));
        let part = if !crate::text::str_eq(tsql.as_str(), alias) {
            concat3(tsql.as_str(), " AS ", alias)
        } else {
            tsql
        };
        let ghost before = names_view(parts@);
        parts.push(part);
        assert(names_view(parts@) =~= before.push(part@));
        assert(table_parts_from(ts, tables@, k as int, before) == table_parts_from(ts, tables@, k + 1, names_view(parts@)));
        k = k + 1;
    }
    Ok(parts)
}

fn unnest_parts_exec<'a, D: Dialect + ?Sized>(ql: &ExprTranslator<'a, D>, uns: &Vec<(String, Json)>, init: Vec<String>) -> (r: CompileResult<Vec<String>>)
    requires
        ql.wf(),
    ensures
        list_is(r, unnest_parts_from(ql, named_view(uns@), 0, names_view(init@))),
{
    let ghost un = named_view(uns@);
    let ghost p0 = names_view(init@);
    let mut parts = init;
    let mut u: usize = 0;
    proof {
        reveal_strlit("{0}");
        reveal_strlit("{1}");
    }
    while u < uns.len()
        invariant
            u <= uns.len(),
            ql.wf(),
            un == named_view(uns@),
            p0 == names_view(init@),
            unnest_parts_from(ql, un, u as int, names_view(parts@)) == unnest_parts_from(ql, un, 0, p0),
        decreases uns.len() - u,
    {
        assert(un[u as int] == (uns@[u as int].0@, uns@[u as int].1@));
        proof {
            reveal_strlit("{0}");
            reveal_strlit("{1}");
        }
        let ls = match ql.convert_to_sql(&uns[u].1) {
            Ok(x) => x,
            Err(e) => {
                assert(unnest_parts_from(ql, un, u as int, names_view(parts@)) is None);
                assert(unnest_parts_from(ql, un, 0, p0) is None);
                let res: CompileResult<Vec<String>> = Err(e);
                assert(list_is(res, unnest_parts_from(ql, named_view(uns@), 0, p0)));
                return res;
            },
        };
        let phrase = ql.dialect.unnest_phrase();
        let p1 = crate::text::replace_str(phrase, "{0}", ls.as_str());
        let p2 = crate::text::replace_str(p1.as_str(), "{1}", uns[u].0.as_str());
        let ghost before = names_view(parts@);
        parts.push(p2);
        assert(names_view(parts@) =~= before.push(p2@));
        u = u + 1;
    }
    Ok(parts)
}

fn where_items_exec<'a, D: Dialect + ?Sized>(ql: &ExprTranslator<'a, D>, cs: &Vec<Json>) -> (r: CompileResult<Vec<String>>)
    requires
        ql.wf(),
    ensures
        list_is(r, where_items_from(ql, jv_seq(cs@), 0, seq![])),
{
    broadcast use group_json_view;
    let ghost cv = jv_seq(cs@);
    proof {
        lemma_jv_seq_len(cs@);
    }
    let mut ws: Vec<String> = Vec::new();
    let mut c: usize = 0;
    assert(names_view(ws@) =~= Seq::<Seq<char>>::empty());
    while c < cs.len()
        invariant
            c <= cs.len(),
            ql.wf(),
            cv == jv_seq(cs@),
            cv.len() == cs.len(),
            where_items_from(ql, cv, c as int, names_view(ws@)) == where_items_from(ql, cv, 0, seq![]),
        decreases cs.len() - c,
    {
        proof {
            lemma_jv_seq_index(cs@, c as int);
        }
        let cst = &cs[c];
        let eph = match cst.get("call") {
            Some(call) => crate::text::str_eq(crate::json::opt_str(call.get("predicate_name")), "~"),
            None => false,
        };
        if !eph {
            let w = match ql.convert_to_sql(cst) {
                Ok(x) => x,
                Err(e) => return Err(e),
            };
            let iw = indent2_exec(w.as_str());
            let ghost before = names_view(ws@);
            ws.push(iw);
            assert(names_view(ws@) =~= before.push(iw@));
        }
        c = c + 1;
    }
    Ok(ws)
}

fn group_items_exec<'a, D: Dialect + ?Sized>(ql: &ExprTranslator<'a, D>, select: &Vec<(String, Json)>, vs: &Vec<String>) -> (r: Vec<String>)
    requires
        ql.wf(),
    ensures
        names_view(r@) == group_items_from(ql, named_view(select@), names_view(vs@), 0, seq![]),
{
    let ghost sel = named_view(select@);
    let ghost vv = names_view(vs@);
    let mut gs: Vec<String> = Vec::new();
    let mut g: usize = 0;
    let kind = ql.dialect.group_by_spec_by();
    assert(names_view(gs@) =~= Seq::<Seq<char>>::empty());
    while g < vs.len()
        invariant
            g <= vs.len(),
            ql.wf(),
            sel == named_view(select@),
            vv == names_view(vs@),
            kind == group_by_of(ql.dialect.kind()),
            group_items_from(ql, sel, vv, g as int, names_view(gs@)) == group_items_from(ql, sel, vv, 0, seq![]),
        decreases vs.len() - g,
    {
        let v = vs[g].as_str();
        assert(vv[g as int] == v@);
        let p = crate::strmap::key_position(select, v);
        proof {
            crate::strmap::lemma_kv_index_keys(sel, select@.map_values(|e: (String, Json)| (e.0@, ())), v@);
        }
        let item: Option<String> = match kind {
            GroupBySpec::Name => Some(logica_field_to_sql_field(v)),
            GroupBySpec::Index => {
                if p < select.len() {
                    Some(crate::text::usize_to_string(p + 1))
                } else {
                    None
                }
            },
            GroupBySpec::Expr => {
                if p < select.len() {
                    assert(sel[p as int].1 == select@[p as int].1@);
                    match ql.convert_to_sql_for_group_by(&select[p].1) {
                        Ok(x) => Some(x),
                        Err(_) => None,
                    }
                } else {
                    None
                }
            },
        };
        match item {
            Some(x) => {
                let ghost before = names_view(gs@);
                let ghost xv = x@;
                gs.push(x);
                assert(names_view(gs@) =~= before.push(xv));
            },
            None => {},
        }
        g = g + 1;
    }
    gs
}

impl RuleStructure {
    /// The SELECT statement of the rule (see [`rule_sql`]), its expressions
    /// translated over the rule's vocabulary ([`vocabulary_of`]) and its
    /// tables by `subquery_translator`; an error when the rule reads tables
    /// but selects no column. The contract ties the tables to
    /// `subquery_translator`; of the translator that handles subqueries inside
    /// expressions it says only that there is one, since Verus keeps no
    /// identity for a `&dyn` value once it is copied into a field.
    #[verifier::rlimit(40)]
    pub fn as_sql<'a, D: Dialect + ?Sized>(&self, subquery_translator: &'a dyn SubqueryTranslator, dialect: &'a D, flag_values: &'a StrMap) -> (r: CompileResult<String>)
        ensures
            self@.select.len() == 0 && self@.tables.len() > 0 ==> (r matches Err(e) && e.message@ == "Rule produces no columns"@
                && e.rule_text@ == self@.full_rule_text),
            !(self@.select.len() == 0 && self@.tables.len() > 0) ==> exists|t: ExprTranslator<'a, D>, ts: Seq<Option<Seq<char>>>| {
                &&& t.wf()
                &&& t.vocabulary@ == vocabulary_of(self@, dialect.kind())
                &&& t.dialect == dialect
                &&& t.flag_values == flag_values
                &&& t.subquery_translator is Some
                &&& t.value_field@ == "logica_value"@
                &&& ts.len() == self@.tables.len()
                &&& forall|i: int| 0 <= i < ts.len() ==> #[trigger] ts[i] == subquery_translator.table_sql(self@.tables[i].1, None)
                &&& #[trigger] res_is(r, rule_sql(&t, ts, self@))
            },
    {
        broadcast use group_json_view;
        let ghost rs = self@;
        if self.select.len() == 0 && self.tables.entries.len() > 0 {
            return Err(CompileError::new("Rule produces no columns", self.full_rule_text.as_str()));
        }
        let vocabulary = self.vars_vocabulary(dialect);
        let mut ql = ExprTranslator::new(vocabulary, dialect, flag_values);
        ql.subquery_translator = Some(subquery_translator);
        proof {
            lemma_jv_seq_len(self.constraints@);
        }
        assert(ql.wf());
        assert(ql.vocabulary@ == vocabulary_of(self@, dialect.kind()));
        assert(ql.dialect == dialect);
        assert(ql.flag_values == flag_values);
        assert(ql.subquery_translator is Some);
        let ghost ts = Seq::new(self@.tables.len(), |i: int| subquery_translator.table_sql(self@.tables[i].1, None));
        assert(ql.value_field@ == "logica_value"@);
        let fields = match select_fields_exec(&ql, &self.select) {
            Ok(v) => v,
            Err(e) => {
                let res: CompileResult<String> = Err(e);
                assert(res_is(res, rule_sql(&ql, ts, rs)));
                return res;
            },
        };
        let ind = indent_all(&fields);
        let cols = join_with(&ind, ",\n");
        let head = concat2("SELECT\n", cols.as_str());
        let has_from = self.tables.entries.len() > 0 || self.unnestings.len() > 0 || self.constraints.len() > 0 || self.distinct_denoted;
        let from = if !has_from {
            String::new()
        } else {
            let tp = match table_parts_exec(subquery_translator, &self.tables, Ghost(ts)) {
                Ok(v) => v,
                Err(e) => {
                    let res: CompileResult<String> = Err(e);
                    assert(res_is(res, rule_sql(&ql, ts, rs)));
                    return res;
                },
            };
            let mut parts = match unnest_parts_exec(&ql, &self.unnestings, tp) {
                Ok(v) => v,
                Err(e) => {
                    let res: CompileResult<String> = Err(e);
                    assert(res_is(res, rule_sql(&ql, ts, rs)));
                    return res;
                },
            };
            if parts.len() == 0 {
                parts.push("(SELECT 'singleton' as s) as unused_singleton".to_string());
                assert(names_view(parts@) =~= seq![singleton_relation()]);
            }
            let joined = join_with(&parts, ", ");
            let block = indent_block_exec(joined.as_str());
            concat2("\nFROM\n", block.as_str())
        };
        assert(from_clause(&ql, ts, rs) == Some(from@));
        let ws = match where_items_exec(&ql, &self.constraints) {
            Ok(v) => v,
            Err(e) => {
                let res: CompileResult<String> = Err(e);
                assert(res_is(res, rule_sql(&ql, ts, rs)));
                return res;
            },
        };
        let where_text = if ws.len() == 0 {
            String::new()
        } else {
            let j = join_with(&ws, " AND\n");
            concat2("\nWHERE\n", j.as_str())
        };
        assert(where_text@ == where_clause(names_view(ws@)));
        let gs = group_items_exec(&ql, &self.select, &self.distinct_vars);
        let group_text = if gs.len() == 0 {
            String::new()
        } else {
            let j = join_with(&gs, ", ");
            concat2("\nGROUP BY ", j.as_str())
        };
        assert(group_text@ == group_clause(names_view(gs@)));
        let a1 = concat3(head.as_str(), from.as_str(), where_text.as_str());
        let res: CompileResult<String> = Ok(concat2(a1.as_str(), group_text.as_str()));
        assert(res_is(res, rule_sql(&ql, ts, rs)));
        res
    }
}


proof fn lemma_where_items_push<'a, D: Dialect + ?Sized>(t: &ExprTranslator<'a, D>, cs: Seq<JVal>, c: JVal, i: int, acc: Seq<Seq<char>>)
    requires
        0 <= i <= cs.len(),
    ensures
        where_items_from(t, cs.push(c), i, acc) == match where_items_from(t, cs, i, acc) {
            None => None,
            Some(w) => if ephemeral(c) {
                Some(w)
            } else {
                match t.sql_of(c) {
                    None => None,
                    Some(x) => Some(w.push(indent2(x))),
                }
            },
        },
    decreases cs.len() - i,
{
    let cs2 = cs.push(c);
    if i == cs.len() {
        assert(cs2[i] == c);
        assert(where_items_from(t, cs, i, acc) == Some(acc));
        if ephemeral(c) {
            assert(where_items_from(t, cs2, i + 1, acc) == Some(acc));
        } else {
            match t.sql_of(c) {
                None => {},
                Some(x) => {
                    assert(where_items_from(t, cs2, i + 1, acc.push(indent2(x))) == Some(acc.push(indent2(x))));
                },
            }
        }
    } else {
        assert(cs2[i] == cs[i]);
        if ephemeral(cs[i]) {
            lemma_where_items_push(t, cs, c, i + 1, acc);
        } else {
            match t.sql_of(cs[i]) {
                None => {},
                Some(x) => {
                    lemma_where_items_push(t, cs, c, i + 1, acc.push(indent2(x)));
                },
            }
        }
    }
}

/// The WHERE clause of a rule is the conjunction of its conditions: adding a
/// condition to a rule that has one already joins the new condition's SQL to
/// the statement with " AND ", so a row is selected only when every
/// condition holds. (Conditions that only serve type inference are left out.)
pub proof fn law_where_conditions_conjoined<'a, D: Dialect + ?Sized>(t: &ExprTranslator<'a, D>, ts: Seq<Option<Seq<char>>>, rs: RuleStructureV, c: JVal)
    requires
        rs.distinct_vars.len() == 0,
        !ephemeral(c),
        t.sql_of(c) is Some,
        where_items_from(t, rs.constraints, 0, seq![]) matches Some(ws) && ws.len() > 0,
    ensures
        rule_sql(t, ts, RuleStructureV { constraints: rs.constraints.push(c), ..rs }) == match rule_sql(t, ts, rs) {
            Some(q) => Some(q + " AND\n"@ + indent2(t.sql_of(c)->Some_0)),
            None => None,
        },
{
    let rs2 = RuleStructureV { constraints: rs.constraints.push(c), ..rs };
    let x = t.sql_of(c)->Some_0;
    let ws = where_items_from(t, rs.constraints, 0, seq![])->Some_0;
    lemma_where_items_push(t, rs.constraints, c, 0, seq![]);
    assert(where_items_from(t, rs2.constraints, 0, seq![]) == Some(ws.push(indent2(x))));
    assert(rs.constraints.len() > 0) by {
        if rs.constraints.len() == 0 {
            assert(where_items_from(t, rs.constraints, 0, seq![]) == Some(Seq::<Seq<char>>::empty()));
        }
    }
    assert(has_from(rs) && has_from(rs2));
    assert(from_clause(t, ts, rs2) == from_clause(t, ts, rs));
    assert(group_items_from(t, rs.select, rs.distinct_vars, 0, seq![]) == Seq::<Seq<char>>::empty());
    assert(group_clause(Seq::<Seq<char>>::empty()) == Seq::<char>::empty());
    crate::text::lemma_join_push(ws, " AND\n"@, indent2(x));
    assert(where_clause(ws.push(indent2(x))) =~= where_clause(ws) + " AND\n"@ + indent2(x));
    match rule_sql(t, ts, rs) {
        Some(q) => {
            let fields = select_fields_from(t, rs.select, 0, seq![])->Some_0;
            let fr = from_clause(t, ts, rs)->Some_0;
            assert(q == "SELECT\n"@ + join(indented(fields), ",\n"@) + fr + where_clause(ws) + Seq::<char>::empty());
            assert(rule_sql(t, ts, rs2) == Some("SELECT\n"@ + join(indented(fields), ",\n"@) + fr + where_clause(ws.push(indent2(x))) + Seq::<char>::empty()));
            assert(q + " AND\n"@ + indent2(x) =~= "SELECT\n"@ + join(indented(fields), ",\n"@) + fr + where_clause(ws.push(indent2(x))) + Seq::<char>::empty());
        },
        None => {},
    }
}


proof fn lemma_group_items_push<'a, D: Dialect + ?Sized>(t: &ExprTranslator<'a, D>, sel: Seq<(Seq<char>, JVal)>, vs: Seq<Seq<char>>, v: Seq<char>, i: int, acc: Seq<Seq<char>>)
    requires
        0 <= i <= vs.len(),
    ensures
        group_items_from(t, sel, vs.push(v), i, acc) == match group_item(t, sel, v) {
            Some(g) => group_items_from(t, sel, vs, i, acc).push(g),
            None => group_items_from(t, sel, vs, i, acc),
        },
    decreases vs.len() - i,
{
    let vs2 = vs.push(v);
    if i == vs.len() {
        assert(vs2[i] == v);
        match group_item(t, sel, v) {
            Some(g) => {
                assert(group_items_from(t, sel, vs2, i + 1, acc.push(g)) == acc.push(g));
            },
            None => {
                assert(group_items_from(t, sel, vs2, i + 1, acc) == acc);
            },
        }
    } else {
        assert(vs2[i] == vs[i]);
        match group_item(t, sel, vs[i]) {
            Some(g) => lemma_group_items_push(t, sel, vs, v, i + 1, acc.push(g)),
            None => lemma_group_items_push(t, sel, vs, v, i + 1, acc),
        }
    }
}

/// The GROUP BY clause lists every grouped field: grouping a rule that
/// groups already by one field more adds that field's item at the end,
/// after ", ".
pub proof fn law_group_by_items_listed<'a, D: Dialect + ?Sized>(t: &ExprTranslator<'a, D>, ts: Seq<Option<Seq<char>>>, rs: RuleStructureV, v: Seq<char>)
    requires
        group_items_from(t, rs.select, rs.distinct_vars, 0, seq![]).len() > 0,
        group_item(t, rs.select, v) is Some,
    ensures
        rule_sql(t, ts, RuleStructureV { distinct_vars: rs.distinct_vars.push(v), ..rs }) == match rule_sql(t, ts, rs) {
            Some(q) => Some(q + ", "@ + group_item(t, rs.select, v)->Some_0),
            None => None,
        },
{
    let rs2 = RuleStructureV { distinct_vars: rs.distinct_vars.push(v), ..rs };
    let g = group_item(t, rs.select, v)->Some_0;
    let gs = group_items_from(t, rs.select, rs.distinct_vars, 0, seq![]);
    lemma_group_items_push(t, rs.select, rs.distinct_vars, v, 0, seq![]);
    assert(group_items_from(t, rs.select, rs2.distinct_vars, 0, seq![]) == gs.push(g));
    crate::text::lemma_join_push(gs, ", "@, g);
    assert(group_clause(gs.push(g)) =~= group_clause(gs) + ", "@ + g);
    assert(has_from(rs2) == has_from(rs));
    assert(from_clause(t, ts, rs2) == from_clause(t, ts, rs));
    match rule_sql(t, ts, rs) {
        Some(q) => {
            let fields = select_fields_from(t, rs.select, 0, seq![])->Some_0;
            let fr = from_clause(t, ts, rs)->Some_0;
            let ws = where_items_from(t, rs.constraints, 0, seq![])->Some_0;
            let a = "SELECT\n"@ + join(indented(fields), ",\n"@) + fr + where_clause(ws);
            assert(q == a + group_clause(gs));
            assert(rule_sql(t, ts, rs2) == Some(a + group_clause(gs.push(g))));
            assert(a + group_clause(gs.push(g)) =~= q + ", "@ + g);
        },
        None => {},
    }
}

proof fn lemma_select_fields_push<'a, D: Dialect + ?Sized>(t: &ExprTranslator<'a, D>, sel: Seq<(Seq<char>, JVal)>, p: (Seq<char>, JVal), i: int, acc: Seq<Seq<char>>)
    requires
        0 <= i <= sel.len(),
    ensures
        select_fields_from(t, sel.push(p), i, acc) == match select_fields_from(t, sel, i, acc) {
            None => None,
            Some(w) => match t.sql_of(p.1) {
                None => None,
                Some(x) => Some(w.push(select_field(p.0, x))),
            },
        },
    decreases sel.len() - i,
{
    let sel2 = sel.push(p);
    if i == sel.len() {
        assert(sel2[i] == p);
        match t.sql_of(p.1) {
            None => {},
            Some(x) => {
                assert(select_fields_from(t, sel2, i + 1, acc.push(select_field(p.0, x))) == Some(acc.push(select_field(p.0, x))));
            },
        }
    } else {
        assert(sel2[i] == sel[i]);
        match t.sql_of(sel[i].1) {
            None => {},
            Some(x) => lemma_select_fields_push(t, sel, p, i + 1, acc.push(select_field(sel[i].0, x))),
        }
    }
}

/// The SELECT list holds every column: selecting one column more (in a rule
/// that groups by nothing) puts that column, on a line of its own after
/// ",", right behind the columns selected before, and leaves the rest of the
/// statement as it was.
pub proof fn law_select_columns_listed<'a, D: Dialect + ?Sized>(t: &ExprTranslator<'a, D>, ts: Seq<Option<Seq<char>>>, rs: RuleStructureV, name: Seq<char>, e: JVal)
    requires
        rs.select.len() > 0,
        rs.distinct_vars.len() == 0,
        t.sql_of(e) is Some,
        rule_sql(t, ts, rs) is Some,
    ensures
        exists|a: Seq<char>, b: Seq<char>| {
            &&& rule_sql(t, ts, rs) == Some(a + b)
            &&& rule_sql(t, ts, RuleStructureV { select: rs.select.push((name, e)), ..rs })
                == Some(a + ",\n  "@ + select_field(name, t.sql_of(e)->Some_0) + b)
            &&& has_prefix(a, "SELECT\n"@)
        },
{
    let rs2 = RuleStructureV { select: rs.select.push((name, e)), ..rs };
    let x = t.sql_of(e)->Some_0;
    let f = select_field(name, x);
    let fields = select_fields_from(t, rs.select, 0, seq![])->Some_0;
    lemma_select_fields_push(t, rs.select, (name, e), 0, seq![]);
    assert(select_fields_from(t, rs2.select, 0, seq![]) == Some(fields.push(f)));
    assert(fields.len() == rs.select.len()) by {
        lemma_select_fields_len(t, rs.select, 0, seq![]);
    }
    assert(indented(fields.push(f)) =~= indented(fields).push("  "@ + f));
    crate::text::lemma_join_push(indented(fields), ",\n"@, "  "@ + f);
    assert(has_from(rs2) == has_from(rs));
    assert(from_clause(t, ts, rs2) == from_clause(t, ts, rs));
    assert(group_items_from(t, rs.select, rs.distinct_vars, 0, seq![]) == Seq::<Seq<char>>::empty());
    assert(group_items_from(t, rs2.select, rs.distinct_vars, 0, seq![]) == Seq::<Seq<char>>::empty());
    let fr = from_clause(t, ts, rs)->Some_0;
    let ws = where_items_from(t, rs.constraints, 0, seq![])->Some_0;
    let a = "SELECT\n"@ + join(indented(fields), ",\n"@);
    let b = fr + where_clause(ws) + group_clause(Seq::<Seq<char>>::empty());
    assert(rule_sql(t, ts, rs) == Some(a + b)) by {
        assert("SELECT\n"@ + join(indented(fields), ",\n"@) + fr + where_clause(ws) + group_clause(Seq::<Seq<char>>::empty()) =~= a + b);
    }
    assert(rule_sql(t, ts, rs2) == Some(a + ",\n  "@ + f + b)) by {
        reveal_strlit(",\n");
        reveal_strlit("  ");
        reveal_strlit(",\n  ");
        assert("SELECT\n"@ + join(indented(fields.push(f)), ",\n"@) + fr + where_clause(ws) + group_clause(Seq::<Seq<char>>::empty())
            =~= a + ",\n  "@ + f + b);
    }
    assert(has_prefix(a, "SELECT\n"@)) by {
        assert(a.subrange(0, "SELECT\n"@.len() as int) =~= "SELECT\n"@);
    }
}

proof fn lemma_select_fields_len<'a, D: Dialect + ?Sized>(t: &ExprTranslator<'a, D>, sel: Seq<(Seq<char>, JVal)>, i: int, acc: Seq<Seq<char>>)
    requires
        0 <= i <= sel.len(),
    ensures
        select_fields_from(t, sel, i, acc) matches Some(w) ==> w.len() == acc.len() + sel.len() - i,
    decreases sel.len() - i,
{
    if i < sel.len() {
        match t.sql_of(sel[i].1) {
            None => {},
            Some(x) => lemma_select_fields_len(t, sel, i + 1, acc.push(select_field(sel[i].0, x))),
        }
    }
}

} // verus!
