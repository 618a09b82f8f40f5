//! Pieces of rule translation: names of tables and variables, and queries on
//! rules.

use vstd::prelude::*;
use crate::strmap::{StrMap, sm_get};
use crate::text::{nat_digits, lemma_nat_digits_injective, has_prefix, int_text, is_alnum_char, is_digit_char, starts_with_str, usize_to_string, concat2, concat4, chars_of, string_of, str_eq};
use crate::json::{jv, Json, JVal, jget, jfield, jstr, jint, jitems, jv_seq, jv_entries, jsize, seq_size, entries_size, opt_view, group_json_view, lemma_item_size, obj1, obj2};
pub use crate::rule_rewrite::inline_predicate_values;

verus! {

/// A variable of a rule, with the predicate it is used for.
#[derive(Debug)]
pub struct LogicalVariable {
    /// Name of user or generated variable.
    pub variable_name: String,
    /// Name of predicate in rule for which the variable is used.
    pub predicate_name: String,
    /// Whether this is a user variable (generated ones start with `x_`).
    pub is_user_variable: bool,
}

impl LogicalVariable {
    pub fn new(variable_name: &str, predicate_name: &str) -> (r: LogicalVariable)
        ensures
            r.variable_name@ == variable_name@,
            r.predicate_name@ == predicate_name@,
            r.is_user_variable == !has_prefix(variable_name@, "x_"@),
    {
        let generated = starts_with_str(variable_name, "x_");
        LogicalVariable {
            variable_name: variable_name.to_string(),
            predicate_name: predicate_name.to_string(),
            is_user_variable: !generated,
        }
    }
}

/// Abstract state of a [`NamesAllocator`].
pub struct AllocatorState {
    pub table_count: nat,
    pub var_count: nat,
    pub tables: Set<Seq<char>>,
    pub custom_udfs: Seq<(Seq<char>, Seq<char>)>,
}

/// Allocates unique names for tables and variables.
#[derive(Debug)]
pub struct NamesAllocator {
    table_count: usize,
    var_count: usize,
    allocated_tables: Vec<String>,
    /// Custom UDF format strings: function name and format (e.g. `my_func({col0}, {col1})`).
    pub custom_udfs: StrMap,
}

impl View for NamesAllocator {
    type V = AllocatorState;

    closed spec fn view(&self) -> AllocatorState {
        AllocatorState {
            table_count: self.table_count as nat,
            var_count: self.var_count as nat,
            tables: self.allocated_tables@.map_values(|s: String| s@).to_set(),
            custom_udfs: self.custom_udfs@,
        }
    }
}

/// A character kept in a table name hint.
pub open spec fn hint_char_kept(c: char) -> bool {
    is_alnum_char(c) || c == '_' || c == '.' || c == '/'
}

/// A table name hint with the characters other than letters, digits, `_`, `.`
/// and `/` dropped, and `.` and `/` turned into `_`.
pub open spec fn clean_hint(h: Seq<char>) -> Seq<char>
    decreases h.len(),
{
    if h.len() == 0 {
        seq![]
    } else {
        let rest = clean_hint(h.drop_last());
        let c = h.last();
        if !hint_char_kept(c) {
            rest
        } else if c == '.' || c == '/' {
            rest.push('_')
        } else {
            rest.push(c)
        }
    }
}

/// The name a table is given: the cleaned hint when it is new, not empty and
/// does not start with a digit; otherwise `t_N` (with the hint after it).
pub open spec fn table_name(suffix: Seq<char>, tables: Set<Seq<char>>, count: nat) -> Seq<char> {
    if suffix.len() > 0 && !tables.contains(suffix) && !is_digit_char(suffix[0]) {
        suffix
    } else if suffix.len() == 0 {
        "t_"@ + int_text(count as int)
    } else {
        "t_"@ + int_text(count as int) + "_"@ + suffix
    }
}

pub open spec fn hint_suffix(hint: Option<&str>) -> Seq<char> {
    match hint {
        Some(h) => if h.len() < 100 { clean_hint(h@) } else { seq![] },
        None => seq![],
    }
}

/// Name of the `n`th generated variable.
pub open spec fn var_name(n: nat) -> Seq<char> {
    "x_"@ + int_text(n as int)
}

impl NamesAllocator {
    pub fn new() -> (r: NamesAllocator)
        ensures
            r@.table_count == 0,
            r@.var_count == 0,
            r@.tables == Set::<Seq<char>>::empty(),
            r@.custom_udfs == Seq::<(Seq<char>, Seq<char>)>::empty(),
    {
        let r = NamesAllocator { table_count: 0, var_count: 0, allocated_tables: Vec::new(), custom_udfs: StrMap::new() };
        assert(r@.tables =~= Set::<Seq<char>>::empty());
        r
    }

    /// An allocator that knows the given user-defined functions.
    pub fn with_custom_udfs(custom_udfs: StrMap) -> (r: NamesAllocator)
        ensures
            r@.table_count == 0,
            r@.var_count == 0,
            r@.tables == Set::<Seq<char>>::empty(),
            r@.custom_udfs == custom_udfs@,
    {
        let r = NamesAllocator { table_count: 0, var_count: 0, allocated_tables: Vec::new(), custom_udfs };
        assert(r@.tables =~= Set::<Seq<char>>::empty());
        r
    }

    /// Whether `name` is a user-defined function.
    pub fn function_exists(&self, name: &str) -> (r: bool)
        ensures
            r == sm_get(self@.custom_udfs, name@) is Some,
    {
        self.custom_udfs.contains_key(name)
    }

    /// The format string of a user-defined function.
    pub fn get_udf_format(&self, name: &str) -> (r: Option<&str>)
        ensures
            match r {
                Some(f) => sm_get(self@.custom_udfs, name@) == Some(f@),
                None => sm_get(self@.custom_udfs, name@) is None,
            },
    {
        match self.custom_udfs.get(name) {
            Some(s) => Some(s.as_str()),
            None => None,
        }
    }

    /// Allocate a table alias, using the hint if it is new and valid.
    pub fn alloc_table(&mut self, hint: Option<&str>) -> (r: String)
        requires
            old(self)@.table_count < usize::MAX,
        ensures
            r@ == table_name(hint_suffix(hint), old(self)@.tables, old(self)@.table_count),
            final(self)@.table_count == if r@ == hint_suffix(hint) { old(self)@.table_count } else { old(self)@.table_count + 1 },
            final(self)@.tables == old(self)@.tables.insert(r@),
            final(self)@.var_count == old(self)@.var_count,
            final(self)@.custom_udfs == old(self)@.custom_udfs,
    {
        let suffix: Vec<char> = match hint {
            Some(h) => if h.len() < 100 { clean_hint_exec(h) } else { Vec::new() },
            None => Vec::new(),
        };
        let ghost sv = suffix@;
        assert(sv == hint_suffix(hint));
        let sfx = string_of(&suffix);
        let known = self.is_allocated(sfx.as_str());
        let name = if suffix.len() > 0 && !known && !('0' <= suffix[0] && suffix[0] <= '9') {
            sfx
        } else {
            let num = usize_to_string(self.table_count);
            let s = if suffix.len() == 0 {
                concat2("t_", num.as_str())
            } else {
                concat4("t_", num.as_str(), "_", sfx.as_str())
            };
            proof {
                reveal_strlit("t_");
                assert(s@.len() > 0 && s@[0] == 't');
                if suffix.len() > 0 {
                    assert(s@ != sv) by {
                        assert(s@.len() > sv.len());
                    }
                }
            }
            self.table_count = self.table_count + 1;
            s
        };
        let ghost before = self.allocated_tables@;
        self.allocated_tables.push(name.clone());
        proof {
            assert(self.allocated_tables@.map_values(|s: String| s@) =~= before.map_values(|s: String| s@).push(name@));
            lemma_push_to_set(before.map_values(|s: String| s@), name@);
        }
        name
    }

    fn is_allocated(&self, name: &str) -> (r: bool)
        ensures
            r == self@.tables.contains(name@),
    {
        let ghost names = self.allocated_tables@.map_values(|s: String| s@);
        let mut i: usize = 0;
        while i < self.allocated_tables.len()
            invariant
                names == self.allocated_tables@.map_values(|s: String| s@),
                i <= self.allocated_tables.len(),
                forall|j: int| 0 <= j < i ==> names[j] != name@,
            decreases self.allocated_tables.len() - i,
        {
            if str_eq(self.allocated_tables[i].as_str(), name) {
                assert(names[i as int] == name@);
                assert(names.to_set().contains(name@));
                return true;
            }
            i = i + 1;
        }
        assert(!names.to_set().contains(name@)) by {
            if names.to_set().contains(name@) {
                assert(names.contains(name@));
            }
        }
        false
    }

    /// Allocate a fresh variable name `x_N`.
    pub fn alloc_var(&mut self) -> (r: String)
        requires
            old(self)@.var_count < usize::MAX,
        ensures
            r@ == var_name(old(self)@.var_count),
            final(self)@.var_count == old(self)@.var_count + 1,
            final(self)@.table_count == old(self)@.table_count,
            final(self)@.tables == old(self)@.tables,
            final(self)@.custom_udfs == old(self)@.custom_udfs,
    {
        let num = usize_to_string(self.var_count);
        let name = concat2("x_", num.as_str());
        self.var_count = self.var_count + 1;
        name
    }
}

proof fn lemma_push_to_set(s: Seq<Seq<char>>, x: Seq<char>)
    ensures
        s.push(x).to_set() == s.to_set().insert(x),
{
    assert forall|y: Seq<char>| s.push(x).to_set().contains(y) <==> s.to_set().insert(x).contains(y) by {
        if s.push(x).to_set().contains(y) {
            assert(s.push(x).contains(y));
            let i = choose|i: int| 0 <= i < s.push(x).len() && s.push(x)[i] == y;
            if i < s.len() {
                assert(s[i] == y);
                assert(s.contains(y));
            }
        }
        if s.to_set().insert(x).contains(y) {
            if y == x {
                assert(s.push(x)[s.len() as int] == x);
                assert(s.push(x).contains(y));
            } else {
                assert(s.contains(y));
                let i = choose|i: int| 0 <= i < s.len() && s[i] == y;
                assert(s.push(x)[i] == y);
                assert(s.push(x).contains(y));
            }
        }
    }
    assert(s.push(x).to_set() =~= s.to_set().insert(x));
}

/// The cleaned characters of a table name hint.
fn clean_hint_exec(h: &str) -> (r: Vec<char>)
    ensures
        r@ == clean_hint(h@),
{
    let hc = chars_of(h);
    let mut out: Vec<char> = Vec::new();
    let mut i: usize = 0;
    while i < hc.len()
        invariant
            hc@ == h@,
            i <= hc.len(),
            out@ == clean_hint(h@.take(i as int)),
        decreases hc.len() - i,
    {
        let c = hc[i];
        assert(h@.take(i + 1).drop_last() =~= h@.take(i as int));
        assert(h@.take(i + 1).last() == c);
        let kept = ('a' <= c && c <= 'z') || ('A' <= c && c <= 'Z') || ('0' <= c && c <= '9') || c == '_' || c == '.' || c == '/';
        if kept {
            if c == '.' || c == '/' {
                out.push('_');
            } else {
                out.push(c);
            }
        }
        i = i + 1;
    }
    assert(h@.take(i as int) =~= h@);
    out
}

// ---------------------------------------------------------------------------
// Queries on rules
// ---------------------------------------------------------------------------

/// Whether a syntax tree mentions the `Combine` predicate.
pub open spec fn mentions_combine(v: JVal) -> bool
    decreases jsize(v), 1nat,
{
    match v {
        JVal::Object(es) => {
            (match jget(v, "predicate_name"@) {
                Some(pn) => jstr(pn) == "Combine"@,
                None => false,
            }) || entries_mention(es, es.len())
        },
        JVal::Array(a) => items_mention(a, a.len()),
        _ => false,
    }
}

/// Whether one of the first `n` values mentions `Combine`.
pub open spec fn entries_mention(es: Seq<(Seq<char>, JVal)>, n: nat) -> bool
    decreases entries_size(es), n,
{
    if n == 0 || n > es.len() {
        false
    } else {
        proof {
            crate::json::lemma_entry_size(es, n - 1);
        }
        entries_mention(es, (n - 1) as nat) || mentions_combine(es[n - 1].1)
    }
}

pub open spec fn items_mention(a: Seq<JVal>, n: nat) -> bool
    decreases seq_size(a), n,
{
    if n == 0 || n > a.len() {
        false
    } else {
        proof {
            lemma_item_size(a, n - 1);
        }
        items_mention(a, (n - 1) as nat) || mentions_combine(a[n - 1])
    }
}

proof fn lemma_entries_mention_mono(es: Seq<(Seq<char>, JVal)>, i: nat, n: nat)
    requires
        i <= n <= es.len(),
        entries_mention(es, i),
    ensures
        entries_mention(es, n),
    decreases n - i,
{
    if i < n {
        lemma_entries_mention_mono(es, i, (n - 1) as nat);
    }
}

proof fn lemma_items_mention_mono(a: Seq<JVal>, i: nat, n: nat)
    requires
        i <= n <= a.len(),
        items_mention(a, i),
    ensures
        items_mention(a, n),
    decreases n - i,
{
    if i < n {
        lemma_items_mention_mono(a, i, (n - 1) as nat);
    }
}

/// Whether a structure involves a Combine predicate.
pub fn has_combine(r: &Json) -> (b: bool)
    ensures
        b == mentions_combine(r@),
    decreases jsize(r@), 1nat,
{
    broadcast use group_json_view;
    match r {
        Json::Object(o) => {
            proof {
                reveal_strlit("Combine");
            }
            if let Some(pn) = r.get("predicate_name") {
                if str_eq(pn.as_str(), "Combine") {
                    return true;
                }
            }
            let ghost es = o@;
            let mut i: usize = 0;
            while i < o.entries.len()
                invariant
                    es == o@,
                    es.len() == o.entries.len(),
                    r@ == JVal::Object(es),
                    i <= o.entries.len(),
                    !entries_mention(es, i as nat),
                decreases o.entries.len() - i,
            {
                proof {
                    crate::json::lemma_jv_entries_index(o.entries@, i as int);
                    crate::json::lemma_entry_size(es, i as int);
                }
                if has_combine(&o.entries[i].1) {
                    assert(entries_mention(es, (i + 1) as nat));
                    proof {
                        lemma_entries_mention_mono(es, (i + 1) as nat, es.len());
                    }
                    return true;
                }
                i = i + 1;
            }
            false
        },
        Json::Array(a) => {
            let ghost items = jv_seq(a@);
            let mut i: usize = 0;
            while i < a.len()
                invariant
                    items == jv_seq(a@),
                    items.len() == a.len(),
                    r@ == JVal::Array(items),
                    i <= a.len(),
                    !items_mention(items, i as nat),
                decreases a.len() - i,
            {
                proof {
                    crate::json::lemma_jv_seq_index(a@, i as int);
                    lemma_item_size(items, i as int);
                }
                if has_combine(&a[i]) {
                    assert(items_mention(items, (i + 1) as nat));
                    proof {
                        lemma_items_mention_mono(items, (i + 1) as nat, items.len());
                    }
                    return true;
                }
                i = i + 1;
            }
            false
        },
        _ => false,
    }
}

/// Column name of a field: `colN` for a position, the name otherwise.
pub open spec fn field_column(f: JVal) -> Seq<char> {
    match f {
        JVal::Int(i) => "col"@ + int_text(i as int),
        _ => jstr(f),
    }
}

/// Field names of a record's `field_value` list.
pub open spec fn record_field_names(record: JVal) -> Seq<Seq<char>> {
    match jget(record, "field_value"@) {
        Some(f) => jitems(f).map_values(|fv: JVal| field_column(jfield(fv, "field"@))),
        None => seq![],
    }
}

/// Get all field names from a record's `field_value` array.
pub fn all_record_fields(record: &Json) -> (r: Vec<String>)
    ensures
        r@.map_values(|s: String| s@) == record_field_names(record@),
{
    broadcast use group_json_view;
    let mut result: Vec<String> = Vec::new();
    match record.get("field_value") {
        Some(fl) => {
            let fvs = crate::json::opt_elements(Some(fl));
            let ghost items = jv_seq(fvs@);
            let mut i: usize = 0;
            while i < fvs.len()
                invariant
                    items == jv_seq(fvs@),
                    items.len() == fvs@.len(),
                    items == jitems(fl@),
                    i <= fvs.len(),
                    result@.map_values(|s: String| s@) == items.take(i as int).map_values(|fv: JVal| field_column(jfield(fv, "field"@))),
                decreases fvs.len() - i,
            {
                proof {
                    crate::json::lemma_jv_seq_index(fvs@, i as int);
                    reveal_strlit("col");
                }
                let name = match fvs[i].get("field") {
                    Some(Json::Int(k)) => {
                        let t = crate::text::int_to_string(*k);
                        concat2("col", t.as_str())
                    },
                    f => crate::json::opt_str(f).to_string(),
                };
                let ghost before = result@;
                assert(name@ == field_column(jfield(items[i as int], "field"@)));
                result.push(name);
                assert(result@.map_values(|s: String| s@) =~= before.map_values(|s: String| s@).push(field_column(jfield(items[i as int], "field"@))));
                assert(items.take(i + 1).map_values(|fv: JVal| field_column(jfield(fv, "field"@))) =~= items.take(i as int).map_values(|fv: JVal| field_column(jfield(fv, "field"@))).push(field_column(jfield(items[i as int], "field"@))));
                i = i + 1;
            }
            assert(items.take(i as int) =~= items);
        },
        None => {
            assert(result@.map_values(|s: String| s@) =~= Seq::<Seq<char>>::empty());
        },
    }
    result
}


/// Variables allocated at different counts have different names, so the names
/// that successive calls of [`NamesAllocator::alloc_var`] give are fresh.
pub proof fn law_variable_names_distinct(m: nat, n: nat)
    requires
        m != n,
    ensures
        var_name(m) != var_name(n),
{
    if var_name(m) == var_name(n) {
        reveal_strlit("x_");
        assert(var_name(m).skip(2) =~= nat_digits(m));
        assert(var_name(n).skip(2) =~= nat_digits(n));
        lemma_nat_digits_injective(m, n);
    }
}

/// The variable names a run of allocations yields, starting at count
/// `start`: each `true` in `ops` is a call of [`NamesAllocator::alloc_var`],
/// which gives the name of the current count and moves it on; each `false`
/// is a call of [`NamesAllocator::alloc_table`], which leaves it.
pub open spec fn vars_yielded(start: nat, ops: Seq<bool>) -> Seq<Seq<char>>
    decreases ops.len(),
{
    if ops.len() == 0 {
        seq![]
    } else if ops[0] {
        seq![var_name(start)] + vars_yielded(start + 1, ops.drop_first())
    } else {
        vars_yielded(start, ops.drop_first())
    }
}

/// Whatever table allocations come between, the `k`-th variable allocated is
/// `x_<start + k>`, so the variable names of a run are pairwise distinct.
pub proof fn law_variables_numbered_in_order(start: nat, ops: Seq<bool>)
    ensures
        forall|k: int| 0 <= k < vars_yielded(start, ops).len() ==> #[trigger] vars_yielded(start, ops)[k] == var_name((start + k) as nat),
        forall|i: int, j: int| 0 <= i < j < vars_yielded(start, ops).len() ==> vars_yielded(start, ops)[i] != vars_yielded(start, ops)[j],
    decreases ops.len(),
{
    if ops.len() > 0 {
        law_variables_numbered_in_order(if ops[0] { start + 1 } else { start }, ops.drop_first());
        let v = vars_yielded(start, ops);
        if ops[0] {
            let rest = vars_yielded(start + 1, ops.drop_first());
            assert forall|k: int| 0 <= k < v.len() implies #[trigger] v[k] == var_name((start + k) as nat) by {
                if k > 0 {
                    assert(v[k] == rest[k - 1]);
                }
            }
        } else {
            assert(v == vars_yielded(start, ops.drop_first()));
        }
        assert forall|i: int, j: int| 0 <= i < j < v.len() implies v[i] != v[j] by {
            assert(v[i] == var_name((start + i) as nat));
            assert(v[j] == var_name((start + j) as nat));
            law_variable_names_distinct((start + i) as nat, (start + j) as nat);
        }
    }
}

/// Tables allocated without a hint at different counts have different names, so
/// successive calls of [`NamesAllocator::alloc_table`] without a hint give fresh
/// names.
pub proof fn law_unhinted_table_names_distinct(tables1: Set<Seq<char>>, tables2: Set<Seq<char>>, m: nat, n: nat)
    requires
        m != n,
    ensures
        table_name(seq![], tables1, m) != table_name(seq![], tables2, n),
{
    if table_name(seq![], tables1, m) == table_name(seq![], tables2, n) {
        reveal_strlit("t_");
        assert(table_name(seq![], tables1, m).skip(2) =~= nat_digits(m));
        assert(table_name(seq![], tables2, n).skip(2) =~= nat_digits(n));
        lemma_nat_digits_injective(m, n);
    }
}

/// A hint that was already given to a table is not handed out again: the
/// second table gets another name.
pub proof fn law_repeated_hint_gets_new_name(suffix: Seq<char>, tables: Set<Seq<char>>, count: nat)
    requires
        tables.contains(suffix),
    ensures
        table_name(suffix, tables, count) != suffix,
{
    reveal_strlit("t_");
    reveal_strlit("_");
    if suffix.len() > 0 {
        assert(table_name(suffix, tables, count).len() > suffix.len());
    }
}


/// The name of the `k`th generated table, before any hint.
pub open spec fn table_tag(k: nat) -> Seq<char> {
    "t_"@ + int_text(k as int)
}

/// Whether `t` is a generated table name of a count below `count`: `t_<k>`,
/// possibly followed by `_` and a hint.
pub open spec fn numbered_below(t: Seq<char>, count: nat) -> bool {
    exists|k: nat| k < count && crate::text::has_prefix(t, #[trigger] table_tag(k))
        && (t.len() == table_tag(k).len() || t[table_tag(k).len() as int] == '_')
}

/// Whether the allocated tables starting with `t_` were all generated at a
/// count below `count`.
pub open spec fn tables_numbered(tables: Set<Seq<char>>, count: nat) -> bool {
    forall|t: Seq<char>| #[trigger] tables.contains(t) && crate::text::has_prefix(t, "t_"@) ==> numbered_below(t, count)
}

proof fn lemma_digits_are_digits(n: nat)
    ensures
        forall|i: int| 0 <= i < nat_digits(n).len() ==> #[trigger] is_digit_char(nat_digits(n)[i]),
        nat_digits(n).len() > 0,
    decreases n,
{
    if n >= 10 {
        lemma_digits_are_digits(n / 10);
        let d = nat_digits(n);
        let p = nat_digits(n / 10);
        assert forall|i: int| 0 <= i < d.len() implies #[trigger] is_digit_char(d[i]) by {
            if i < p.len() {
                assert(d[i] == p[i]);
            }
        }
    }
}

proof fn lemma_tags_distinct_in(name: Seq<char>, c: nat, k: nat)
    requires
        crate::text::has_prefix(name, table_tag(c)),
        name.len() == table_tag(c).len() || name[table_tag(c).len() as int] == '_',
        crate::text::has_prefix(name, table_tag(k)),
        name.len() == table_tag(k).len() || name[table_tag(k).len() as int] == '_',
    ensures
        c == k,
{
    reveal_strlit("t_");
    lemma_digits_are_digits(c);
    lemma_digits_are_digits(k);
    let p = table_tag(k);
    let q = table_tag(c);
    assert(name.subrange(0, p.len() as int) == p);
    assert(name.subrange(0, q.len() as int) == q);
    if p.len() < q.len() {
        let i = p.len() as int;
        assert(name[i] == q[i]);
        assert(q[i] == nat_digits(c)[i - 2]);
        assert(is_digit_char(nat_digits(c)[i - 2]));
    } else if q.len() < p.len() {
        let i = q.len() as int;
        assert(name[i] == p[i]);
        assert(p[i] == nat_digits(k)[i - 2]);
        assert(is_digit_char(nat_digits(k)[i - 2]));
    } else {
        assert(p =~= q);
        assert(nat_digits(k) =~= p.skip(2));
        assert(nat_digits(c) =~= q.skip(2));
        lemma_nat_digits_injective(k, c);
    }
}

/// A table allocated for a hint that does not start with `t_` gets a name no
/// table has yet, and the allocated names stay numbered below the count:
/// over any sequence of such allocations, the names are pairwise distinct.
pub proof fn law_table_names_distinct(suffix: Seq<char>, tables: Set<Seq<char>>, count: nat)
    requires
        tables_numbered(tables, count),
        !crate::text::has_prefix(suffix, "t_"@),
    ensures
        !tables.contains(table_name(suffix, tables, count)),
        ({
            let name = table_name(suffix, tables, count);
            tables_numbered(tables.insert(name), if name == suffix { count } else { count + 1 })
        }),
{
    reveal_strlit("t_");
    reveal_strlit("_");
    let name = table_name(suffix, tables, count);
    let q = table_tag(count);
    if name != suffix {
        assert(crate::text::has_prefix(name, q)) by {
            assert(name.subrange(0, q.len() as int) =~= q);
        }
        assert(name.len() == q.len() || name[q.len() as int] == '_');
        assert(crate::text::has_prefix(name, "t_"@)) by {
            assert(name.subrange(0, 2) =~= "t_"@);
        }
        if tables.contains(name) {
            assert(numbered_below(name, count));
            let k = choose|k: nat| k < count && crate::text::has_prefix(name, #[trigger] table_tag(k))
                && (name.len() == table_tag(k).len() || name[table_tag(k).len() as int] == '_');
            lemma_tags_distinct_in(name, count, k);
        }
        assert forall|t: Seq<char>| #[trigger] tables.insert(name).contains(t) && crate::text::has_prefix(t, "t_"@) implies numbered_below(t, count + 1) by {
            if t == name {
                assert(crate::text::has_prefix(t, table_tag(count)));
            } else {
                assert(numbered_below(t, count));
                let k = choose|k: nat| k < count && crate::text::has_prefix(t, #[trigger] table_tag(k))
                    && (t.len() == table_tag(k).len() || t[table_tag(k).len() as int] == '_');
                assert(crate::text::has_prefix(t, table_tag(k)));
            }
        }
    } else {
        assert forall|t: Seq<char>| #[trigger] tables.insert(name).contains(t) && crate::text::has_prefix(t, "t_"@) implies numbered_below(t, count) by {
            if t != name {
                assert(tables.contains(t));
            }
        }
    }
}

// ---------------------------------------------------------------------------
// Decorating combine rules
// ---------------------------------------------------------------------------

/// `v` with member `k` set to `x` (replacing the member, or appending it).
pub open spec fn with_member(v: JVal, k: Seq<char>, x: JVal) -> JVal {
    JVal::Object(crate::json::entries_insert(crate::json::jentries(v), k, x))
}

/// `v` with item `i` replaced by `x`.
pub open spec fn with_item(v: JVal, i: int, x: JVal) -> JVal {
    JVal::Array(jitems(v).update(i, x))
}

/// The expression naming variable `name`.
pub open spec fn var_expr(name: Seq<char>) -> JVal {
    JVal::Object(seq![("variable"@, JVal::Object(seq![("var_name"@, JVal::Str(name))]))])
}

/// The first argument of the aggregated call, entangled with variable `name`:
/// `MagicalEntangle(value, name)`.
pub open spec fn entangled(value: JVal, name: Seq<char>) -> JVal {
    JVal::Object(seq![("expression"@, JVal::Object(seq![("call"@, JVal::Object(seq![
        ("predicate_name"@, JVal::Str("MagicalEntangle"@)),
        ("record"@, JVal::Object(seq![("field_value"@, JVal::Array(seq![
            JVal::Object(seq![("field"@, JVal::Int(0)), ("value"@, value)]),
            JVal::Object(seq![("field"@, JVal::Int(1)), ("value"@, JVal::Object(seq![("expression"@, var_expr(name))]))]),
        ]))])),
    ]))]))])
}

/// The conjunct `name in [0]`.
pub open spec fn zero_inclusion(name: Seq<char>) -> JVal {
    JVal::Object(seq![("inclusion"@, JVal::Object(seq![
        ("list"@, JVal::Object(seq![("literal"@, JVal::Object(seq![("the_list"@, JVal::Object(seq![
            ("element"@, JVal::Array(seq![JVal::Object(seq![("literal"@, JVal::Object(seq![
                ("the_number"@, JVal::Object(seq![("number"@, JVal::Str("0"@))])),
            ]))])])),
        ]))]))])),
        ("element"@, var_expr(name)),
    ]))])
}

/// Whether `v` is an object with member `k`, itself an object.
pub open spec fn has_object(v: JVal, k: Seq<char>) -> bool {
    jget(v, k) matches Some(x) && x is Object
}

/// Whether `v` is an object with member `k`, a non-empty array whose first item
/// is an object.
pub open spec fn has_first_object(v: JVal, k: Seq<char>) -> bool {
    jget(v, k) matches Some(x) && x is Array && jitems(x).len() > 0 && jitems(x)[0] is Object
}

/// The shape `decorate_combine_rule` needs: the head's first argument is an
/// aggregation of an expression, a call with a first argument when it is a
/// call; a body, when there is one, is a conjunction of conjuncts.
pub open spec fn combine_rule_shape(rule: JVal) -> bool {
    let head = jfield(rule, "head"@);
    let record = jfield(head, "record"@);
    let fv0 = jitems(jfield(record, "field_value"@))[0];
    let value = jfield(fv0, "value"@);
    let agg = jfield(value, "aggregation"@);
    let expr = jfield(agg, "expression"@);
    &&& rule is Object
    &&& has_object(rule, "head"@)
    &&& has_object(head, "record"@)
    &&& has_first_object(record, "field_value"@)
    &&& has_object(fv0, "value"@)
    &&& has_object(value, "aggregation"@)
    &&& has_object(agg, "expression"@)
    &&& (jget(expr, "call"@) is Some ==> {
        let call = jfield(expr, "call"@);
        let rec2 = jfield(call, "record"@);
        &&& call is Object
        &&& has_object(call, "record"@)
        &&& has_first_object(rec2, "field_value"@)
        &&& jget(jitems(jfield(rec2, "field_value"@))[0], "value"@) is Some
    })
    &&& (jget(rule, "body"@) is Some ==> {
        let body = jfield(rule, "body"@);
        &&& has_object(body, "conjunction"@)
        &&& jfield(jfield(body, "conjunction"@), "conjunct"@) is Array
    })
}

/// The aggregated expression with its first argument entangled, when it is a call.
pub open spec fn entangle_expression(expr: JVal, name: Seq<char>) -> JVal {
    if jget(expr, "call"@) is Some {
        let call = jfield(expr, "call"@);
        let rec2 = jfield(call, "record"@);
        let fvs2 = jfield(rec2, "field_value"@);
        let first = jitems(fvs2)[0];
        let first2 = with_member(first, "value"@, entangled(jfield(first, "value"@), name));
        with_member(expr, "call"@, with_member(call, "record"@, with_member(rec2, "field_value"@, with_item(fvs2, 0, first2))))
    } else {
        expr
    }
}

/// The rule a combine is compiled from, with its aggregation tied to variable
/// `name` (`MagicalEntangle`) and `name in [0]` added to its body.
pub open spec fn decorated_rule(rule: JVal, name: Seq<char>) -> JVal {
    let head = jfield(rule, "head"@);
    let record = jfield(head, "record"@);
    let fvs = jfield(record, "field_value"@);
    let fv0 = jitems(fvs)[0];
    let value = jfield(fv0, "value"@);
    let agg = jfield(value, "aggregation"@);
    let expr = jfield(agg, "expression"@);
    let agg2 = with_member(agg, "expression"@, entangle_expression(expr, name));
    let fv02 = with_member(fv0, "value"@, with_member(value, "aggregation"@, agg2));
    let head2 = with_member(head, "record"@, with_member(record, "field_value"@, with_item(fvs, 0, fv02)));
    let rule1 = with_member(rule, "head"@, head2);
    let body2 = match jget(rule, "body"@) {
        Some(body) => {
            let conj = jfield(body, "conjunction"@);
            with_member(body, "conjunction"@, with_member(conj, "conjunct"@, JVal::Array(jitems(jfield(conj, "conjunct"@)).push(zero_inclusion(name)))))
        },
        None => JVal::Object(seq![("conjunction"@, JVal::Object(seq![("conjunct"@, JVal::Array(seq![zero_inclusion(name)]))]))]),
    };
    with_member(rule1, "body"@, body2)
}

fn set_member(v: &Json, k: &str, x: Json) -> (r: Json)
    requires
        v@ is Object,
    ensures
        r@ == with_member(v@, k@, x@),
{
    match v {
        Json::Object(o) => {
            let mut c = o.clone();
            c.insert(k.to_string(), x);
            Json::Object(c)
        },
        _ => Json::Null,
    }
}

fn set_item(v: &Json, i: usize, x: Json) -> (r: Json)
    requires
        v@ is Array,
        i < jitems(v@).len(),
    ensures
        r@ == with_item(v@, i as int, x@),
{
    match v {
        Json::Array(a) => {
            let mut c: Vec<Json> = Vec::new();
            let mut j: usize = 0;
            proof {
                crate::json::lemma_jv_seq_len(a@);
            }
            while j < a.len()
                invariant
                    j <= a.len(),
                    jv_seq(c@) == jv_seq(a@).take(j as int),
                decreases a.len() - j,
            {
                proof {
                    crate::json::lemma_jv_seq_index(a@, j as int);
                    crate::json::lemma_jv_seq_len(a@);
                }
                let ghost before = c@;
                c.push(a[j].clone());
                assert(c@.drop_last() =~= before);
                assert(jv_seq(a@).take(j + 1) =~= jv_seq(a@).take(j as int).push(jv(a@[j as int])));
                j = j + 1;
            }
            proof {
                crate::json::lemma_jv_seq_len(a@);
                assert(jv_seq(a@).take(j as int) =~= jv_seq(a@));
                crate::json::lemma_jv_seq_len(c@);
            }
            let ghost before = c@;
            let ghost xv = x@;
            c.set(i, x);
            proof {
                crate::json::lemma_jv_seq_len(c@);
                crate::json::lemma_jv_seq_len(before);
                assert forall|m: int| 0 <= m < c@.len() implies #[trigger] jv_seq(c@)[m] == jv_seq(a@).update(i as int, xv)[m] by {
                    crate::json::lemma_jv_seq_index(c@, m);
                    crate::json::lemma_jv_seq_index(before, m);
                }
                assert(jv_seq(c@) =~= jv_seq(a@).update(i as int, xv));
            }
            Json::Array(c)
        },
        _ => Json::Null,
    }
}

/// The expression naming variable `var_name`.
pub fn make_var_expr(var_name: &str) -> (r: Json)
    ensures
        r@ == var_expr(var_name@),
{
    obj1("variable", obj1("var_name", Json::Str(var_name.to_string())))
}


fn entangled_exec(value: Json, name: &str) -> (r: Json)
    ensures
        r@ == entangled(value@, name@),
{
    broadcast use group_json_view;
    let arg0 = obj2("field", Json::Int(0), "value", value);
    let arg1 = obj2("field", Json::Int(1), "value", obj1("expression", make_var_expr(name)));
    let ghost a0 = arg0@;
    let ghost a1 = arg1@;
    let items = vec![arg0, arg1];
    proof {
        assert(jv_seq(items@) =~= seq![a0, a1]);
    }
    let record = obj1("field_value", Json::Array(items));
    let call = obj2("predicate_name", Json::Str("MagicalEntangle".to_string()), "record", record);
    obj1("expression", obj1("call", call))
}

fn zero_inclusion_exec(name: &str) -> (r: Json)
    ensures
        r@ == zero_inclusion(name@),
{
    broadcast use group_json_view;
    let zero = obj1("literal", obj1("the_number", obj1("number", Json::Str("0".to_string()))));
    let ghost z = zero@;
    let items = vec![zero];
    proof {
        assert(jv_seq(items@) =~= seq![z]);
    }
    let list = obj1("literal", obj1("the_list", obj1("element", Json::Array(items))));
    obj1("inclusion", obj2("list", list, "element", make_var_expr(name)))
}

fn member<'b>(v: &'b Json, k: &str) -> (r: &'b Json)
    requires
        jget(v@, k@) is Some,
    ensures
        r@ == jfield(v@, k@),
{
    match v.get(k) {
        Some(x) => x,
        None => v,
    }
}

fn first_item<'b>(v: &'b Json) -> (r: &'b Json)
    requires
        v@ is Array,
        jitems(v@).len() > 0,
    ensures
        r@ == jitems(v@)[0],
{
    match v {
        Json::Array(a) => {
            proof {
                crate::json::lemma_jv_seq_len(a@);
                crate::json::lemma_jv_seq_index(a@, 0);
            }
            &a[0]
        },
        _ => v,
    }
}

/// Tie the aggregation of a combine rule to variable `var_name`: its aggregated
/// call's first argument becomes `MagicalEntangle(argument, var_name)`, and the
/// body gets the conjunct `var_name in [0]`.
pub fn decorate_combine_rule(rule: &Json, var_name: &str) -> (r: Json)
    requires
        combine_rule_shape(rule@),
    ensures
        r@ == decorated_rule(rule@, var_name@),
{
    let head = member(rule, "head");
    let record = member(head, "record");
    let fvs = member(record, "field_value");
    let fv0 = first_item(fvs);
    let value = member(fv0, "value");
    let agg = member(value, "aggregation");
    let expr = member(agg, "expression");
    let expr2: Json = if expr.has("call") {
        let call = member(expr, "call");
        let rec2 = member(call, "record");
        let fvs2 = member(rec2, "field_value");
        let first = first_item(fvs2);
        let value0 = member(first, "value").clone();
        let first2 = set_member(first, "value", entangled_exec(value0, var_name));
        let fvs2b = set_item(fvs2, 0, first2);
        let rec2b = set_member(rec2, "field_value", fvs2b);
        let callb = set_member(call, "record", rec2b);
        set_member(expr, "call", callb)
    } else {
        expr.clone()
    };
    let agg2 = set_member(agg, "expression", expr2);
    let value2 = set_member(value, "aggregation", agg2);
    let fv02 = set_member(fv0, "value", value2);
    let fvs_b = set_item(fvs, 0, fv02);
    let record2 = set_member(record, "field_value", fvs_b);
    let head2 = set_member(head, "record", record2);
    let rule1 = set_member(rule, "head", head2);
    let inclusion = zero_inclusion_exec(var_name);
    let body2: Json = match rule.get("body") {
        Some(body) => {
            let conj = member(body, "conjunction");
            let conjuncts = member(conj, "conjunct");
            let mut items: Vec<Json> = Vec::new();
            match conjuncts.clone() {
                Json::Array(v) => {
                    items = v;
                },
                _ => {},
            }
            let ghost before = items@;
            items.push(inclusion);
            proof {
                assert(items@.drop_last() =~= before);
            }
            let conj2 = set_member(conj, "conjunct", Json::Array(items));
            set_member(body, "conjunction", conj2)
        },
        None => {
            let ghost inc = inclusion@;
            let items = vec![inclusion];
            proof {
                broadcast use group_json_view;
                assert(jv_seq(items@) =~= seq![inc]);
            }
            obj1("conjunction", obj1("conjunct", Json::Array(items)))
        },
    };
    set_member(&rule1, "body", body2)
}


/// The names a run of table allocations gives, from the allocated tables
/// `tables` and the counter `count`, the hints cleaned to `sfx` (see
/// [`NamesAllocator::alloc_table`]).
pub open spec fn tables_yielded(tables: Set<Seq<char>>, count: nat, sfx: Seq<Seq<char>>) -> Seq<Seq<char>>
    decreases sfx.len(),
{
    if sfx.len() == 0 {
        seq![]
    } else {
        let name = table_name(sfx[0], tables, count);
        seq![name] + tables_yielded(tables.insert(name), if name == sfx[0] { count } else { count + 1 }, sfx.drop_first())
    }
}

/// Over any run of table allocations whose cleaned hints do not start with
/// `t_`, starting from tables numbered below the counter (a fresh allocator
/// has none), the names given are pairwise distinct and none was allocated
/// before.
pub proof fn law_allocated_tables_pairwise_distinct(tables: Set<Seq<char>>, count: nat, sfx: Seq<Seq<char>>)
    requires
        tables_numbered(tables, count),
        forall|i: int| 0 <= i < sfx.len() ==> !crate::text::has_prefix(#[trigger] sfx[i], "t_"@),
    ensures
        forall|i: int, j: int| 0 <= i < j < tables_yielded(tables, count, sfx).len() ==> tables_yielded(tables, count, sfx)[i] != tables_yielded(tables, count, sfx)[j],
        forall|i: int| 0 <= i < tables_yielded(tables, count, sfx).len() ==> !tables.contains(#[trigger] tables_yielded(tables, count, sfx)[i]),
        tables_yielded(tables, count, sfx).len() == sfx.len(),
    decreases sfx.len(),
{
    if sfx.len() > 0 {
        assert(!crate::text::has_prefix(sfx[0], "t_"@));
        law_table_names_distinct(sfx[0], tables, count);
        let name = table_name(sfx[0], tables, count);
        let t2 = tables.insert(name);
        let c2 = if name == sfx[0] { count } else { count + 1 };
        let rest_s = sfx.drop_first();
        assert forall|i: int| 0 <= i < rest_s.len() implies !crate::text::has_prefix(#[trigger] rest_s[i], "t_"@) by {
            assert(rest_s[i] == sfx[i + 1]);
        }
        law_allocated_tables_pairwise_distinct(t2, c2, rest_s);
        let rest = tables_yielded(t2, c2, rest_s);
        let v = tables_yielded(tables, count, sfx);
        assert(v == seq![name] + rest);
        assert forall|i: int| 0 <= i < v.len() implies !tables.contains(#[trigger] v[i]) by {
            if i > 0 {
                assert(v[i] == rest[i - 1]);
                assert(!t2.contains(rest[i - 1]));
            }
        }
        assert forall|i: int, j: int| 0 <= i < j < v.len() implies v[i] != v[j] by {
            assert(v[j] == rest[j - 1]);
            assert(!t2.contains(rest[j - 1]));
            if i > 0 {
                assert(v[i] == rest[i - 1]);
            }
        }
    }
}

/// A fresh allocator's tables are numbered below its counter.
pub proof fn law_fresh_tables_numbered()
    ensures
        tables_numbered(Set::empty(), 0),
{
}
} // verus!
