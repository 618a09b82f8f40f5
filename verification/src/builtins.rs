//! Function and operator templates, and how arguments are put into them.

use vstd::prelude::*;
use crate::text::{
    upper_char, upper_char_exec, chars_of, string_of, contains_seq, contains_str, replace_all,
    replace_str, replace_first, replace_first_str, count_occurrences, count_str, join, join_strings,
    int_text, usize_to_string, concat3,
};
use crate::strmap::{last_get, StrMap, sm_get, overlay_get, sm_view};
use crate::tables::{bulk_rows_spec, base_functions_spec, base_infix_spec, bulk_rows, base_built_in_functions, base_infix_operators};
use crate::dialects::{Engine, builtin_entries, infix_entries, Dialect, Templates};

verus! {

// ---------------------------------------------------------------------------
// Names
// ---------------------------------------------------------------------------

/// CamelCase of the rest of a name: `.` and `_` separate words, and the first
/// letter of each word is upper case.
pub open spec fn camel_from(s: Seq<char>, at_start: bool) -> Seq<char>
    decreases s.len(),
{
    if s.len() == 0 {
        seq![]
    } else if s[0] == '.' || s[0] == '_' {
        camel_from(s.drop_first(), true)
    } else {
        seq![if at_start { upper_char(s[0]) } else { s[0] }] + camel_from(s.drop_first(), false)
    }
}

/// CamelCase of a snake_case or dotted name: `hll_count.extract` gives `HllCountExtract`.
pub open spec fn camel_case(s: Seq<char>) -> Seq<char> {
    camel_from(s, true)
}

/// CamelCase of a snake_case or dotted name (ASCII letters are raised).
pub fn to_camel_case(s: &str) -> (r: String)
    ensures
        r@ == camel_case(s@),
{
    let sc = chars_of(s);
    let n = sc.len();
    let mut out: Vec<char> = Vec::new();
    let mut at_start = true;
    let mut i: usize = 0;
    assert(sc@.subrange(0, n as int) =~= s@);
    while i < n
        invariant
            sc@ == s@,
            n == sc.len(),
            i <= n,
            out@ + camel_from(sc@.subrange(i as int, n as int), at_start) == camel_case(s@),
        decreases n - i,
    {
        let c = sc[i];
        let ghost rest = sc@.subrange(i as int, n as int);
        assert(rest.drop_first() =~= sc@.subrange(i + 1, n as int));
        assert(rest[0] == c);
        if c == '.' || c == '_' {
            at_start = true;
        } else {
            let u = if at_start { upper_char_exec(c) } else { c };
            let ghost before = out@;
            out.push(u);
            assert(out@ =~= before + seq![u]);
            assert(out@ + camel_from(sc@.subrange(i + 1, n as int), false) =~= before + (seq![u] + camel_from(sc@.subrange(i + 1, n as int), false)));
            at_start = false;
        }
        i = i + 1;
    }
    assert(sc@.subrange(n as int, n as int) =~= Seq::<char>::empty());
    assert(out@ + camel_from(Seq::<char>::empty(), at_start) =~= out@);
    string_of(&out)
}

// ---------------------------------------------------------------------------
// Tables
// ---------------------------------------------------------------------------

/// The standard functions under their CamelCase names, each applied to its
/// arguments joined by commas.
pub open spec fn bulk_functions_spec() -> Seq<(Seq<char>, Seq<char>)> {
    bulk_rows_spec().map_values(|p: (Seq<char>, Seq<char>)| (camel_case(p.0), p.1 + "(%s)"@))
}

/// The standard functions, keyed by CamelCase name.
pub fn bulk_built_in_functions() -> (r: Vec<(String, String)>)
    ensures
        sm_view(r@) == bulk_functions_spec(),
{
    let rows = bulk_rows();
    let ghost rv = rows@.map_values(|p: (&'static str, &'static str)| (p.0@, p.1@));
    let mut out: Vec<(String, String)> = Vec::new();
    let mut i: usize = 0;
    proof {
        reveal_strlit("(%s)");
    }
    while i < rows.len()
        invariant
            i <= rows.len(),
            rv == rows@.map_values(|p: (&'static str, &'static str)| (p.0@, p.1@)),
            rv == bulk_rows_spec(),
            sm_view(out@) == bulk_functions_spec().take(i as int),
        decreases rows.len() - i,
    {
        let (f, sql) = rows[i];
        let camel = to_camel_case(f);
        let tmpl = crate::text::concat2(sql, "(%s)");
        let ghost before = out@;
        out.push((camel, tmpl));
        proof {
            assert(rv[i as int] == (f@, sql@));
            assert(bulk_functions_spec()[i as int] == (camel_case(f@), sql@ + "(%s)"@));
            assert(sm_view(out@) =~= sm_view(before).push((camel_case(f@), sql@ + "(%s)"@)));
            assert(sm_view(out@) =~= bulk_functions_spec().take(i + 1));
        }
        i = i + 1;
    }
    assert(bulk_functions_spec().take(i as int) =~= bulk_functions_spec());
    out
}

/// A template that is present and not empty (an empty template disables a name).
pub open spec fn usable(t: Option<Seq<char>>) -> Option<Seq<char>> {
    match t {
        Some(v) => if v.len() > 0 { Some(v) } else { None },
        None => None,
    }
}

/// Template of function `name` on engine `e`: the dialect's entries override the
/// built-in functions, which override the standard functions.
pub open spec fn layered_function(e: Engine, name: Seq<char>) -> Option<Seq<char>> {
    match last_get(builtin_entries(e), name) {
        Some(v) => Some(v),
        None => match last_get(base_functions_spec(), name) {
            Some(v) => Some(v),
            None => last_get(bulk_functions_spec(), name),
        },
    }
}

/// Template of infix operator `op` on engine `e`: the dialect's entries override
/// the built-in ones.
pub open spec fn layered_infix(e: Engine, op: Seq<char>) -> Option<Seq<char>> {
    match last_get(infix_entries(e), op) {
        Some(v) => Some(v),
        None => last_get(base_infix_spec(), op),
    }
}

pub open spec fn function_template(e: Engine, name: Seq<char>) -> Option<Seq<char>> {
    usable(layered_function(e, name))
}

pub open spec fn infix_template(e: Engine, op: Seq<char>) -> Option<Seq<char>> {
    usable(layered_infix(e, op))
}

/// The functions of a dialect, merged over the built-in and standard ones.
pub fn function_table<D: Dialect + ?Sized>(dialect: &D) -> (r: StrMap)
    ensures
        forall|q: Seq<char>| #[trigger] sm_get(r@, q) == layered_function(dialect.kind(), q),
{
    let mut m = StrMap::new();
    let bulk = bulk_built_in_functions();
    m.insert_all(&bulk);
    let ghost m1 = m@;
    let base = base_built_in_functions();
    m.insert_all_str(&base);
    let ghost m2 = m@;
    let own = dialect.built_in_functions();
    m.insert_all_str(&own.entries);
    assert forall|q: Seq<char>| #[trigger] sm_get(m@, q) == layered_function(dialect.kind(), q) by {
        assert(sm_get(m1, q) == overlay_get(bulk_functions_spec(), Seq::<(Seq<char>, Seq<char>)>::empty(), q));
        assert(sm_get(m2, q) == overlay_get(base_functions_spec(), m1, q));
        assert(sm_get(m@, q) == overlay_get(builtin_entries(dialect.kind()), m2, q));
    }
    m
}

/// The infix operators of a dialect, merged over the built-in ones.
pub fn infix_table<D: Dialect + ?Sized>(dialect: &D) -> (r: StrMap)
    ensures
        forall|q: Seq<char>| #[trigger] sm_get(r@, q) == layered_infix(dialect.kind(), q),
{
    let mut m = StrMap::new();
    let base = base_infix_operators();
    m.insert_all_str(&base);
    let ghost m1 = m@;
    let own = dialect.infix_operators();
    m.insert_all_str(&own.entries);
    assert forall|q: Seq<char>| #[trigger] sm_get(m@, q) == layered_infix(dialect.kind(), q) by {
        assert(sm_get(m1, q) == overlay_get(base_infix_spec(), Seq::<(Seq<char>, Seq<char>)>::empty(), q));
        assert(sm_get(m@, q) == overlay_get(infix_entries(dialect.kind()), m1, q));
    }
    m
}

// ---------------------------------------------------------------------------
// Templates
// ---------------------------------------------------------------------------

/// The marker `{i}` that stands for argument `i`.
pub open spec fn index_marker(i: int) -> Seq<char> {
    "{"@ + int_text(i) + "}"@
}

/// `t` with `{0}` replaced by `args[0]`, then `{1}` by `args[1]`, and so on for
/// the first `n` arguments.
pub open spec fn replace_indexed(t: Seq<char>, args: Seq<Seq<char>>, n: nat) -> Seq<char>
    decreases n,
{
    if n == 0 {
        t
    } else {
        replace_all(replace_indexed(t, args, (n - 1) as nat), index_marker(n - 1), args[n - 1])
    }
}

/// `t` with each `%s`, from left to right, replaced by the next argument from
/// position `k`; a `%s` left without an argument stays.
pub open spec fn subst_pct(t: Seq<char>, args: Seq<Seq<char>>, k: nat) -> Seq<char>
    decreases t.len(),
{
    if t.len() == 0 {
        seq![]
    } else if t.len() >= 2 && t[0] == '%' && t[1] == 's' {
        if k < args.len() {
            args[k as int] + subst_pct(t.subrange(2, t.len() as int), args, k + 1)
        } else {
            "%s"@ + subst_pct(t.subrange(2, t.len() as int), args, k)
        }
    } else {
        seq![t[0]] + subst_pct(t.drop_first(), args, k)
    }
}

/// A template applied to arguments: indexed markers `{0}`, `{1}`, `{2}` when the
/// template has one; otherwise a single `%s` takes all arguments joined by
/// commas, and several `%s` take one argument each.
pub open spec fn apply_template_text(t: Seq<char>, args: Seq<Seq<char>>) -> Seq<char> {
    if contains_seq(t, "{0}"@) || contains_seq(t, "{1}"@) || contains_seq(t, "{2}"@) {
        replace_indexed(t, args, args.len())
    } else if count_occurrences(t, "%s"@) == 1 && args.len() > 1 {
        replace_first(t, "%s"@, join(args, ", "@))
    } else {
        subst_pct(t, args, 0)
    }
}

pub open spec fn views(v: Seq<String>) -> Seq<Seq<char>> {
    v.map_values(|s: String| s@)
}

/// `t` with the markers of the first `n` arguments replaced in turn.
pub fn replace_indexed_exec(t: &str, args: &Vec<String>, n: usize) -> (r: String)
    requires
        n <= args.len(),
    ensures
        r@ == replace_indexed(t@, views(args@), n as nat),
{
    let mut acc = t.to_string();
    let mut i: usize = 0;
    proof {
        reveal_strlit("{");
        reveal_strlit("}");
    }
    while i < n
        invariant
            n <= args.len(),
            i <= n,
            acc@ == replace_indexed(t@, views(args@), i as nat),
        decreases n - i,
    {
        let num = usize_to_string(i);
        let marker = concat3("{", num.as_str(), "}");
        assert(marker@ == index_marker(i as int));
        acc = replace_str(acc.as_str(), marker.as_str(), args[i].as_str());
        i = i + 1;
    }
    acc
}

/// `t` with each `%s` replaced by the next argument.
pub fn subst_pct_exec(t: &str, args: &Vec<String>) -> (r: String)
    ensures
        r@ == subst_pct(t@, views(args@), 0),
{
    let tc = chars_of(t);
    let n = tc.len();
    let ghost av = views(args@);
    let mut out: Vec<char> = Vec::new();
    let mut i: usize = 0;
    let mut k: usize = 0;
    assert(tc@.subrange(0, n as int) =~= t@);
    proof {
        reveal_strlit("%s");
    }
    while i < n
        invariant
            tc@ == t@,
            n == tc.len(),
            i <= n,
            av == views(args@),
            k <= args.len(),
            out@ + subst_pct(tc@.subrange(i as int, n as int), av, k as nat) == subst_pct(t@, av, 0),
        decreases n - i,
    {
        let ghost rest = tc@.subrange(i as int, n as int);
        let ghost before = out@;
        if i + 1 < n && tc[i] == '%' && tc[i + 1] == 's' {
            assert(rest.subrange(2, rest.len() as int) =~= tc@.subrange(i + 2, n as int));
            if k < args.len() {
                let a = chars_of(args[k].as_str());
                crate::text::extend_chars(&mut out, &a);
                assert(out@ + subst_pct(tc@.subrange(i + 2, n as int), av, (k + 1) as nat) =~= before + (av[k as int] + subst_pct(tc@.subrange(i + 2, n as int), av, (k + 1) as nat)));
                k = k + 1;
            } else {
                proof {
                    reveal_strlit("%s");
                }
                out.push('%');
                out.push('s');
                assert(out@ + subst_pct(tc@.subrange(i + 2, n as int), av, k as nat) =~= before + ("%s"@ + subst_pct(tc@.subrange(i + 2, n as int), av, k as nat)));
            }
            i = i + 2;
        } else {
            assert(rest.drop_first() =~= tc@.subrange(i + 1, n as int));
            out.push(tc[i]);
            assert(out@ + subst_pct(tc@.subrange(i + 1, n as int), av, k as nat) =~= before + (seq![rest[0]] + subst_pct(tc@.subrange(i + 1, n as int), av, k as nat)));
            i = i + 1;
        }
    }
    assert(tc@.subrange(n as int, n as int) =~= Seq::<char>::empty());
    assert(out@ + subst_pct(Seq::<char>::empty(), av, k as nat) =~= out@);
    string_of(&out)
}

/// A template applied to the arguments' SQL.
pub fn apply_template(t: &str, args: &[String]) -> (r: String)
    ensures
        r@ == apply_template_text(t@, views(args@)),
{
    let mut v: Vec<String> = Vec::new();
    let mut i: usize = 0;
    while i < args.len()
        invariant
            i <= args.len(),
            views(v@) == views(args@).take(i as int),
        decreases args.len() - i,
    {
        let ghost before = v@;
        v.push(args[i].clone());
        assert(views(v@) =~= views(before).push(args@[i as int]@));
        assert(views(args@).take(i + 1) =~= views(args@).take(i as int).push(args@[i as int]@));
        i = i + 1;
    }
    assert(views(args@).take(i as int) =~= views(args@));
    let args = &v;
    proof {
        reveal_strlit("%s");
    }
    if contains_str(t, "{0}") || contains_str(t, "{1}") || contains_str(t, "{2}") {
        replace_indexed_exec(t, args, args.len())
    } else if count_str(t, "%s") == 1 && args.len() > 1 {
        let joined = join_strings(args, ", ");
        replace_first_str(t, "%s", joined.as_str())
    } else {
        subst_pct_exec(t, args)
    }
}

// ---------------------------------------------------------------------------
// Arity and analytic functions
// ---------------------------------------------------------------------------

/// Number of arguments, as an inclusive range, that a built-in function accepts;
/// `None` for functions whose arity is not checked.
pub open spec fn arity_range(f: Seq<char>) -> Option<(int, int)> {
    if f == "If"@ {
        Some((3, 3))
    } else if f == "RegexpExtract"@ || f == "Like"@ || f == "ParseTimestamp"@ || f == "FormatTimestamp"@
        || f == "TimestampAddDays"@ || f == "Split"@ || f == "Element"@ || f == "Concat"@
        || f == "DateAddDay"@ || f == "DateDiffDay"@ || f == "Join"@ || f == "MagicalEntangle"@
        || f == "ArrayConcat"@ {
        Some((2, 2))
    } else {
        None
    }
}

pub fn built_in_function_arity_range(f: &str) -> (r: Option<(usize, usize)>)
    ensures
        match r {
            Some((lo, hi)) => arity_range(f@) == Some((lo as int, hi as int)),
            None => arity_range(f@) is None,
        },
{
    let eq = |a: &str| -> (b: bool) ensures b == (f@ == a@) { crate::text::str_eq(f, a) };
    if eq("If") {
        Some((3, 3))
    } else if eq("RegexpExtract") || eq("Like") || eq("ParseTimestamp") || eq("FormatTimestamp")
        || eq("TimestampAddDays") || eq("Split") || eq("Element") || eq("Concat")
        || eq("DateAddDay") || eq("DateDiffDay") || eq("Join") || eq("MagicalEntangle")
        || eq("ArrayConcat") {
        Some((2, 2))
    } else {
        None
    }
}

/// SQL window template of an analytic function; `{0}` is the value, `{1}` the
/// partition, `{2}` the order and `{3}` the window size.
pub open spec fn analytic_template(name: Seq<char>) -> Option<Seq<char>> {
    if name == "CumulativeSum"@ {
        Some("SUM({0}) OVER (PARTITION BY {1} ORDER BY {2} ROWS BETWEEN UNBOUNDED PRECEDING AND CURRENT ROW)"@)
    } else if name == "CumulativeMax"@ {
        Some("MAX({0}) OVER (PARTITION BY {1} ORDER BY {2} ROWS BETWEEN UNBOUNDED PRECEDING AND CURRENT ROW)"@)
    } else if name == "CumulativeMin"@ {
        Some("MIN({0}) OVER (PARTITION BY {1} ORDER BY {2} ROWS BETWEEN UNBOUNDED PRECEDING AND CURRENT ROW)"@)
    } else if name == "WindowSum"@ {
        Some("SUM({0}) OVER (PARTITION BY {1} ORDER BY {2} ROWS BETWEEN {3} PRECEDING AND CURRENT ROW)"@)
    } else if name == "WindowMax"@ {
        Some("MAX({0}) OVER (PARTITION BY {1} ORDER BY {2} ROWS BETWEEN {3} PRECEDING AND CURRENT ROW)"@)
    } else if name == "WindowMin"@ {
        Some("MIN({0}) OVER (PARTITION BY {1} ORDER BY {2} ROWS BETWEEN {3} PRECEDING AND CURRENT ROW)"@)
    } else {
        None
    }
}

pub fn analytic_function_template(name: &str) -> (r: Option<&'static str>)
    ensures
        match r {
            Some(t) => analytic_template(name@) == Some(t@),
            None => analytic_template(name@) is None,
        },
{
    let eq = |a: &str| -> (b: bool) ensures b == (name@ == a@) { crate::text::str_eq(name, a) };
    if eq("CumulativeSum") {
        Some("SUM({0}) OVER (PARTITION BY {1} ORDER BY {2} ROWS BETWEEN UNBOUNDED PRECEDING AND CURRENT ROW)")
    } else if eq("CumulativeMax") {
        Some("MAX({0}) OVER (PARTITION BY {1} ORDER BY {2} ROWS BETWEEN UNBOUNDED PRECEDING AND CURRENT ROW)")
    } else if eq("CumulativeMin") {
        Some("MIN({0}) OVER (PARTITION BY {1} ORDER BY {2} ROWS BETWEEN UNBOUNDED PRECEDING AND CURRENT ROW)")
    } else if eq("WindowSum") {
        Some("SUM({0}) OVER (PARTITION BY {1} ORDER BY {2} ROWS BETWEEN {3} PRECEDING AND CURRENT ROW)")
    } else if eq("WindowMax") {
        Some("MAX({0}) OVER (PARTITION BY {1} ORDER BY {2} ROWS BETWEEN {3} PRECEDING AND CURRENT ROW)")
    } else if eq("WindowMin") {
        Some("MIN({0}) OVER (PARTITION BY {1} ORDER BY {2} ROWS BETWEEN {3} PRECEDING AND CURRENT ROW)")
    } else {
        None
    }
}

// ---------------------------------------------------------------------------
// Ordering positional arguments
// ---------------------------------------------------------------------------

/// `x` inserted into `s` after every element whose key is not greater.
pub open spec fn insert_by_key(s: Seq<(i64, usize)>, x: (i64, usize)) -> Seq<(i64, usize)>
    decreases s.len(),
{
    if s.len() == 0 {
        seq![x]
    } else if s.last().0 <= x.0 {
        s.push(x)
    } else {
        insert_by_key(s.drop_last(), x).push(s.last())
    }
}

/// `s` sorted by key, elements with equal keys kept in their order.
pub open spec fn sort_by_key(s: Seq<(i64, usize)>) -> Seq<(i64, usize)>
    decreases s.len(),
{
    if s.len() == 0 {
        s
    } else {
        insert_by_key(sort_by_key(s.drop_last()), s.last())
    }
}

proof fn lemma_insert_by_key(s: Seq<(i64, usize)>, x: (i64, usize), j: int)
    requires
        0 <= j <= s.len(),
        j == 0 || s[j - 1].0 <= x.0,
        forall|m: int| j <= m < s.len() ==> s[m].0 > x.0,
    ensures
        insert_by_key(s, x) == s.take(j).push(x) + s.skip(j),
    decreases s.len(),
{
    if s.len() == j {
        if s.len() == 0 {
            assert(s.take(j).push(x) + s.skip(j) =~= seq![x]);
        } else {
            assert(s.take(j) =~= s);
            assert(s.take(j).push(x) + s.skip(j) =~= s.push(x));
        }
    } else {
        lemma_insert_by_key(s.drop_last(), x, j);
        assert(s.drop_last().take(j) =~= s.take(j));
        assert((s.drop_last().take(j).push(x) + s.drop_last().skip(j)).push(s.last()) =~= s.take(j).push(x) + s.skip(j));
    }
}

/// Pairs sorted by their first component; equal keys keep their order.
pub fn sort_pairs_by_key(v: &Vec<(i64, usize)>) -> (r: Vec<(i64, usize)>)
    ensures
        r@ == sort_by_key(v@),
{
    let mut out: Vec<(i64, usize)> = Vec::new();
    let mut i: usize = 0;
    while i < v.len()
        invariant
            i <= v.len(),
            out@ == sort_by_key(v@.take(i as int)),
        decreases v.len() - i,
    {
        let x = v[i];
        let mut j: usize = out.len();
        while j > 0 && out[j - 1].0 > x.0
            invariant
                j <= out.len(),
                forall|m: int| j <= m < out.len() ==> out@[m].0 > x.0,
            decreases j,
        {
            j = j - 1;
        }
        proof {
            lemma_insert_by_key(out@, x, j as int);
            assert(v@.take(i + 1).drop_last() =~= v@.take(i as int));
            assert(v@.take(i + 1).last() == x);
        }
        let ghost before = out@;
        out.insert(j, x);
        assert(out@ =~= before.take(j as int).push(x) + before.skip(j as int));
        i = i + 1;
    }
    assert(v@.take(i as int) =~= v@);
    out
}

} // verus!
