//! Functors: values of annotations and the recursion programs they unfold to.

use vstd::prelude::*;
use crate::text::{text_lt, text_less, lemma_text_lt_irreflexive, lemma_text_lt_transitive, lemma_text_lt_total, lemma_text_lt_asymmetric, int_text, int_to_string, join, join_strings, concat_all, concat_seq, chars_of, chars_eq, str_eq, concat2, concat3, concat4, concat5};
use crate::strmap::{names_view, NameSet, StrMap, set_add};
use crate::{CompileError, CompileResult};
use crate::json::{Json, JVal, JsonObject, jv, jv_seq, jv_entries, jget, jfield, jstr, jint, jitems, jentries, has_key, opt_field, opt_elements, opt_str, group_json_view, lemma_jv_seq_index, lemma_jv_seq_len, lemma_jv_entries_index, lemma_jv_entries_len};
use crate::annotations::name_lists_view;
use crate::strmap::{kv_get, kv_insert};

verus! {

/// A scalar value of an annotation argument.
#[derive(Debug)]
pub enum SerdeLikeValue {
    Int(i64),
    Bool(bool),
    Str(String),
}

impl SerdeLikeValue {
    pub fn as_i64(&self) -> (r: Option<i64>)
        ensures
            match *self {
                SerdeLikeValue::Int(n) => r == Some(n),
                _ => r is None,
            },
    {
        match self {
            SerdeLikeValue::Int(n) => Some(*n),
            _ => None,
        }
    }

    pub fn as_bool(&self) -> (r: Option<bool>)
        ensures
            match *self {
                SerdeLikeValue::Bool(b) => r == Some(b),
                _ => r is None,
            },
    {
        match self {
            SerdeLikeValue::Bool(b) => Some(*b),
            _ => None,
        }
    }
}


/// The line defining step `i + 1` of the unfolded recursion of `p`.
pub open spec fn recursion_step(p: Seq<char>, i: int) -> Seq<char> {
    p + "_r"@ + int_text(i + 1) + " := "@ + p + "_recursive_head("@ + p + "_recursive: "@ + p + "_r"@ + int_text(i) + ");"@
}

/// The lines of the program unfolding the recursion of `p` to `depth` steps: step
/// 0 starts from `nil`, each step feeds the previous one to the recursive head,
/// and `p` is the last step.
pub open spec fn recursion_lines(p: Seq<char>, depth: int) -> Seq<Seq<char>> {
    let steps: nat = if depth > 0 { depth as nat } else { 0 };
    seq![p + "_r0 := "@ + p + "_recursive_head("@ + p + "_recursive: nil);"@]
        + Seq::new(steps, |i: int| recursion_step(p, i))
        + seq![p + " := "@ + p + "_r"@ + int_text(depth) + "();"@]
}

/// The program unfolding the recursion of `predicate` to `depth` steps.
pub fn get_recursion_functor(depth: i64, predicate: &str) -> (r: String)
    ensures
        r@ == join(recursion_lines(predicate@, depth as int), "\n"@),
{
    let p = predicate;
    let ghost pv = p@;
    let mut lines: Vec<String> = Vec::new();
    lines.push(concat_all(&[p, "_r0 := ", p, "_recursive_head(", p, "_recursive: nil);"]));
    proof {
        reveal_with_fuel(concat_seq, 7);
    }
    let ghost first = pv + "_r0 := "@ + pv + "_recursive_head("@ + pv + "_recursive: nil);"@;
    assert(lines@.map_values(|l: String| l@) =~= seq![first]);
    let mut i: i64 = 0;
    while i < depth
        invariant
            0 <= i,
            i <= depth || (depth < 0 && i == 0),
            pv == p@,
            lines@.map_values(|l: String| l@) == seq![first] + Seq::new(i as nat, |j: int| recursion_step(pv, j)),
        decreases depth - i,
    {
        let prev = int_to_string(i);
        let next = int_to_string(i + 1);
        let line = concat_all(&[p, "_r", next.as_str(), " := ", p, "_recursive_head(", p, "_recursive: ", p, "_r", prev.as_str(), ");"]);
        proof {
            reveal_with_fuel(concat_seq, 13);
        }
        let ghost before = lines@.map_values(|l: String| l@);
        lines.push(line);
        proof {
            assert(line@ =~= recursion_step(pv, i as int));
            assert(lines@.map_values(|l: String| l@) =~= before.push(line@));
            assert(Seq::new((i + 1) as nat, |j: int| recursion_step(pv, j)) =~= Seq::new(i as nat, |j: int| recursion_step(pv, j)).push(recursion_step(pv, i as int)));
        }
        i = i + 1;
    }
    let d = int_to_string(depth);
    let last = concat_all(&[p, " := ", p, "_r", d.as_str(), "();"]);
    proof {
        reveal_with_fuel(concat_seq, 6);
    }
    let ghost before = lines@.map_values(|l: String| l@);
    lines.push(last);
    proof {
        let steps: nat = if depth > 0 { depth as nat } else { 0 };
        assert(i as nat == steps);
        assert(lines@.map_values(|l: String| l@) =~= before.push(last@));
        assert(lines@.map_values(|l: String| l@) =~= recursion_lines(pv, depth as int));
    }
    join_strings(&lines, "\n")
}


// ---------------------------------------------------------------------------
// Names in sorted order
// ---------------------------------------------------------------------------

/// `s` with `x` inserted before the first element that is not below it, unless
/// that element is `x`.
pub open spec fn insert_sorted(s: Seq<Seq<char>>, x: Seq<char>) -> Seq<Seq<char>>
    decreases s.len(),
{
    if s.len() == 0 {
        seq![x]
    } else if s[0] == x {
        s
    } else if text_lt(x, s[0]) {
        seq![x] + s
    } else {
        seq![s[0]] + insert_sorted(s.drop_first(), x)
    }
}

/// The names of `s` that `within` holds, in sorted order without repetitions.
pub open spec fn sorted_within(s: Seq<Seq<char>>, within: Seq<Seq<char>>) -> Seq<Seq<char>>
    decreases s.len(),
{
    if s.len() == 0 {
        seq![]
    } else if within.contains(s.last()) {
        insert_sorted(sorted_within(s.drop_last(), within), s.last())
    } else {
        sorted_within(s.drop_last(), within)
    }
}

/// The names of `s` in sorted order without repetitions.
pub open spec fn sorted_names(s: Seq<Seq<char>>) -> Seq<Seq<char>> {
    sorted_within(s, s)
}

proof fn lemma_insert_sorted_at(s: Seq<Seq<char>>, x: Seq<char>, j: int)
    requires
        0 <= j <= s.len(),
        forall|k: int| 0 <= k < j ==> s[k] != x && !text_lt(x, s[k]),
        j < s.len() ==> (s[j] == x || text_lt(x, s[j])),
    ensures
        insert_sorted(s, x) == if j < s.len() && s[j] == x {
            s
        } else {
            s.take(j) + seq![x] + s.skip(j)
        },
    decreases j,
{
    if j == 0 {
        assert(s.take(0) + seq![x] + s.skip(0) =~= seq![x] + s);
    } else {
        let t = s.drop_first();
        assert forall|k: int| 0 <= k < j - 1 implies t[k] != x && !text_lt(x, t[k]) by {
            assert(t[k] == s[k + 1]);
        }
        lemma_insert_sorted_at(t, x, j - 1);
        if j < s.len() && s[j] == x {
            assert(seq![s[0]] + t =~= s);
        } else {
            assert(seq![s[0]] + (t.take(j - 1) + seq![x] + t.skip(j - 1)) =~= s.take(j) + seq![x] + s.skip(j));
        }
    }
}

/// Insert `x` into `v` as [`insert_sorted`] says.
fn insert_sorted_exec(v: &mut Vec<String>, x: String)
    ensures
        names_view(final(v)@) == insert_sorted(names_view(old(v)@), x@),
{
    let ghost s = names_view(v@);
    let mut j: usize = 0;
    while j < v.len() && !crate::text::str_eq(v[j].as_str(), x.as_str()) && !text_less(x.as_str(), v[j].as_str())
        invariant
            j <= v.len(),
            s == names_view(v@),
            v@ == old(v)@,
            forall|k: int| 0 <= k < j ==> s[k] != x@ && !text_lt(x@, s[k]),
        decreases v.len() - j,
    {
        j = j + 1;
    }
    proof {
        lemma_insert_sorted_at(s, x@, j as int);
    }
    if j < v.len() && crate::text::str_eq(v[j].as_str(), x.as_str()) {
        return;
    }
    let ghost xv = x@;
    v.insert(j, x);
    assert(names_view(v@) =~= s.take(j as int) + seq![xv] + s.skip(j as int));
}

/// Whether `names` holds `x`.
pub(crate) fn names_contain(names: &Vec<String>, x: &str) -> (r: bool)
    ensures
        r == names_view(names@).contains(x@),
{
    let mut i: usize = 0;
    while i < names.len()
        invariant
            i <= names.len(),
            forall|k: int| 0 <= k < i ==> names_view(names@)[k] != x@,
        decreases names.len() - i,
    {
        if crate::text::str_eq(names[i].as_str(), x) {
            assert(names_view(names@)[i as int] == x@);
            return true;
        }
        i = i + 1;
    }
    false
}

/// The names of `s` that `within` holds, sorted without repetitions.
pub(crate) fn sorted_within_exec(s: &Vec<String>, within: &Vec<String>) -> (r: Vec<String>)
    ensures
        names_view(r@) == sorted_within(names_view(s@), names_view(within@)),
{
    let ghost sv = names_view(s@);
    let ghost wv = names_view(within@);
    let mut out: Vec<String> = Vec::new();
    let mut i: usize = 0;
    assert(sv.take(0) =~= Seq::<Seq<char>>::empty());
    assert(names_view(out@) =~= Seq::<Seq<char>>::empty());
    while i < s.len()
        invariant
            i <= s.len(),
            sv == names_view(s@),
            wv == names_view(within@),
            names_view(out@) == sorted_within(sv.take(i as int), wv),
        decreases s.len() - i,
    {
        proof {
            assert(sv.take(i + 1).drop_last() =~= sv.take(i as int));
            assert(sv.take(i + 1).last() == s@[i as int]@);
        }
        if names_contain(within, s[i].as_str()) {
            insert_sorted_exec(&mut out, s[i].clone());
        }
        i = i + 1;
    }
    assert(sv.take(i as int) =~= sv);
    out
}


// ---------------------------------------------------------------------------
// Flat recursion
// ---------------------------------------------------------------------------

/// Argument `a` of step `i` of a flat recursion: `nil` at step 0, else `a`'s
/// previous step.
pub open spec fn flat_arg(a: Seq<char>, i: int) -> Seq<char> {
    a + "_RZero: "@ + if i == 0 { "nil"@ } else { a + "_fr"@ + int_text(i - 1) }
}

pub open spec fn flat_args(deps: Seq<Seq<char>>, i: int) -> Seq<Seq<char>> {
    deps.map_values(|a: Seq<char>| flat_arg(a, i))
}

/// The line defining step `i` of `p`.
pub open spec fn flat_line(p: Seq<char>, i: int, deps: Seq<Seq<char>>) -> Seq<char> {
    p + "_fr"@ + int_text(i) + " := "@ + p + "_ROne("@ + join(flat_args(deps, i), ", "@) + ");"@
}

/// The lines for `p`: steps 0 to `depth`, then `p` as the last step.
pub open spec fn flat_block(p: Seq<char>, depth: int, deps: Seq<Seq<char>>) -> Seq<Seq<char>> {
    let n: nat = if depth >= 0 { (depth + 1) as nat } else { 0 };
    Seq::new(n, |i: int| flat_line(p, i, deps)) + seq![p + " := "@ + p + "_fr"@ + int_text(depth) + "();"@]
}

/// The direct arguments listed for `p`; none when it is not listed.
pub open spec fn direct_of(direct: Seq<(Seq<char>, Seq<Seq<char>>)>, p: Seq<char>) -> Seq<Seq<char>> {
    match kv_get(direct, p) {
        Some(d) => d,
        None => seq![],
    }
}

/// The blocks of the predicates `ps`, in order; each step of a predicate takes
/// its direct arguments within the cover, in sorted order.
pub open spec fn flat_blocks(ps: Seq<Seq<char>>, depth: int, cover: Seq<Seq<char>>, direct: Seq<(Seq<char>, Seq<Seq<char>>)>) -> Seq<Seq<char>>
    decreases ps.len(),
{
    if ps.len() == 0 {
        seq![]
    } else {
        flat_blocks(ps.drop_last(), depth, cover, direct) + flat_block(
            ps.last(),
            depth,
            sorted_within(direct_of(direct, ps.last()), cover),
        )
    }
}

/// The direct arguments listed for `p`.
fn direct_args_for<'b>(direct: &'b Vec<(String, Vec<String>)>, p: &str) -> (r: Option<&'b Vec<String>>)
    ensures
        match r {
            Some(d) => kv_get(name_lists_view(direct@), p@) == Some(names_view(d@)),
            None => kv_get(name_lists_view(direct@), p@) is None,
        },
{
    let ghost dv = name_lists_view(direct@);
    let mut i: usize = 0;
    assert(dv.skip(0) =~= dv);
    while i < direct.len()
        invariant
            i <= direct.len(),
            dv == name_lists_view(direct@),
            kv_get(dv, p@) == kv_get(dv.skip(i as int), p@),
        decreases direct.len() - i,
    {
        proof {
            assert(dv.skip(i as int).drop_first() =~= dv.skip(i + 1));
            assert(dv.skip(i as int)[0] == dv[i as int]);
        }
        if crate::text::str_eq(direct[i].0.as_str(), p) {
            return Some(&direct[i].1);
        }
        i = i + 1;
    }
    assert(dv.skip(i as int).len() == 0);
    None
}

/// The lines of step `i` of each predicate and of the last step.
fn flat_line_exec(p: &str, i: i64, deps: &Vec<String>) -> (r: String)
    requires
        i >= 0,
    ensures
        r@ == flat_line(p@, i as int, names_view(deps@)),
{
    let ghost dv = names_view(deps@);
    let mut args: Vec<String> = Vec::new();
    let mut k: usize = 0;
    assert(names_view(args@) =~= flat_args(dv, i as int).take(0));
    while k < deps.len()
        invariant
            k <= deps.len(),
            i >= 0,
            dv == names_view(deps@),
            names_view(args@) == flat_args(dv, i as int).take(k as int),
        decreases deps.len() - k,
    {
        let a = deps[k].as_str();
        let arg = if i == 0 {
            concat3(a, "_RZero: ", "nil")
        } else {
            let prev = int_to_string(i - 1);
            concat_all(&[a, "_RZero: ", a, "_fr", prev.as_str()])
        };
        proof {
            reveal_with_fuel(concat_seq, 6);
            assert(arg@ =~= flat_arg(dv[k as int], i as int));
        }
        let ghost before = names_view(args@);
        args.push(arg);
        assert(names_view(args@) =~= before.push(arg@));
        assert(flat_args(dv, i as int).take(k + 1) =~= flat_args(dv, i as int).take(k as int).push(flat_arg(dv[k as int], i as int)));
        k = k + 1;
    }
    assert(flat_args(dv, i as int).take(k as int) =~= flat_args(dv, i as int));
    let joined = join_strings(&args, ", ");
    assert(args@.map_values(|x: String| x@) =~= names_view(args@));
    let d = int_to_string(i);
    let line = concat_all(&[p, "_fr", d.as_str(), " := ", p, "_ROne(", joined.as_str(), ");"]);
    proof {
        reveal_with_fuel(concat_seq, 9);
    }
    assert(line@ =~= flat_line(p@, i as int, dv));
    line
}

/// The program unfolding a recursion over the predicates of `cover` to `depth`
/// steps, each step reading the previous steps of its direct arguments.
pub fn get_flat_recursion_functor(depth: i64, cover: &Vec<String>, direct_args_of: &Vec<(String, Vec<String>)>) -> (r: String)
    ensures
        r@ == join(
            flat_blocks(sorted_names(names_view(cover@)), depth as int, names_view(cover@), name_lists_view(direct_args_of@)),
            "\n"@,
        ),
{
    let ghost cv = names_view(cover@);
    let ghost dv = name_lists_view(direct_args_of@);
    let ps = sorted_within_exec(cover, cover);
    let ghost pv = names_view(ps@);
    let mut lines: Vec<String> = Vec::new();
    let mut q: usize = 0;
    assert(pv.take(0) =~= Seq::<Seq<char>>::empty());
    assert(names_view(lines@) =~= Seq::<Seq<char>>::empty());
    while q < ps.len()
        invariant
            q <= ps.len(),
            cv == names_view(cover@),
            dv == name_lists_view(direct_args_of@),
            pv == names_view(ps@),
            names_view(lines@) == flat_blocks(pv.take(q as int), depth as int, cv, dv),
        decreases ps.len() - q,
    {
        let p = ps[q].as_str();
        let empty: Vec<String> = Vec::new();
        let listed: &Vec<String> = match direct_args_for(direct_args_of, p) {
            Some(d) => d,
            None => &empty,
        };
        assert(names_view(listed@) == direct_of(dv, p@)) by {
            assert(names_view(empty@) =~= Seq::<Seq<char>>::empty());
        }
        let deps = sorted_within_exec(listed, cover);
        let ghost sd = names_view(deps@);
        let ghost start = names_view(lines@);
        if depth >= 0 {
            let mut i: i64 = 0;
            loop
                invariant_except_break
                    0 <= i <= depth,
                    sd == names_view(deps@),
                    names_view(lines@) == start + Seq::new(i as nat, |j: int| flat_line(p@, j, sd)),
                ensures
                    names_view(lines@) == start + Seq::new((depth + 1) as nat, |j: int| flat_line(p@, j, sd)),
                decreases depth - i,
            {
                let line = flat_line_exec(p, i, &deps);
                let ghost before = names_view(lines@);
                lines.push(line);
                assert(names_view(lines@) =~= before.push(line@));
                assert(Seq::new((i + 1) as nat, |j: int| flat_line(p@, j, sd)) =~= Seq::new(i as nat, |j: int| flat_line(p@, j, sd)).push(flat_line(p@, i as int, sd)));
                assert(names_view(lines@) =~= start + Seq::new((i + 1) as nat, |j: int| flat_line(p@, j, sd)));
                if i == depth {
                    break;
                }
                i = i + 1;
            }
        } else {
            assert(start + Seq::new(0, |j: int| flat_line(p@, j, sd)) =~= start);
        }
        let d = int_to_string(depth);
        let last = concat_all(&[p, " := ", p, "_fr", d.as_str(), "();"]);
        proof {
            reveal_with_fuel(concat_seq, 7);
        }
        let ghost before = names_view(lines@);
        lines.push(last);
        proof {
            assert(names_view(lines@) =~= before.push(last@));
            assert(pv.take(q + 1).drop_last() =~= pv.take(q as int));
            assert(pv.take(q + 1).last() == p@);
            assert(names_view(lines@) =~= start + flat_block(p@, depth as int, sd));
        }
        q = q + 1;
    }
    assert(pv.take(q as int) =~= pv);
    assert(lines@.map_values(|x: String| x@) =~= names_view(lines@));
    join_strings(&lines, "\n")
}

/// Argument `a` of ignition step `i` of an iterative recursion.
pub open spec fn iter_arg(a: Seq<char>, i: int) -> Seq<char> {
    a + "_RZero: "@ + if i == 0 { "nil"@ } else { a + "_ifr"@ + int_text(i - 1) }
}

/// The name of ignition step `i` of `p`.
pub open spec fn ifr(p: Seq<char>, i: int) -> Seq<char> {
    p + "_ifr"@ + int_text(i)
}

/// The line defining ignition step `i` of `p`.
pub open spec fn iter_line(p: Seq<char>, i: int, deps: Seq<Seq<char>>) -> Seq<char> {
    ifr(p, i) + " := "@ + p + "_ROne("@ + join(deps.map_values(|a: Seq<char>| iter_arg(a, i)), ", "@) + ");"@
}

/// The `@Ground` line of ignition step `i`; the step two before the last is
/// grounded together with the step two before it.
pub open spec fn ground_line(p: Seq<char>, i: int, ignition: int) -> Seq<char> {
    if i != ignition - 2 {
        "@Ground("@ + ifr(p, i) + ");"@
    } else {
        "@Ground("@ + ifr(p, i) + ", "@ + ifr(p, i - 2) + ");"@
    }
}

/// The lines of the first `n` ignition steps of `p`: each step, then its
/// `@Ground` line.
pub open spec fn iter_steps(p: Seq<char>, n: nat, ignition: int, deps: Seq<Seq<char>>) -> Seq<Seq<char>>
    decreases n,
{
    if n == 0 {
        seq![]
    } else {
        iter_steps(p, (n - 1) as nat, ignition, deps).push(iter_line(p, n - 1, deps)).push(ground_line(p, n - 1, ignition))
    }
}

/// The lines for `p`: its ignition steps, then `p` as the last of them.
pub open spec fn iter_block(p: Seq<char>, ignition: int, deps: Seq<Seq<char>>) -> Seq<Seq<char>> {
    let n: nat = if ignition >= 0 { ignition as nat } else { 0 };
    iter_steps(p, n, ignition, deps).push(p + " := "@ + ifr(p, ignition - 1) + "();"@)
}

pub open spec fn iter_blocks(ps: Seq<Seq<char>>, ignition: int, cover: Seq<Seq<char>>, direct: Seq<(Seq<char>, Seq<Seq<char>>)>) -> Seq<Seq<char>>
    decreases ps.len(),
{
    if ps.len() == 0 {
        seq![]
    } else {
        iter_blocks(ps.drop_last(), ignition, cover, direct) + iter_block(
            ps.last(),
            ignition,
            sorted_within(direct_of(direct, ps.last()), cover),
        )
    }
}

/// Half of `x`, rounded toward zero.
pub open spec fn half_toward_zero(x: int) -> int {
    if x >= 0 { x / 2 } else { -((-x) / 2) }
}

/// The `@Iteration` line: the two steps before the last of each predicate are
/// iterated, as many times as the depth left after ignition asks.
pub open spec fn iteration_line(ps: Seq<Seq<char>>, depth: int, ignition: int, stop: Option<Seq<char>>) -> Seq<char> {
    let uppers = ps.map_values(|p: Seq<char>| ifr(p, ignition - 3));
    let lowers = ps.map_values(|p: Seq<char>| ifr(p, ignition - 2));
    "@Iteration("@ + ps[0] + ", predicates: ["@ + join(uppers + lowers, ", "@) + "], repetitions: "@
        + int_text(half_toward_zero(depth + 1 - ignition) + 1)
        + match stop {
            Some(x) => ", stop_signal: \"/tmp/logical_stop_"@ + x + "\""@,
            None => seq![],
        }
        + ");"@
}

/// The steps of ignition step `i` of `p` as text.
fn iter_line_exec(p: &str, i: i64, deps: &Vec<String>) -> (r: String)
    requires
        i >= 0,
    ensures
        r@ == iter_line(p@, i as int, names_view(deps@)),
{
    let ghost dv = names_view(deps@);
    let mut args: Vec<String> = Vec::new();
    let mut k: usize = 0;
    assert(names_view(args@) =~= dv.map_values(|a: Seq<char>| iter_arg(a, i as int)).take(0));
    while k < deps.len()
        invariant
            k <= deps.len(),
            i >= 0,
            dv == names_view(deps@),
            names_view(args@) == dv.map_values(|a: Seq<char>| iter_arg(a, i as int)).take(k as int),
        decreases deps.len() - k,
    {
        let a = deps[k].as_str();
        let arg = if i == 0 {
            concat3(a, "_RZero: ", "nil")
        } else {
            let prev = int_to_string(i - 1);
            concat_all(&[a, "_RZero: ", a, "_ifr", prev.as_str()])
        };
        proof {
            reveal_with_fuel(concat_seq, 6);
            assert(arg@ =~= iter_arg(dv[k as int], i as int));
        }
        let ghost before = names_view(args@);
        args.push(arg);
        assert(names_view(args@) =~= before.push(arg@));
        assert(dv.map_values(|a: Seq<char>| iter_arg(a, i as int)).take(k + 1) =~= dv.map_values(|a: Seq<char>| iter_arg(a, i as int)).take(k as int).push(iter_arg(dv[k as int], i as int)));
        k = k + 1;
    }
    assert(dv.map_values(|a: Seq<char>| iter_arg(a, i as int)).take(k as int) =~= dv.map_values(|a: Seq<char>| iter_arg(a, i as int)));
    let joined = join_strings(&args, ", ");
    assert(args@.map_values(|x: String| x@) =~= names_view(args@));
    let d = int_to_string(i);
    let line = concat_all(&[p, "_ifr", d.as_str(), " := ", p, "_ROne(", joined.as_str(), ");"]);
    proof {
        reveal_with_fuel(concat_seq, 9);
    }
    assert(line@ =~= iter_line(p@, i as int, dv));
    line
}

/// The name of step `i` of `p`.
fn ifr_exec(p: &str, i: i64) -> (r: String)
    ensures
        r@ == ifr(p@, i as int),
{
    let d = int_to_string(i);
    concat3(p, "_ifr", d.as_str())
}

/// The program unfolding a recursion over the predicates of `cover`
/// iteratively: `ignition_steps` steps, the two before the last of which are
/// then repeated by an `@Iteration` annotation until `depth` is reached (or the
/// stop signal of predicate `stop` is given).
pub fn get_flat_iterative_recursion_functor(
    depth: i64,
    cover: &Vec<String>,
    direct_args_of: &Vec<(String, Vec<String>)>,
    ignition_steps: i64,
    stop: Option<&str>,
) -> (r: String)
    requires
        cover@.len() > 0,
        ignition_steps - 3 >= i64::MIN,
        i64::MIN < depth + 1 - ignition_steps <= i64::MAX - 2,
    ensures
        r@ == join(
            iter_blocks(sorted_names(names_view(cover@)), ignition_steps as int, names_view(cover@), name_lists_view(direct_args_of@))
                .push(iteration_line(sorted_names(names_view(cover@)), depth as int, ignition_steps as int,
                    match stop { Some(x) => Some(x@), None => None })),
            "\n"@,
        ),
{
    let ghost cv = names_view(cover@);
    let ghost dv = name_lists_view(direct_args_of@);
    let ps = sorted_within_exec(cover, cover);
    let ghost pv = names_view(ps@);
    proof {
        law_sorted_within(cv, cv);
        assert(cv.contains(cv[0]));
        assert(pv.contains(cv[0]));
    }
    let mut lines: Vec<String> = Vec::new();
    let mut uppers: Vec<String> = Vec::new();
    let mut lowers: Vec<String> = Vec::new();
    let mut q: usize = 0;
    assert(pv.take(0) =~= Seq::<Seq<char>>::empty());
    assert(names_view(lines@) =~= Seq::<Seq<char>>::empty());
    assert(names_view(uppers@) =~= Seq::<Seq<char>>::empty());
    assert(names_view(lowers@) =~= Seq::<Seq<char>>::empty());
    while q < ps.len()
        invariant
            q <= ps.len(),
            cv == names_view(cover@),
            dv == name_lists_view(direct_args_of@),
            pv == names_view(ps@),
            ignition_steps - 3 >= i64::MIN,
            names_view(lines@) == iter_blocks(pv.take(q as int), ignition_steps as int, cv, dv),
            names_view(uppers@) == pv.take(q as int).map_values(|p: Seq<char>| ifr(p, ignition_steps - 3)),
            names_view(lowers@) == pv.take(q as int).map_values(|p: Seq<char>| ifr(p, ignition_steps - 2)),
        decreases ps.len() - q,
    {
        let p = ps[q].as_str();
        let empty: Vec<String> = Vec::new();
        let listed: &Vec<String> = match direct_args_for(direct_args_of, p) {
            Some(d) => d,
            None => &empty,
        };
        assert(names_view(listed@) == direct_of(dv, p@)) by {
            assert(names_view(empty@) =~= Seq::<Seq<char>>::empty());
        }
        let deps = sorted_within_exec(listed, cover);
        let ghost sd = names_view(deps@);
        let ghost start = names_view(lines@);
        let mut i: i64 = 0;
        assert(start + iter_steps(p@, 0, ignition_steps as int, sd) =~= start);
        while i < ignition_steps
            invariant
                0 <= i,
                i <= ignition_steps || ignition_steps < 0,
                ignition_steps < 0 ==> i == 0,
                ignition_steps - 3 >= i64::MIN,
                sd == names_view(deps@),
                names_view(lines@) == start + iter_steps(p@, i as nat, ignition_steps as int, sd),
            decreases ignition_steps - i,
        {
            let line = iter_line_exec(p, i, &deps);
            let ghost before = names_view(lines@);
            lines.push(line);
            let this_step = ifr_exec(p, i);
            let ground = if i != ignition_steps - 2 {
                concat3("@Ground(", this_step.as_str(), ");")
            } else {
                let earlier = ifr_exec(p, i - 2);
                concat5("@Ground(", this_step.as_str(), ", ", earlier.as_str(), ");")
            };
            lines.push(ground);
            proof {
                assert(ground@ =~= ground_line(p@, i as int, ignition_steps as int));
                assert(names_view(lines@) =~= before.push(line@).push(ground@));
                assert(start + iter_steps(p@, (i + 1) as nat, ignition_steps as int, sd) =~= (start + iter_steps(p@, i as nat, ignition_steps as int, sd)).push(line@).push(ground@));
            }
            i = i + 1;
        }
        let ghost n: nat = if ignition_steps >= 0 { ignition_steps as nat } else { 0 };
        assert(i as nat == n);
        let upper = ifr_exec(p, ignition_steps - 3);
        let lower = ifr_exec(p, ignition_steps - 2);
        let ghost ub = names_view(uppers@);
        let ghost lb = names_view(lowers@);
        uppers.push(upper);
        lowers.push(lower);
        let last_step = ifr_exec(p, ignition_steps - 1);
        let last = concat4(p, " := ", last_step.as_str(), "();");
        let ghost before = names_view(lines@);
        lines.push(last);
        proof {
            assert(names_view(uppers@) =~= ub.push(ifr(p@, ignition_steps - 3)));
            assert(names_view(lowers@) =~= lb.push(ifr(p@, ignition_steps - 2)));
            assert(pv.take(q + 1).drop_last() =~= pv.take(q as int));
            assert(pv.take(q + 1).last() == p@);
            assert(pv.take(q + 1).map_values(|x: Seq<char>| ifr(x, ignition_steps - 3)) =~= pv.take(q as int).map_values(|x: Seq<char>| ifr(x, ignition_steps - 3)).push(ifr(p@, ignition_steps - 3)));
            assert(pv.take(q + 1).map_values(|x: Seq<char>| ifr(x, ignition_steps - 2)) =~= pv.take(q as int).map_values(|x: Seq<char>| ifr(x, ignition_steps - 2)).push(ifr(p@, ignition_steps - 2)));
            assert(names_view(lines@) =~= before.push(last@));
            assert(names_view(lines@) =~= start + iter_block(p@, ignition_steps as int, sd));
        }
        q = q + 1;
    }
    assert(pv.take(q as int) =~= pv);
    let ghost ub = names_view(uppers@);
    let ghost lb = names_view(lowers@);
    let mut over = uppers;
    let mut rest = lowers;
    over.append(&mut rest);
    assert(names_view(over@) =~= ub + lb);
    assert(over@.map_values(|x: String| x@) =~= names_view(over@));
    let over_text = join_strings(&over, ", ");
    let x = (depth - ignition_steps) + 1;
    let half = if x >= 0 { x / 2 } else { -((-x) / 2) };
    let repetitions = int_to_string(half + 1);
    let head = concat_all(&["@Iteration(", ps[0].as_str(), ", predicates: [", over_text.as_str(), "], repetitions: ", repetitions.as_str()]);
    proof {
        reveal_with_fuel(concat_seq, 7);
    }
    let iteration = match stop {
        Some(sp) => concat_all(&[head.as_str(), ", stop_signal: \"/tmp/logical_stop_", sp, "\"", ");"]),
        None => concat2(head.as_str(), ");"),
    };
    proof {
        reveal_with_fuel(concat_seq, 6);
        assert(iteration@ =~= iteration_line(pv, depth as int, ignition_steps as int, match stop { Some(x) => Some(x@), None => None }));
    }
    let ghost lv = names_view(lines@);
    lines.push(iteration);
    assert(names_view(lines@) =~= lv.push(iteration@));
    assert(lines@.map_values(|x: String| x@) =~= names_view(lines@));
    join_strings(&lines, "\n")
}


/// Each name comes before the names after it.
pub open spec fn strictly_sorted(s: Seq<Seq<char>>) -> bool {
    forall|i: int, j: int| 0 <= i < j < s.len() ==> text_lt(#[trigger] s[i], #[trigger] s[j])
}

proof fn lemma_insert_sorted(s: Seq<Seq<char>>, x: Seq<char>)
    requires
        strictly_sorted(s),
    ensures
        strictly_sorted(insert_sorted(s, x)),
        forall|y: Seq<char>| #[trigger] insert_sorted(s, x).contains(y) <==> (s.contains(y) || y == x),
    decreases s.len(),
{
    if s.len() == 0 {
        assert(insert_sorted(s, x) =~= seq![x]);
        assert(seq![x][0] == x);
    } else if s[0] == x {
    } else if text_lt(x, s[0]) {
        let r = seq![x] + s;
        assert forall|i: int, j: int| 0 <= i < j < r.len() implies text_lt(#[trigger] r[i], #[trigger] r[j]) by {
            if i == 0 {
                if j > 1 {
                    lemma_text_lt_transitive(x, s[0], s[j - 1]);
                }
            } else {
                assert(r[i] == s[i - 1] && r[j] == s[j - 1]);
            }
        }
        assert forall|y: Seq<char>| r.contains(y) <==> (s.contains(y) || y == x) by {
            if r.contains(y) {
                let k = choose|k: int| 0 <= k < r.len() && r[k] == y;
                if k > 0 {
                    assert(s[k - 1] == y);
                }
            }
            if s.contains(y) {
                let k = choose|k: int| 0 <= k < s.len() && s[k] == y;
                assert(r[k + 1] == y);
            }
            if y == x {
                assert(r[0] == y);
            }
        }
    } else {
        let t = s.drop_first();
        assert forall|i: int, j: int| 0 <= i < j < t.len() implies text_lt(#[trigger] t[i], #[trigger] t[j]) by {
            assert(t[i] == s[i + 1] && t[j] == s[j + 1]);
        }
        lemma_insert_sorted(t, x);
        let it = insert_sorted(t, x);
        let r = seq![s[0]] + it;
        lemma_text_lt_total(x, s[0]);
        assert forall|i: int, j: int| 0 <= i < j < r.len() implies text_lt(#[trigger] r[i], #[trigger] r[j]) by {
            if i == 0 {
                let y = r[j];
                assert(it[j - 1] == y);
                assert(it.contains(y));
                if y != x {
                    assert(t.contains(y));
                    let k = choose|k: int| 0 <= k < t.len() && t[k] == y;
                    assert(t[k] == s[k + 1]);
                    assert(text_lt(s[0], s[k + 1]));
                }
            } else {
                assert(r[i] == it[i - 1] && r[j] == it[j - 1]);
            }
        }
        assert forall|y: Seq<char>| r.contains(y) <==> (s.contains(y) || y == x) by {
            if r.contains(y) {
                let k = choose|k: int| 0 <= k < r.len() && r[k] == y;
                if k > 0 {
                    assert(it[k - 1] == y);
                    assert(it.contains(y));
                    if y != x {
                        assert(t.contains(y));
                        let m = choose|m: int| 0 <= m < t.len() && t[m] == y;
                        assert(t[m] == s[m + 1]);
                    }
                } else {
                    assert(s[0] == y);
                }
            }
            if s.contains(y) {
                let k = choose|k: int| 0 <= k < s.len() && s[k] == y;
                if k == 0 {
                    assert(r[0] == y);
                } else {
                    assert(t[k - 1] == s[k]);
                    assert(t.contains(y));
                    assert(it.contains(y));
                    let m = choose|m: int| 0 <= m < it.len() && it[m] == y;
                    assert(r[m + 1] == y);
                }
            }
            if y == x {
                assert(it.contains(y));
                let m = choose|m: int| 0 <= m < it.len() && it[m] == y;
                assert(r[m + 1] == y);
            }
        }
    }
}

/// The names [`sorted_within`] gives are in strictly increasing order, so each
/// occurs once, and they are exactly the names of `s` that `within` holds.
pub proof fn law_sorted_within(s: Seq<Seq<char>>, within: Seq<Seq<char>>)
    ensures
        strictly_sorted(sorted_within(s, within)),
        forall|y: Seq<char>| #[trigger] sorted_within(s, within).contains(y) <==> (s.contains(y) && within.contains(y)),
    decreases s.len(),
{
    if s.len() > 0 {
        law_sorted_within(s.drop_last(), within);
        let prev = sorted_within(s.drop_last(), within);
        if within.contains(s.last()) {
            lemma_insert_sorted(prev, s.last());
        }
        assert forall|y: Seq<char>| sorted_within(s, within).contains(y) <==> (s.contains(y) && within.contains(y)) by {
            if s.contains(y) && y != s.last() {
                let k = choose|k: int| 0 <= k < s.len() && s[k] == y;
                assert(s.drop_last()[k] == y);
            }
            if s.drop_last().contains(y) {
                let k = choose|k: int| 0 <= k < s.drop_last().len() && s.drop_last()[k] == y;
                assert(s[k] == y);
            }
            assert(s[s.len() - 1] == s.last());
        }
    } else {
        assert(sorted_within(s, within) =~= Seq::<Seq<char>>::empty());
    }
}

// ---------------------------------------------------------------------------
// Predicates a rule mentions
// ---------------------------------------------------------------------------

/// The predicate names mentioned in a tree: the string value of `predicate_name`
/// in each object, at any depth.
pub open spec fn tree_names(v: JVal) -> Set<Seq<char>>
    decreases v, 1nat,
{
    match v {
        JVal::Object(es) => {
            let own = match jget(v, "predicate_name"@) {
                Some(JVal::Str(n)) => set![n],
                _ => Set::empty(),
            };
            own + entries_names(es)
        },
        JVal::Array(a) => items_names(a),
        _ => Set::empty(),
    }
}

pub open spec fn items_names(a: Seq<JVal>) -> Set<Seq<char>>
    decreases a, 0nat,
{
    if a.len() == 0 {
        Set::empty()
    } else {
        items_names(a.drop_last()) + tree_names(a.last())
    }
}

pub open spec fn entries_names(es: Seq<(Seq<char>, JVal)>) -> Set<Seq<char>>
    decreases es, 0nat,
{
    if es.len() == 0 {
        Set::empty()
    } else {
        proof {
            assert(decreases_to!(es => es.last()));
        }
        entries_names(es.drop_last()) + tree_names(es.last().1)
    }
}

/// Add to `out` the predicate names mentioned in `node`.
#[verifier::loop_isolation(false)]
fn collect_names(node: &Json, out: &mut NameSet)
    ensures
        forall|n: Seq<char>| #[trigger] final(out)@.contains(n) <==> (old(out)@.contains(n) || tree_names(node@).contains(n)),
    decreases node,
{
    match node {
        Json::Object(o) => {
            let ghost before = out@;
            match node.get("predicate_name") {
                Some(Json::Str(n)) => {
                    out.insert(n.clone());
                    proof {
                        lemma_set_add_contains(before, n@);
                    }
                },
                _ => {},
            }
            let ghost own = out@;
            assert forall|n: Seq<char>| #[trigger] own.contains(n) <==> (before.contains(n) || match jget(node@, "predicate_name"@) {
                Some(JVal::Str(m)) => set![m],
                _ => Set::empty(),
            }.contains(n)) by {}
            let ghost es = jv_entries(o.entries@);
            let mut i: usize = 0;
            proof {
                lemma_jv_entries_len(o.entries@);
                assert(es.take(0) =~= Seq::<(Seq<char>, JVal)>::empty());
            }
            while i < o.entries.len()
                invariant
                    i <= o.entries.len(),
                    es == jv_entries(o.entries@),
                    es.len() == o.entries.len(),
                    *node == Json::Object(*o),
                    forall|n: Seq<char>| #[trigger] out@.contains(n) <==> (own.contains(n) || entries_names(es.take(i as int)).contains(n)),
                decreases o.entries.len() - i,
            {
                proof {
                    lemma_jv_entries_index(o.entries@, i as int);
                    assert(es.take(i + 1).drop_last() =~= es.take(i as int));
                    assert(decreases_to!(*node => o.entries@[i as int].1));
                }
                collect_names(&o.entries[i].1, out);
                i = i + 1;
            }
            assert(es.take(i as int) =~= es);
        },
        Json::Array(a) => {
            let ghost own = out@;
            let ghost items = jv_seq(a@);
            let mut i: usize = 0;
            proof {
                lemma_jv_seq_len(a@);
                assert(items.take(0) =~= Seq::<JVal>::empty());
            }
            while i < a.len()
                invariant
                    i <= a.len(),
                    items == jv_seq(a@),
                    items.len() == a.len(),
                    *node == Json::Array(*a),
                    forall|n: Seq<char>| #[trigger] out@.contains(n) <==> (own.contains(n) || items_names(items.take(i as int)).contains(n)),
                decreases a.len() - i,
            {
                proof {
                    lemma_jv_seq_index(a@, i as int);
                    assert(items.take(i + 1).drop_last() =~= items.take(i as int));
                    assert(decreases_to!(*node => a@[i as int]));
                }
                collect_names(&a[i], out);
                i = i + 1;
            }
            assert(items.take(i as int) =~= items);
        },
        _ => {},
    }
}

proof fn lemma_set_add_contains(s: Seq<Seq<char>>, n: Seq<char>)
    ensures
        forall|m: Seq<char>| #[trigger] set_add(s, n).contains(m) <==> (s.contains(m) || m == n),
{
    assert forall|m: Seq<char>| #[trigger] set_add(s, n).contains(m) <==> (s.contains(m) || m == n) by {
        if !s.contains(n) {
            let t = s.push(n);
            assert(t[s.len() as int] == n);
            if s.contains(m) {
                let k = choose|k: int| 0 <= k < s.len() && s[k] == m;
                assert(t[k] == m);
            }
            if t.contains(m) {
                let k = choose|k: int| 0 <= k < t.len() && t[k] == m;
                if k < s.len() {
                    assert(s[k] == m);
                }
            }
        }
    }
}

/// The predicate names mentioned in a tree.
pub fn extract_predicate_names(node: &Json) -> (r: NameSet)
    ensures
        forall|n: Seq<char>| #[trigger] r@.contains(n) <==> tree_names(node@).contains(n),
{
    let mut out = NameSet::new();
    collect_names(node, &mut out);
    out
}


// ---------------------------------------------------------------------------
// Dependencies between predicates
// ---------------------------------------------------------------------------

/// The successors of `x`: the names listed for it, none when it is not listed.
pub open spec fn succ(d: Seq<(Seq<char>, Seq<Seq<char>>)>, x: Seq<char>) -> Seq<Seq<char>> {
    match kv_get(d, x) {
        Some(l) => l,
        None => seq![],
    }
}

/// Whether `path` is a walk from `p`: each name a successor of the one before.
pub open spec fn is_walk(d: Seq<(Seq<char>, Seq<Seq<char>>)>, p: Seq<char>, path: Seq<Seq<char>>) -> bool {
    &&& path.len() > 0
    &&& succ(d, p).contains(path[0])
    &&& forall|i: int| 0 <= i < path.len() - 1 ==> #[trigger] succ(d, path[i]).contains(path[i + 1])
}

/// Whether `q` is reached from `p` in one step or more.
pub open spec fn reaches(d: Seq<(Seq<char>, Seq<Seq<char>>)>, p: Seq<char>, q: Seq<char>) -> bool {
    exists|path: Seq<Seq<char>>| #[trigger] is_walk(d, p, path) && path.last() == q
}

/// All names listed, in order.
pub open spec fn all_listed(d: Seq<(Seq<char>, Seq<Seq<char>>)>) -> Seq<Seq<char>>
    decreases d.len(),
{
    if d.len() == 0 {
        seq![]
    } else {
        all_listed(d.drop_last()) + d.last().1
    }
}

proof fn lemma_listed(d: Seq<(Seq<char>, Seq<Seq<char>>)>, x: Seq<char>, q: Seq<char>)
    requires
        succ(d, x).contains(q),
    ensures
        all_listed(d).contains(q),
    decreases d.len(),
{
    lemma_kv_get_some(d, x);
    let j = choose|j: int| 0 <= j < d.len() && d[j].0 == x && kv_get(d, x) == Some(d[j].1);
    lemma_listed_at(d, j, q);
}

proof fn lemma_listed_at(d: Seq<(Seq<char>, Seq<Seq<char>>)>, j: int, q: Seq<char>)
    requires
        0 <= j < d.len(),
        d[j].1.contains(q),
    ensures
        all_listed(d).contains(q),
    decreases d.len(),
{
    let m = choose|m: int| 0 <= m < d[j].1.len() && d[j].1[m] == q;
    if j == d.len() - 1 {
        let pre = all_listed(d.drop_last());
        assert((pre + d.last().1)[pre.len() + m] == q);
    } else {
        assert(d.drop_last()[j] == d[j]);
        lemma_listed_at(d.drop_last(), j, q);
        let pre = all_listed(d.drop_last());
        let k = choose|k: int| 0 <= k < pre.len() && pre[k] == q;
        assert((pre + d.last().1)[k] == q);
    }
}

proof fn lemma_kv_get_some(d: Seq<(Seq<char>, Seq<Seq<char>>)>, x: Seq<char>)
    requires
        succ(d, x).len() > 0,
    ensures
        exists|j: int| 0 <= j < d.len() && d[j].0 == x && kv_get(d, x) == Some(d[j].1),
    decreases d.len(),
{
    if d[0].0 != x {
        lemma_kv_get_some(d.drop_first(), x);
        let j = choose|j: int| 0 <= j < d.drop_first().len() && d.drop_first()[j].0 == x && kv_get(d.drop_first(), x) == Some(d.drop_first()[j].1);
        assert(d[j + 1] == d.drop_first()[j]);
    } else {
        assert(d[0].0 == x && kv_get(d, x) == Some(d[0].1));
    }
}

pub open spec fn lists_view(v: Seq<(String, NameSet)>) -> Seq<(Seq<char>, Seq<Seq<char>>)> {
    v.map_values(|e: (String, NameSet)| (e.0@, e.1@))
}

/// The names listed for `x`.
fn successors<'b>(d: &'b Vec<(String, NameSet)>, x: &str) -> (r: Option<&'b NameSet>)
    ensures
        r is Some <==> kv_get(lists_view(d@), x@) is Some,
        match r {
            Some(l) => succ(lists_view(d@), x@) == l@,
            None => succ(lists_view(d@), x@) == Seq::<Seq<char>>::empty(),
        },
{
    let p = crate::strmap::key_position(d, x);
    proof {
        crate::strmap::lemma_kv_index_keys(lists_view(d@), d@.map_values(|e: (String, NameSet)| (e.0@, ())), x@);
    }
    if p < d.len() {
        Some(&d[p].1)
    } else {
        None
    }
}

/// Add the names of `src` to `r` in order, each unless it is there.
fn add_names(r: &mut NameSet, src: &NameSet)
    ensures
        final(r)@.len() >= old(r)@.len(),
        final(r)@.take(old(r)@.len() as int) == old(r)@,
        old(r)@.no_duplicates() ==> final(r)@.no_duplicates(),
        forall|n: Seq<char>| #[trigger] final(r)@.contains(n) <==> (old(r)@.contains(n) || src@.contains(n)),
{
    let ghost r0 = r@;
    let mut i: usize = 0;
    while i < src.names.len()
        invariant
            i <= src.names.len(),
            r@.len() >= r0.len(),
            r@.take(r0.len() as int) == r0,
            r0.no_duplicates() ==> r@.no_duplicates(),
            forall|n: Seq<char>| #[trigger] r@.contains(n) <==> (r0.contains(n) || src@.take(i as int).contains(n)),
        decreases src.names.len() - i,
    {
        let ghost before = r@;
        let n = src.names[i].clone();
        let ghost nv = n@;
        assert(nv == src@[i as int]);
        r.insert(n);
        proof {
            lemma_set_add_contains(before, nv);
            if !before.contains(nv) {
                assert(r@ == before.push(nv));
                assert(r@.take(r0.len() as int) =~= before.take(r0.len() as int));
                if r0.no_duplicates() {
                    assert forall|a: int, b: int| 0 <= a < b < r@.len() implies r@[a] != r@[b] by {
                        if b == before.len() {
                            assert(before[a] == r@[a]);
                        }
                    }
                }
            }
            let t0 = src@.take(i as int);
            let t1 = src@.take(i + 1);
            assert(t1 =~= t0.push(nv));
            assert forall|m: Seq<char>| #[trigger] r@.contains(m) <==> (r0.contains(m) || t1.contains(m)) by {
                if t1.contains(m) && m != nv {
                    let k = choose|k: int| 0 <= k < t1.len() && t1[k] == m;
                    assert(t0[k] == m);
                }
                if t0.contains(m) {
                    let k = choose|k: int| 0 <= k < t0.len() && t0[k] == m;
                    assert(t1[k] == m);
                }
                if m == nv {
                    assert(t1[i as int] == m);
                }
            }
        }
        i = i + 1;
    }
    assert(src@.take(i as int) =~= src@);
}


proof fn lemma_closed(d: Seq<(Seq<char>, Seq<Seq<char>>)>, p: Seq<char>, r: Seq<Seq<char>>, path: Seq<Seq<char>>, i: int)
    requires
        forall|j: int, x: Seq<char>| 0 <= j < r.len() && #[trigger] succ(d, r[j]).contains(x) ==> r.contains(x),
        forall|x: Seq<char>| #[trigger] succ(d, p).contains(x) ==> r.contains(x),
        is_walk(d, p, path),
        0 <= i < path.len(),
    ensures
        r.contains(path[i]),
    decreases i,
{
    if i > 0 {
        lemma_closed(d, p, r, path, i - 1);
        let j = choose|j: int| 0 <= j < r.len() && r[j] == path[i - 1];
        let k = i - 1;
        assert(succ(d, path[k]).contains(path[k + 1]));
        assert(k + 1 == i);
        assert(succ(d, r[j]).contains(path[i]));
    }
}

proof fn lemma_len_within(r: Seq<Seq<char>>, u: Seq<Seq<char>>)
    requires
        r.no_duplicates(),
        forall|q: Seq<char>| #[trigger] r.contains(q) ==> u.contains(q),
    ensures
        r.len() <= u.len(),
{
    r.unique_seq_to_set();
    u.lemma_cardinality_of_set();
    assert(r.to_set().subset_of(u.to_set())) by {
        assert forall|q: Seq<char>| r.to_set().contains(q) implies u.to_set().contains(q) by {
            assert(r.contains(q));
        }
    }
    vstd::set_lib::lemma_len_subset(r.to_set(), u.to_set());
}

/// The names reached from `p` in one step or more: a search that takes each
/// name found in turn and adds its successors.
fn reach(d: &Vec<(String, NameSet)>, p: &str) -> (r: NameSet)
    ensures
        forall|q: Seq<char>| #[trigger] r@.contains(q) <==> reaches(lists_view(d@), p@, q),
{
    let ghost dv = lists_view(d@);
    let ghost u = all_listed(dv);
    let mut r = NameSet::new();
    assert(r@.no_duplicates());
    match successors(d, p) {
        Some(l) => add_names(&mut r, l),
        None => {},
    }
    proof {
        assert forall|q: Seq<char>| #[trigger] r@.contains(q) implies u.contains(q) by {
            lemma_listed(dv, p@, q);
        }
        assert forall|j: int| 0 <= j < r@.len() implies reaches(dv, p@, #[trigger] r@[j]) by {
            assert(r@.contains(r@[j]));
            let path = seq![r@[j]];
            assert(is_walk(dv, p@, path));
        }
        lemma_len_within(r@, u);
    }
    let mut k: usize = 0;
    while k < r.names.len()
        invariant
            dv == lists_view(d@),
            u == all_listed(dv),
            k <= r@.len(),
            r@.len() == r.names@.len(),
            r@.no_duplicates(),
            r@.len() <= u.len(),
            forall|q: Seq<char>| #[trigger] r@.contains(q) ==> u.contains(q),
            forall|j: int| 0 <= j < r@.len() ==> reaches(dv, p@, #[trigger] r@[j]),
            forall|j: int, q: Seq<char>| 0 <= j < k && #[trigger] succ(dv, r@[j]).contains(q) ==> r@.contains(q),
            forall|q: Seq<char>| #[trigger] succ(dv, p@).contains(q) ==> r@.contains(q),
        decreases u.len() - r@.len(), r@.len() - k,
    {
        let x = r.names[k].clone();
        let ghost xv = x@;
        assert(xv == r@[k as int]);
        let ghost before = r@;
        match successors(d, x.as_str()) {
            Some(l) => add_names(&mut r, l),
            None => {},
        }
        proof {
            assert forall|j: int| 0 <= j < before.len() implies r@[j] == before[j] by {
                assert(r@.take(before.len() as int)[j] == before[j]);
            }
            assert forall|q: Seq<char>| #[trigger] r@.contains(q) implies u.contains(q) by {
                if !before.contains(q) {
                    lemma_listed(dv, xv, q);
                }
            }
            assert forall|j: int| 0 <= j < r@.len() implies reaches(dv, p@, #[trigger] r@[j]) by {
                let q = r@[j];
                if j < before.len() {
                    assert(before[j] == q);
                } else {
                    assert(r@.contains(q));
                    if before.contains(q) {
                        let m = choose|m: int| 0 <= m < before.len() && before[m] == q;
                        assert(reaches(dv, p@, before[m]));
                    } else {
                        assert(succ(dv, xv).contains(q));
                        assert(reaches(dv, p@, before[k as int]));
                        let path = choose|path: Seq<Seq<char>>| #[trigger] is_walk(dv, p@, path) && path.last() == xv;
                        let longer = path.push(q);
                        assert(longer[longer.len() - 2] == xv);
                        assert forall|i: int| 0 <= i < longer.len() - 1 implies #[trigger] succ(dv, longer[i]).contains(longer[i + 1]) by {
                            if i < path.len() - 1 {
                                assert(longer[i] == path[i] && longer[i + 1] == path[i + 1]);
                            }
                        }
                        assert(is_walk(dv, p@, longer));
                    }
                }
            }
            assert forall|j: int, q: Seq<char>| 0 <= j < k + 1 && #[trigger] succ(dv, r@[j]).contains(q) implies r@.contains(q) by {
                if j < k {
                    assert(r@[j] == before[j]);
                    assert(before.contains(q));
                    let m = choose|m: int| 0 <= m < before.len() && before[m] == q;
                    assert(r@[m] == q);
                }
            }
            assert forall|q: Seq<char>| #[trigger] succ(dv, p@).contains(q) implies r@.contains(q) by {
                assert(before.contains(q));
                let m = choose|m: int| 0 <= m < before.len() && before[m] == q;
                assert(r@[m] == q);
            }
            lemma_len_within(r@, u);
        }
        k = k + 1;
    }
    proof {
        assert forall|q: Seq<char>| #[trigger] r@.contains(q) <==> reaches(dv, p@, q) by {
            if r@.contains(q) {
                let m = choose|m: int| 0 <= m < r@.len() && r@[m] == q;
                assert(reaches(dv, p@, r@[m]));
            }
            if reaches(dv, p@, q) {
                let path = choose|path: Seq<Seq<char>>| #[trigger] is_walk(dv, p@, path) && path.last() == q;
                lemma_closed(dv, p@, r@, path, path.len() - 1);
            }
        }
    }
    r
}


// ---------------------------------------------------------------------------
// Functors
// ---------------------------------------------------------------------------

/// The name of the predicate a rule defines.
pub open spec fn rule_head_name(r: JVal) -> Seq<char> {
    jstr(jfield(jfield(r, "head"@), "predicate_name"@))
}

/// The rules with a head, grouped by the predicate they define, the groups in
/// the order of their first rule.
pub open spec fn group_rules(rules: Seq<JVal>) -> Seq<(Seq<char>, Seq<JVal>)>
    decreases rules.len(),
{
    if rules.len() == 0 {
        seq![]
    } else {
        let g = group_rules(rules.drop_last());
        let r = rules.last();
        if has_key(r, "head"@) {
            let k = rule_head_name(r);
            kv_insert(g, k, match kv_get(g, k) {
                Some(l) => l.push(r),
                None => seq![r],
            })
        } else {
            g
        }
    }
}

/// The predicates a rule reads: those mentioned in its body and in its head's
/// arguments.
pub open spec fn rule_args(r: JVal) -> Set<Seq<char>> {
    tree_names(jfield(r, "body"@)) + tree_names(jfield(jfield(r, "head"@), "record"@))
}

pub open spec fn group_args(rs: Seq<JVal>) -> Set<Seq<char>>
    decreases rs.len(),
{
    if rs.len() == 0 {
        Set::empty()
    } else {
        group_args(rs.drop_last()) + rule_args(rs.last())
    }
}

pub open spec fn groups_view(v: Seq<(String, Vec<Json>)>) -> Seq<(Seq<char>, Seq<JVal>)> {
    v.map_values(|e: (String, Vec<Json>)| (e.0@, jv_seq(e.1@)))
}

/// What a [`Functors`] holds, abstractly.
pub struct FunctorsV {
    pub rules: Seq<JVal>,
    pub extended_rules: Seq<JVal>,
    pub rules_of: Seq<(Seq<char>, Seq<JVal>)>,
    pub direct_args_of: Seq<(Seq<char>, Seq<Seq<char>>)>,
    pub args_of: Seq<(Seq<char>, Seq<Seq<char>>)>,
    pub constants: Seq<(Seq<char>, Seq<char>)>,
    /// How many functor calls were made: it numbers the predicates they create.
    pub creation_count: nat,
    /// The names given to predicates already created for a call.
    pub cached: Seq<(Seq<char>, Seq<char>)>,
}

/// The functors of a program: its rules grouped by predicate, and the
/// predicates each predicate depends on, directly and transitively.
pub struct Functors {
    pub rules: Vec<Json>,
    pub extended_rules: Vec<Json>,
    rules_of: Vec<(String, Vec<Json>)>,
    direct_args_of: Vec<(String, NameSet)>,
    args_of: Vec<(String, NameSet)>,
    creation_count: usize,
    cached_calls: StrMap,
    constant_literal_function: StrMap,
}

impl View for Functors {
    type V = FunctorsV;

    closed spec fn view(&self) -> FunctorsV {
        FunctorsV {
            rules: jv_seq(self.rules@),
            extended_rules: jv_seq(self.extended_rules@),
            rules_of: groups_view(self.rules_of@),
            direct_args_of: lists_view(self.direct_args_of@),
            args_of: lists_view(self.args_of@),
            constants: self.constant_literal_function@,
            creation_count: self.creation_count as nat,
            cached: self.cached_calls@,
        }
    }
}

fn clone_rules(rules: &[Json]) -> (r: Vec<Json>)
    ensures
        jv_seq(r@) == jv_seq(rules@),
{
    let mut out: Vec<Json> = Vec::new();
    let mut i: usize = 0;
    proof {
        lemma_jv_seq_len(rules@);
        assert(jv_seq(out@) =~= jv_seq(rules@).take(0));
    }
    while i < rules.len()
        invariant
            i <= rules.len(),
            jv_seq(out@) == jv_seq(rules@).take(i as int),
        decreases rules.len() - i,
    {
        proof {
            lemma_jv_seq_len(rules@);
            lemma_jv_seq_index(rules@, i as int);
        }
        let ghost before = out@;
        out.push(rules[i].clone());
        proof {
            assert(out@.drop_last() =~= before);
            assert(jv_seq(rules@).take(i + 1) =~= jv_seq(rules@).take(i as int).push(jv(rules@[i as int])));
        }
        i = i + 1;
    }
    proof {
        lemma_jv_seq_len(rules@);
        assert(jv_seq(rules@).take(i as int) =~= jv_seq(rules@));
    }
    out
}

/// Group the rules by the predicate they define.
pub fn defined_predicates_rules(rules: &[Json]) -> (r: Vec<(String, Vec<Json>)>)
    ensures
        groups_view(r@) == group_rules(jv_seq(rules@)),
{
    let ghost rv = jv_seq(rules@);
    let mut groups: Vec<(String, Vec<Json>)> = Vec::new();
    let mut i: usize = 0;
    proof {
        lemma_jv_seq_len(rules@);
        assert(rv.take(0) =~= Seq::<JVal>::empty());
        assert(groups_view(groups@) =~= Seq::<(Seq<char>, Seq<JVal>)>::empty());
    }
    while i < rules.len()
        invariant
            i <= rules.len(),
            rv == jv_seq(rules@),
            rv.len() == rules.len(),
            groups_view(groups@) == group_rules(rv.take(i as int)),
        decreases rules.len() - i,
    {
        proof {
            lemma_jv_seq_index(rules@, i as int);
            assert(rv.take(i + 1).drop_last() =~= rv.take(i as int));
            assert(rv.take(i + 1).last() == rules@[i as int]@);
        }
        let rule = &rules[i];
        if let Some(head) = rule.get("head") {
            let name: String = match head.get("predicate_name") {
                Some(n) => n.as_str().to_string(),
                None => {
                    proof {
                        reveal_strlit("");
                    }
                    "".to_string()
                },
            };
            let ghost gv = groups_view(groups@);
            let ghost nv = name@;
            assert(nv == rule_head_name(rule@));
            assert(has_key(rule@, "head"@));
            assert(gv == group_rules(rv.take(i as int)));
            let p = crate::strmap::key_position(&groups, name.as_str());
            proof {
                crate::strmap::lemma_kv_index_keys(gv, groups@.map_values(|e: (String, Vec<Json>)| (e.0@, ())), nv);
            }
            if p < groups.len() {
                let mut entry = groups.remove(p);
                let ghost old_rules = jv_seq(entry.1@);
                assert(old_rules == gv[p as int].1);
                let ghost v0 = entry.1@;
                let c = rule.clone();
                entry.1.push(c);
                assert(entry.1@.drop_last() =~= v0);
                assert(jv_seq(entry.1@) == jv_seq(v0).push(jv(entry.1@.last())));
                groups.insert(p, entry);
                assert(groups_view(groups@) =~= kv_insert(gv, nv, old_rules.push(rule@)));
            } else {
                let mut list: Vec<Json> = Vec::new();
                let ghost v0 = list@;
                list.push(rule.clone());
                assert(list@.drop_last() =~= v0);
                assert(jv_seq(v0) =~= Seq::<JVal>::empty());
                assert(jv_seq(list@) =~= seq![rule@]);
                groups.push((name, list));
                assert(groups_view(groups@) =~= kv_insert(gv, nv, seq![rule@]));
            }
        }
        i = i + 1;
    }
    assert(rv.take(i as int) =~= rv);
    groups
}


/// The predicates each group of rules reads.
fn build_direct_args(groups: &Vec<(String, Vec<Json>)>) -> (r: Vec<(String, NameSet)>)
    ensures
        r@.len() == groups@.len(),
        forall|i: int| 0 <= i < r@.len() ==> (#[trigger] lists_view(r@)[i]).0 == groups_view(groups@)[i].0,
        forall|i: int, n: Seq<char>| 0 <= i < r@.len() ==> (#[trigger] lists_view(r@)[i].1.contains(n)
            <==> group_args(groups_view(groups@)[i].1).contains(n)),
{
    let ghost gv = groups_view(groups@);
    let mut out: Vec<(String, NameSet)> = Vec::new();
    let mut g: usize = 0;
    while g < groups.len()
        invariant
            g <= groups.len(),
            gv == groups_view(groups@),
            out@.len() == g,
            forall|i: int| 0 <= i < g ==> (#[trigger] lists_view(out@)[i]).0 == gv[i].0,
            forall|i: int, n: Seq<char>| 0 <= i < g ==> (#[trigger] lists_view(out@)[i].1.contains(n)
                <==> group_args(gv[i].1).contains(n)),
        decreases groups.len() - g,
    {
        let rules = &groups[g].1;
        let ghost rv = jv_seq(rules@);
        assert(rv == gv[g as int].1);
        let mut names = NameSet::new();
        let mut j: usize = 0;
        proof {
            lemma_jv_seq_len(rules@);
            assert(rv.take(0) =~= Seq::<JVal>::empty());
        }
        while j < rules.len()
            invariant
                j <= rules.len(),
                rv == jv_seq(rules@),
                rv.len() == rules.len(),
                forall|n: Seq<char>| #[trigger] names@.contains(n) <==> group_args(rv.take(j as int)).contains(n),
            decreases rules.len() - j,
        {
            proof {
                lemma_jv_seq_index(rules@, j as int);
                assert(rv.take(j + 1).drop_last() =~= rv.take(j as int));
                assert(rv.take(j + 1).last() == rules@[j as int]@);
            }
            let rule = &rules[j];
            match rule.get("body") {
                Some(body) => collect_names(body, &mut names),
                None => {},
            }
            match rule.get("head") {
                Some(head) => match head.get("record") {
                    Some(rec) => collect_names(rec, &mut names),
                    None => {},
                },
                None => {},
            }
            j = j + 1;
        }
        assert(rv.take(j as int) =~= rv);
        let ghost before = out@;
        let ghost nv = names@;
        out.push((groups[g].0.clone(), names));
        proof {
            assert forall|i: int| 0 <= i < g implies lists_view(out@)[i] == lists_view(before)[i] by {
                assert(out@[i] == before[i]);
            }
            assert(lists_view(out@)[g as int] == (gv[g as int].0, nv));
            assert forall|i: int| 0 <= i < g + 1 implies (#[trigger] lists_view(out@)[i]).0 == gv[i].0 by {
                if i < g {
                    assert(lists_view(before)[i].0 == gv[i].0);
                }
            }
            assert forall|i: int, n: Seq<char>| 0 <= i < g + 1 implies (#[trigger] lists_view(out@)[i].1.contains(n)
                <==> group_args(gv[i].1).contains(n)) by {
                if i < g {
                    assert(lists_view(before)[i].1.contains(n) <==> group_args(gv[i].1).contains(n));
                } else {
                    assert(nv.contains(n) <==> group_args(rv.take(j as int)).contains(n));
                }
            }
        }
        g = g + 1;
    }
    out
}

impl Functors {
    /// The functors of the rules: grouped by predicate, with the predicates
    /// each reads directly, and those it depends on in one step or more.
    pub fn new(rules: &[Json]) -> (r: Functors)
        ensures
            r@.rules == jv_seq(rules@),
            r@.extended_rules == jv_seq(rules@),
            r@.rules_of == group_rules(jv_seq(rules@)),
            r@.direct_args_of.len() == r@.rules_of.len(),
            r@.args_of.len() == r@.rules_of.len(),
            r@.constants.len() == 0,
            r@.creation_count == 0,
            r@.cached.len() == 0,
            forall|i: int| 0 <= i < r@.rules_of.len() ==> {
                &&& (#[trigger] r@.direct_args_of[i]).0 == r@.rules_of[i].0
                &&& r@.args_of[i].0 == r@.rules_of[i].0
            },
            forall|i: int, n: Seq<char>| 0 <= i < r@.rules_of.len() ==> (#[trigger] r@.direct_args_of[i].1.contains(n)
                <==> group_args(r@.rules_of[i].1).contains(n)),
            forall|i: int, q: Seq<char>| 0 <= i < r@.rules_of.len() ==> (#[trigger] r@.args_of[i].1.contains(q)
                <==> reaches(r@.direct_args_of, r@.rules_of[i].0, q)),
    {
        let rules_of = defined_predicates_rules(rules);
        let direct_args_of = build_direct_args(&rules_of);
        let ghost gv = groups_view(rules_of@);
        let ghost dv = lists_view(direct_args_of@);
        let mut args_of: Vec<(String, NameSet)> = Vec::new();
        let mut i: usize = 0;
        while i < rules_of.len()
            invariant
                i <= rules_of.len(),
                gv == groups_view(rules_of@),
                dv == lists_view(direct_args_of@),
                args_of@.len() == i,
                forall|k: int| 0 <= k < i ==> (#[trigger] lists_view(args_of@)[k]).0 == gv[k].0,
                forall|k: int, q: Seq<char>| 0 <= k < i ==> (#[trigger] lists_view(args_of@)[k].1.contains(q)
                    <==> reaches(dv, gv[k].0, q)),
            decreases rules_of.len() - i,
        {
            let name = &rules_of[i].0;
            let closure = reach(&direct_args_of, name.as_str());
            let ghost before = args_of@;
            let ghost cv = closure@;
            args_of.push((name.clone(), closure));
            proof {
                assert forall|k: int| 0 <= k < i implies lists_view(args_of@)[k] == lists_view(before)[k] by {
                    assert(args_of@[k] == before[k]);
                }
                assert(lists_view(args_of@)[i as int] == (gv[i as int].0, cv));
                assert forall|k: int| 0 <= k < i + 1 implies (#[trigger] lists_view(args_of@)[k]).0 == gv[k].0 by {
                    if k < i {
                        assert(lists_view(before)[k].0 == gv[k].0);
                    }
                }
                assert forall|k: int, q: Seq<char>| 0 <= k < i + 1 implies (#[trigger] lists_view(args_of@)[k].1.contains(q)
                    <==> reaches(dv, gv[k].0, q)) by {
                    if k < i {
                        assert(lists_view(before)[k].1.contains(q) <==> reaches(dv, gv[k].0, q));
                    } else {
                        assert(cv.contains(q) <==> reaches(dv, gv[k].0, q));
                    }
                }
            }
            i = i + 1;
        }
        Functors {
            rules: clone_rules(rules),
            extended_rules: clone_rules(rules),
            rules_of,
            direct_args_of,
            args_of,
            creation_count: 0,
            cached_calls: StrMap::new(),
            constant_literal_function: StrMap::new(),
        }
    }

    /// The predicates each predicate depends on, in one step or more.
    pub fn get_args_of_map(&self) -> (r: &Vec<(String, NameSet)>)
        ensures
            lists_view(r@) == self@.args_of,
    {
        &self.args_of
    }
}

/// A predicate depends on whatever a predicate it depends on depends on.
pub proof fn law_dependencies_are_transitive(d: Seq<(Seq<char>, Seq<Seq<char>>)>, p: Seq<char>, q: Seq<char>, r: Seq<char>)
    requires
        reaches(d, p, q),
        reaches(d, q, r),
    ensures
        reaches(d, p, r),
{
    let a = choose|path: Seq<Seq<char>>| #[trigger] is_walk(d, p, path) && path.last() == q;
    let b = choose|path: Seq<Seq<char>>| #[trigger] is_walk(d, q, path) && path.last() == r;
    let c = a + b;
    assert forall|i: int| 0 <= i < c.len() - 1 implies #[trigger] succ(d, c[i]).contains(c[i + 1]) by {
        if i < a.len() - 1 {
            assert(c[i] == a[i] && c[i + 1] == a[i + 1]);
        } else if i == a.len() - 1 {
            assert(c[i] == q && c[i + 1] == b[0]);
        } else {
            let k = i - a.len();
            assert(c[i] == b[k] && c[i + 1] == b[k + 1]);
        }
    }
    assert(c.last() == r);
    assert(is_walk(d, p, c));
}


impl Functors {
    pub open spec fn args_of_spec(&self, functor: Seq<char>) -> Seq<Seq<char>> {
        succ(self@.args_of, functor)
    }

    /// The predicates `functor` depends on; none for an unknown one.
    pub fn args_of(&self, functor: &str) -> (r: NameSet)
        ensures
            r@ == self.args_of_spec(functor@),
    {
        match successors(&self.args_of, functor) {
            Some(l) => l.clone(),
            None => NameSet::new(),
        }
    }
}


// ---------------------------------------------------------------------------
// Cuts of a cover
// ---------------------------------------------------------------------------

/// Whether each name of `path` is in `cover` and differs from `p`.
pub open spec fn stays_in_cover(path: Seq<Seq<char>>, cover: Seq<Seq<char>>, p: Seq<char>) -> bool {
    forall|i: int| 0 <= i < path.len() ==> cover.contains(#[trigger] path[i]) && path[i] != p
}

/// Whether `p` cuts the cycles of its cover: no walk from `p` that stays in
/// the cover, and does not come back to `p`, passes a name twice.
pub open spec fn cut_of_cover(d: Seq<(Seq<char>, Seq<Seq<char>>)>, p: Seq<char>, cover: Seq<Seq<char>>) -> bool {
    !exists|path: Seq<Seq<char>>| #[trigger] is_walk(d, p, path) && stays_in_cover(path, cover, p) && !path.no_duplicates()
}

/// The lists of `d`, each cut down to the names of `cover` other than `p`.
fn restrict_to_cover(d: &Vec<(String, NameSet)>, cover: &NameSet, p: &str) -> (r: Vec<(String, NameSet)>)
    ensures
        r@.len() == d@.len(),
        forall|i: int| 0 <= i < d@.len() ==> #[trigger] lists_view(r@)[i].0 == lists_view(d@)[i].0,
        forall|i: int, q: Seq<char>| 0 <= i < d@.len() ==> (#[trigger] lists_view(r@)[i].1.contains(q)
            <==> (lists_view(d@)[i].1.contains(q) && cover@.contains(q) && q != p@)),
{
    let mut r: Vec<(String, NameSet)> = Vec::new();
    let mut i: usize = 0;
    while i < d.len()
        invariant
            i <= d.len(),
            r@.len() == i,
            forall|k: int| 0 <= k < i ==> #[trigger] lists_view(r@)[k].0 == lists_view(d@)[k].0,
            forall|k: int, q: Seq<char>| 0 <= k < i ==> (#[trigger] lists_view(r@)[k].1.contains(q)
                <==> (lists_view(d@)[k].1.contains(q) && cover@.contains(q) && q != p@)),
        decreases d.len() - i,
    {
        let src = &d[i].1;
        let mut kept = NameSet::new();
        let mut j: usize = 0;
        while j < src.names.len()
            invariant
                j <= src.names.len(),
                forall|q: Seq<char>| #[trigger] kept@.contains(q) <==> (src@.take(j as int).contains(q) && cover@.contains(q) && q != p@),
            decreases src.names.len() - j,
        {
            let n = &src.names[j];
            let ghost nv = n@;
            assert(nv == src@[j as int]);
            let ghost before = kept@;
            let keep = cover.contains(n.as_str()) && !str_eq(n.as_str(), p);
            if keep {
                kept.insert(n.clone());
            }
            proof {
                lemma_set_add_contains(before, nv);
                let t0 = src@.take(j as int);
                let t1 = src@.take(j + 1);
                assert(t1 =~= t0.push(nv));
                assert forall|m: Seq<char>| #[trigger] kept@.contains(m) <==> (t1.contains(m) && cover@.contains(m) && m != p@) by {
                    if t1.contains(m) && m != nv {
                        let k = choose|k: int| 0 <= k < t1.len() && t1[k] == m;
                        assert(t0[k] == m);
                    }
                    if t0.contains(m) {
                        let k = choose|k: int| 0 <= k < t0.len() && t0[k] == m;
                        assert(t1[k] == m);
                    }
                    if m == nv {
                        assert(t1[j as int] == m);
                    }
                }
            }
            j = j + 1;
        }
        assert(src@.take(j as int) =~= src@);
        let ghost rb = r@;
        let ghost kv = kept@;
        r.push((d[i].0.clone(), kept));
        proof {
            assert(lists_view(r@)[i as int] == (lists_view(d@)[i as int].0, kv));
            assert forall|k: int| 0 <= k < i + 1 implies #[trigger] lists_view(r@)[k].0 == lists_view(d@)[k].0 by {
                if k < i {
                    assert(r@[k] == rb[k]);
                    assert(lists_view(rb)[k].0 == lists_view(d@)[k].0);
                }
            }
            assert forall|k: int, q: Seq<char>| 0 <= k < i + 1 implies (#[trigger] lists_view(r@)[k].1.contains(q)
                <==> (lists_view(d@)[k].1.contains(q) && cover@.contains(q) && q != p@)) by {
                if k < i {
                    assert(r@[k] == rb[k]);
                    assert(lists_view(rb)[k].1.contains(q) <==> (lists_view(d@)[k].1.contains(q) && cover@.contains(q) && q != p@));
                } else {
                    assert(kv.contains(q) <==> (src@.take(j as int).contains(q) && cover@.contains(q) && q != p@));
                }
            }
        }
        i = i + 1;
    }
    r
}

/// The successors of a name in the cut-down lists are its successors in the
/// cover other than `p`.
proof fn lemma_restricted_succ(d: Seq<(Seq<char>, Seq<Seq<char>>)>, e: Seq<(Seq<char>, Seq<Seq<char>>)>, cover: Seq<Seq<char>>, p: Seq<char>, x: Seq<char>, q: Seq<char>)
    requires
        e.len() == d.len(),
        forall|i: int| 0 <= i < d.len() ==> #[trigger] e[i].0 == d[i].0,
        forall|i: int, q: Seq<char>| 0 <= i < d.len() ==> (#[trigger] e[i].1.contains(q)
            <==> (d[i].1.contains(q) && cover.contains(q) && q != p)),
    ensures
        succ(e, x).contains(q) <==> (succ(d, x).contains(q) && cover.contains(q) && q != p),
{
    crate::strmap::lemma_kv_index_keys(e, d, x);
    crate::strmap::lemma_kv_index_keys(d, e, x);
    let k = crate::strmap::kv_index(d, x);
    if k < d.len() {
        assert(e[k].1.contains(q) <==> (d[k].1.contains(q) && cover.contains(q) && q != p));
    }
}

/// Walks in the cut-down lists are the walks that stay in the cover.
proof fn lemma_restricted_walk(d: Seq<(Seq<char>, Seq<Seq<char>>)>, e: Seq<(Seq<char>, Seq<Seq<char>>)>, cover: Seq<Seq<char>>, p: Seq<char>, a: Seq<char>, path: Seq<Seq<char>>)
    requires
        e.len() == d.len(),
        forall|i: int| 0 <= i < d.len() ==> #[trigger] e[i].0 == d[i].0,
        forall|i: int, q: Seq<char>| 0 <= i < d.len() ==> (#[trigger] e[i].1.contains(q)
            <==> (d[i].1.contains(q) && cover.contains(q) && q != p)),
    ensures
        is_walk(e, a, path) <==> (is_walk(d, a, path) && stays_in_cover(path, cover, p)),
{
    if path.len() > 0 {
        lemma_restricted_succ(d, e, cover, p, a, path[0]);
        if is_walk(e, a, path) {
            assert forall|i: int| 0 <= i < path.len() - 1 implies #[trigger] succ(d, path[i]).contains(path[i + 1]) by {
                lemma_restricted_succ(d, e, cover, p, path[i], path[i + 1]);
            }
            assert forall|i: int| 0 <= i < path.len() implies cover.contains(#[trigger] path[i]) && path[i] != p by {
                if i > 0 {
                    let k = i - 1;
                    assert(succ(e, path[k]).contains(path[k + 1]));
                    lemma_restricted_succ(d, e, cover, p, path[k], path[k + 1]);
                }
            }
        }
        if is_walk(d, a, path) && stays_in_cover(path, cover, p) {
            assert forall|i: int| 0 <= i < path.len() - 1 implies #[trigger] succ(e, path[i]).contains(path[i + 1]) by {
                assert(cover.contains(path[i + 1]) && path[i + 1] != p);
                lemma_restricted_succ(d, e, cover, p, path[i], path[i + 1]);
            }
        }
    }
}

/// A name that is reached from `p` and reaches itself gives a walk from `p`
/// that passes it twice, and such a walk gives such a name.
proof fn lemma_repeat_iff_cycle(e: Seq<(Seq<char>, Seq<Seq<char>>)>, p: Seq<char>)
    ensures
        (exists|path: Seq<Seq<char>>| #[trigger] is_walk(e, p, path) && !path.no_duplicates())
            <==> (exists|y: Seq<char>| #[trigger] reaches(e, p, y) && reaches(e, y, y)),
{
    if exists|y: Seq<char>| #[trigger] reaches(e, p, y) && reaches(e, y, y) {
        let y = choose|y: Seq<char>| #[trigger] reaches(e, p, y) && reaches(e, y, y);
        let a = choose|path: Seq<Seq<char>>| #[trigger] is_walk(e, p, path) && path.last() == y;
        let b = choose|path: Seq<Seq<char>>| #[trigger] is_walk(e, y, path) && path.last() == y;
        let c = a + b;
        assert forall|i: int| 0 <= i < c.len() - 1 implies #[trigger] succ(e, c[i]).contains(c[i + 1]) by {
            if i < a.len() - 1 {
                assert(c[i] == a[i] && c[i + 1] == a[i + 1]);
            } else if i == a.len() - 1 {
                assert(c[i] == y && c[i + 1] == b[0]);
            } else {
                let k = i - a.len();
                assert(c[i] == b[k] && c[i + 1] == b[k + 1]);
            }
        }
        assert(is_walk(e, p, c));
        assert(c[a.len() - 1] == y && c[c.len() - 1] == y);
        assert(!c.no_duplicates());
    }
    if exists|path: Seq<Seq<char>>| #[trigger] is_walk(e, p, path) && !path.no_duplicates() {
        let path = choose|path: Seq<Seq<char>>| #[trigger] is_walk(e, p, path) && !path.no_duplicates();
        let (i, j) = choose|i: int, j: int| 0 <= i < path.len() && 0 <= j < path.len() && i != j && path[i] == path[j];
        let (lo, hi) = if i < j { (i, j) } else { (j, i) };
        let y = path[lo];
        let a = path.take(lo + 1);
        assert forall|k: int| 0 <= k < a.len() - 1 implies #[trigger] succ(e, a[k]).contains(a[k + 1]) by {
            assert(a[k] == path[k] && a[k + 1] == path[k + 1]);
        }
        assert(is_walk(e, p, a) && a.last() == y);
        let b = path.subrange(lo + 1, hi + 1);
        assert(succ(e, path[lo]).contains(path[lo + 1]));
        assert forall|k: int| 0 <= k < b.len() - 1 implies #[trigger] succ(e, b[k]).contains(b[k + 1]) by {
            assert(b[k] == path[lo + 1 + k] && b[k + 1] == path[lo + 1 + k + 1]);
        }
        assert(is_walk(e, y, b) && b.last() == y);
        assert(reaches(e, p, y) && reaches(e, y, y));
    }
}

impl Functors {
    /// Whether `p` cuts the cycles of its `cover`: whether no walk from `p`
    /// through the predicates it reads directly, staying in the cover and
    /// not coming back to `p`, passes a predicate twice.
    pub fn is_cut_of_cover(&self, p: &str, cover: &NameSet) -> (r: bool)
        ensures
            r == cut_of_cover(self@.direct_args_of, p@, cover@),
    {
        let ghost dv = lists_view(self.direct_args_of@);
        let e = restrict_to_cover(&self.direct_args_of, cover, p);
        let ghost ev = lists_view(e@);
        proof {
            assert forall|path: Seq<Seq<char>>, a: Seq<char>| #[trigger] is_walk(ev, a, path)
                <==> (is_walk(dv, a, path) && stays_in_cover(path, cover@, p@)) by {
                lemma_restricted_walk(dv, ev, cover@, p@, a, path);
            }
            lemma_repeat_iff_cycle(ev, p@);
            assert((exists|path: Seq<Seq<char>>| #[trigger] is_walk(ev, p@, path) && !path.no_duplicates())
                <==> !cut_of_cover(dv, p@, cover@)) by {
                if exists|path: Seq<Seq<char>>| #[trigger] is_walk(ev, p@, path) && !path.no_duplicates() {
                    let path = choose|path: Seq<Seq<char>>| #[trigger] is_walk(ev, p@, path) && !path.no_duplicates();
                    assert(is_walk(dv, p@, path) && stays_in_cover(path, cover@, p@));
                }
                if !cut_of_cover(dv, p@, cover@) {
                    let path = choose|path: Seq<Seq<char>>| #[trigger] is_walk(dv, p@, path) && stays_in_cover(path, cover@, p@) && !path.no_duplicates();
                    assert(is_walk(ev, p@, path));
                }
            }
            assert(cut_of_cover(dv, p@, cover@) <==> !(exists|y: Seq<char>| #[trigger] reaches(ev, p@, y) && reaches(ev, y, y)));
        }
        let reached = reach(&e, p);
        let mut k: usize = 0;
        while k < reached.names.len()
            invariant
                ev == lists_view(e@),
                dv == lists_view(self.direct_args_of@),
                cut_of_cover(dv, p@, cover@) <==> !(exists|y: Seq<char>| #[trigger] reaches(ev, p@, y) && reaches(ev, y, y)),
                k <= reached@.len(),
                reached@.len() == reached.names@.len(),
                forall|q: Seq<char>| #[trigger] reached@.contains(q) <==> reaches(ev, p@, q),
                forall|j: int| 0 <= j < k ==> !reaches(ev, #[trigger] reached@[j], reached@[j]),
            decreases reached.names.len() - k,
        {
            let y = &reached.names[k];
            let ghost yv = y@;
            assert(yv == reached@[k as int]);
            let back = reach(&e, y.as_str());
            if back.contains(y.as_str()) {
                proof {
                    assert(reached@.contains(yv));
                    assert(reaches(ev, p@, yv) && reaches(ev, yv, yv));
                }
                return false;
            }
            k = k + 1;
        }
        proof {
            assert forall|y: Seq<char>| !(#[trigger] reaches(ev, p@, y) && reaches(ev, y, y)) by {
                if reaches(ev, p@, y) {
                    assert(reached@.contains(y));
                    let j = choose|j: int| 0 <= j < reached@.len() && reached@[j] == y;
                    assert(!reaches(ev, reached@[j], reached@[j]));
                }
            }
        }
        true
    }
}

/// The rules of `f`; none when it has none.
pub open spec fn rules_for(g: Seq<(Seq<char>, Seq<JVal>)>, f: Seq<char>) -> Seq<JVal> {
    match kv_get(g, f) {
        Some(l) => l,
        None => seq![],
    }
}

/// The rules of the groups of `g` whose predicate is in `deps`, but
/// `functor`'s, in the order of `g`.
pub open spec fn dependency_groups(g: Seq<(Seq<char>, Seq<JVal>)>, deps: Set<Seq<char>>, functor: Seq<char>) -> Seq<JVal>
    decreases g.len(),
{
    if g.len() == 0 {
        seq![]
    } else {
        dependency_groups(g.drop_last(), deps, functor) + if deps.contains(g.last().0) && g.last().0 != functor {
            g.last().1
        } else {
            Seq::<JVal>::empty()
        }
    }
}

/// The entries of `args` whose name is in `deps`, in order.
pub open spec fn relevant_args(args: Seq<(Seq<char>, Seq<char>)>, deps: Seq<Seq<char>>) -> Seq<(Seq<char>, Seq<char>)>
    decreases args.len(),
{
    if args.len() == 0 {
        seq![]
    } else if deps.contains(args.last().0) {
        relevant_args(args.drop_last(), deps).push(args.last())
    } else {
        relevant_args(args.drop_last(), deps)
    }
}

/// The key of a call of `functor`: its name and the arguments it depends on,
/// sorted by name, as `name: value`.
pub open spec fn call_key_text(functor: Seq<char>, args: Seq<(Seq<char>, Seq<char>)>, deps: Seq<Seq<char>>) -> Seq<char> {
    functor + "("@ + join(
        crate::type_inference::expression::entry_texts(crate::type_inference::expression::sort_entries(relevant_args(args, deps))),
        ", "@,
    ) + ")"@
}

/// Append the rules of `f` (if any) to `out`.
fn append_rules_of(groups: &Vec<(String, Vec<Json>)>, f: &str, out: &mut Vec<Json>)
    ensures
        jv_seq(final(out)@) == jv_seq(old(out)@) + rules_for(groups_view(groups@), f@),
{
    let ghost gv = groups_view(groups@);
    let p = crate::strmap::key_position(groups, f);
    proof {
        crate::strmap::lemma_kv_index_keys(gv, groups@.map_values(|e: (String, Vec<Json>)| (e.0@, ())), f@);
    }
    if p < groups.len() {
        let src = &groups[p].1;
        let ghost sv = jv_seq(src@);
        assert(sv == gv[p as int].1);
        let ghost start = jv_seq(out@);
        let mut i: usize = 0;
        proof {
            lemma_jv_seq_len(src@);
            assert(start + sv.take(0) =~= start);
        }
        while i < src.len()
            invariant
                i <= src.len(),
                sv == jv_seq(src@),
                sv.len() == src.len(),
                jv_seq(out@) == start + sv.take(i as int),
            decreases src.len() - i,
        {
            proof {
                lemma_jv_seq_index(src@, i as int);
            }
            let ghost before = out@;
            out.push(src[i].clone());
            proof {
                assert(out@.drop_last() =~= before);
                assert(start + sv.take(i + 1) =~= (start + sv.take(i as int)).push(sv[i as int]));
            }
            i = i + 1;
        }
        assert(sv.take(i as int) =~= sv);
    } else {
        assert(jv_seq(out@) + Seq::<JVal>::empty() =~= jv_seq(out@));
    }
}

impl Functors {
    /// The rules of `functor`, then those of the predicates it depends on
    /// (recursion of `functor` on itself left out).
    pub fn all_rules_of(&self, functor: &str) -> (r: crate::CompileResult<Vec<Json>>)
        ensures
            r matches Ok(v) && jv_seq(v@) == rules_for(self@.rules_of, functor@) + dependency_groups(
                self@.rules_of,
                self.args_of_spec(functor@).to_set(),
                functor@,
            ),
    {
        let mut result: Vec<Json> = Vec::new();
        assert(jv_seq(result@) =~= Seq::<JVal>::empty());
        append_rules_of(&self.rules_of, functor, &mut result);
        let deps = self.args_of(functor);
        let ghost g = self@.rules_of;
        let ghost ds = deps@.to_set();
        let ghost start = jv_seq(result@);
        let mut i: usize = 0;
        assert(g.take(0) =~= Seq::<(Seq<char>, Seq<JVal>)>::empty());
        assert(start + dependency_groups(g.take(0), ds, functor@) =~= start);
        while i < self.rules_of.len()
            invariant
                i <= self.rules_of.len(),
                g == self@.rules_of,
                g == groups_view(self.rules_of@),
                g.len() == self.rules_of.len(),
                ds == deps@.to_set(),
                jv_seq(result@) == start + dependency_groups(g.take(i as int), ds, functor@),
            decreases self.rules_of.len() - i,
        {
            proof {
                assert(g.take(i + 1).drop_last() =~= g.take(i as int));
                assert(g.take(i + 1).last() == g[i as int]);
            }
            let f = self.rules_of[i].0.as_str();
            if !crate::text::str_eq(f, functor) && deps.contains(f) {
                let src = &self.rules_of[i].1;
                let ghost before = jv_seq(result@);
                let mut k: usize = 0;
                proof {
                    lemma_jv_seq_len(src@);
                    assert(jv_seq(src@).take(0) =~= Seq::<JVal>::empty());
                    assert(before + jv_seq(src@).take(0) =~= before);
                }
                while k < src.len()
                    invariant
                        k <= src.len(),
                        jv_seq(src@).len() == src.len(),
                        jv_seq(result@) == before + jv_seq(src@).take(k as int),
                    decreases src.len() - k,
                {
                    proof {
                        lemma_jv_seq_index(src@, k as int);
                    }
                    let ghost rb = result@;
                    result.push(src[k].clone());
                    proof {
                        assert(result@.drop_last() =~= rb);
                        lemma_jv_seq_len(result@);
                        lemma_jv_seq_index(result@, result@.len() - 1);
                        assert(jv_seq(result@) =~= jv_seq(rb).push(jv_seq(src@)[k as int]));
                        assert(jv_seq(src@).take(k + 1) =~= jv_seq(src@).take(k as int).push(jv_seq(src@)[k as int]));
                    }
                    k = k + 1;
                }
                proof {
                    assert(jv_seq(src@).take(k as int) =~= jv_seq(src@));
                    assert(g[i as int].1 == jv_seq(src@));
                    assert(ds.contains(g[i as int].0));
                }
            } else {
                proof {
                    if g[i as int].0 != functor@ {
                        assert(!deps@.contains(g[i as int].0));
                        assert(!ds.contains(g[i as int].0));
                    }
                }
                assert(jv_seq(result@) + Seq::<JVal>::empty() =~= jv_seq(result@));
            }
            i = i + 1;
        }
        assert(g.take(i as int) =~= g);
        Ok(result)
    }

    /// The predicates the rules of `functor` read directly.
    pub fn build_direct_args_of_predicate(&self, functor: &str) -> (r: NameSet)
        ensures
            forall|n: Seq<char>| #[trigger] r@.contains(n) <==> group_args(rules_for(self@.rules_of, functor@)).contains(n),
    {
        let mut names = NameSet::new();
        let ghost gv = self@.rules_of;
        let p = crate::strmap::key_position(&self.rules_of, functor);
        proof {
            crate::strmap::lemma_kv_index_keys(gv, self.rules_of@.map_values(|e: (String, Vec<Json>)| (e.0@, ())), functor@);
        }
        if p < self.rules_of.len() {
            let rules = &self.rules_of[p].1;
            let ghost rv = jv_seq(rules@);
            assert(rv == gv[p as int].1);
            let mut j: usize = 0;
            proof {
                lemma_jv_seq_len(rules@);
                assert(rv.take(0) =~= Seq::<JVal>::empty());
            }
            while j < rules.len()
                invariant
                    j <= rules.len(),
                    rv == jv_seq(rules@),
                    rv.len() == rules.len(),
                    forall|n: Seq<char>| #[trigger] names@.contains(n) <==> group_args(rv.take(j as int)).contains(n),
                decreases rules.len() - j,
            {
                proof {
                    lemma_jv_seq_index(rules@, j as int);
                    assert(rv.take(j + 1).drop_last() =~= rv.take(j as int));
                    assert(rv.take(j + 1).last() == rules@[j as int]@);
                }
                let rule = &rules[j];
                match rule.get("body") {
                    Some(body) => collect_names(body, &mut names),
                    None => {},
                }
                match rule.get("head") {
                    Some(head) => match head.get("record") {
                        Some(rec) => collect_names(rec, &mut names),
                        None => {},
                    },
                    None => {},
                }
                j = j + 1;
            }
            assert(rv.take(j as int) =~= rv);
        }
        names
    }

    /// The name of the function giving a constant, made when first asked for.
    pub fn get_constant_function(&mut self, key: &str) -> (r: String)
        ensures
            (final(self)@.constants, r@) == const_step(old(self)@.constants, key@),
            r@ == match crate::strmap::sm_get(old(self)@.constants, key@) {
                Some(n) => n,
                None => "LogicaCompilerConstant"@ + int_text(old(self)@.constants.len() as int),
            },
            final(self)@.constants == match crate::strmap::sm_get(old(self)@.constants, key@) {
                Some(_) => old(self)@.constants,
                None => crate::strmap::sm_insert(old(self)@.constants, key@, r@),
            },
            final(self)@.rules_of == old(self)@.rules_of,
            final(self)@.args_of == old(self)@.args_of,
            final(self)@.direct_args_of == old(self)@.direct_args_of,
            final(self)@.rules == old(self)@.rules,
            final(self)@.extended_rules == old(self)@.extended_rules,
            final(self)@.creation_count == old(self)@.creation_count,
            final(self)@.cached == old(self)@.cached,
    {
        if let Some(name) = self.constant_literal_function.get(key) {
            return name.clone();
        }
        let count = crate::text::usize_to_string(self.constant_literal_function.len());
        let name = concat2("LogicaCompilerConstant", count.as_str());
        self.constant_literal_function.insert(key.to_string(), name.clone());
        name
    }

    /// The function giving an integer constant.
    pub fn get_int_constant_function(&mut self, value: i64) -> (r: String)
        ensures
            r@ == match crate::strmap::sm_get(old(self)@.constants, "int:"@ + int_text(value as int)) {
                Some(n) => n,
                None => "LogicaCompilerConstant"@ + int_text(old(self)@.constants.len() as int),
            },
            (final(self)@.constants, r@) == const_step(old(self)@.constants, "int:"@ + int_text(value as int)),
            final(self)@.rules_of == old(self)@.rules_of,
            final(self)@.args_of == old(self)@.args_of,
            final(self)@.direct_args_of == old(self)@.direct_args_of,
            final(self)@.rules == old(self)@.rules,
            final(self)@.extended_rules == old(self)@.extended_rules,
            final(self)@.creation_count == old(self)@.creation_count,
            final(self)@.cached == old(self)@.cached,
    {
        let v = int_to_string(value);
        let key = concat2("int:", v.as_str());
        self.get_constant_function(key.as_str())
    }

    /// The function giving a string constant.
    pub fn get_str_constant_function(&mut self, value: &str) -> (r: String)
        ensures
            r@ == match crate::strmap::sm_get(old(self)@.constants, "str:"@ + value@) {
                Some(n) => n,
                None => "LogicaCompilerConstant"@ + int_text(old(self)@.constants.len() as int),
            },
            (final(self)@.constants, r@) == const_step(old(self)@.constants, "str:"@ + value@),
            final(self)@.rules_of == old(self)@.rules_of,
            final(self)@.args_of == old(self)@.args_of,
            final(self)@.direct_args_of == old(self)@.direct_args_of,
            final(self)@.rules == old(self)@.rules,
            final(self)@.extended_rules == old(self)@.extended_rules,
            final(self)@.creation_count == old(self)@.creation_count,
            final(self)@.cached == old(self)@.cached,
    {
        let key = concat2("str:", value);
        self.get_constant_function(key.as_str())
    }

    /// The key of a call of `functor` with the given arguments.
    pub fn call_key(&self, functor: &str, args_map: &StrMap) -> (r: String)
        ensures
            r@ == call_key_text(functor@, args_map@, self.args_of_spec(functor@)),
    {
        let deps = self.args_of(functor);
        let ghost av = args_map@;
        let mut relevant: Vec<(String, String)> = Vec::new();
        let mut i: usize = 0;
        assert(av.take(0) =~= Seq::<(Seq<char>, Seq<char>)>::empty());
        assert(crate::type_inference::expression::pairs_view(relevant@) =~= Seq::<(Seq<char>, Seq<char>)>::empty());
        while i < args_map.entries.len()
            invariant
                i <= args_map.entries.len(),
                av == args_map@,
                av.len() == args_map.entries.len(),
                crate::type_inference::expression::pairs_view(relevant@)
                    == crate::type_inference::expression::sort_entries(relevant_args(av.take(i as int), deps@)),
            decreases args_map.entries.len() - i,
        {
            proof {
                assert(av.take(i + 1).drop_last() =~= av.take(i as int));
                assert(av.take(i + 1).last() == av[i as int]);
            }
            let k = &args_map.entries[i].0;
            if deps.contains(k.as_str()) {
                let ghost rel = relevant_args(av.take(i + 1), deps@);
                proof {
                    assert(rel.drop_last() == relevant_args(av.take(i as int), deps@));
                    assert(crate::type_inference::expression::sort_entries(rel) == crate::type_inference::expression::insert_entry(
                        crate::type_inference::expression::sort_entries(rel.drop_last()),
                        rel.last(),
                    ));
                }
                crate::type_inference::expression::insert_entry_exec(&mut relevant, (k.clone(), args_map.entries[i].1.clone()));
            }
            i = i + 1;
        }
        assert(av.take(i as int) =~= av);
        let ghost ev = crate::type_inference::expression::pairs_view(relevant@);
        let mut texts: Vec<String> = Vec::new();
        let mut j: usize = 0;
        assert(texts@.map_values(|t: String| t@) =~= crate::type_inference::expression::entry_texts(ev).take(0));
        while j < relevant.len()
            invariant
                j <= relevant.len(),
                ev == crate::type_inference::expression::pairs_view(relevant@),
                texts@.map_values(|t: String| t@) == crate::type_inference::expression::entry_texts(ev).take(j as int),
            decreases relevant.len() - j,
        {
            let t = concat3(relevant[j].0.as_str(), ": ", relevant[j].1.as_str());
            let ghost before = texts@.map_values(|t: String| t@);
            texts.push(t);
            assert(texts@.map_values(|t: String| t@) =~= before.push(t@));
            assert(crate::type_inference::expression::entry_texts(ev).take(j + 1)
                =~= crate::type_inference::expression::entry_texts(ev).take(j as int).push(ev[j as int].0 + ": "@ + ev[j as int].1));
            j = j + 1;
        }
        assert(crate::type_inference::expression::entry_texts(ev).take(j as int) =~= crate::type_inference::expression::entry_texts(ev));
        let joined = join_strings(&texts, ", ");
        crate::text::concat4(functor, "(", joined.as_str(), ")")
    }
}

/// The constant function for `key`: the one made before, or a new one
/// `LogicaCompilerConstantN` (`N` the number made so far), recorded.
pub open spec fn const_step(c: Seq<(Seq<char>, Seq<char>)>, key: Seq<char>) -> (Seq<(Seq<char>, Seq<char>)>, Seq<char>) {
    match crate::strmap::sm_get(c, key) {
        Some(n) => (c, n),
        None => {
            let n = "LogicaCompilerConstant"@ + int_text(c.len() as int);
            (crate::strmap::sm_insert(c, key, n), n)
        },
    }
}

// ---------------------------------------------------------------------------
// Renaming predicates in a tree
// ---------------------------------------------------------------------------

/// `v` with every `predicate_name` that is the string `from` set to `to`.
pub open spec fn pred_replaced(v: JVal, from: Seq<char>, to: Seq<char>) -> JVal
    decreases v, 1nat,
{
    match v {
        JVal::Object(es) => {
            let es2 = pred_replaced_entries(es, from, to);
            if jget(v, "predicate_name"@) == Some(JVal::Str(from)) {
                JVal::Object(crate::json::entries_insert(es2, "predicate_name"@, JVal::Str(to)))
            } else {
                JVal::Object(es2)
            }
        },
        JVal::Array(a) => JVal::Array(pred_replaced_items(a, from, to)),
        _ => v,
    }
}

pub open spec fn pred_replaced_items(a: Seq<JVal>, from: Seq<char>, to: Seq<char>) -> Seq<JVal>
    decreases a, 0nat,
{
    if a.len() == 0 {
        seq![]
    } else {
        pred_replaced_items(a.drop_last(), from, to).push(pred_replaced(a.last(), from, to))
    }
}

pub open spec fn pred_replaced_entries(es: Seq<(Seq<char>, JVal)>, from: Seq<char>, to: Seq<char>) -> Seq<(Seq<char>, JVal)>
    decreases es, 0nat,
{
    if es.len() == 0 {
        seq![]
    } else {
        proof {
            assert(decreases_to!(es => es.last()));
        }
        pred_replaced_entries(es.drop_last(), from, to).push((es.last().0, pred_replaced(es.last().1, from, to)))
    }
}

#[verifier::loop_isolation(false)]
fn pred_replaced_json(node: &Json, from: &str, to: &str) -> (r: Json)
    ensures
        r@ == pred_replaced(node@, from@, to@),
    decreases node,
{
    match node {
        Json::Object(o) => {
            let ghost es = jv_entries(o.entries@);
            let mut out: Vec<(String, Json)> = Vec::new();
            let mut i: usize = 0;
            proof {
                lemma_jv_entries_len(o.entries@);
                assert(es.take(0) =~= Seq::<(Seq<char>, JVal)>::empty());
            }
            while i < o.entries.len()
                invariant
                    i <= o.entries.len(),
                    es == jv_entries(o.entries@),
                    es.len() == o.entries.len(),
                    jv_entries(out@) == pred_replaced_entries(es.take(i as int), from@, to@),
                decreases o.entries.len() - i,
            {
                proof {
                    lemma_jv_entries_index(o.entries@, i as int);
                    assert(es.take(i + 1).drop_last() =~= es.take(i as int));
                    assert(decreases_to!(*node => o.entries@[i as int].1));
                }
                let x = pred_replaced_json(&o.entries[i].1, from, to);
                let ghost before = out@;
                out.push((o.entries[i].0.clone(), x));
                proof {
                    assert(out@.drop_last() =~= before);
                }
                i = i + 1;
            }
            assert(es.take(i as int) =~= es);
            let mut obj = JsonObject { entries: out };
            let renamed = match node.get("predicate_name") {
                Some(Json::Str(pn)) => crate::text::str_eq(pn.as_str(), from),
                _ => false,
            };
            if renamed {
                obj.insert("predicate_name".to_string(), Json::Str(to.to_string()));
            }
            Json::Object(obj)
        },
        Json::Array(a) => {
            let ghost items = jv_seq(a@);
            let mut out: Vec<Json> = Vec::new();
            let mut i: usize = 0;
            proof {
                lemma_jv_seq_len(a@);
                assert(items.take(0) =~= Seq::<JVal>::empty());
            }
            while i < a.len()
                invariant
                    i <= a.len(),
                    items == jv_seq(a@),
                    items.len() == a.len(),
                    jv_seq(out@) == pred_replaced_items(items.take(i as int), from@, to@),
                decreases a.len() - i,
            {
                proof {
                    lemma_jv_seq_index(a@, i as int);
                    assert(items.take(i + 1).drop_last() =~= items.take(i as int));
                    assert(decreases_to!(*node => a@[i as int]));
                }
                let x = pred_replaced_json(&a[i], from, to);
                let ghost before = out@;
                out.push(x);
                proof {
                    assert(out@.drop_last() =~= before);
                }
                i = i + 1;
            }
            assert(items.take(i as int) =~= items);
            Json::Array(out)
        },
        _ => node.clone(),
    }
}

/// Rename predicate `from` to `to` everywhere in `node`.
pub fn walk_replace_predicate(node: &mut Json, from: &str, to: &str)
    ensures
        final(node)@ == pred_replaced(old(node)@, from@, to@),
{
    let r = pred_replaced_json(node, from, to);
    *node = r;
}

// ---------------------------------------------------------------------------
// @Make instructions and annotations of functors
// ---------------------------------------------------------------------------

/// An argument of a `@Make` instruction: a predicate, or a constant.
pub enum MakeArgV {
    Pred(Seq<char>),
    Str(Seq<char>),
    Int(i64),
}

/// What an argument value of a `@Make` instruction gives, if anything.
pub open spec fn make_arg(v: JVal) -> Option<MakeArgV> {
    if v is Object {
        if jget(v, "predicate_name"@) is Some {
            Some(MakeArgV::Pred(jstr(jfield(v, "predicate_name"@))))
        } else if jget(v, "literal"@) is Some {
            let lit = jfield(v, "literal"@);
            if jget(lit, "the_string"@) is Some {
                let ts = jfield(lit, "the_string"@);
                if ts is Str {
                    Some(MakeArgV::Str(jstr(ts)))
                } else if jget(ts, "the_string"@) is Some {
                    Some(MakeArgV::Str(jstr(jfield(ts, "the_string"@))))
                } else {
                    None
                }
            } else if jget(lit, "the_number"@) is Some {
                let tn = jfield(lit, "the_number"@);
                if tn is Int {
                    Some(MakeArgV::Int(jint(tn)))
                } else if jget(tn, "number"@) is Some {
                    Some(MakeArgV::Int(match crate::text::parse_int(jstr(jfield(tn, "number"@))) {
                        Some(n) => n,
                        None => 0,
                    }))
                } else {
                    None
                }
            } else {
                None
            }
        } else {
            None
        }
    } else if v is Int {
        Some(MakeArgV::Int(jint(v)))
    } else if v is Str {
        Some(MakeArgV::Str(jstr(v)))
    } else {
        None
    }
}

/// The arguments of a `@Make` instruction in order, with the constants they
/// need: the constants and the argument map after.
pub open spec fn make_args(es: Seq<(Seq<char>, JVal)>, c: Seq<(Seq<char>, Seq<char>)>, args: Seq<(Seq<char>, Seq<char>)>) -> (Seq<(Seq<char>, Seq<char>)>, Seq<(Seq<char>, Seq<char>)>)
    decreases es.len(),
{
    if es.len() == 0 {
        (c, args)
    } else {
        let p = make_args(es.drop_last(), c, args);
        let k = es.last().0;
        match make_arg(es.last().1) {
            Some(MakeArgV::Pred(n)) => (p.0, crate::strmap::sm_insert(p.1, k, n)),
            Some(MakeArgV::Str(x)) => {
                let q = const_step(p.0, "str:"@ + x);
                (q.0, crate::strmap::sm_insert(p.1, k, q.1))
            },
            Some(MakeArgV::Int(i)) => {
                let q = const_step(p.0, "int:"@ + int_text(i as int));
                (q.0, crate::strmap::sm_insert(p.1, k, q.1))
            },
            None => p,
        }
    }
}

pub open spec fn bad_make_message(predicate: Seq<char>) -> Seq<char> {
    "Bad @Make instruction for "@ + predicate
}

/// The annotations that name a predicate as their first argument.
pub open spec fn functor_annotation(n: Seq<char>) -> bool {
    n == "@Limit"@ || n == "@OrderBy"@ || n == "@Ground"@ || n == "@NoInject"@ || n == "@Iteration"@
}

/// What the first argument of an annotation rule is: nothing to read (`None`),
/// the predicate it names (`Some(Ok(..))`), or not a predicate (`Some(Err(()))`).
pub open spec fn annotation_target(rule: JVal) -> Option<Result<Seq<char>, ()>> {
    let fvs = jitems(jfield(jfield(jfield(rule, "head"@), "record"@), "field_value"@));
    if fvs.len() == 0 {
        None
    } else {
        match jget(jfield(fvs[0], "value"@), "expression"@) {
            Some(expr) => match jget(expr, "literal"@) {
                Some(lit) => match jget(lit, "the_predicate"@) {
                    Some(pred) => Some(Ok(jstr(jfield(pred, "predicate_name"@)))),
                    None => Some(Err(())),
                },
                None => None,
            },
            None => None,
        }
    }
}

pub open spec fn full_text_of(rule: JVal) -> Seq<char> {
    match jget(rule, "full_text"@) {
        Some(ft) => jstr(ft),
        None => seq![],
    }
}

pub open spec fn annotation_first_arg_message() -> Seq<char> {
    "This annotation requires predicate symbol as the first positional argument."@
}

/// The annotation rules among `rules` that name one of `preds`, in order; the
/// first rule whose first argument is not a predicate stops with its text.
pub open spec fn collect_rules(rules: Seq<JVal>, preds: Seq<Seq<char>>) -> Result<Seq<JVal>, Seq<char>>
    decreases rules.len(),
{
    if rules.len() == 0 {
        Ok(seq![])
    } else {
        match collect_rules(rules.drop_last(), preds) {
            Err(e) => Err(e),
            Ok(acc) => {
                let r = rules.last();
                match annotation_target(r) {
                    None => Ok(acc),
                    Some(Ok(pn)) => if preds.contains(pn) { Ok(acc.push(r)) } else { Ok(acc) },
                    Some(Err(_)) => Err(full_text_of(r)),
                }
            },
        }
    }
}

/// [`collect_rules`] over the groups of the annotations that name predicates,
/// group after group.
pub open spec fn collect_groups(groups: Seq<(Seq<char>, Seq<JVal>)>, preds: Seq<Seq<char>>) -> Result<Seq<JVal>, Seq<char>>
    decreases groups.len(),
{
    if groups.len() == 0 {
        Ok(seq![])
    } else {
        match collect_groups(groups.drop_last(), preds) {
            Err(e) => Err(e),
            Ok(acc) => if !functor_annotation(groups.last().0) {
                Ok(acc)
            } else {
                match collect_rules(groups.last().1, preds) {
                    Err(e) => Err(e),
                    Ok(more) => Ok(acc + more),
                }
            },
        }
    }
}

proof fn lemma_collect_rules_err(rv: Seq<JVal>, preds: Seq<Seq<char>>, k: int)
    requires
        0 <= k < rv.len(),
        collect_rules(rv.take(k), preds) is Ok,
        annotation_target(rv[k]) matches Some(Err(_)),
    ensures
        collect_rules(rv, preds) == Err::<Seq<JVal>, Seq<char>>(full_text_of(rv[k])),
    decreases rv.len() - k,
{
    let n = k + 1;
    assert(rv.take(n).drop_last() =~= rv.take(k));
    assert(rv.take(n).last() == rv[k]);
    lemma_collect_rules_stays(rv, preds, n, full_text_of(rv[k]));
}

proof fn lemma_collect_rules_stays(rv: Seq<JVal>, preds: Seq<Seq<char>>, n: int, e: Seq<char>)
    requires
        0 <= n <= rv.len(),
        collect_rules(rv.take(n), preds) == Err::<Seq<JVal>, Seq<char>>(e),
    ensures
        collect_rules(rv, preds) == Err::<Seq<JVal>, Seq<char>>(e),
    decreases rv.len() - n,
{
    if n < rv.len() {
        assert(rv.take(n + 1).drop_last() =~= rv.take(n));
        lemma_collect_rules_stays(rv, preds, n + 1, e);
    } else {
        assert(rv.take(n) =~= rv);
    }
}

proof fn lemma_collect_groups_err(gs: Seq<(Seq<char>, Seq<JVal>)>, preds: Seq<Seq<char>>, g: int)
    requires
        0 <= g < gs.len(),
        collect_groups(gs.take(g), preds) is Ok,
        functor_annotation(gs[g].0),
        collect_rules(gs[g].1, preds) is Err,
    ensures
        collect_groups(gs, preds) == collect_rules(gs[g].1, preds),
    decreases gs.len() - g,
{
    let n = g + 1;
    assert(gs.take(n).drop_last() =~= gs.take(g));
    assert(gs.take(n).last() == gs[g]);
    lemma_collect_groups_stays(gs, preds, n, collect_rules(gs[g].1, preds)->Err_0);
}

proof fn lemma_collect_groups_stays(gs: Seq<(Seq<char>, Seq<JVal>)>, preds: Seq<Seq<char>>, n: int, e: Seq<char>)
    requires
        0 <= n <= gs.len(),
        collect_groups(gs.take(n), preds) == Err::<Seq<JVal>, Seq<char>>(e),
    ensures
        collect_groups(gs, preds) == Err::<Seq<JVal>, Seq<char>>(e),
    decreases gs.len() - n,
{
    if n < gs.len() {
        assert(gs.take(n + 1).drop_last() =~= gs.take(n));
        lemma_collect_groups_stays(gs, preds, n + 1, e);
    } else {
        assert(gs.take(n) =~= gs);
    }
}

fn is_functor_annotation(n: &str) -> (r: bool)
    ensures
        r == functor_annotation(n@),
{
    crate::text::str_eq(n, "@Limit") || crate::text::str_eq(n, "@OrderBy") || crate::text::str_eq(n, "@Ground")
        || crate::text::str_eq(n, "@NoInject") || crate::text::str_eq(n, "@Iteration")
}

fn annotation_target_exec(rule: &Json) -> (r: Option<Result<String, ()>>)
    ensures
        match r {
            None => annotation_target(rule@) is None,
            Some(Ok(pn)) => annotation_target(rule@) == Some(Ok::<Seq<char>, ()>(pn@)),
            Some(Err(_)) => annotation_target(rule@) == Some(Err::<Seq<char>, ()>(())),
        },
{
    broadcast use group_json_view;
    let fvs = opt_elements(opt_field(opt_field(rule.get("head"), "record"), "field_value"));
    proof {
        lemma_jv_seq_len(fvs@);
    }
    if fvs.len() == 0 {
        return None;
    }
    proof {
        lemma_jv_seq_index(fvs@, 0);
    }
    match opt_field(fvs[0].get("value"), "expression") {
        Some(expr) => match expr.get("literal") {
            Some(lit) => match lit.get("the_predicate") {
                Some(pred) => Some(Ok(opt_str(pred.get("predicate_name")).to_string())),
                None => Some(Err(())),
            },
            None => None,
        },
        None => None,
    }
}

impl Functors {
    /// Read a `@Make` instruction for `predicate`: its applicant (argument `1`)
    /// and its arguments (argument `2`), constants turned into the functions
    /// that give them (see [`make_args`]).
    pub fn parse_make_instruction(&mut self, predicate: &str, instruction: &Json) -> (r: CompileResult<(String, String, StrMap)>)
        ensures
            jget(instruction@, "1"@) is None ==> (r matches Err(e) && e.message@ == bad_make_message(predicate@)
                && e.rule_text@ == ""@ && final(self)@ == old(self)@),
            jget(instruction@, "1"@) matches Some(first) ==> (r matches Ok(t) && t.0@ == predicate@
                && t.1@ == jstr(jfield(first, "predicate_name"@))
                && (final(self)@.constants, t.2@) == make_args(jentries(jfield(instruction@, "2"@)), old(self)@.constants, seq![])),
            final(self)@.rules_of == old(self)@.rules_of,
            final(self)@.args_of == old(self)@.args_of,
            final(self)@.direct_args_of == old(self)@.direct_args_of,
            final(self)@.rules == old(self)@.rules,
            final(self)@.extended_rules == old(self)@.extended_rules,
            final(self)@.creation_count == old(self)@.creation_count,
            final(self)@.cached == old(self)@.cached,
    {
        broadcast use group_json_view;
        let first = match instruction.get("1") {
            Some(x) => x,
            None => {
                let m = concat2("Bad @Make instruction for ", predicate);
                proof {
                    reveal_strlit("");
                }
                return Err(CompileError::new(m.as_str(), ""));
            },
        };
        let applicant = opt_str(first.get("predicate_name")).to_string();
        let mut args_map = StrMap::new();
        let null = Json::Null;
        let second: &Json = match instruction.get("2") {
            Some(x) => x,
            None => &null,
        };
        let empty: Vec<(String, Json)> = Vec::new();
        let entries: &Vec<(String, Json)> = match second {
            Json::Object(o) => &o.entries,
            _ => &empty,
        };
        let ghost es = jv_entries(entries@);
        let ghost c0 = self@.constants;
        proof {
            assert(jv_entries(empty@) =~= Seq::<(Seq<char>, JVal)>::empty());
            assert(es == jentries(jfield(instruction@, "2"@)));
            lemma_jv_entries_len(entries@);
            assert(es.take(0) =~= Seq::<(Seq<char>, JVal)>::empty());
            reveal_strlit("str:");
            reveal_strlit("int:");
        }
        let mut i: usize = 0;
        while i < entries.len()
            invariant
                i <= entries.len(),
                es == jv_entries(entries@),
                es.len() == entries.len(),
                make_args(es.take(i as int), c0, seq![]) == (self@.constants, args_map@),
                self@.rules_of == old(self)@.rules_of,
                self@.args_of == old(self)@.args_of,
                self@.direct_args_of == old(self)@.direct_args_of,
                self@.rules == old(self)@.rules,
                self@.extended_rules == old(self)@.extended_rules,
                self@.creation_count == old(self)@.creation_count,
                self@.cached == old(self)@.cached,
            decreases entries.len() - i,
        {
            proof {
                lemma_jv_entries_index(entries@, i as int);
                assert(es.take(i + 1).drop_last() =~= es.take(i as int));
                assert(es.take(i + 1).last() == es[i as int]);
            }
            let arg_name = &entries[i].0;
            let arg_value = &entries[i].1;
            if arg_value.is_object() {
                match arg_value.get("predicate_name") {
                    Some(pn) => {
                        args_map.insert(arg_name.clone(), pn.as_str().to_string());
                    },
                    None => match arg_value.get("literal") {
                        Some(lit) => {
                            match lit.get("the_string") {
                                Some(ts) => {
                                    let text: Option<String> = if ts.is_string() {
                                        Some(ts.as_str().to_string())
                                    } else {
                                        match ts.get("the_string") {
                                            Some(inner) => Some(inner.as_str().to_string()),
                                            None => None,
                                        }
                                    };
                                    match text {
                                        Some(x) => {
                                            let f = self.get_str_constant_function(x.as_str());
                                            args_map.insert(arg_name.clone(), f);
                                        },
                                        None => {},
                                    }
                                },
                                None => match lit.get("the_number") {
                                    Some(tn) => {
                                        let n: Option<i64> = if tn.is_int() {
                                            Some(tn.as_int())
                                        } else {
                                            match tn.get("number") {
                                                Some(inner) => match crate::text::parse_int_exec(inner.as_str()) {
                                                    Some(v) => Some(v),
                                                    None => Some(0),
                                                },
                                                None => None,
                                            }
                                        };
                                        match n {
                                            Some(v) => {
                                                let f = self.get_int_constant_function(v);
                                                args_map.insert(arg_name.clone(), f);
                                            },
                                            None => {},
                                        }
                                    },
                                    None => {},
                                },
                            }
                        },
                        None => {},
                    },
                }
            } else if arg_value.is_int() {
                let f = self.get_int_constant_function(arg_value.as_int());
                args_map.insert(arg_name.clone(), f);
            } else if arg_value.is_string() {
                let f = self.get_str_constant_function(arg_value.as_str());
                args_map.insert(arg_name.clone(), f);
            }
            i = i + 1;
        }
        assert(es.take(i as int) =~= es);
        Ok((predicate.to_string(), applicant, args_map))
    }

    /// The annotation rules (`@Limit`, `@OrderBy`, `@Ground`, `@NoInject`,
    /// `@Iteration`) that name one of `predicates` (see [`collect_groups`]);
    /// an error with the rule's text when one does not name a predicate first.
    #[verifier::loop_isolation(false)]
    pub fn collect_annotations(&self, predicates: &NameSet) -> (r: CompileResult<Vec<Json>>)
        ensures
            match collect_groups(self@.rules_of, predicates@) {
                Ok(rules) => r matches Ok(v) && jv_seq(v@) == rules,
                Err(t) => r matches Err(e) && e.message@ == annotation_first_arg_message() && e.rule_text@ == t,
            },
    {
        broadcast use group_json_view;
        let ghost gs = self@.rules_of;
        let mut result: Vec<Json> = Vec::new();
        let mut g: usize = 0;
        proof {
            assert(gs.take(0) =~= Seq::<(Seq<char>, Seq<JVal>)>::empty());
            assert(jv_seq(result@) =~= Seq::<JVal>::empty());
        }
        while g < self.rules_of.len()
            invariant
                g <= self.rules_of.len(),
                gs == self@.rules_of,
                gs == groups_view(self.rules_of@),
                collect_groups(gs.take(g as int), predicates@) == Ok::<Seq<JVal>, Seq<char>>(jv_seq(result@)),
            decreases self.rules_of.len() - g,
        {
            proof {
                assert(gs.take(g + 1).drop_last() =~= gs.take(g as int));
                assert(gs.take(g + 1).last() == gs[g as int]);
            }
            let annotation = &self.rules_of[g].0;
            let rules = &self.rules_of[g].1;
            if is_functor_annotation(annotation.as_str()) {
                let ghost rv = jv_seq(rules@);
                let ghost acc = jv_seq(result@);
                let mut more: Vec<Json> = Vec::new();
                let mut k: usize = 0;
                proof {
                    lemma_jv_seq_len(rules@);
                    assert(rv.take(0) =~= Seq::<JVal>::empty());
                    assert(jv_seq(more@) =~= Seq::<JVal>::empty());
                }
                while k < rules.len()
                    invariant
                        k <= rules.len(),
                        rv == jv_seq(rules@),
                        rv.len() == rules.len(),
                        collect_rules(rv.take(k as int), predicates@) == Ok::<Seq<JVal>, Seq<char>>(jv_seq(more@)),
                    decreases rules.len() - k,
                {
                    proof {
                        lemma_jv_seq_index(rules@, k as int);
                        assert(rv.take(k + 1).drop_last() =~= rv.take(k as int));
                        assert(rv.take(k + 1).last() == rv[k as int]);
                    }
                    let rule = &rules[k];
                    match annotation_target_exec(rule) {
                        None => {},
                        Some(Ok(pn)) => {
                            if predicates.contains(pn.as_str()) {
                                let ghost before = more@;
                                more.push(rule.clone());
                                proof {
                                    assert(more@.drop_last() =~= before);
                                }
                            }
                        },
                        Some(Err(_)) => {
                            let text = opt_str(rule.get("full_text"));
                            let m = "This annotation requires predicate symbol as the first positional argument.";
                            proof {
                                reveal_strlit("This annotation requires predicate symbol as the first positional argument.");
                                lemma_collect_rules_err(rv, predicates@, k as int);
                                assert(gs[g as int].1 == rv);
                                lemma_collect_groups_err(gs, predicates@, g as int);
                                assert(text@ == full_text_of(rv[k as int]));
                            }
                            return Err(CompileError::new(m, text));
                        },
                    }
                    k = k + 1;
                }
                assert(rv.take(k as int) =~= rv);
                let ghost rb = result@;
                let ghost mb = more@;
                let mut more = more;
                result.append(&mut more);
                proof {
                    crate::json::lemma_jv_seq_append(rb, mb);
                }
            }
            g = g + 1;
        }
        assert(gs.take(g as int) =~= gs);
        Ok(result)
    }
}




// ---------------------------------------------------------------------------
// Predicates proven empty
// ---------------------------------------------------------------------------

/// The predicate names mentioned in a tree, as [`tree_names`] finds them, but
/// without looking into members whose key is in `taboo`.
pub open spec fn names_avoiding(v: JVal, taboo: Seq<Seq<char>>) -> Set<Seq<char>>
    decreases v, 1nat,
{
    match v {
        JVal::Object(es) => {
            let own = match jget(v, "predicate_name"@) {
                Some(JVal::Str(n)) => set![n],
                _ => Set::empty(),
            };
            own + entries_avoiding(es, taboo)
        },
        JVal::Array(a) => items_avoiding(a, taboo),
        _ => Set::empty(),
    }
}

pub open spec fn items_avoiding(a: Seq<JVal>, taboo: Seq<Seq<char>>) -> Set<Seq<char>>
    decreases a, 0nat,
{
    if a.len() == 0 {
        Set::empty()
    } else {
        items_avoiding(a.drop_last(), taboo) + names_avoiding(a.last(), taboo)
    }
}

pub open spec fn entries_avoiding(es: Seq<(Seq<char>, JVal)>, taboo: Seq<Seq<char>>) -> Set<Seq<char>>
    decreases es, 0nat,
{
    if es.len() == 0 {
        Set::empty()
    } else {
        proof {
            assert(decreases_to!(es => es.last()));
        }
        if taboo.contains(es.last().0) {
            entries_avoiding(es.drop_last(), taboo)
        } else {
            entries_avoiding(es.drop_last(), taboo) + names_avoiding(es.last().1, taboo)
        }
    }
}

/// Add to `out` the predicate names mentioned in `node` outside the members
/// whose key is in `taboo`.
#[verifier::loop_isolation(false)]
fn collect_names_avoiding(node: &Json, taboo: &NameSet, out: &mut NameSet)
    ensures
        forall|n: Seq<char>| #[trigger] final(out)@.contains(n) <==> (old(out)@.contains(n) || names_avoiding(node@, taboo@).contains(n)),
    decreases node,
{
    match node {
        Json::Object(o) => {
            let ghost before = out@;
            match node.get("predicate_name") {
                Some(Json::Str(n)) => {
                    out.insert(n.clone());
                    proof {
                        lemma_set_add_contains(before, n@);
                    }
                },
                _ => {},
            }
            let ghost own = out@;
            assert forall|n: Seq<char>| #[trigger] own.contains(n) <==> (before.contains(n) || match jget(node@, "predicate_name"@) {
                Some(JVal::Str(m)) => set![m],
                _ => Set::empty(),
            }.contains(n)) by {}
            let ghost es = jv_entries(o.entries@);
            let mut i: usize = 0;
            proof {
                lemma_jv_entries_len(o.entries@);
                assert(es.take(0) =~= Seq::<(Seq<char>, JVal)>::empty());
            }
            while i < o.entries.len()
                invariant
                    i <= o.entries.len(),
                    es == jv_entries(o.entries@),
                    es.len() == o.entries.len(),
                    *node == Json::Object(*o),
                    forall|n: Seq<char>| #[trigger] out@.contains(n) <==> (own.contains(n) || entries_avoiding(es.take(i as int), taboo@).contains(n)),
                decreases o.entries.len() - i,
            {
                proof {
                    lemma_jv_entries_index(o.entries@, i as int);
                    assert(es.take(i + 1).drop_last() =~= es.take(i as int));
                    assert(decreases_to!(*node => o.entries@[i as int].1));
                }
                if !taboo.contains(o.entries[i].0.as_str()) {
                    collect_names_avoiding(&o.entries[i].1, taboo, out);
                }
                i = i + 1;
            }
            assert(es.take(i as int) =~= es);
        },
        Json::Array(a) => {
            let ghost own = out@;
            let ghost items = jv_seq(a@);
            let mut i: usize = 0;
            proof {
                lemma_jv_seq_len(a@);
                assert(items.take(0) =~= Seq::<JVal>::empty());
            }
            while i < a.len()
                invariant
                    i <= a.len(),
                    items == jv_seq(a@),
                    items.len() == a.len(),
                    *node == Json::Array(*a),
                    forall|n: Seq<char>| #[trigger] out@.contains(n) <==> (own.contains(n) || items_avoiding(items.take(i as int), taboo@).contains(n)),
                decreases a.len() - i,
            {
                proof {
                    lemma_jv_seq_index(a@, i as int);
                    assert(items.take(i + 1).drop_last() =~= items.take(i as int));
                    assert(decreases_to!(*node => a@[i as int]));
                }
                collect_names_avoiding(&a[i], taboo, out);
                i = i + 1;
            }
            assert(items.take(i as int) =~= items);
        },
        _ => {},
    }
}

/// The predicate names mentioned in `node`, without looking into members
/// whose key is in `taboo`.
pub fn walk_with_taboo(node: &Json, taboo: &NameSet) -> (r: NameSet)
    ensures
        forall|n: Seq<char>| #[trigger] r@.contains(n) <==> names_avoiding(node@, taboo@).contains(n),
{
    let mut out = NameSet::new();
    collect_names_avoiding(node, taboo, &mut out);
    out
}


// ---------------------------------------------------------------------------
// Updating the structure after the rules changed
// ---------------------------------------------------------------------------

proof fn lemma_kv_insert_get<V>(es: Seq<(Seq<char>, V)>, k: Seq<char>, v: V, q: Seq<char>)
    ensures
        kv_get(kv_insert(es, k, v), q) == if q == k { Some(v) } else { kv_get(es, q) },
    decreases es.len(),
{
    let ins = kv_insert(es, k, v);
    if es.len() == 0 {
        assert(ins =~= seq![(k, v)]);
        assert(ins.drop_first() =~= Seq::<(Seq<char>, V)>::empty());
    } else if es[0].0 == k {
        assert(crate::strmap::kv_index(es, k) == 0);
        assert(ins[0] == (k, v));
        assert(ins.drop_first() =~= es.drop_first());
    } else {
        lemma_kv_insert_get(es.drop_first(), k, v, q);
        crate::strmap::lemma_kv_index_keys(es.drop_first(), es.drop_first(), k);
        let i = crate::strmap::kv_index(es, k);
        assert(i == 1 + crate::strmap::kv_index(es.drop_first(), k));
        assert(ins[0] == es[0]);
        assert(ins.drop_first() =~= kv_insert(es.drop_first(), k, v));
        if es[0].0 == q {
            assert(kv_get(ins, q) == Some(ins[0].1));
        } else {
            assert(kv_get(ins, q) == kv_get(ins.drop_first(), q));
        }
    }
}

proof fn lemma_kv_some_at<V>(es: Seq<(Seq<char>, V)>, j: int)
    requires
        0 <= j < es.len(),
    ensures
        kv_get(es, es[j].0) is Some,
    decreases j,
{
    if es[0].0 != es[j].0 {
        assert(es.drop_first()[j - 1] == es[j]);
        lemma_kv_some_at(es.drop_first(), j - 1);
    }
}

proof fn lemma_kv_get_push<V>(d: Seq<(Seq<char>, V)>, k: Seq<char>, v: V, x: Seq<char>)
    ensures
        kv_get(d.push((k, v)), x) == if kv_get(d, x) is Some { kv_get(d, x) } else if x == k { Some(v) } else { None::<V> },
    decreases d.len(),
{
    let e = d.push((k, v));
    if d.len() == 0 {
        assert(e.drop_first() =~= Seq::<(Seq<char>, V)>::empty());
    } else {
        assert(e[0] == d[0]);
        if d[0].0 != x {
            assert(e.drop_first() =~= d.drop_first().push((k, v)));
            lemma_kv_get_push(d.drop_first(), k, v, x);
        }
    }
}

/// Bind `k` to `v` in a list of name sets per predicate.
fn set_list(es: &mut Vec<(String, NameSet)>, k: String, v: NameSet)
    ensures
        lists_view(final(es)@) == kv_insert(lists_view(old(es)@), k@, v@),
{
    let ghost view0 = lists_view(es@);
    let ghost kv = k@;
    let ghost vv = v@;
    let p = crate::strmap::key_position(es, k.as_str());
    proof {
        crate::strmap::lemma_kv_index_keys(view0, es@.map_values(|e: (String, NameSet)| (e.0@, ())), kv);
    }
    if p < es.len() {
        let ghost before = es@;
        es.set(p, (k, v));
        proof {
            assert(es@ == before.update(p as int, es@[p as int]));
            assert forall|j: int| 0 <= j < es@.len() && j != p implies lists_view(es@)[j] == view0[j] by {
                assert(es@[j] == before[j]);
            }
        }
        assert(lists_view(es@) =~= kv_insert(view0, kv, vv));
    } else {
        es.push((k, v));
        assert(lists_view(es@) =~= kv_insert(view0, kv, vv));
    }
}

/// Whether `x` gets its direct arguments computed afresh when the structure
/// is updated for `new`: it is defined, and it is `new` or had none yet.
pub open spec fn refreshed(d: Seq<(Seq<char>, Seq<Seq<char>>)>, g: Seq<(Seq<char>, Seq<JVal>)>, new: Seq<char>, x: Seq<char>) -> bool {
    kv_get(g, x) is Some && (x == new || kv_get(d, x) is None)
}

/// Whether the dependencies known for `x` stay when the structure is updated
/// for `new`: `x` has some, is not `new`, and does not depend on it.
pub open spec fn args_kept(a: Seq<(Seq<char>, Seq<Seq<char>>)>, new: Seq<char>, x: Seq<char>) -> bool {
    kv_get(a, x) is Some && x != new && !succ(a, x).contains(new)
}

/// What updating the structure for `new` makes of the functors `old`: the
/// rules regrouped; direct arguments computed for `new` and for predicates
/// that had none, the others kept; the dependencies of predicates that
/// depend on `new` (or are `new`) dropped and found again over the new direct
/// arguments, the others kept.
pub open spec fn structure_updated(old: FunctorsV, upd: FunctorsV, new: Seq<char>) -> bool {
    let g = upd.rules_of;
    &&& upd.rules == old.rules
    &&& upd.extended_rules == old.extended_rules
    &&& upd.constants == old.constants
    &&& upd.creation_count == old.creation_count
    &&& upd.cached == old.cached
    &&& g == group_rules(old.extended_rules)
    &&& forall|x: Seq<char>| #[trigger] kv_get(upd.direct_args_of, x) is Some
        <==> (kv_get(old.direct_args_of, x) is Some || kv_get(g, x) is Some)
    &&& forall|x: Seq<char>, q: Seq<char>| #[trigger] succ(upd.direct_args_of, x).contains(q) <==> if refreshed(old.direct_args_of, g, new, x) {
        group_args(rules_for(g, x)).contains(q)
    } else {
        succ(old.direct_args_of, x).contains(q)
    }
    &&& upd.args_of.len() == g.len()
    &&& forall|i: int| 0 <= i < g.len() ==> #[trigger] upd.args_of[i].0 == g[i].0
    &&& forall|i: int, q: Seq<char>| 0 <= i < g.len() ==> (#[trigger] upd.args_of[i].1.contains(q) <==> if args_kept(old.args_of, new, g[i].0) {
        succ(old.args_of, g[i].0).contains(q)
    } else {
        reaches(upd.direct_args_of, g[i].0, q)
    })
}

impl Functors {
    /// Bring the grouping of the rules and the dependencies up to date after
    /// the extended rules changed, `new_predicate` being the predicate the
    /// change is about.
    pub fn update_structure(&mut self, new_predicate: &str)
        ensures
            structure_updated(old(self)@, final(self)@, new_predicate@),
    {
        let ghost d0 = old(self)@.direct_args_of;
        let ghost a0 = old(self)@.args_of;
        self.rules_of = defined_predicates_rules(&self.extended_rules);
        let ghost g = groups_view(self.rules_of@);
        let np = crate::strmap::key_position(&self.rules_of, new_predicate);
        proof {
            crate::strmap::lemma_kv_index_keys(g, self.rules_of@.map_values(|e: (String, Vec<Json>)| (e.0@, ())), new_predicate@);
        }
        if np < self.rules_of.len() {
            let args = self.build_direct_args_of_predicate(new_predicate);
            let ghost dv = lists_view(self.direct_args_of@);
            let ghost av = args@;
            set_list(&mut self.direct_args_of, new_predicate.to_string(), args);
            proof {
                assert forall|x: Seq<char>| #[trigger] kv_get(lists_view(self.direct_args_of@), x) == if x == new_predicate@ { Some(av) } else { kv_get(dv, x) } by {
                    lemma_kv_insert_get(dv, new_predicate@, av, x);
                }
            }
        }
        let ghost d1 = lists_view(self.direct_args_of@);
        proof {
            assert forall|x: Seq<char>| #[trigger] kv_get(d1, x) is Some
                <==> (kv_get(d0, x) is Some || (x == new_predicate@ && kv_get(g, x) is Some)) by {}
            assert forall|x: Seq<char>, q: Seq<char>| #[trigger] succ(d1, x).contains(q) <==> if x == new_predicate@ && kv_get(g, x) is Some {
                group_args(rules_for(g, x)).contains(q)
            } else {
                succ(d0, x).contains(q)
            } by {}
        }
        let mut i: usize = 0;
        while i < self.rules_of.len()
            invariant
                i <= self.rules_of.len(),
                g == groups_view(self.rules_of@),
                g == self@.rules_of,
                g.len() == self.rules_of.len(),
                self.args_of@ == old(self).args_of@,
                self.rules@ == old(self).rules@,
                self.extended_rules@ == old(self).extended_rules@,
                self.constant_literal_function@ == old(self).constant_literal_function@,
                self.creation_count == old(self).creation_count,
                self.cached_calls@ == old(self).cached_calls@,
                forall|x: Seq<char>| #[trigger] kv_get(lists_view(self.direct_args_of@), x) is Some
                    <==> (kv_get(d0, x) is Some || (x == new_predicate@ && kv_get(g, x) is Some) || kv_get(g.take(i as int), x) is Some),
                forall|x: Seq<char>, q: Seq<char>| #[trigger] succ(lists_view(self.direct_args_of@), x).contains(q) <==>
                    if refreshed(d0, g, new_predicate@, x) && (x == new_predicate@ || kv_get(g.take(i as int), x) is Some) {
                        group_args(rules_for(g, x)).contains(q)
                    } else {
                        succ(d0, x).contains(q)
                    },
            decreases self.rules_of.len() - i,
        {
            let name = self.rules_of[i].0.clone();
            let ghost nv = name@;
            assert(nv == g[i as int].0);
            let ghost dv = lists_view(self.direct_args_of@);
            proof {
                assert(g.take(i + 1) =~= g.take(i as int).push(g[i as int]));
                assert forall|x: Seq<char>| #[trigger] kv_get(g.take(i + 1), x) is Some <==> (kv_get(g.take(i as int), x) is Some || x == nv) by {
                    lemma_kv_get_push(g.take(i as int), g[i as int].0, g[i as int].1, x);
                }
                lemma_kv_get_push(g.take(i as int), g[i as int].0, g[i as int].1, nv);
                lemma_kv_some_at(g, i as int);
            }
            if successors(&self.direct_args_of, name.as_str()).is_none() {
                let args = self.build_direct_args_of_predicate(name.as_str());
                let ghost av = args@;
                self.direct_args_of.push((name, args));
                proof {
                    let dn = lists_view(self.direct_args_of@);
                    assert(dn =~= dv.push((nv, av)));
                    assert forall|x: Seq<char>| #[trigger] kv_get(dn, x) == if kv_get(dv, x) is Some { kv_get(dv, x) } else if x == nv { Some(av) } else { None::<Seq<Seq<char>>> } by {
                        lemma_kv_get_push(dv, nv, av, x);
                    }
                    assert(kv_get(d0, nv) is None);
                    assert(refreshed(d0, g, new_predicate@, nv));
                    assert forall|x: Seq<char>, q: Seq<char>| #[trigger] succ(dn, x).contains(q) <==>
                        if refreshed(d0, g, new_predicate@, x) && (x == new_predicate@ || kv_get(g.take(i + 1), x) is Some) {
                            group_args(rules_for(g, x)).contains(q)
                        } else {
                            succ(d0, x).contains(q)
                        } by {
                        if x != nv {
                            assert(succ(dn, x) == succ(dv, x));
                            assert(succ(dv, x).contains(q) <==>
                                if refreshed(d0, g, new_predicate@, x) && (x == new_predicate@ || kv_get(g.take(i as int), x) is Some) {
                                    group_args(rules_for(g, x)).contains(q)
                                } else {
                                    succ(d0, x).contains(q)
                                });
                        } else {
                            assert(succ(dn, x) == av);
                        }
                    }
                }
            } else {
                proof {
                    assert forall|x: Seq<char>, q: Seq<char>| #[trigger] succ(dv, x).contains(q) <==>
                        if refreshed(d0, g, new_predicate@, x) && (x == new_predicate@ || kv_get(g.take(i + 1), x) is Some) {
                            group_args(rules_for(g, x)).contains(q)
                        } else {
                            succ(d0, x).contains(q)
                        } by {
                        assert(succ(dv, x).contains(q) <==>
                            if refreshed(d0, g, new_predicate@, x) && (x == new_predicate@ || kv_get(g.take(i as int), x) is Some) {
                                group_args(rules_for(g, x)).contains(q)
                            } else {
                                succ(d0, x).contains(q)
                            });
                        if x == nv && refreshed(d0, g, new_predicate@, x) && x != new_predicate@ {
                            assert(kv_get(dv, nv) is Some);
                            assert(kv_get(g.take(i as int), x) is Some);
                        }
                    }
                }
            }
            i = i + 1;
        }
        assert(g.take(i as int) =~= g);
        let mut args: Vec<(String, NameSet)> = Vec::new();
        let ghost d2 = lists_view(self.direct_args_of@);
        let mut i: usize = 0;
        while i < self.rules_of.len()
            invariant
                i <= self.rules_of.len(),
                g == groups_view(self.rules_of@),
                g.len() == self.rules_of.len(),
                d2 == lists_view(self.direct_args_of@),
                a0 == lists_view(self.args_of@),
                args@.len() == i,
                forall|k: int| 0 <= k < i ==> #[trigger] lists_view(args@)[k].0 == g[k].0,
                forall|k: int, q: Seq<char>| 0 <= k < i ==> (#[trigger] lists_view(args@)[k].1.contains(q) <==> if args_kept(a0, new_predicate@, g[k].0) {
                    succ(a0, g[k].0).contains(q)
                } else {
                    reaches(d2, g[k].0, q)
                }),
            decreases self.rules_of.len() - i,
        {
            let name = &self.rules_of[i].0;
            let ghost nv = name@;
            assert(nv == g[i as int].0);
            let ghost before = args@;
            let kept: Option<NameSet> = match successors(&self.args_of, name.as_str()) {
                Some(l) => {
                    if !str_eq(name.as_str(), new_predicate) && !l.contains(new_predicate) {
                        Some(l.clone())
                    } else {
                        None
                    }
                },
                None => None,
            };
            let ghost kv_opt = kept;
            let list = match kept {
                Some(l) => l,
                None => reach(&self.direct_args_of, name.as_str()),
            };
            let ghost lv = list@;
            proof {
                if kv_opt is Some {
                    assert(args_kept(a0, new_predicate@, nv));
                    assert(lv == succ(a0, nv));
                } else {
                    assert(!args_kept(a0, new_predicate@, nv));
                }
            }
            args.push((name.clone(), list));
            proof {
                assert(lists_view(args@)[i as int] == (nv, lv));
                assert forall|k: int| 0 <= k < i + 1 implies #[trigger] lists_view(args@)[k].0 == g[k].0 by {
                    if k < i {
                        assert(args@[k] == before[k]);
                        assert(lists_view(before)[k].0 == g[k].0);
                    }
                }
                assert forall|k: int, q: Seq<char>| 0 <= k < i + 1 implies (#[trigger] lists_view(args@)[k].1.contains(q) <==> if args_kept(a0, new_predicate@, g[k].0) {
                    succ(a0, g[k].0).contains(q)
                } else {
                    reaches(d2, g[k].0, q)
                }) by {
                    if k < i {
                        assert(args@[k] == before[k]);
                        assert(lists_view(before)[k].1.contains(q) <==> if args_kept(a0, new_predicate@, g[k].0) {
                            succ(a0, g[k].0).contains(q)
                        } else {
                            reaches(d2, g[k].0, q)
                        });
                    }
                }
            }
            i = i + 1;
        }
        self.args_of = args;
        proof {
            assert forall|x: Seq<char>| #[trigger] kv_get(self@.direct_args_of, x) is Some
                <==> (kv_get(d0, x) is Some || kv_get(g, x) is Some) by {}
        }
    }
}


// ---------------------------------------------------------------------------
// Removing the rules of predicates proven empty
// ---------------------------------------------------------------------------

/// The members the search for empty predicates does not look into.
pub open spec fn nil_taboo() -> Seq<Seq<char>> {
    seq!["the_predicate"@, "combine"@, "satellites"@]
}

/// The predicates a rule reads, as the search for empty predicates sees them:
/// those in its body and in its head's arguments, outside the taboo members.
pub open spec fn rule_refs(r: JVal) -> Set<Seq<char>> {
    names_avoiding(jfield(r, "body"@), nil_taboo()) + names_avoiding(jfield(jfield(r, "head"@), "record"@), nil_taboo())
}

/// Whether a rule reads none of the names of `proven`.
pub open spec fn rule_alive(r: JVal, proven: Seq<Seq<char>>) -> bool {
    forall|n: Seq<char>| #[trigger] rule_refs(r).contains(n) ==> !proven.contains(n)
}

/// Whether every rule defining `p` reads a name of `proven`.
pub open spec fn proven_empty(rules: Seq<JVal>, p: Seq<char>, proven: Seq<Seq<char>>) -> bool {
    forall|i: int| 0 <= i < rules.len() && #[trigger] rule_head_name(rules[i]) == p ==> !rule_alive(rules[i], proven)
}

/// The predicates the rules with a head define, in order of first definition.
pub open spec fn defined_names(rules: Seq<JVal>) -> Seq<Seq<char>>
    decreases rules.len(),
{
    if rules.len() == 0 {
        seq![]
    } else if has_key(rules.last(), "head"@) {
        set_add(defined_names(rules.drop_last()), rule_head_name(rules.last()))
    } else {
        defined_names(rules.drop_last())
    }
}

/// `proven` followed by the predicates of `defined` proven empty given
/// `proven` that it does not hold yet, in order.
pub open spec fn nil_step(rules: Seq<JVal>, defined: Seq<Seq<char>>, proven: Seq<Seq<char>>) -> Seq<Seq<char>>
    decreases defined.len(),
{
    if defined.len() == 0 {
        proven
    } else if proven_empty(rules, defined.last(), proven) {
        set_add(nil_step(rules, defined.drop_last(), proven), defined.last())
    } else {
        nil_step(rules, defined.drop_last(), proven)
    }
}

/// Rounds of [`nil_step`] from `proven` until one adds nothing, at most `fuel`.
pub open spec fn nil_rounds(rules: Seq<JVal>, proven: Seq<Seq<char>>, fuel: nat) -> Seq<Seq<char>>
    decreases fuel,
{
    if fuel == 0 {
        proven
    } else {
        let next = nil_step(rules, defined_names(rules), proven);
        if next.len() == proven.len() {
            proven
        } else {
            nil_rounds(rules, next, (fuel - 1) as nat)
        }
    }
}

/// The predicates proven empty: `nil`, and each defined predicate all of
/// whose rules read one proven empty, found round after round until a round
/// finds no more.
pub open spec fn proven_nil(rules: Seq<JVal>) -> Seq<Seq<char>> {
    nil_rounds(rules, seq!["nil"@], defined_names(rules).len() + 1)
}

/// A rule after predicate `p` is nullified: a rule of `p` is renamed to
/// `Nullified<p>`; in another rule, unless it is an annotation, `p` is read
/// as `nil`.
pub open spec fn nullify_rule(r: JVal, p: Seq<char>) -> JVal {
    let h = rule_head_name(r);
    if h == p {
        crate::rule_translate::with_member(r, "head"@, crate::rule_translate::with_member(jfield(r, "head"@), "predicate_name"@, JVal::Str("Nullified"@ + p)))
    } else if !crate::text::has_prefix(h, "@"@) {
        pred_replaced(r, p, "nil"@)
    } else {
        r
    }
}

/// The rules after the predicates of `ps` but `nil` are nullified in turn,
/// with the first of them whose name has no `_`, where nullifying stops.
pub open spec fn nullify_all(rules: Seq<JVal>, ps: Seq<Seq<char>>) -> (Seq<JVal>, Option<Seq<char>>)
    decreases ps.len(),
{
    if ps.len() == 0 {
        (rules, None)
    } else if ps[0] == "nil"@ {
        nullify_all(rules, ps.drop_first())
    } else {
        let next = rules.map_values(|r: JVal| nullify_rule(r, ps[0]));
        if !crate::text::contains_char(ps[0], '_') {
            (next, Some(ps[0]))
        } else {
            nullify_all(next, ps.drop_first())
        }
    }
}

/// The error for a user predicate proven empty.
pub open spec fn empty_predicate_message(p: Seq<char>) -> Seq<char> {
    "Predicate "@ + p + " was proven to be empty. Most likely initial base condition of recursion is missing, or flat recursion is not given enough steps."@
}

proof fn lemma_nil_step(rules: Seq<JVal>, defined: Seq<Seq<char>>, proven: Seq<Seq<char>>)
    ensures
        nil_step(rules, defined, proven).len() >= proven.len(),
        nil_step(rules, defined, proven).take(proven.len() as int) == proven,
        proven.no_duplicates() ==> nil_step(rules, defined, proven).no_duplicates(),
        forall|n: Seq<char>| #[trigger] nil_step(rules, defined, proven).contains(n)
            <==> (proven.contains(n) || (defined.contains(n) && proven_empty(rules, n, proven))),
    decreases defined.len(),
{
    if defined.len() == 0 {
        assert(proven.take(proven.len() as int) =~= proven);
    } else {
        let prev = nil_step(rules, defined.drop_last(), proven);
        lemma_nil_step(rules, defined.drop_last(), proven);
        lemma_set_add_contains(prev, defined.last());
        if !prev.contains(defined.last()) {
            assert(prev.push(defined.last()).take(proven.len() as int) =~= prev.take(proven.len() as int));
        }
        let d = defined;
        assert forall|n: Seq<char>| #[trigger] d.contains(n) <==> (d.drop_last().contains(n) || n == d.last()) by {
            if d.contains(n) && n != d.last() {
                let k = choose|k: int| 0 <= k < d.len() && d[k] == n;
                assert(d.drop_last()[k] == n);
            }
            if d.drop_last().contains(n) {
                let k = choose|k: int| 0 <= k < d.drop_last().len() && d.drop_last()[k] == n;
                assert(d[k] == n);
            }
            if n == d.last() {
                assert(d[d.len() - 1] == n);
            }
        }
        if proven.no_duplicates() && proven_empty(rules, defined.last(), proven) && !prev.contains(defined.last()) {
            let nx = prev.push(defined.last());
            assert forall|a: int, b: int| 0 <= a < b < nx.len() implies nx[a] != nx[b] by {
                if b == prev.len() {
                    assert(prev[a] == nx[a]);
                }
            }
        }
    }
}

proof fn lemma_defined_names(rules: Seq<JVal>)
    ensures
        defined_names(rules).no_duplicates(),
    decreases rules.len(),
{
    if rules.len() > 0 {
        lemma_defined_names(rules.drop_last());
        let prev = defined_names(rules.drop_last());
        if has_key(rules.last(), "head"@) && !prev.contains(rule_head_name(rules.last())) {
            let nx = prev.push(rule_head_name(rules.last()));
            assert forall|a: int, b: int| 0 <= a < b < nx.len() implies nx[a] != nx[b] by {
                if b == prev.len() {
                    assert(prev[a] == nx[a]);
                }
            }
        }
    }
}

/// The name of the predicate a rule defines.
fn head_name(rule: &Json) -> (r: String)
    ensures
        r@ == rule_head_name(rule@),
{
    opt_str(opt_field(rule.get("head"), "predicate_name")).to_string()
}

fn defined_names_exec(rules: &Vec<Json>) -> (r: NameSet)
    ensures
        r@ == defined_names(jv_seq(rules@)),
{
    let ghost rv = jv_seq(rules@);
    let mut out = NameSet::new();
    let mut i: usize = 0;
    proof {
        lemma_jv_seq_len(rules@);
        assert(rv.take(0) =~= Seq::<JVal>::empty());
    }
    while i < rules.len()
        invariant
            i <= rules.len(),
            rv == jv_seq(rules@),
            rv.len() == rules.len(),
            out@ == defined_names(rv.take(i as int)),
        decreases rules.len() - i,
    {
        proof {
            lemma_jv_seq_index(rules@, i as int);
            assert(rv.take(i + 1).drop_last() =~= rv.take(i as int));
            assert(rv.take(i + 1).last() == rules@[i as int]@);
        }
        if rules[i].has("head") {
            out.insert(head_name(&rules[i]));
        }
        i = i + 1;
    }
    assert(rv.take(i as int) =~= rv);
    out
}

/// Whether a rule reads none of the names of `proven`.
fn rule_alive_exec(rule: &Json, taboo: &NameSet, proven: &NameSet) -> (r: bool)
    requires
        taboo@ == nil_taboo(),
    ensures
        r == rule_alive(rule@, proven@),
{
    let mut refs = NameSet::new();
    match rule.get("body") {
        Some(b) => collect_names_avoiding(b, taboo, &mut refs),
        None => {},
    }
    let ghost after_body = refs@;
    match opt_field(rule.get("head"), "record") {
        Some(rec) => collect_names_avoiding(rec, taboo, &mut refs),
        None => {},
    }
    proof {
        assert forall|n: Seq<char>| #[trigger] refs@.contains(n) <==> rule_refs(rule@).contains(n) by {}
    }
    let mut i: usize = 0;
    while i < refs.names.len()
        invariant
            i <= refs@.len(),
            refs@.len() == refs.names@.len(),
            forall|n: Seq<char>| #[trigger] refs@.contains(n) <==> rule_refs(rule@).contains(n),
            forall|j: int| 0 <= j < i ==> !proven@.contains(#[trigger] refs@[j]),
        decreases refs.names.len() - i,
    {
        assert(refs.names@[i as int]@ == refs@[i as int]);
        if proven.contains(refs.names[i].as_str()) {
            assert(refs@.contains(refs@[i as int]));
            return false;
        }
        i = i + 1;
    }
    proof {
        assert forall|n: Seq<char>| #[trigger] rule_refs(rule@).contains(n) implies !proven@.contains(n) by {
            assert(refs@.contains(n));
            let j = choose|j: int| 0 <= j < refs@.len() && refs@[j] == n;
            assert(!proven@.contains(refs@[j]));
        }
    }
    true
}

/// Whether every rule defining `p` reads a name of `proven`.
fn proven_empty_exec(rules: &Vec<Json>, p: &str, taboo: &NameSet, proven: &NameSet) -> (r: bool)
    requires
        taboo@ == nil_taboo(),
    ensures
        r == proven_empty(jv_seq(rules@), p@, proven@),
{
    let ghost rv = jv_seq(rules@);
    proof {
        lemma_jv_seq_len(rules@);
    }
    let mut i: usize = 0;
    while i < rules.len()
        invariant
            i <= rules.len(),
            rv == jv_seq(rules@),
            rv.len() == rules.len(),
            taboo@ == nil_taboo(),
            forall|j: int| 0 <= j < i && #[trigger] rule_head_name(rv[j]) == p@ ==> !rule_alive(rv[j], proven@),
        decreases rules.len() - i,
    {
        proof {
            lemma_jv_seq_index(rules@, i as int);
        }
        let h = head_name(&rules[i]);
        if str_eq(h.as_str(), p) {
            if rule_alive_exec(&rules[i], taboo, proven) {
                assert(rule_head_name(rv[i as int]) == p@);
                return false;
            }
        }
        i = i + 1;
    }
    true
}

/// One round of the search: `proven` followed by the predicates of `defined`
/// proven empty given `proven`.
fn nil_step_exec(rules: &Vec<Json>, defined: &NameSet, taboo: &NameSet, proven: &NameSet) -> (r: NameSet)
    requires
        taboo@ == nil_taboo(),
    ensures
        r@ == nil_step(jv_seq(rules@), defined@, proven@),
{
    let ghost rv = jv_seq(rules@);
    let mut next = proven.clone();
    let mut j: usize = 0;
    proof {
        assert(defined@.take(0) =~= Seq::<Seq<char>>::empty());
    }
    while j < defined.names.len()
        invariant
            j <= defined@.len(),
            defined@.len() == defined.names@.len(),
            taboo@ == nil_taboo(),
            rv == jv_seq(rules@),
            next@ == nil_step(rv, defined@.take(j as int), proven@),
        decreases defined.names.len() - j,
    {
        let p = &defined.names[j];
        assert(p@ == defined@[j as int]);
        proof {
            assert(defined@.take(j + 1).drop_last() =~= defined@.take(j as int));
            assert(defined@.take(j + 1).last() == p@);
        }
        if proven_empty_exec(rules, p.as_str(), taboo, proven) {
            next.insert(p.clone());
        }
        j = j + 1;
    }
    assert(defined@.take(j as int) =~= defined@);
    next
}

/// `v` with member `k` set to `x` (an object with that member alone when `v`
/// is not an object).
fn with_member_exec(v: &Json, k: &str, x: Json) -> (r: Json)
    ensures
        r@ == crate::rule_translate::with_member(v@, k@, x@),
{
    let mut c = match v {
        Json::Object(o) => o.clone(),
        _ => JsonObject::new(),
    };
    c.insert(k.to_string(), x);
    Json::Object(c)
}

fn nullify_rule_exec(rule: &Json, p: &str) -> (r: Json)
    ensures
        r@ == nullify_rule(rule@, p@),
{
    let h = head_name(rule);
    if str_eq(h.as_str(), p) {
        let head = match rule.get("head") {
            Some(hd) => hd.clone(),
            None => Json::Null,
        };
        let renamed = with_member_exec(&head, "predicate_name", Json::Str(concat2("Nullified", p)));
        with_member_exec(rule, "head", renamed)
    } else if !crate::text::starts_with_str(h.as_str(), "@") {
        pred_replaced_json(rule, p, "nil")
    } else {
        rule.clone()
    }
}

/// Nullify predicate `p` in every rule.
fn nullify_rules(rules: &mut Vec<Json>, p: &str)
    ensures
        jv_seq(final(rules)@) == jv_seq(old(rules)@).map_values(|r: JVal| nullify_rule(r, p@)),
{
    let ghost rv = jv_seq(rules@);
    let mut out: Vec<Json> = Vec::new();
    let mut i: usize = 0;
    proof {
        lemma_jv_seq_len(rules@);
    }
    while i < rules.len()
        invariant
            i <= rules.len(),
            rv == jv_seq(rules@),
            rv.len() == rules.len(),
            rules@ == old(rules)@,
            jv_seq(out@) == rv.take(i as int).map_values(|r: JVal| nullify_rule(r, p@)),
        decreases rules.len() - i,
    {
        proof {
            lemma_jv_seq_index(rules@, i as int);
        }
        let x = nullify_rule_exec(&rules[i], p);
        let ghost before = out@;
        out.push(x);
        proof {
            assert(out@.drop_last() =~= before);
            assert(rv.take(i + 1).map_values(|r: JVal| nullify_rule(r, p@))
                =~= rv.take(i as int).map_values(|r: JVal| nullify_rule(r, p@)).push(nullify_rule(rv[i as int], p@)));
        }
        i = i + 1;
    }
    assert(rv.take(i as int) =~= rv);
    *rules = out;
}

impl Functors {
    /// Remove the rules of predicates proven empty. `nil` is empty, and so is
    /// every defined predicate all of whose rules read a predicate proven
    /// empty (outside `the_predicate`, `combine` and `satellites` members),
    /// round after round until a round proves no more. Then, for each such
    /// predicate in the order found, its rules are renamed to
    /// `Nullified<p>` and other rules, annotations aside, read `nil` in its
    /// place; a predicate whose name has no `_` is a user's predicate, and
    /// the search stops there with an error. Otherwise the structure is
    /// updated.
    pub fn remove_rules_proven_to_be_nil(&mut self) -> (r: CompileResult<()>)
        ensures
            ({
                let rules = old(self)@.extended_rules;
                let (out, stopped) = nullify_all(rules, proven_nil(rules));
                let nullified = FunctorsV { extended_rules: out, ..old(self)@ };
                match r {
                    Ok(()) => stopped is None && structure_updated(nullified, final(self)@, "nil"@),
                    Err(e) => stopped == Some(e.rule_text@) && e.message@ == empty_predicate_message(e.rule_text@)
                        && final(self)@ == nullified,
                }
            }),
    {
        let ghost rv = jv_seq(self.extended_rules@);
        let taboo = NameSet { names: vec!["the_predicate".to_string(), "combine".to_string(), "satellites".to_string()] };
        assert(taboo@ =~= nil_taboo());
        let defined = defined_names_exec(&self.extended_rules);
        proof {
            lemma_defined_names(rv);
        }
        let mut proven = NameSet::new();
        proven.insert("nil".to_string());
        let ghost fuel = defined@.len() + 1;
        let ghost mut t: int = 0;
        proof {
            assert(proven@ =~= seq!["nil"@]);
        }
        loop
            invariant
                rv == jv_seq(self.extended_rules@),
                taboo@ == nil_taboo(),
                defined@ == defined_names(rv),
                defined@.no_duplicates(),
                fuel == defined@.len() + 1,
                proven@.no_duplicates(),
                forall|n: Seq<char>| #[trigger] proven@.contains(n) ==> n == "nil"@ || defined@.contains(n),
                proven@.len() >= t + 1,
                proven@.len() <= defined@.len() + 1,
                proven@.len() > 0 && proven@[0] == "nil"@,
                0 <= t,
                proven_nil(rv) == nil_rounds(rv, proven@, (fuel - t) as nat),
            ensures
                proven_nil(rv) == proven@,
                proven@.len() > 0 && proven@[0] == "nil"@,
            decreases defined@.len() + 1 - proven@.len(),
        {
            let next = nil_step_exec(&self.extended_rules, &defined, &taboo, &proven);
            proof {
                lemma_nil_step(rv, defined@, proven@);
                assert(fuel - t >= 1);
                let u = seq!["nil"@] + defined@;
                assert forall|q: Seq<char>| #[trigger] next@.contains(q) implies u.contains(q) by {
                    if q == "nil"@ {
                        assert(u[0] == q);
                    } else {
                        assert(defined@.contains(q));
                        let k = choose|k: int| 0 <= k < defined@.len() && defined@[k] == q;
                        assert(u[k + 1] == q);
                    }
                }
                lemma_len_within(next@, u);
            }
            if next.len() == proven.len() {
                break;
            }
            proof {
                assert(next@.take(proven@.len() as int) == proven@);
                assert(next@[0] == next@.take(proven@.len() as int)[0]);
                t = t + 1;
            }
            proven = next;
        }
        let ghost ps = proven@;
        let mut i: usize = 0;
        proof {
            assert(ps.subrange(0, ps.len() as int) =~= ps);
        }
        while i < proven.names.len()
            invariant
                i <= ps.len(),
                ps == proven@,
                ps.len() == proven.names@.len(),
                nullify_all(rv, ps) == nullify_all(jv_seq(self.extended_rules@), ps.subrange(i as int, ps.len() as int)),
                self.rules@ == old(self).rules@,
                self.rules_of@ == old(self).rules_of@,
                self.direct_args_of@ == old(self).direct_args_of@,
                self.args_of@ == old(self).args_of@,
                self.constant_literal_function@ == old(self).constant_literal_function@,
                self.creation_count == old(self).creation_count,
                self.cached_calls@ == old(self).cached_calls@,
                rv == jv_seq(old(self).extended_rules@),
                proven_nil(rv) == ps,
            decreases proven.names.len() - i,
        {
            let p = &proven.names[i];
            let ghost rest = ps.subrange(i as int, ps.len() as int);
            proof {
                assert(p@ == ps[i as int]);
                assert(rest[0] == p@);
                assert(rest.drop_first() =~= ps.subrange(i + 1, ps.len() as int));
            }
            if str_eq(p.as_str(), "nil") {
                i = i + 1;
                continue;
            }
            let ghost cur = jv_seq(self.extended_rules@);
            nullify_rules(&mut self.extended_rules, p.as_str());
            let pc = chars_of(p.as_str());
            let has_sep = crate::text::contains_char_exec(&pc, '_');
            proof {
                assert(p@ != "nil"@);
                assert(jv_seq(self.extended_rules@) == cur.map_values(|r: JVal| nullify_rule(r, rest[0])));
                if !has_sep {
                    assert(nullify_all(cur, rest) == (jv_seq(self.extended_rules@), Some(p@)));
                } else {
                    assert(nullify_all(cur, rest) == nullify_all(jv_seq(self.extended_rules@), rest.drop_first()));
                }
            }
            if !has_sep {
                let msg = concat3("Predicate ", p.as_str(), " was proven to be empty. Most likely initial base condition of recursion is missing, or flat recursion is not given enough steps.");
                let e = CompileError::new(msg.as_str(), p.as_str());
                proof {
                    assert(self@ =~= FunctorsV { extended_rules: nullify_all(rv, ps).0, ..old(self)@ });
                }
                return Err(e);
            }
            i = i + 1;
        }
        proof {
            assert(ps.subrange(i as int, ps.len() as int) =~= Seq::<Seq<char>>::empty());
        }
        let ghost before = self@;
        assert(before == FunctorsV { extended_rules: nullify_all(rv, ps).0, ..old(self)@ });
        self.update_structure("nil");
        Ok(())
    }
}


// ---------------------------------------------------------------------------
// Choosing how each recursion unfolds
// ---------------------------------------------------------------------------

/// `h`, then each name of `cands` that depends on `h` back, in order, each once.
pub open spec fn cover_from(a: Seq<(Seq<char>, Seq<Seq<char>>)>, h: Seq<char>, cands: Seq<Seq<char>>) -> Seq<Seq<char>>
    decreases cands.len(),
{
    if cands.len() == 0 {
        seq![h]
    } else if succ(a, cands.last()).contains(h) {
        set_add(cover_from(a, h, cands.drop_last()), cands.last())
    } else {
        cover_from(a, h, cands.drop_last())
    }
}

/// The cover of a recursive predicate `h`: `h` and the predicates it depends
/// on that depend on it back.
pub open spec fn cover_of(a: Seq<(Seq<char>, Seq<Seq<char>>)>, h: Seq<char>) -> Seq<Seq<char>> {
    cover_from(a, h, succ(a, h))
}

/// Whether the cover of one of `heads` holds `q`.
pub open spec fn covered_by(a: Seq<(Seq<char>, Seq<Seq<char>>)>, heads: Seq<Seq<char>>, q: Seq<char>) -> bool {
    exists|h: Seq<char>| #[trigger] heads.contains(h) && cover_of(a, h).contains(q)
}

/// The names of `a`'s entries.
pub open spec fn keys_of(a: Seq<(Seq<char>, Seq<Seq<char>>)>) -> Seq<Seq<char>> {
    a.map_values(|e: (Seq<char>, Seq<Seq<char>>)| e.0)
}

/// The predicates of `ps`, in order, that start a cover: each depends on
/// itself, is no auxiliary of a multi-body aggregation, and is in no cover
/// started before it.
pub open spec fn cover_heads(a: Seq<(Seq<char>, Seq<Seq<char>>)>, ps: Seq<Seq<char>>) -> Seq<Seq<char>>
    decreases ps.len(),
{
    if ps.len() == 0 {
        seq![]
    } else {
        let prev = cover_heads(a, ps.drop_last());
        let p = ps.last();
        if succ(a, p).contains(p) && !covered_by(a, prev, p) && !crate::text::contains_seq(p, "_MultBodyAggAux"@) {
            prev.push(p)
        } else {
            prev
        }
    }
}

/// The view of a map from predicates to their annotation arguments.
pub open spec fn dm_view(v: Seq<(String, Vec<(String, SerdeLikeValue)>)>) -> Seq<(Seq<char>, Seq<(Seq<char>, SerdeLikeValue)>)> {
    v.map_values(|e: (String, Vec<(String, SerdeLikeValue)>)| (e.0@, e.1@.map_values(|f: (String, SerdeLikeValue)| (f.0@, f.1))))
}

/// Whether a member of cover `c` has annotation arguments in `dm`.
pub open spec fn any_deep(c: Seq<Seq<char>>, dm: Seq<(Seq<char>, Seq<(Seq<char>, SerdeLikeValue)>)>) -> bool {
    exists|q: Seq<char>| #[trigger] c.contains(q) && kv_get(dm, q) is Some
}

/// Whether `q` may represent cover `c`: a member, with annotation arguments
/// when some member has them.
pub open spec fn candidate(c: Seq<Seq<char>>, dm: Seq<(Seq<char>, Seq<(Seq<char>, SerdeLikeValue)>)>, q: Seq<char>) -> bool {
    c.contains(q) && (any_deep(c, dm) ==> kv_get(dm, q) is Some)
}

/// Whether `m` is the least candidate.
pub open spec fn is_chosen(c: Seq<Seq<char>>, dm: Seq<(Seq<char>, Seq<(Seq<char>, SerdeLikeValue)>)>, m: Seq<char>) -> bool {
    candidate(c, dm, m) && forall|q: Seq<char>| #[trigger] candidate(c, dm, q) ==> !text_lt(q, m)
}

/// The predicate that represents cover `c`: the least of its members with
/// annotation arguments, or the least member when none has them.
pub open spec fn chosen_of(c: Seq<Seq<char>>, dm: Seq<(Seq<char>, Seq<(Seq<char>, SerdeLikeValue)>)>) -> Seq<char> {
    choose|m: Seq<char>| is_chosen(c, dm, m)
}

/// The depth given for `p` (argument `1` of its annotation), else the default.
pub open spec fn depth_of(dm: Seq<(Seq<char>, Seq<(Seq<char>, SerdeLikeValue)>)>, p: Seq<char>, default_depth: i64) -> i64 {
    match kv_get(dm, p) {
        Some(args) => match kv_get(args, "1"@) {
            Some(SerdeLikeValue::Int(n)) => n,
            _ => default_depth,
        },
        None => default_depth,
    }
}

/// Whether iteration is asked for `p`, when it is said.
pub open spec fn iterative_of(dm: Seq<(Seq<char>, Seq<(Seq<char>, SerdeLikeValue)>)>, p: Seq<char>) -> Option<bool> {
    match kv_get(dm, p) {
        Some(args) => match kv_get(args, "iterative"@) {
            Some(SerdeLikeValue::Bool(b)) => Some(b),
            _ => None,
        },
        None => None,
    }
}

/// `dm` with argument `1` of `p` set to `depth`, when `p` has arguments.
pub open spec fn dm_set_depth(dm: Seq<(Seq<char>, Seq<(Seq<char>, SerdeLikeValue)>)>, p: Seq<char>, depth: i64) -> Seq<(Seq<char>, Seq<(Seq<char>, SerdeLikeValue)>)> {
    let i = crate::strmap::kv_index(dm, p);
    if i < dm.len() {
        dm.update(i, (p, kv_insert(dm[i].1, "1"@, SerdeLikeValue::Int(depth))))
    } else {
        dm
    }
}

/// The depth that stands for "without end".
pub open spec fn endless_depth() -> i64 {
    1_000_000_000
}

/// How the recursion of cover `c`, represented by `p`, unfolds, and the
/// arguments after a depth of `-1` is replaced by [`endless_depth`]:
/// iteratively when asked, or when not said and deeper than 20; else
/// vertically when `p` cuts the cycles of the cover; else horizontally.
pub open spec fn recursion_style(d: Seq<(Seq<char>, Seq<Seq<char>>)>, c: Seq<Seq<char>>, p: Seq<char>, dm: Seq<(Seq<char>, Seq<(Seq<char>, SerdeLikeValue)>)>, default_iterative: bool, default_depth: i64) -> (Seq<(Seq<char>, Seq<(Seq<char>, SerdeLikeValue)>)>, Seq<char>) {
    let depth0 = depth_of(dm, p, default_depth);
    let dm2 = if depth0 == -1 { dm_set_depth(dm, p, endless_depth()) } else { dm };
    let depth = if depth0 == -1 { endless_depth() } else { depth0 };
    let use_iterative = match iterative_of(dm2, p) {
        Some(b) => b,
        None => default_iterative || depth > 20,
    };
    let style = if use_iterative {
        "iterative_horizontal"@
    } else if cut_of_cover(d, p, c) {
        "vertical"@
    } else {
        "horizontal"@
    };
    (dm2, style)
}

/// The styles chosen for the covers of `heads` in turn, with the arguments
/// as they end up.
pub open spec fn analysis(a: Seq<(Seq<char>, Seq<Seq<char>>)>, d: Seq<(Seq<char>, Seq<Seq<char>>)>, heads: Seq<Seq<char>>, dm: Seq<(Seq<char>, Seq<(Seq<char>, SerdeLikeValue)>)>, default_iterative: bool, default_depth: i64) -> (Seq<(Seq<char>, Seq<(Seq<char>, SerdeLikeValue)>)>, Seq<(Seq<char>, Seq<char>)>)
    decreases heads.len(),
{
    if heads.len() == 0 {
        (dm, seq![])
    } else {
        let prev = analysis(a, d, heads.drop_last(), dm, default_iterative, default_depth);
        let c = cover_of(a, heads.last());
        let p = chosen_of(c, prev.0);
        let step = recursion_style(d, c, p, prev.0, default_iterative, default_depth);
        (step.0, crate::strmap::sm_insert(prev.1, p, step.1))
    }
}

/// `m` with each of `members` bound to `c`, in order.
pub open spec fn bind_members(m: Seq<(Seq<char>, Seq<Seq<char>>)>, members: Seq<Seq<char>>, c: Seq<Seq<char>>) -> Seq<(Seq<char>, Seq<Seq<char>>)>
    decreases members.len(),
{
    if members.len() == 0 {
        m
    } else {
        kv_insert(bind_members(m, members.drop_last(), c), members.last(), c)
    }
}

/// Each member of the covers of `heads` bound to its cover.
pub open spec fn covers_map(a: Seq<(Seq<char>, Seq<Seq<char>>)>, heads: Seq<Seq<char>>) -> Seq<(Seq<char>, Seq<Seq<char>>)>
    decreases heads.len(),
{
    if heads.len() == 0 {
        seq![]
    } else {
        let c = cover_of(a, heads.last());
        bind_members(covers_map(a, heads.drop_last()), c, c)
    }
}

/// The representative of cover `c`.
fn chosen_exec(c: &NameSet, dm: &Vec<(String, Vec<(String, SerdeLikeValue)>)>) -> (r: String)
    requires
        c@.len() > 0,
    ensures
        r@ == chosen_of(c@, dm_view(dm@)),
{
    let ghost dv = dm_view(dm@);
    let mut deep = false;
    let mut i: usize = 0;
    while i < c.names.len()
        invariant
            i <= c@.len(),
            c@.len() == c.names@.len(),
            dv == dm_view(dm@),
            deep <==> exists|j: int| 0 <= j < i && kv_get(dv, #[trigger] c@[j]) is Some,
        decreases c.names.len() - i,
    {
        assert(c.names@[i as int]@ == c@[i as int]);
        let k = crate::strmap::key_position(dm, c.names[i].as_str());
        proof {
            crate::strmap::lemma_kv_index_keys(dv, dm@.map_values(|e: (String, Vec<(String, SerdeLikeValue)>)| (e.0@, ())), c@[i as int]);
        }
        if k < dm.len() {
            deep = true;
        }
        i = i + 1;
    }
    proof {
        if any_deep(c@, dv) {
            let q = choose|q: Seq<char>| #[trigger] c@.contains(q) && kv_get(dv, q) is Some;
            let j = choose|j: int| 0 <= j < c@.len() && c@[j] == q;
            assert(kv_get(dv, c@[j]) is Some);
        }
        if deep {
            let j = choose|j: int| 0 <= j < c@.len() && kv_get(dv, #[trigger] c@[j]) is Some;
            assert(c@.contains(c@[j]));
        }
        assert(deep == any_deep(c@, dv));
    }
    let mut best: usize = c.names.len();
    let mut i: usize = 0;
    while i < c.names.len()
        invariant
            i <= c@.len(),
            c@.len() == c.names@.len(),
            dv == dm_view(dm@),
            deep == any_deep(c@, dv),
            best <= c@.len(),
            best == c@.len() <==> forall|j: int| 0 <= j < i ==> !candidate(c@, dv, #[trigger] c@[j]),
            best < c@.len() ==> best < i && candidate(c@, dv, c@[best as int])
                && forall|j: int| 0 <= j < i && candidate(c@, dv, #[trigger] c@[j]) ==> !text_lt(c@[j], c@[best as int]),
        decreases c.names.len() - i,
    {
        let q = &c.names[i];
        assert(q@ == c@[i as int]);
        let k = crate::strmap::key_position(dm, q.as_str());
        proof {
            crate::strmap::lemma_kv_index_keys(dv, dm@.map_values(|e: (String, Vec<(String, SerdeLikeValue)>)| (e.0@, ())), q@);
            assert(c@.contains(q@));
        }
        let is_candidate = !deep || k < dm.len();
        assert(is_candidate == candidate(c@, dv, q@));
        if is_candidate {
            if best == c.names.len() || text_less(q.as_str(), c.names[best].as_str()) {
                proof {
                    if best < c@.len() {
                        assert(c.names@[best as int]@ == c@[best as int]);
                        assert forall|j: int| 0 <= j < i + 1 && candidate(c@, dv, #[trigger] c@[j]) implies !text_lt(c@[j], q@) by {
                            if j < i {
                                if text_lt(c@[j], q@) {
                                    lemma_text_lt_transitive(c@[j], q@, c@[best as int]);
                                }
                            } else {
                                lemma_text_lt_irreflexive(q@);
                            }
                        }
                    } else {
                        assert forall|j: int| 0 <= j < i + 1 && candidate(c@, dv, #[trigger] c@[j]) implies !text_lt(c@[j], q@) by {
                            lemma_text_lt_irreflexive(q@);
                        }
                    }
                }
                best = i;
            } else {
                proof {
                    assert(c.names@[best as int]@ == c@[best as int]);
                }
            }
        }
        i = i + 1;
    }
    proof {
        let j0: int = if deep {
            let q = choose|q: Seq<char>| #[trigger] c@.contains(q) && kv_get(dv, q) is Some;
            choose|j: int| 0 <= j < c@.len() && c@[j] == q
        } else {
            0
        };
        assert(candidate(c@, dv, c@[j0]));
        assert(best < c@.len());
        let b = c@[best as int];
        assert forall|q: Seq<char>| #[trigger] candidate(c@, dv, q) implies !text_lt(q, b) by {
            let j = choose|j: int| 0 <= j < c@.len() && c@[j] == q;
            assert(candidate(c@, dv, c@[j]));
        }
        assert(is_chosen(c@, dv, b));
        let m = chosen_of(c@, dv);
        assert(is_chosen(c@, dv, m));
        if m != b {
            lemma_text_lt_total(m, b);
        }
    }
    c.names[best].clone()
}

/// The depth given for `p`, else `default_depth`.
fn depth_lookup(dm: &Vec<(String, Vec<(String, SerdeLikeValue)>)>, p: &str, default_depth: i64) -> (r: i64)
    ensures
        r == depth_of(dm_view(dm@), p@, default_depth),
{
    let ghost dv = dm_view(dm@);
    let k = crate::strmap::key_position(dm, p);
    proof {
        crate::strmap::lemma_kv_index_keys(dv, dm@.map_values(|e: (String, Vec<(String, SerdeLikeValue)>)| (e.0@, ())), p@);
    }
    if k < dm.len() {
        let args = &dm[k].1;
        let ghost av = args@.map_values(|f: (String, SerdeLikeValue)| (f.0@, f.1));
        assert(dv[k as int].1 == av);
        let j = crate::strmap::key_position(args, "1");
        proof {
            crate::strmap::lemma_kv_index_keys(av, args@.map_values(|f: (String, SerdeLikeValue)| (f.0@, ())), "1"@);
        }
        if j < args.len() {
            assert(av[j as int].1 == args@[j as int].1);
            match args[j].1.as_i64() {
                Some(n) => n,
                None => default_depth,
            }
        } else {
            default_depth
        }
    } else {
        default_depth
    }
}

/// Whether iteration is asked for `p`, when it is said.
fn iterative_lookup(dm: &Vec<(String, Vec<(String, SerdeLikeValue)>)>, p: &str) -> (r: Option<bool>)
    ensures
        r == iterative_of(dm_view(dm@), p@),
{
    let ghost dv = dm_view(dm@);
    let k = crate::strmap::key_position(dm, p);
    proof {
        crate::strmap::lemma_kv_index_keys(dv, dm@.map_values(|e: (String, Vec<(String, SerdeLikeValue)>)| (e.0@, ())), p@);
    }
    if k < dm.len() {
        let args = &dm[k].1;
        let ghost av = args@.map_values(|f: (String, SerdeLikeValue)| (f.0@, f.1));
        assert(dv[k as int].1 == av);
        let j = crate::strmap::key_position(args, "iterative");
        proof {
            crate::strmap::lemma_kv_index_keys(av, args@.map_values(|f: (String, SerdeLikeValue)| (f.0@, ())), "iterative"@);
        }
        if j < args.len() {
            assert(av[j as int].1 == args@[j as int].1);
            args[j].1.as_bool()
        } else {
            None
        }
    } else {
        None
    }
}

/// Set argument `1` of `p` to `depth`, when `p` has arguments.
fn set_depth(dm: &mut Vec<(String, Vec<(String, SerdeLikeValue)>)>, p: &str, depth: i64)
    ensures
        dm_view(final(dm)@) == dm_set_depth(dm_view(old(dm)@), p@, depth),
{
    let ghost dv = dm_view(dm@);
    let k = crate::strmap::key_position(dm, p);
    proof {
        crate::strmap::lemma_kv_index_keys(dv, dm@.map_values(|e: (String, Vec<(String, SerdeLikeValue)>)| (e.0@, ())), p@);
    }
    if k < dm.len() {
        let (name, mut args) = dm.remove(k);
        let ghost av = args@.map_values(|f: (String, SerdeLikeValue)| (f.0@, f.1));
        let ghost nv = name@;
        assert(dv[k as int] == (nv, av));
        let j = crate::strmap::key_position(&args, "1");
        proof {
            crate::strmap::lemma_kv_index_keys(av, args@.map_values(|f: (String, SerdeLikeValue)| (f.0@, ())), "1"@);
        }
        if j < args.len() {
            args.set(j, ("1".to_string(), SerdeLikeValue::Int(depth)));
        } else {
            args.push(("1".to_string(), SerdeLikeValue::Int(depth)));
        }
        let ghost av2 = args@.map_values(|f: (String, SerdeLikeValue)| (f.0@, f.1));
        assert(av2 =~= kv_insert(av, "1"@, SerdeLikeValue::Int(depth)));
        dm.insert(k, (name, args));
        assert(dm_view(dm@) =~= dv.update(k as int, (p@, av2)));
    }
}

impl Functors {
    /// The cover of `h`: `h` and the predicates it depends on that depend on
    /// it back.
    fn cover_exec(&self, h: &str) -> (r: NameSet)
        ensures
            r@ == cover_of(self@.args_of, h@),
    {
        let ghost a = self@.args_of;
        let args_h = self.args_of(h);
        let mut c = NameSet::new();
        c.insert(h.to_string());
        assert(c@ =~= seq![h@]);
        let mut j: usize = 0;
        assert(args_h@.take(0) =~= Seq::<Seq<char>>::empty());
        while j < args_h.names.len()
            invariant
                j <= args_h@.len(),
                args_h@.len() == args_h.names@.len(),
                args_h@ == succ(a, h@),
                a == self@.args_of,
                c@ == cover_from(a, h@, args_h@.take(j as int)),
            decreases args_h.names.len() - j,
        {
            let q = &args_h.names[j];
            assert(q@ == args_h@[j as int]);
            proof {
                assert(args_h@.take(j + 1).drop_last() =~= args_h@.take(j as int));
                assert(args_h@.take(j + 1).last() == q@);
            }
            let back = self.args_of(q.as_str());
            if back.contains(h) {
                c.insert(q.clone());
            }
            j = j + 1;
        }
        assert(args_h@.take(j as int) =~= args_h@);
        c
    }

    /// Find the covers of the recursive predicates and choose how each
    /// recursion unfolds. Taking the predicates in name order, each that
    /// depends on itself, is no auxiliary of a multi-body aggregation and is
    /// in no cover yet starts a cover. Each cover is represented by its least
    /// member with annotation arguments in `depth_map` (its least member when
    /// none has them), and unfolds as [`recursion_style`] says; a depth of
    /// `-1` is replaced in `depth_map` by [`endless_depth`]. Returns the style
    /// of each representative, and the cover of each member of a cover.
    pub fn recursive_analysis(
        &self,
        depth_map: &mut Vec<(String, Vec<(String, SerdeLikeValue)>)>,
        default_iterative: bool,
        default_depth: i64,
    ) -> (r: (StrMap, Vec<(String, NameSet)>))
        ensures
            ({
                let a = self@.args_of;
                let heads = cover_heads(a, sorted_names(keys_of(a)));
                let res = analysis(a, self@.direct_args_of, heads, dm_view(old(depth_map)@), default_iterative, default_depth);
                &&& dm_view(final(depth_map)@) == res.0
                &&& r.0@ == res.1
                &&& lists_view(r.1@) == covers_map(a, heads)
            }),
    {
        let ghost a = self@.args_of;
        let mut keys: Vec<String> = Vec::new();
        let mut i: usize = 0;
        while i < self.args_of.len()
            invariant
                i <= self.args_of.len(),
                a == lists_view(self.args_of@),
                names_view(keys@) == keys_of(a).take(i as int),
            decreases self.args_of.len() - i,
        {
            let ghost before = keys@;
            keys.push(self.args_of[i].0.clone());
            proof {
                assert(names_view(keys@) =~= names_view(before).push(a[i as int].0));
                assert(keys_of(a).take(i + 1) =~= keys_of(a).take(i as int).push(a[i as int].0));
            }
            i = i + 1;
        }
        assert(keys_of(a).take(i as int) =~= keys_of(a));
        let sorted = sorted_within_exec(&keys, &keys);
        let ghost sv = names_view(sorted@);
        assert(sv == sorted_names(keys_of(a)));
        let mut heads: Vec<String> = Vec::new();
        let mut covers: Vec<NameSet> = Vec::new();
        let mut covered = NameSet::new();
        let mut i: usize = 0;
        assert(sv.take(0) =~= Seq::<Seq<char>>::empty());
        assert(names_view(heads@) =~= Seq::<Seq<char>>::empty());
        while i < sorted.len()
            invariant
                i <= sorted.len(),
                sv == names_view(sorted@),
                a == self@.args_of,
                names_view(heads@) == cover_heads(a, sv.take(i as int)),
                covers@.len() == heads@.len(),
                forall|k: int| 0 <= k < covers@.len() ==> (#[trigger] covers@[k])@ == cover_of(a, heads@[k]@),
                forall|q: Seq<char>| #[trigger] covered@.contains(q) <==> covered_by(a, names_view(heads@), q),
            decreases sorted.len() - i,
        {
            let p = &sorted[i];
            let ghost pv = p@;
            proof {
                assert(sv.take(i + 1).drop_last() =~= sv.take(i as int));
                assert(sv.take(i + 1).last() == pv);
            }
            let args_p = self.args_of(p.as_str());
            let starts = args_p.contains(p.as_str()) && !covered.contains(p.as_str()) && !crate::text::contains_str(p.as_str(), "_MultBodyAggAux");
            if starts {
                let c = self.cover_exec(p.as_str());
                let ghost hb = names_view(heads@);
                let ghost cb = covered@;
                add_names(&mut covered, &c);
                let ghost cv = c@;
                heads.push(p.clone());
                covers.push(c);
                proof {
                    assert(names_view(heads@) =~= hb.push(pv));
                    assert forall|k: int| 0 <= k < covers@.len() implies (#[trigger] covers@[k])@ == cover_of(a, heads@[k]@) by {
                        if k == covers@.len() - 1 {
                            assert(heads@[k]@ == pv);
                        }
                    }
                    let hn = names_view(heads@);
                    assert forall|q: Seq<char>| #[trigger] covered@.contains(q) <==> covered_by(a, hn, q) by {
                        if covered@.contains(q) {
                            if cb.contains(q) {
                                let h = choose|h: Seq<char>| #[trigger] hb.contains(h) && cover_of(a, h).contains(q);
                                let k = choose|k: int| 0 <= k < hb.len() && hb[k] == h;
                                assert(hn[k] == h);
                                assert(hn.contains(h));
                            } else {
                                assert(cv.contains(q));
                                assert(hn[hb.len() as int] == pv);
                                assert(hn.contains(pv));
                            }
                        }
                        if covered_by(a, hn, q) {
                            let h = choose|h: Seq<char>| #[trigger] hn.contains(h) && cover_of(a, h).contains(q);
                            let k = choose|k: int| 0 <= k < hn.len() && hn[k] == h;
                            if k < hb.len() {
                                assert(hb[k] == h);
                                assert(hb.contains(h));
                                assert(covered_by(a, hb, q));
                            } else {
                                assert(h == pv);
                            }
                        }
                    }
                }
            }
            i = i + 1;
        }
        assert(sv.take(i as int) =~= sv);
        let ghost hv = names_view(heads@);
        let ghost d = self@.direct_args_of;
        let ghost dm0 = dm_view(depth_map@);
        let mut should = StrMap::new();
        let mut my_cover: Vec<(String, NameSet)> = Vec::new();
        let mut k: usize = 0;
        assert(hv.take(0) =~= Seq::<Seq<char>>::empty());
        while k < covers.len()
            invariant
                k <= covers@.len(),
                covers@.len() == heads@.len(),
                hv == names_view(heads@),
                a == self@.args_of,
                d == self@.direct_args_of,
                forall|j: int| 0 <= j < covers@.len() ==> (#[trigger] covers@[j])@ == cover_of(a, heads@[j]@),
                (dm_view(depth_map@), should@) == analysis(a, d, hv.take(k as int), dm0, default_iterative, default_depth),
                lists_view(my_cover@) == covers_map(a, hv.take(k as int)),
            decreases covers.len() - k,
        {
            let c = &covers[k];
            let ghost cv = c@;
            proof {
                assert(hv.take(k + 1).drop_last() =~= hv.take(k as int));
                assert(hv.take(k + 1).last() == heads@[k as int]@);
                assert(cv == cover_of(a, hv.take(k + 1).last()));
                assert(cover_from(a, heads@[k as int]@, succ(a, heads@[k as int]@)).len() > 0) by {
                    lemma_cover_from_nonempty(a, heads@[k as int]@, succ(a, heads@[k as int]@));
                }
            }
            let ghost before_map = lists_view(my_cover@);
            let mut j: usize = 0;
            assert(cv.take(0) =~= Seq::<Seq<char>>::empty());
            while j < c.names.len()
                invariant
                    j <= cv.len(),
                    cv == c@,
                    cv.len() == c.names@.len(),
                    lists_view(my_cover@) == bind_members(before_map, cv.take(j as int), cv),
                decreases c.names.len() - j,
            {
                let ghost mb = lists_view(my_cover@);
                assert(c.names@[j as int]@ == cv[j as int]);
                set_list(&mut my_cover, c.names[j].clone(), c.clone());
                proof {
                    assert(cv.take(j + 1).drop_last() =~= cv.take(j as int));
                    assert(cv.take(j + 1).last() == cv[j as int]);
                }
                j = j + 1;
            }
            assert(cv.take(j as int) =~= cv);
            let p = chosen_exec(c, depth_map);
            let mut depth = depth_lookup(depth_map, p.as_str(), default_depth);
            if depth == -1 {
                depth = 1_000_000_000;
                set_depth(depth_map, p.as_str(), 1_000_000_000);
            }
            let explicit = iterative_lookup(depth_map, p.as_str());
            let use_iterative = match explicit {
                Some(b) => b,
                None => default_iterative || depth > 20,
            };
            let style = if use_iterative {
                "iterative_horizontal".to_string()
            } else if self.is_cut_of_cover(p.as_str(), c) {
                "vertical".to_string()
            } else {
                "horizontal".to_string()
            };
            should.insert(p, style);
            k = k + 1;
        }
        assert(hv.take(k as int) =~= hv);
        (should, my_cover)
    }
}

proof fn lemma_cover_from_nonempty(a: Seq<(Seq<char>, Seq<Seq<char>>)>, h: Seq<char>, cands: Seq<Seq<char>>)
    ensures
        cover_from(a, h, cands).len() > 0,
    decreases cands.len(),
{
    if cands.len() > 0 {
        lemma_cover_from_nonempty(a, h, cands.drop_last());
    }
}


proof fn lemma_cover_from_contents(a: Seq<(Seq<char>, Seq<Seq<char>>)>, h: Seq<char>, cands: Seq<Seq<char>>, q: Seq<char>)
    ensures
        cover_from(a, h, cands).contains(q) <==> (q == h || (cands.contains(q) && succ(a, q).contains(h))),
    decreases cands.len(),
{
    if cands.len() == 0 {
        if q == h {
            assert(seq![h][0] == q);
        }
    } else {
        let prev = cover_from(a, h, cands.drop_last());
        lemma_cover_from_contents(a, h, cands.drop_last(), q);
        lemma_set_add_contains(prev, cands.last());
        if cands.contains(q) && q != cands.last() {
            let k = choose|k: int| 0 <= k < cands.len() && cands[k] == q;
            assert(cands.drop_last()[k] == q);
        }
        if cands.drop_last().contains(q) {
            let k = choose|k: int| 0 <= k < cands.drop_last().len() && cands.drop_last()[k] == q;
            assert(cands[k] == q);
        }
        if q == cands.last() {
            assert(cands[cands.len() - 1] == q);
        }
    }
}

/// The cover of `h` holds `h` and exactly the predicates that `h` depends on
/// and that depend on `h`.
pub proof fn law_cover_members(a: Seq<(Seq<char>, Seq<Seq<char>>)>, h: Seq<char>, q: Seq<char>)
    ensures
        cover_of(a, h).contains(q) <==> (q == h || (succ(a, h).contains(q) && succ(a, q).contains(h))),
{
    lemma_cover_from_contents(a, h, succ(a, h), q);
}

proof fn lemma_nil_rounds_closed(rules: Seq<JVal>, proven: Seq<Seq<char>>, fuel: nat)
    requires
        proven.no_duplicates(),
        forall|n: Seq<char>| #[trigger] proven.contains(n) ==> n == "nil"@ || defined_names(rules).contains(n),
        proven.len() + fuel > defined_names(rules).len() + 1,
    ensures
        forall|p: Seq<char>| #[trigger] defined_names(rules).contains(p) && proven_empty(rules, p, nil_rounds(rules, proven, fuel))
            ==> nil_rounds(rules, proven, fuel).contains(p),
        forall|n: Seq<char>| proven.contains(n) ==> #[trigger] nil_rounds(rules, proven, fuel).contains(n),
    decreases fuel,
{
    let defined = defined_names(rules);
    let next = nil_step(rules, defined, proven);
    lemma_nil_step(rules, defined, proven);
    let u = seq!["nil"@] + defined;
    assert forall|q: Seq<char>| #[trigger] proven.contains(q) implies u.contains(q) by {
        if q == "nil"@ {
            assert(u[0] == q);
        } else {
            let k = choose|k: int| 0 <= k < defined.len() && defined[k] == q;
            assert(u[k + 1] == q);
        }
    }
    lemma_len_within(proven, u);
    if fuel == 0 {
        assert(false);
    } else if next.len() == proven.len() {
        assert forall|p: Seq<char>| #[trigger] defined.contains(p) && proven_empty(rules, p, proven) implies proven.contains(p) by {
            assert(next.contains(p));
            if !proven.contains(p) {
                assert(next.take(proven.len() as int) == proven);
                assert(next =~= proven);
            }
        }
    } else {
        assert forall|n: Seq<char>| #[trigger] next.contains(n) implies n == "nil"@ || defined.contains(n) by {
            if !proven.contains(n) {
                assert(defined.contains(n));
            }
        }
        lemma_nil_rounds_closed(rules, next, (fuel - 1) as nat);
        assert(nil_rounds(rules, proven, fuel) == nil_rounds(rules, next, (fuel - 1) as nat));
        assert forall|n: Seq<char>| proven.contains(n) implies #[trigger] nil_rounds(rules, proven, fuel).contains(n) by {
            assert(next.contains(n));
        }
    }
}

/// The search for empty predicates stops only where it is closed: every
/// defined predicate all of whose rules read a predicate proven empty is
/// itself proven empty; and `nil` is proven empty.
pub proof fn law_nil_search_is_closed(rules: Seq<JVal>, p: Seq<char>)
    ensures
        defined_names(rules).contains(p) && proven_empty(rules, p, proven_nil(rules)) ==> proven_nil(rules).contains(p),
        proven_nil(rules).contains("nil"@),
{
    let start = seq!["nil"@];
    assert(start.contains("nil"@)) by {
        assert(start[0] == "nil"@);
    }
    assert forall|n: Seq<char>| #[trigger] start.contains(n) implies n == "nil"@ || defined_names(rules).contains(n) by {
        let k = choose|k: int| 0 <= k < start.len() && start[k] == n;
    }
    lemma_nil_rounds_closed(rules, start, (defined_names(rules).len() + 1) as nat);
}


// ---------------------------------------------------------------------------
// Calling a functor
// ---------------------------------------------------------------------------

/// The names bound in `args`, in order.
pub open spec fn arg_names(args: Seq<(Seq<char>, Seq<char>)>) -> Seq<Seq<char>> {
    args.map_values(|p: (Seq<char>, Seq<char>)| p.0)
}

/// Whether rule `r` takes part in calling `applicant`: it is a rule of the
/// applicant, or its predicate depends on one of the arguments.
pub open spec fn takes_part(a: Seq<(Seq<char>, Seq<Seq<char>>)>, applicant: Seq<char>, keys: Seq<Seq<char>>, r: JVal) -> bool {
    rule_head_name(r) == applicant || exists|q: Seq<char>| #[trigger] succ(a, rule_head_name(r)).contains(q) && keys.contains(q)
}

/// The rules of `rs` that take part, in order.
pub open spec fn parts(a: Seq<(Seq<char>, Seq<Seq<char>>)>, applicant: Seq<char>, keys: Seq<Seq<char>>, rs: Seq<JVal>) -> Seq<JVal>
    decreases rs.len(),
{
    if rs.len() == 0 {
        seq![]
    } else if takes_part(a, applicant, keys, rs.last()) {
        parts(a, applicant, keys, rs.drop_last()).push(rs.last())
    } else {
        parts(a, applicant, keys, rs.drop_last())
    }
}

/// `s` with `r` inserted before the first rule whose text is above its own.
pub open spec fn insert_by_text(s: Seq<JVal>, r: JVal) -> Seq<JVal>
    decreases s.len(),
{
    if s.len() == 0 {
        seq![r]
    } else if text_lt(crate::json::json_text(r), crate::json::json_text(s[0])) {
        seq![r] + s
    } else {
        seq![s[0]] + insert_by_text(s.drop_first(), r)
    }
}

/// The rules in order of their text, rules of equal text in their order.
pub open spec fn sorted_by_text(rs: Seq<JVal>) -> Seq<JVal>
    decreases rs.len(),
{
    if rs.len() == 0 {
        seq![]
    } else {
        insert_by_text(sorted_by_text(rs.drop_last()), rs.last())
    }
}

/// What a functor call gathers: the new names of predicates, the rules to
/// copy, the predicates whose annotations to copy, and the names created.
pub struct CallState {
    pub renames: Seq<(Seq<char>, Seq<char>)>,
    pub copies: Seq<JVal>,
    pub annotate: Seq<Seq<char>>,
    pub cached: Seq<(Seq<char>, Seq<char>)>,
}

/// One rule of a call: a rule of the applicant is renamed to the call's name;
/// a rule of an argument is left out; any other rule is copied under a new
/// name for its predicate, `<predicate>_f<count>`, or under the name an
/// earlier call with the same arguments gave it.
pub open spec fn call_step(st: CallState, r: JVal, name: Seq<char>, applicant: Seq<char>, args: Seq<(Seq<char>, Seq<char>)>, a: Seq<(Seq<char>, Seq<Seq<char>>)>, count: nat) -> CallState {
    let rp = rule_head_name(r);
    if rp == applicant {
        CallState { renames: crate::strmap::sm_insert(st.renames, rp, name), copies: st.copies.push(r), annotate: set_add(st.annotate, rp), ..st }
    } else if crate::strmap::sm_get(args, rp) is Some {
        st
    } else {
        let key = call_key_text(rp, args, succ(a, rp));
        match crate::strmap::sm_get(st.cached, key) {
            Some(n) => CallState { renames: crate::strmap::sm_insert(st.renames, rp, n), copies: st.copies.push(r), ..st },
            None => {
                let nn = rp + "_f"@ + int_text(count as int);
                CallState {
                    renames: crate::strmap::sm_insert(st.renames, rp, nn),
                    copies: st.copies.push(r),
                    annotate: set_add(st.annotate, rp),
                    cached: crate::strmap::sm_insert(st.cached, key, nn),
                }
            },
        }
    }
}

pub open spec fn call_fold(rs: Seq<JVal>, st: CallState, name: Seq<char>, applicant: Seq<char>, args: Seq<(Seq<char>, Seq<char>)>, a: Seq<(Seq<char>, Seq<Seq<char>>)>, count: nat) -> CallState
    decreases rs.len(),
{
    if rs.len() == 0 {
        st
    } else {
        call_step(call_fold(rs.drop_last(), st, name, applicant, args, a, count), rs.last(), name, applicant, args, a, count)
    }
}

/// `r` with each renaming of `renames` applied in turn.
pub open spec fn renamed_all(r: JVal, renames: Seq<(Seq<char>, Seq<char>)>) -> JVal
    decreases renames.len(),
{
    if renames.len() == 0 {
        r
    } else {
        pred_replaced(renamed_all(r, renames.drop_last()), renames.last().0, renames.last().1)
    }
}

fn insert_by_text_exec(v: &mut Vec<Json>, r: Json)
    ensures
        jv_seq(final(v)@) == insert_by_text(jv_seq(old(v)@), r@),
{
    let ghost s = jv_seq(v@);
    let rt = r.to_text();
    let mut j: usize = 0;
    proof {
        lemma_jv_seq_len(v@);
    }
    while j < v.len() && !text_less(rt.as_str(), v[j].to_text().as_str())
        invariant
            j <= v.len(),
            s == jv_seq(v@),
            s.len() == v.len(),
            v@ == old(v)@,
            rt@ == crate::json::json_text(r@),
            forall|k: int| 0 <= k < j ==> !text_lt(crate::json::json_text(r@), crate::json::json_text(#[trigger] s[k])),
        decreases v.len() - j,
    {
        proof {
            lemma_jv_seq_index(v@, j as int);
        }
        j = j + 1;
    }
    proof {
        if j < v.len() {
            lemma_jv_seq_index(v@, j as int);
        }
        lemma_insert_by_text_at(s, r@, j as int);
    }
    let ghost rv = r@;
    v.insert(j, r);
    proof {
        assert(v@ =~= old(v)@.take(j as int) + seq![r] + old(v)@.skip(j as int)) by {}
        lemma_jv_seq_concat3(old(v)@, j as int, r);
    }
}

proof fn lemma_jv_seq_concat3(v: Seq<Json>, j: int, r: Json)
    requires
        0 <= j <= v.len(),
    ensures
        jv_seq(v.take(j) + seq![r] + v.skip(j)) == jv_seq(v).take(j) + seq![jv(r)] + jv_seq(v).skip(j),
{
    let w = v.take(j) + seq![r] + v.skip(j);
    lemma_jv_seq_len(w);
    lemma_jv_seq_len(v);
    let lhs = jv_seq(w);
    let rhs = jv_seq(v).take(j) + seq![jv(r)] + jv_seq(v).skip(j);
    assert forall|k: int| 0 <= k < lhs.len() implies lhs[k] == rhs[k] by {
        lemma_jv_seq_index(w, k);
        if k < j {
            lemma_jv_seq_index(v, k);
        } else if k > j {
            lemma_jv_seq_index(v, k - 1);
        }
    }
    assert(lhs =~= rhs);
}

proof fn lemma_insert_by_text_at(s: Seq<JVal>, r: JVal, j: int)
    requires
        0 <= j <= s.len(),
        forall|k: int| 0 <= k < j ==> !text_lt(crate::json::json_text(r), crate::json::json_text(#[trigger] s[k])),
        j < s.len() ==> text_lt(crate::json::json_text(r), crate::json::json_text(s[j])),
    ensures
        insert_by_text(s, r) == s.take(j) + seq![r] + s.skip(j),
    decreases j,
{
    if j == 0 {
        if s.len() == 0 {
            assert(s.take(0) + seq![r] + s.skip(0) =~= seq![r]);
        } else {
            assert(s.take(0) + seq![r] + s.skip(0) =~= seq![r] + s);
        }
    } else {
        let t = s.drop_first();
        assert forall|k: int| 0 <= k < j - 1 implies !text_lt(crate::json::json_text(r), crate::json::json_text(#[trigger] t[k])) by {
            assert(t[k] == s[k + 1]);
        }
        if j < s.len() {
            assert(t[j - 1] == s[j]);
        }
        lemma_insert_by_text_at(t, r, j - 1);
        assert(seq![s[0]] + (t.take(j - 1) + seq![r] + t.skip(j - 1)) =~= s.take(j) + seq![r] + s.skip(j));
    }
}

/// Whether `names` holds a name `args` binds.
fn any_bound(names: &NameSet, args: &StrMap) -> (r: bool)
    ensures
        r == exists|q: Seq<char>| #[trigger] names@.contains(q) && arg_names(args@).contains(q),
{
    let mut i: usize = 0;
    while i < names.names.len()
        invariant
            i <= names@.len(),
            names@.len() == names.names@.len(),
            forall|k: int| 0 <= k < i ==> !arg_names(args@).contains(#[trigger] names@[k]),
        decreases names.names.len() - i,
    {
        assert(names.names@[i as int]@ == names@[i as int]);
        if args.contains_key(names.names[i].as_str()) {
            proof {
                crate::strmap::lemma_sm_index(args@, names@[i as int]);
                let idx = crate::strmap::sm_index(args@, names@[i as int]);
                assert(arg_names(args@)[idx] == names@[i as int]);
                assert(names@.contains(names@[i as int]));
            }
            return true;
        }
        proof {
            crate::strmap::lemma_sm_index(args@, names@[i as int]);
            if arg_names(args@).contains(names@[i as int]) {
                let idx = choose|idx: int| 0 <= idx < arg_names(args@).len() && arg_names(args@)[idx] == names@[i as int];
                assert(args@[idx].0 == names@[i as int]);
                assert(idx >= crate::strmap::sm_index(args@, names@[i as int]));
            }
        }
        i = i + 1;
    }
    proof {
        assert forall|q: Seq<char>| !(#[trigger] names@.contains(q) && arg_names(args@).contains(q)) by {
            if names@.contains(q) {
                let k = choose|k: int| 0 <= k < names@.len() && names@[k] == q;
                assert(!arg_names(args@).contains(names@[k]));
            }
        }
    }
    false
}

impl Functors {
    /// Call functor `applicant` with the arguments `args_map` (each predicate
    /// to be replaced, bound to the one replacing it), making predicate
    /// `name`: the rules of the applicant and of the predicates depending on
    /// an argument are copied in text order, the applicant's under `name`,
    /// each other under a new name (`<predicate>_f<count>`, or the one an
    /// earlier call with the same arguments created), with the annotations
    /// of the predicates created, every renaming applied to every copy; then
    /// the structure is updated for `name`.
    pub fn call_functor(&mut self, name: &str, applicant: &str, args_map: &StrMap) -> (r: CompileResult<()>)
        requires
            old(self)@.creation_count < usize::MAX,
        ensures
            ({
                let f0 = old(self)@;
                let count = (f0.creation_count + 1) as nat;
                let all = rules_for(f0.rules_of, applicant@) + dependency_groups(f0.rules_of, succ(f0.args_of, applicant@).to_set(), applicant@);
                let rs = sorted_by_text(parts(f0.args_of, applicant@, arg_names(args_map@), all));
                let start = CallState { renames: args_map@, copies: seq![], annotate: seq![], cached: f0.cached };
                let st = call_fold(rs, start, name@, applicant@, args_map@, f0.args_of, count);
                let f1 = FunctorsV { creation_count: count, cached: st.cached, ..f0 };
                match collect_groups(f0.rules_of, st.annotate) {
                    Err(t) => r matches Err(e) && e.message@ == annotation_first_arg_message() && e.rule_text@ == t
                        && final(self)@ == f1,
                    Ok(anns) => r is Ok && structure_updated(
                        FunctorsV {
                            extended_rules: f0.extended_rules + (st.copies + anns).map_values(|x: JVal| renamed_all(x, st.renames)),
                            ..f1
                        },
                        final(self)@,
                        name@,
                    ),
                }
            }),
    {
        let ghost f0 = self@;
        self.creation_count = self.creation_count + 1;
        let count = self.creation_count;
        let rules = match self.all_rules_of(applicant) {
            Ok(v) => v,
            Err(e) => return Err(e),
        };
        let ghost all = jv_seq(rules@);
        // The rules taking part.
        let mut kept: Vec<Json> = Vec::new();
        let mut i: usize = 0;
        proof {
            lemma_jv_seq_len(rules@);
            assert(all.take(0) =~= Seq::<JVal>::empty());
        }
        while i < rules.len()
            invariant
                i <= rules.len(),
                all == jv_seq(rules@),
                all.len() == rules.len(),
                self@.args_of == f0.args_of,
                jv_seq(kept@) == parts(f0.args_of, applicant@, arg_names(args_map@), all.take(i as int)),
            decreases rules.len() - i,
        {
            proof {
                lemma_jv_seq_index(rules@, i as int);
                assert(all.take(i + 1).drop_last() =~= all.take(i as int));
                assert(all.take(i + 1).last() == all[i as int]);
            }
            let rp = head_name(&rules[i]);
            let part = str_eq(rp.as_str(), applicant) || any_bound(&self.args_of(rp.as_str()), args_map);
            if part {
                let ghost before = kept@;
                kept.push(rules[i].clone());
                assert(kept@.drop_last() =~= before);
            }
            i = i + 1;
        }
        assert(all.take(i as int) =~= all);
        // In order of their text.
        let ghost pv = jv_seq(kept@);
        let mut sorted: Vec<Json> = Vec::new();
        let mut i: usize = 0;
        proof {
            lemma_jv_seq_len(kept@);
            assert(pv.take(0) =~= Seq::<JVal>::empty());
        }
        while i < kept.len()
            invariant
                i <= kept.len(),
                pv == jv_seq(kept@),
                pv.len() == kept.len(),
                jv_seq(sorted@) == sorted_by_text(pv.take(i as int)),
            decreases kept.len() - i,
        {
            proof {
                lemma_jv_seq_index(kept@, i as int);
                assert(pv.take(i + 1).drop_last() =~= pv.take(i as int));
                assert(pv.take(i + 1).last() == pv[i as int]);
            }
            insert_by_text_exec(&mut sorted, kept[i].clone());
            i = i + 1;
        }
        assert(pv.take(i as int) =~= pv);
        // The copies and their names.
        let ghost rs = jv_seq(sorted@);
        let ghost start = CallState { renames: args_map@, copies: seq![], annotate: seq![], cached: f0.cached };
        let mut renames = args_map.clone();
        let mut copies: Vec<Json> = Vec::new();
        let mut annotate = NameSet::new();
        let mut i: usize = 0;
        proof {
            lemma_jv_seq_len(sorted@);
            assert(rs.take(0) =~= Seq::<JVal>::empty());
            assert(jv_seq(copies@) =~= Seq::<JVal>::empty());
        }
        while i < sorted.len()
            invariant
                i <= sorted.len(),
                rs == jv_seq(sorted@),
                rs.len() == sorted.len(),
                self@.args_of == f0.args_of,
                self@.rules_of == f0.rules_of,
                self@.rules == f0.rules,
                self@.extended_rules == f0.extended_rules,
                self@.direct_args_of == f0.direct_args_of,
                self@.constants == f0.constants,
                self@.creation_count == count,
                count == f0.creation_count + 1,
                ({
                    let st = call_fold(rs.take(i as int), start, name@, applicant@, args_map@, f0.args_of, count as nat);
                    &&& renames@ == st.renames
                    &&& jv_seq(copies@) == st.copies
                    &&& annotate@ == st.annotate
                    &&& self@.cached == st.cached
                }),
            decreases sorted.len() - i,
        {
            proof {
                lemma_jv_seq_index(sorted@, i as int);
                assert(rs.take(i + 1).drop_last() =~= rs.take(i as int));
                assert(rs.take(i + 1).last() == rs[i as int]);
            }
            let r = &sorted[i];
            let rp = head_name(r);
            let ghost before = copies@;
            if str_eq(rp.as_str(), applicant) {
                renames.insert(rp.clone(), name.to_string());
                copies.push(r.clone());
                annotate.insert(rp);
            } else if args_map.contains_key(rp.as_str()) {
            } else {
                let key = self.call_key(rp.as_str(), args_map);
                match self.cached_calls.get(key.as_str()) {
                    Some(n) => {
                        let n2 = n.clone();
                        renames.insert(rp, n2);
                        copies.push(r.clone());
                    },
                    None => {
                        let num = crate::text::usize_to_string(count);
                        let nn = concat3(rp.as_str(), "_f", num.as_str());
                        renames.insert(rp.clone(), nn.clone());
                        copies.push(r.clone());
                        annotate.insert(rp);
                        self.cached_calls.insert(key, nn);
                    },
                }
            }
            proof {
                if copies@.len() > before.len() {
                    assert(copies@.drop_last() =~= before);
                } else {
                    assert(copies@ =~= before);
                }
            }
            i = i + 1;
        }
        assert(rs.take(i as int) =~= rs);
        let ghost st = call_fold(rs, start, name@, applicant@, args_map@, f0.args_of, count as nat);
        let anns = match self.collect_annotations(&annotate) {
            Ok(v) => v,
            Err(e) => {
                proof {
                    assert(self@ == FunctorsV { creation_count: count as nat, cached: st.cached, ..f0 });
                }
                return Err(e);
            },
        };
        let ghost av = jv_seq(anns@);
        // Every renaming applied to every copy.
        let ghost cv = jv_seq(copies@);
        let mut j: usize = 0;
        proof {
            lemma_jv_seq_len(anns@);
            assert(av.take(0) =~= Seq::<JVal>::empty());
            assert(cv + av.take(0) =~= cv);
        }
        while j < anns.len()
            invariant
                j <= anns.len(),
                av == jv_seq(anns@),
                av.len() == anns.len(),
                jv_seq(copies@) == cv + av.take(j as int),
            decreases anns.len() - j,
        {
            proof {
                lemma_jv_seq_index(anns@, j as int);
            }
            let ghost before = copies@;
            copies.push(anns[j].clone());
            proof {
                assert(copies@.drop_last() =~= before);
                assert(cv + av.take(j + 1) =~= (cv + av.take(j as int)).push(av[j as int]));
            }
            j = j + 1;
        }
        assert(av.take(j as int) =~= av);
        let ghost both = cv + av;
        let mut i: usize = 0;
        let mut out: Vec<Json> = Vec::new();
        proof {
            lemma_jv_seq_len(copies@);
            assert(both.take(0).map_values(|x: JVal| renamed_all(x, renames@)) =~= Seq::<JVal>::empty());
            assert(jv_seq(out@) =~= Seq::<JVal>::empty());
        }
        while i < copies.len()
            invariant
                i <= copies.len(),
                both == jv_seq(copies@),
                both.len() == copies.len(),
                jv_seq(out@) == both.take(i as int).map_values(|x: JVal| renamed_all(x, renames@)),
            decreases copies.len() - i,
        {
            proof { lemma_jv_seq_index(copies@, i as int); }
            let mut x = copies[i].clone();
            let ghost xv = x@;
            assert(xv == both[i as int]);
            let mut k: usize = 0;
            assert(renames@.take(0) =~= Seq::<(Seq<char>, Seq<char>)>::empty());
            while k < renames.entries.len()
                invariant
                    k <= renames@.len(),
                    renames@.len() == renames.entries@.len(),
                    x@ == renamed_all(xv, renames@.take(k as int)),
                decreases renames.entries.len() - k,
            {
                proof {
                    assert(renames@.take(k + 1).drop_last() =~= renames@.take(k as int));
                    assert(renames@[k as int] == (renames.entries@[k as int].0@, renames.entries@[k as int].1@));
                }
                walk_replace_predicate(&mut x, renames.entries[k].0.as_str(), renames.entries[k].1.as_str());
                k = k + 1;
            }
            assert(renames@.take(k as int) =~= renames@);
            let ghost ob = out@;
            out.push(x);
            proof {
                assert(out@.drop_last() =~= ob);
                assert(both.take(i + 1).map_values(|x: JVal| renamed_all(x, renames@))
                    =~= both.take(i as int).map_values(|x: JVal| renamed_all(x, renames@)).push(renamed_all(xv, renames@)));
            }
            i = i + 1;
        }
        assert(both.take(i as int) =~= both);
        let ghost e0 = jv_seq(self.extended_rules@);
        let ghost ov = jv_seq(out@);
        let mut j: usize = 0;
        proof {
            lemma_jv_seq_len(out@);
        }
        while j < out.len()
            invariant
                j <= out.len(),
                ov == jv_seq(out@),
                ov.len() == out.len(),
                jv_seq(self.extended_rules@) == e0 + ov.take(j as int),
                self@.args_of == f0.args_of,
                self@.rules_of == f0.rules_of,
                self@.rules == f0.rules,
                self@.direct_args_of == f0.direct_args_of,
                self@.constants == f0.constants,
                self@.creation_count == count,
                self@.cached == st.cached,
            decreases out.len() - j,
        {
            proof {
                lemma_jv_seq_index(out@, j as int);
            }
            let ghost before = self.extended_rules@;
            self.extended_rules.push(out[j].clone());
            proof {
                assert(self.extended_rules@.drop_last() =~= before);
                assert(e0 + ov.take(j + 1) =~= (e0 + ov.take(j as int)).push(ov[j as int]));
            }
            j = j + 1;
        }
        assert(ov.take(j as int) =~= ov);
        self.update_structure(name);
        Ok(())
    }
}


// ---------------------------------------------------------------------------
// Making
// ---------------------------------------------------------------------------

/// The instructions as plain values: the predicate to make and the instruction.
pub open spec fn instructions_view(v: Seq<(String, Json)>) -> Seq<(Seq<char>, JVal)> {
    v.map_values(|e: (String, Json)| (e.0@, e.1@))
}

/// Read instructions as plain values: the name to make, the applicant, the arguments.
pub open spec fn made_view(v: Seq<(String, String, StrMap)>) -> Seq<(Seq<char>, Seq<char>, Seq<(Seq<char>, Seq<char>)>)> {
    v.map_values(|e: (String, String, StrMap)| (e.0@, e.1@, e.2@))
}

/// The instructions read in order (see [`Functors::parse_make_instruction`]),
/// with the constants' functions they ask for; or the first predicate whose
/// instruction names no applicant.
pub open spec fn read_instructions(instrs: Seq<(Seq<char>, JVal)>, c: Seq<(Seq<char>, Seq<char>)>) -> Result<(Seq<(Seq<char>, Seq<char>, Seq<(Seq<char>, Seq<char>)>)>, Seq<(Seq<char>, Seq<char>)>), Seq<char>>
    decreases instrs.len(),
{
    if instrs.len() == 0 {
        Ok((seq![], c))
    } else {
        match read_instructions(instrs.drop_last(), c) {
            Err(p) => Err(p),
            Ok(done) => {
                let p = instrs.last().0;
                let ins = instrs.last().1;
                match jget(ins, "1"@) {
                    None => Err(p),
                    Some(first) => {
                        let made = make_args(jentries(jfield(ins, "2"@)), done.1, seq![]);
                        Ok((done.0.push((p, jstr(jfield(first, "predicate_name"@)), made.1)), made.0))
                    },
                }
            },
        }
    }
}

/// The names the instructions make, each once, in order of first mention.
pub open spec fn made_names(ps: Seq<(Seq<char>, Seq<char>, Seq<(Seq<char>, Seq<char>)>)>) -> Seq<Seq<char>>
    decreases ps.len(),
{
    if ps.len() == 0 {
        seq![]
    } else {
        set_add(made_names(ps.drop_last()), ps.last().0)
    }
}

/// Each name in double quotes.
pub open spec fn quoted_names(ns: Seq<Seq<char>>) -> Seq<Seq<char>> {
    ns.map_values(|n: Seq<char>| "\""@ + n + "\""@)
}

/// The error when no instruction can go ahead while `pending` are to be made.
pub open spec fn stuck_message(pending: Seq<Seq<char>>) -> Seq<char> {
    "Could not resolve Make order for: {"@ + join(quoted_names(pending), ", "@) + "}"@
}

/// What a constant's key stands for: a number (`int:<n>`, or a key that
/// reads as an integer) or a string (`str:<s>`, or any other key), and its text.
pub open spec fn constant_value(key: Seq<char>) -> (bool, Seq<char>) {
    if crate::text::has_prefix(key, "int:"@) {
        (true, key.skip(4))
    } else if crate::text::has_prefix(key, "str:"@) {
        (false, key.skip(4))
    } else if crate::text::parse_int(key) is Some {
        (true, key)
    } else {
        (false, key)
    }
}

/// The rule `<f>() = <value>;` defining the function of a constant.
pub open spec fn constant_rule(key: Seq<char>, f: Seq<char>) -> JVal {
    let v = constant_value(key);
    let lit = if v.0 {
        JVal::Object(seq![("the_number"@, JVal::Object(seq![("number"@, JVal::Str(v.1))]))])
    } else {
        JVal::Object(seq![("the_string"@, JVal::Object(seq![("the_string"@, JVal::Str(v.1))]))])
    };
    let shown = if v.0 { v.1 } else { "\""@ + v.1 + "\""@ };
    let fv = JVal::Object(seq![("field"@, JVal::Str("logica_value"@)), ("value"@, JVal::Object(seq![("expression"@, JVal::Object(seq![("literal"@, lit)]))]))]);
    let head = JVal::Object(seq![("predicate_name"@, JVal::Str(f)), ("record"@, JVal::Object(seq![("field_value"@, JVal::Array(seq![fv]))]))]);
    JVal::Object(seq![("head"@, head), ("full_text"@, JVal::Str(f + "() = "@ + shown + ";"@))])
}

/// The rules of the constants' functions, in the order the constants came.
pub open spec fn constant_rules(c: Seq<(Seq<char>, Seq<char>)>) -> Seq<JVal> {
    c.map_values(|e: (Seq<char>, Seq<char>)| constant_rule(e.0, e.1))
}

fn constant_rule_exec(key: &str, f: &str) -> (r: Json)
    ensures
        r@ == constant_rule(key@, f@),
{
    broadcast use group_json_view;
    let n = key.unicode_len();
    proof {
        reveal_strlit("int:");
        reveal_strlit("str:");
    }
    let (num, text): (bool, &str) = if crate::text::starts_with_str(key, "int:") {
        (true, key.substring_char(4, n))
    } else if crate::text::starts_with_str(key, "str:") {
        (false, key.substring_char(4, n))
    } else {
        match crate::text::parse_int_exec(key) {
            Some(_) => (true, key),
            None => (false, key),
        }
    };
    assert(text@ == constant_value(key@).1);
    let lit = if num {
        crate::json::obj1("the_number", crate::json::obj1("number", Json::string(text)))
    } else {
        crate::json::obj1("the_string", crate::json::obj1("the_string", Json::string(text)))
    };
    let shown = if num { text.to_string() } else { concat3("\"", text, "\"") };
    let fv = crate::json::obj2("field", Json::string("logica_value"), "value", crate::json::obj1("expression", crate::json::obj1("literal", lit)));
    let ghost fvv = fv@;
    let items = vec![fv];
    assert(jv_seq(items@) =~= seq![fvv]);
    let head = crate::json::obj2("predicate_name", Json::string(f), "record", crate::json::obj1("field_value", Json::Array(items)));
    let full = concat4(f, "() = ", shown.as_str(), ";");
    crate::json::obj2("head", head, "full_text", Json::Str(full))
}

/// Whether a name of `a` is in `b`.
fn meets(a: &NameSet, b: &NameSet) -> (r: bool)
    ensures
        r == exists|k: int| 0 <= k < a@.len() && b@.contains(#[trigger] a@[k]),
{
    let mut i: usize = 0;
    while i < a.names.len()
        invariant
            i <= a.names.len(),
            a@.len() == a.names.len(),
            forall|k: int| 0 <= k < i ==> !b@.contains(#[trigger] a@[k]),
        decreases a.names.len() - i,
    {
        if b.contains(a.names[i].as_str()) {
            assert(b@.contains(a@[i as int]));
            return true;
        }
        i = i + 1;
    }
    false
}

/// Whether `args` passes a name of `pending` as a value.
fn passes_pending(args: &StrMap, pending: &NameSet) -> (r: bool)
    ensures
        r == exists|k: int| 0 <= k < args@.len() && pending@.contains(#[trigger] args@[k].1),
{
    let mut i: usize = 0;
    while i < args.entries.len()
        invariant
            i <= args.entries.len(),
            args@.len() == args.entries.len(),
            forall|k: int| 0 <= k < i ==> !pending@.contains(#[trigger] args@[k].1),
        decreases args.entries.len() - i,
    {
        if pending.contains(args.entries[i].1.as_str()) {
            assert(pending@.contains(args@[i as int].1));
            return true;
        }
        i = i + 1;
    }
    false
}

proof fn lemma_made_names(ps: Seq<(Seq<char>, Seq<char>, Seq<(Seq<char>, Seq<char>)>)>)
    ensures
        made_names(ps).no_duplicates(),
        made_names(ps).len() <= ps.len(),
    decreases ps.len(),
{
    if ps.len() > 0 {
        lemma_made_names(ps.drop_last());
        let s = made_names(ps.drop_last());
        let x = ps.last().0;
        if !s.contains(x) {
            let t = s.push(x);
            assert forall|i: int, j: int| 0 <= i < t.len() && 0 <= j < t.len() && i != j implies t[i] != t[j] by {
                if i == s.len() {
                    assert(s[j] == t[j]);
                } else if j == s.len() {
                    assert(s[i] == t[i]);
                }
            }
        }
    }
}

proof fn lemma_read_err_extends(s: Seq<(Seq<char>, JVal)>, j: int, c: Seq<(Seq<char>, Seq<char>)>)
    requires
        0 <= j <= s.len(),
        read_instructions(s.take(j), c) is Err,
    ensures
        read_instructions(s, c) == read_instructions(s.take(j), c),
    decreases s.len() - j,
{
    if j < s.len() {
        assert(s.take(j + 1).drop_last() =~= s.take(j));
        lemma_read_err_extends(s, j + 1, c);
    } else {
        assert(s.take(j) =~= s);
    }
}

impl Functors {
    /// Carry out the `@Make` instructions as [`crate::making::make_outcome`]
    /// says: read them all first, then make, round after round and in the
    /// order of the instructions, every name still to be made whose
    /// applicant, the applicant's dependencies and the argument values are
    /// made already, each name once (see [`Functors::call_functor`]); stop
    /// with an error when a round makes nothing. Then remove the rules proven
    /// to be empty and add a rule for each constant's function.
    pub fn make_all(&mut self, predicate_to_instruction: &[(String, Json)]) -> (r: CompileResult<()>)
        requires
            crate::making::grouped(old(self)@),
            old(self)@.creation_count + predicate_to_instruction.len() < usize::MAX,
        ensures
            match crate::making::make_outcome(crate::making::abs_state(old(self)@), instructions_view(predicate_to_instruction@)) {
                Ok(s) => r is Ok && crate::making::abs_state(final(self)@) == s,
                Err(e) => r matches Err(x) && x.message@ == e.0 && x.rule_text@ == e.1,
            },
    {
        let ghost iv = instructions_view(predicate_to_instruction@);
        let ghost f0 = self@;
        let mut parsed: Vec<(String, String, StrMap)> = Vec::new();
        let mut needs = NameSet::new();
        let mut i: usize = 0;
        proof {
            assert(iv.take(0) =~= Seq::<(Seq<char>, JVal)>::empty());
            assert(made_view(parsed@) =~= seq![]);
        }
        while i < predicate_to_instruction.len()
            invariant
                i <= predicate_to_instruction.len(),
                iv == instructions_view(predicate_to_instruction@),
                iv.len() == predicate_to_instruction.len(),
                read_instructions(iv.take(i as int), f0.constants) == Ok::<_, Seq<char>>((made_view(parsed@), self@.constants)),
                needs@ == made_names(made_view(parsed@)),
                parsed.len() == i,
                f0 == old(self)@,
                self@ == (FunctorsV { constants: self@.constants, ..f0 }),
            decreases predicate_to_instruction.len() - i,
        {
            proof {
                assert(iv.take(i + 1).drop_last() =~= iv.take(i as int));
                assert(iv.take(i + 1).last() == iv[i as int]);
                assert(iv[i as int] == (predicate_to_instruction@[i as int].0@, predicate_to_instruction@[i as int].1@));
            }
            let ghost before = parsed@;
            let ghost cb = self@.constants;
            match self.parse_make_instruction(predicate_to_instruction[i].0.as_str(), &predicate_to_instruction[i].1) {
                Err(e) => {
                    proof {
                        assert(jget(iv[i as int].1, "1"@) is None);
                        assert(read_instructions(iv.take(i + 1), f0.constants) == Err::<(Seq<(Seq<char>, Seq<char>, Seq<(Seq<char>, Seq<char>)>)>, Seq<(Seq<char>, Seq<char>)>), Seq<char>>(iv[i as int].0));
                        lemma_read_err_extends(iv, i + 1, f0.constants);
                    }
                    return Err(e);
                },
                Ok(t) => {
                    let ghost tv = (t.0@, t.1@, t.2@);
                    proof {
                        let ins = iv[i as int].1;
                        let first = jget(ins, "1"@)->Some_0;
                        let made = make_args(jentries(jfield(ins, "2"@)), cb, seq![]);
                        assert(tv == (iv[i as int].0, jstr(jfield(first, "predicate_name"@)), made.1));
                        assert(self@.constants == made.0);
                        assert(read_instructions(iv.take(i + 1), f0.constants) == Ok::<_, Seq<char>>((made_view(before).push(tv), self@.constants)));
                    }
                    needs.insert(t.0.clone());
                    parsed.push(t);
                    proof {
                        assert(made_view(parsed@) =~= made_view(before).push(tv));
                        assert(made_view(parsed@).drop_last() =~= made_view(before));
                        assert(made_names(made_view(parsed@)) == set_add(made_names(made_view(before)), tv.0));
                    }
                },
            }
            i = i + 1;
        }
        proof {
            assert(iv.take(i as int) =~= iv);
        }
        let ghost ps = made_view(parsed@);
        let ghost c1 = self@.constants;
        let ghost s1 = crate::making::MakeState { constants: c1, ..crate::making::abs_state(f0) };
        proof {
            lemma_made_names(ps);
            assert(crate::making::abs_state(self@) == s1);
        }
        while !needs.is_empty()
            invariant
                ps == made_view(parsed@),
                ps.len() == predicate_to_instruction.len(),
                f0 == old(self)@,
                iv == instructions_view(predicate_to_instruction@),
                read_instructions(iv, f0.constants) == Ok::<_, Seq<char>>((ps, c1)),
                s1 == (crate::making::MakeState { constants: c1, ..crate::making::abs_state(f0) }),
                crate::making::make_rounds(crate::making::abs_state(self@), needs@, ps) == crate::making::make_rounds(s1, made_names(ps), ps),
                crate::making::grouped(self@),
                needs@.no_duplicates(),
                forall|x: Seq<char>| needs@.contains(x) ==> made_names(ps).contains(x),
                self@.creation_count + needs@.len() == f0.creation_count + made_names(ps).len(),
                made_names(ps).len() <= ps.len(),
                f0.creation_count + predicate_to_instruction.len() < usize::MAX,
                self@.constants == c1,
            decreases needs@.len(),
        {
            let mut built = false;
            let ghost s0 = crate::making::abs_state(self@);
            let ghost n0 = needs@;
            let mut j: usize = 0;
            proof {
                assert(ps.skip(0) =~= ps);
            }
            while j < parsed.len()
                invariant
                    j <= parsed.len(),
                    ps == made_view(parsed@),
                    ps.len() == predicate_to_instruction.len(),
                    f0 == old(self)@,
                    iv == instructions_view(predicate_to_instruction@),
                    read_instructions(iv, f0.constants) == Ok::<_, Seq<char>>((ps, c1)),
                    s1 == (crate::making::MakeState { constants: c1, ..crate::making::abs_state(f0) }),
                    crate::making::make_rounds(s0, n0, ps) == crate::making::make_rounds(s1, made_names(ps), ps),
                    n0.len() > 0,
                    crate::making::make_pass(crate::making::abs_state(self@), needs@, built, ps.skip(j as int))
                        == crate::making::make_pass(s0, n0, false, ps),
                    crate::making::grouped(self@),
                    needs@.no_duplicates(),
                    forall|x: Seq<char>| needs@.contains(x) ==> made_names(ps).contains(x),
                    self@.creation_count + needs@.len() == f0.creation_count + made_names(ps).len(),
                    made_names(ps).len() <= ps.len(),
                    f0.creation_count + predicate_to_instruction.len() < usize::MAX,
                    self@.constants == c1,
                    built ==> needs@.len() < n0.len(),
                    !built ==> needs@ == n0,
                decreases parsed.len() - j,
            {
                let ghost sj = crate::making::abs_state(self@);
                let ghost fj = self@;
                let ghost nj = needs@;
                let ghost ins = ps[j as int];
                proof {
                    assert(ins == (parsed@[j as int].0@, parsed@[j as int].1@, parsed@[j as int].2@));
                    assert(ps.skip(j as int)[0] == ins);
                    assert(ps.skip(j as int).drop_first() =~= ps.skip(j + 1));
                }
                let name = parsed[j].0.as_str();
                let applicant = parsed[j].1.as_str();
                let named = needs.contains(name);
                let waits_applicant = needs.contains(applicant);
                let applicant_args = self.args_of(applicant);
                let waits_args = meets(&applicant_args, &needs);
                let waits_values = passes_pending(&parsed[j].2, &needs);
                proof {
                    crate::making::lemma_dep_set(fj.args_of, ins.1);
                    if waits_args {
                        let k = choose|k: int| 0 <= k < applicant_args@.len() && needs@.contains(#[trigger] applicant_args@[k]);
                        assert(crate::making::dep_set(sj.args, ins.1).contains(applicant_args@[k]));
                    }
                    if waits_values {
                        let k = choose|k: int| 0 <= k < parsed@[j as int].2@.len() && needs@.contains(#[trigger] parsed@[j as int].2@[k].1);
                        assert(ins.2[k].1 == parsed@[j as int].2@[k].1);
                    }
                    if crate::making::waits_m(sj.args, nj, ins) && !waits_applicant {
                        if !waits_values {
                            let q = choose|q: Seq<char>| #[trigger] crate::making::dep_set(sj.args, ins.1).contains(q) && nj.contains(q);
                            assert(succ(fj.args_of, ins.1).contains(q));
                            let k = choose|k: int| 0 <= k < applicant_args@.len() && applicant_args@[k] == q;
                            assert(needs@.contains(applicant_args@[k]));
                        }
                    }
                    assert(crate::making::waits_m(sj.args, nj, ins) == (waits_applicant || waits_args || waits_values));
                }
                if named && !waits_applicant && !waits_args && !waits_values {
                    let ghost bb = built;
                    match self.call_functor(name, applicant, &parsed[j].2) {
                        Err(e) => {
                            proof {
                                let t = e.rule_text@;
                                crate::making::lemma_call_spec_err(fj, ins.0, ins.1, ins.2, t);
                                assert(crate::making::make_pass(sj, nj, bb, ps.skip(j as int)) == Err::<(crate::making::MakeState, Seq<Seq<char>>, bool), Seq<char>>(t));
                            }
                            return Err(e);
                        },
                        Ok(()) => {
                            proof {
                                let st = crate::making::call_st(fj, ins.0, ins.1, ins.2);
                                let anns = collect_groups(fj.rules_of, st.annotate)->Ok_0;
                                crate::making::lemma_call_spec_ok(fj, ins.0, ins.1, ins.2, anns, self@);
                            }
                        },
                    }
                    built = true;
                    needs.remove(name);
                }
                j = j + 1;
            }
            proof {
                assert(ps.skip(j as int) =~= Seq::<(Seq<char>, Seq<char>, Seq<(Seq<char>, Seq<char>)>)>::empty());
            }
            if !built {
                let mut quoted: Vec<String> = Vec::new();
                let mut q: usize = 0;
                while q < needs.names.len()
                    invariant
                        q <= needs.names.len(),
                        needs@.len() == needs.names.len(),
                        names_view(quoted@) == quoted_names(needs@.take(q as int)),
                    decreases needs.names.len() - q,
                {
                    let ghost qv = names_view(quoted@);
                    let one = concat3("\"", needs.names[q].as_str(), "\"");
                    proof {
                        assert(one@ == "\""@ + needs@[q as int] + "\""@);
                        assert(quoted_names(needs@.take(q + 1))[q as int] == "\""@ + needs@[q as int] + "\""@);
                    }
                    quoted.push(one);
                    proof {
                        assert(needs@[q as int] == needs.names@[q as int]@);
                        assert(names_view(quoted@).drop_last() =~= qv);
                        assert forall|x: int| 0 <= x < q + 1 implies #[trigger] names_view(quoted@)[x] == quoted_names(needs@.take(q + 1))[x] by {
                            if x < q {
                                assert(names_view(quoted@)[x] == qv[x]);
                                assert(qv[x] == quoted_names(needs@.take(q as int))[x]);
                                assert(needs@.take(q as int)[x] == needs@.take(q + 1)[x]);
                            }
                        }
                        assert(names_view(quoted@) =~= quoted_names(needs@.take(q + 1)));
                    }
                    q = q + 1;
                }
                assert(needs@.take(q as int) =~= needs@);
                assert(quoted@.map_values(|p: String| p@) =~= names_view(quoted@));
                let list = join_strings(&quoted, ", ");
                let m = concat3("Could not resolve Make order for: {", list.as_str(), "}");
                proof {
                    assert(stuck_message(n0) == m@);
                }
                return Err(CompileError::new(m.as_str(), ""));
            }
        }
        let ghost s2 = crate::making::abs_state(self@);
        let ghost fb = self@;
        proof {
            assert(crate::making::make_rounds(s2, needs@, ps) == Ok::<crate::making::MakeState, (Seq<char>, Seq<char>)>(s2));
        }
        match self.remove_rules_proven_to_be_nil() {
            Err(e) => return Err(e),
            Ok(()) => {},
        }
        proof {
            let nul = nullify_all(fb.extended_rules, proven_nil(fb.extended_rules));
            let nullified = FunctorsV { extended_rules: nul.0, ..fb };
            crate::making::lemma_updated_state(nullified, self@, "nil"@);
            assert(crate::making::abs_state(nullified) == (crate::making::MakeState { ext: nul.0, ..s2 }));
        }
        let ghost s3 = crate::making::abs_state(self@);
        let ghost e1 = self@.extended_rules;
        let mut k: usize = 0;
        proof {
            assert(c1.take(0) =~= Seq::<(Seq<char>, Seq<char>)>::empty());
            assert(e1 + constant_rules(c1.take(0)) =~= e1);
        }
        while k < self.constant_literal_function.entries.len()
            invariant
                k <= self.constant_literal_function.entries.len(),
                self@.constants == c1,
                c1.len() == self.constant_literal_function.entries.len(),
                self@.extended_rules == e1 + constant_rules(c1.take(k as int)),
                crate::making::abs_state(self@) == (crate::making::MakeState { ext: self@.extended_rules, ..s3 }),
            decreases self.constant_literal_function.entries.len() - k,
        {
            let rule = constant_rule_exec(self.constant_literal_function.entries[k].0.as_str(), self.constant_literal_function.entries[k].1.as_str());
            let ghost before = self.extended_rules@;
            self.extended_rules.push(rule);
            proof {
                assert(self.extended_rules@.drop_last() =~= before);
                lemma_jv_seq_len(self.extended_rules@);
                lemma_jv_seq_index(self.extended_rules@, self.extended_rules@.len() - 1);
                assert(constant_rules(c1.take(k + 1)) =~= constant_rules(c1.take(k as int)).push(constant_rule(c1[k as int].0, c1[k as int].1)));
                assert(self@.extended_rules =~= e1 + constant_rules(c1.take(k + 1)));
            }
            k = k + 1;
        }
        proof {
            assert(c1.take(k as int) =~= c1);
        }
        Ok(())
    }
}

// ---------------------------------------------------------------------------
// `@Make` rules
// ---------------------------------------------------------------------------

/// The key an argument is given under: its field, a number written out.
pub open spec fn field_key(f: JVal) -> Seq<char> {
    match f {
        JVal::Int(n) => int_text(n as int),
        _ => jstr(f),
    }
}

/// The text of a string literal, given bare or wrapped in an object.
pub open spec fn literal_text(s: JVal) -> Seq<char> {
    match s {
        JVal::Str(t) => t,
        JVal::Object(_) => match jget(s, "the_string"@) {
            Some(t) => jstr(t),
            None => seq![],
        },
        _ => seq![],
    }
}

/// What an argument of a `@Make` rule puts in its instruction: the predicate
/// passed, a number (an integer, or the text of a written number), a string,
/// or else the argument's expression.
pub open spec fn make_rule_arg(value: JVal) -> Option<JVal> {
    match jget(value, "expression"@) {
        None => None,
        Some(expr) => match jget(expr, "literal"@) {
            None => Some(expr),
            Some(lit) => match jget(lit, "the_predicate"@) {
                Some(pred) => Some(pred),
                None => match jget(lit, "the_number"@) {
                    Some(n) => match n {
                        JVal::Int(_) => Some(n),
                        JVal::Object(_) => match jget(n, "number"@) {
                            Some(num) => Some(JVal::Str(jstr(num))),
                            None => None,
                        },
                        _ => None,
                    },
                    None => match jget(lit, "the_string"@) {
                        Some(t) => Some(JVal::Str(literal_text(t))),
                        None => Some(expr),
                    },
                },
            },
        },
    }
}

/// The arguments of a `@Make` rule by key, set one after another.
pub open spec fn make_rule_entries(fvs: Seq<JVal>) -> Seq<(Seq<char>, JVal)>
    decreases fvs.len(),
{
    if fvs.len() == 0 {
        seq![]
    } else {
        let fv = fvs.last();
        let prev = make_rule_entries(fvs.drop_last());
        match make_rule_arg(jfield(fv, "value"@)) {
            Some(v) => crate::json::entries_insert(prev, field_key(jfield(fv, "field"@)), v),
            None => prev,
        }
    }
}

/// The named arguments of a functor call: each one's predicate when it passes
/// a predicate, else its expression.
pub open spec fn functor_arg_entries(fvs: Seq<JVal>) -> Seq<(Seq<char>, JVal)>
    decreases fvs.len(),
{
    if fvs.len() == 0 {
        seq![]
    } else {
        let fv = fvs.last();
        let prev = functor_arg_entries(fvs.drop_last());
        match jget(jfield(fv, "value"@), "expression"@) {
            None => prev,
            Some(expr) => {
                let v = match jget(expr, "literal"@) {
                    Some(lit) => match jget(lit, "the_predicate"@) {
                        Some(pred) => pred,
                        None => expr,
                    },
                    None => expr,
                };
                crate::json::entries_insert(prev, field_key(jfield(fv, "field"@)), v)
            },
        }
    }
}

/// The named arguments that argument `2` of a `@Make` rule holds as a record.
pub open spec fn functor_args(field2: JVal) -> Seq<(Seq<char>, JVal)> {
    match jget(field2, "record"@) {
        Some(record) => match jget(record, "field_value"@) {
            Some(fva) => functor_arg_entries(jitems(fva)),
            None => seq![],
        },
        None => seq![],
    }
}

/// The instruction of a `@Make` rule: the predicate it makes (the predicate
/// of argument `0`) and an object with the applicant under `1` and, when
/// there are any, the named arguments under `2`; none when argument `0`
/// names no predicate.
pub open spec fn make_instruction(rule: JVal) -> Option<(Seq<char>, JVal)> {
    let inst = make_rule_entries(jitems(jfield(jfield(jfield(rule, "head"@), "record"@), "field_value"@)));
    match crate::json::entries_get(inst, "0"@) {
        None => None,
        Some(first) => match jget(first, "predicate_name"@) {
            None => None,
            Some(pn) => {
                let with1 = match crate::json::entries_get(inst, "1"@) {
                    Some(app) => crate::json::entries_insert(seq![], "1"@, app),
                    None => seq![],
                };
                let with2 = match crate::json::entries_get(inst, "2"@) {
                    Some(f2) => if functor_args(f2).len() > 0 {
                        crate::json::entries_insert(with1, "2"@, JVal::Object(functor_args(f2)))
                    } else {
                        with1
                    },
                    None => with1,
                };
                Some((jstr(pn), JVal::Object(with2)))
            },
        },
    }
}

/// Whether a rule is a `@Make` annotation.
pub open spec fn is_make_rule(rule: JVal) -> bool {
    jstr(jfield(jfield(rule, "head"@), "predicate_name"@)) == "@Make"@
}

/// The instructions of the `@Make` rules, in the order of the rules.
pub open spec fn make_instructions(rules: Seq<JVal>) -> Seq<(Seq<char>, JVal)>
    decreases rules.len(),
{
    if rules.len() == 0 {
        seq![]
    } else {
        let prev = make_instructions(rules.drop_last());
        if is_make_rule(rules.last()) {
            match make_instruction(rules.last()) {
                Some(i) => prev.push(i),
                None => prev,
            }
        } else {
            prev
        }
    }
}

/// `s` with `x` put after the entries whose name is not above its own.
pub open spec fn insert_by_name(s: Seq<(Seq<char>, JVal)>, x: (Seq<char>, JVal)) -> Seq<(Seq<char>, JVal)>
    decreases s.len(),
{
    if s.len() == 0 {
        seq![x]
    } else if text_lt(x.0, s[0].0) {
        seq![x] + s
    } else {
        seq![s[0]] + insert_by_name(s.drop_first(), x)
    }
}

/// The instructions in order of name, those of one name in their order.
pub open spec fn sorted_by_name(s: Seq<(Seq<char>, JVal)>) -> Seq<(Seq<char>, JVal)>
    decreases s.len(),
{
    if s.len() == 0 {
        seq![]
    } else {
        insert_by_name(sorted_by_name(s.drop_last()), s.last())
    }
}

fn field_key_exec(f: &Json) -> (r: String)
    ensures
        r@ == field_key(f@),
{
    broadcast use group_json_view;
    if f.is_int() {
        int_to_string(f.as_int())
    } else {
        f.as_str().to_string()
    }
}

fn make_rule_arg_exec(value: &Json) -> (r: Option<Json>)
    ensures
        match r {
            Some(x) => make_rule_arg(value@) == Some(x@),
            None => make_rule_arg(value@) is None,
        },
{
    broadcast use group_json_view;
    let expr = match value.get("expression") {
        Some(e) => e,
        None => return None,
    };
    let lit = match expr.get("literal") {
        Some(l) => l,
        None => return Some(expr.clone()),
    };
    if let Some(pred) = lit.get("the_predicate") {
        return Some(pred.clone());
    }
    if let Some(n) = lit.get("the_number") {
        if n.is_int() {
            return Some(n.clone());
        } else if n.is_object() {
            return match n.get("number") {
                Some(num) => Some(Json::string(num.as_str())),
                None => None,
            };
        } else {
            return None;
        }
    }
    if let Some(t) = lit.get("the_string") {
        proof {
            reveal_strlit("");
        }
        let text: &str = if t.is_string() {
            t.as_str()
        } else if t.is_object() {
            opt_str(t.get("the_string"))
        } else {
            ""
        };
        assert(text@ == literal_text(t@));
        return Some(Json::string(text));
    }
    Some(expr.clone())
}

fn functor_args_exec(field2: &Json) -> (r: JsonObject)
    ensures
        r@ == functor_args(field2@),
{
    broadcast use group_json_view;
    let mut out = JsonObject::new();
    let fvs: &[Json] = match field2.get("record") {
        Some(record) => match record.get("field_value") {
            Some(fva) => match fva.items() {
                Some(v) => v.as_slice(),
                None => {
                    let e: &[Json] = &[];
                    assert(jv_seq(e@) =~= Seq::<JVal>::empty());
                    e
                },
            },
            None => return out,
        },
        None => return out,
    };
    let ghost fv = jv_seq(fvs@);
    proof {
        lemma_jv_seq_len(fvs@);
        assert(fv.take(0) =~= Seq::<JVal>::empty());
    }
    let mut i: usize = 0;
    while i < fvs.len()
        invariant
            i <= fvs.len(),
            fv == jv_seq(fvs@),
            fv.len() == fvs.len(),
            fv == jitems(jfield(jfield(field2@, "record"@), "field_value"@)),
            jget(field2@, "record"@) is Some,
            jget(jfield(field2@, "record"@), "field_value"@) is Some,
            out@ == functor_arg_entries(fv.take(i as int)),
        decreases fvs.len() - i,
    {
        proof {
            lemma_jv_seq_index(fvs@, i as int);
            assert(fv.take(i + 1).drop_last() =~= fv.take(i as int));
            assert(fv.take(i + 1).last() == fv[i as int]);
        }
        let item = &fvs[i];
        let value = opt_field(item.get("value"), "expression");
        match value {
            Some(expr) => {
                let v = match expr.get("literal") {
                    Some(lit) => match lit.get("the_predicate") {
                        Some(pred) => pred.clone(),
                        None => expr.clone(),
                    },
                    None => expr.clone(),
                };
                let null = Json::Null;
                let key = field_key_exec(match item.get("field") {
                    Some(x) => x,
                    None => &null,
                });
                out.insert(key, v);
            },
            None => {},
        }
        i = i + 1;
    }
    assert(fv.take(i as int) =~= fv);
    out
}

fn make_instruction_exec(rule: &Json) -> (r: Option<(String, Json)>)
    ensures
        match r {
            Some(x) => make_instruction(rule@) == Some((x.0@, x.1@)),
            None => make_instruction(rule@) is None,
        },
{
    broadcast use group_json_view;
    let fvs = opt_elements(opt_field(opt_field(rule.get("head"), "record"), "field_value"));
    let ghost fv = jv_seq(fvs@);
    let mut inst = JsonObject::new();
    proof {
        lemma_jv_seq_len(fvs@);
        assert(fv.take(0) =~= Seq::<JVal>::empty());
    }
    let mut i: usize = 0;
    while i < fvs.len()
        invariant
            i <= fvs.len(),
            fv == jv_seq(fvs@),
            fv.len() == fvs.len(),
            inst@ == make_rule_entries(fv.take(i as int)),
        decreases fvs.len() - i,
    {
        proof {
            lemma_jv_seq_index(fvs@, i as int);
            assert(fv.take(i + 1).drop_last() =~= fv.take(i as int));
            assert(fv.take(i + 1).last() == fv[i as int]);
        }
        let item = &fvs[i];
        let null = Json::Null;
        let value: &Json = match item.get("value") {
            Some(x) => x,
            None => &null,
        };
        match make_rule_arg_exec(value) {
            Some(v) => {
                let key = field_key_exec(match item.get("field") {
                    Some(x) => x,
                    None => &null,
                });
                inst.insert(key, v);
            },
            None => {},
        }
        i = i + 1;
    }
    assert(fv.take(i as int) =~= fv);
    let first = match inst.get("0") {
        Some(x) => x,
        None => return None,
    };
    let pn = match first.get("predicate_name") {
        Some(x) => x,
        None => return None,
    };
    let mut made = JsonObject::new();
    match inst.get("1") {
        Some(app) => made.insert("1".to_string(), app.clone()),
        None => {},
    }
    match inst.get("2") {
        Some(f2) => {
            let args = functor_args_exec(f2);
            if args.len() > 0 {
                made.insert("2".to_string(), Json::Object(args));
            }
        },
        None => {},
    }
    Some((pn.as_str().to_string(), Json::Object(made)))
}

fn insert_by_name_exec(v: &mut Vec<(String, Json)>, x: (String, Json))
    ensures
        instructions_view(final(v)@) == insert_by_name(instructions_view(old(v)@), (x.0@, x.1@)),
        final(v)@.len() == old(v)@.len() + 1,
{
    let ghost s = instructions_view(v@);
    let ghost xv = (x.0@, x.1@);
    let mut j: usize = 0;
    while j < v.len() && !text_less(x.0.as_str(), v[j].0.as_str())
        invariant
            j <= v.len(),
            s == instructions_view(v@),
            v@ == old(v)@,
            xv == (x.0@, x.1@),
            forall|k: int| 0 <= k < j ==> !text_lt(xv.0, #[trigger] s[k].0),
        decreases v.len() - j,
    {
        j = j + 1;
    }
    proof {
        lemma_insert_by_name_at(s, xv, j as int);
    }
    v.insert(j, x);
    proof {
        assert(instructions_view(v@) =~= s.take(j as int) + seq![xv] + s.skip(j as int));
    }
}

proof fn lemma_insert_by_name_at(s: Seq<(Seq<char>, JVal)>, x: (Seq<char>, JVal), j: int)
    requires
        0 <= j <= s.len(),
        forall|k: int| 0 <= k < j ==> !text_lt(x.0, #[trigger] s[k].0),
        j < s.len() ==> text_lt(x.0, s[j].0),
    ensures
        insert_by_name(s, x) == s.take(j) + seq![x] + s.skip(j),
    decreases j,
{
    if j == 0 {
        if s.len() == 0 {
            assert(s.take(0) + seq![x] + s.skip(0) =~= seq![x]);
        } else {
            assert(s.take(0) + seq![x] + s.skip(0) =~= seq![x] + s);
        }
    } else {
        let t = s.drop_first();
        assert forall|k: int| 0 <= k < j - 1 implies !text_lt(x.0, #[trigger] t[k].0) by {
            assert(t[k] == s[k + 1]);
        }
        if j < s.len() {
            assert(t[j - 1] == s[j]);
        }
        lemma_insert_by_name_at(t, x, j - 1);
        assert(seq![s[0]] + (t.take(j - 1) + seq![x] + t.skip(j - 1)) =~= s.take(j) + seq![x] + s.skip(j));
    }
}

/// Carry out the `@Make` rules of a program: their instructions, in order of
/// the predicate made (see [`make_instruction`]), go to
/// [`Functors::make_all`] over the program's rules, and the extended rules
/// come back. A program without such instructions comes back as it is.
pub fn run_makes(rules: &[Json]) -> (r: CompileResult<Vec<Json>>)
    requires
        rules.len() < usize::MAX,
    ensures
        ({
            let instrs = sorted_by_name(make_instructions(jv_seq(rules@)));
            if instrs.len() == 0 {
                r matches Ok(v) && jv_seq(v@) == jv_seq(rules@)
            } else {
                match crate::making::make_outcome(crate::making::initial_state(jv_seq(rules@)), instrs) {
                    Ok(s) => r matches Ok(v) && jv_seq(v@) == s.ext,
                    Err(e) => r matches Err(x) && x.message@ == e.0 && x.rule_text@ == e.1,
                }
            }
        }),
{
    broadcast use group_json_view;
    let ghost rv = jv_seq(rules@);
    let mut instrs: Vec<(String, Json)> = Vec::new();
    let mut i: usize = 0;
    proof {
        lemma_jv_seq_len(rules@);
        assert(rv.take(0) =~= Seq::<JVal>::empty());
        assert(instructions_view(instrs@) =~= Seq::<(Seq<char>, JVal)>::empty());
    }
    while i < rules.len()
        invariant
            i <= rules.len(),
            rv == jv_seq(rules@),
            rv.len() == rules.len(),
            instructions_view(instrs@) == sorted_by_name(make_instructions(rv.take(i as int))),
            instrs.len() <= i,
        decreases rules.len() - i,
    {
        proof {
            lemma_jv_seq_index(rules@, i as int);
            assert(rv.take(i + 1).drop_last() =~= rv.take(i as int));
            assert(rv.take(i + 1).last() == rv[i as int]);
        }
        let head_name = opt_str(opt_field(rules[i].get("head"), "predicate_name"));
        if str_eq(head_name, "@Make") {
            match make_instruction_exec(&rules[i]) {
                Some(x) => {
                    let ghost xv = (x.0@, x.1@);
                    let ghost prev = make_instructions(rv.take(i as int));
                    insert_by_name_exec(&mut instrs, x);
                    proof {
                        assert(prev.push(xv).drop_last() =~= prev);
                        assert(make_instructions(rv.take(i + 1)) == prev.push(xv));
                    }
                },
                None => {
                    assert(make_instructions(rv.take(i + 1)) == make_instructions(rv.take(i as int)));
                },
            }
        } else {
            assert(make_instructions(rv.take(i + 1)) == make_instructions(rv.take(i as int)));
        }
        i = i + 1;
    }
    assert(rv.take(i as int) =~= rv);
    if instrs.len() == 0 {
        return Ok(clone_rules(rules));
    }
    let mut functors = Functors::new(rules);
    proof {
        crate::making::lemma_initial_state(functors@, jv_seq(rules@));
    }
    match functors.make_all(instrs.as_slice()) {
        Err(e) => Err(e),
        Ok(()) => Ok(functors.extended_rules),
    }
}

proof fn lemma_sorted_by_name_len(s: Seq<(Seq<char>, JVal)>)
    ensures
        sorted_by_name(s).len() == s.len(),
    decreases s.len(),
{
    if s.len() > 0 {
        lemma_sorted_by_name_len(s.drop_last());
        lemma_insert_by_name_len(sorted_by_name(s.drop_last()), s.last());
    }
}

proof fn lemma_insert_by_name_len(s: Seq<(Seq<char>, JVal)>, x: (Seq<char>, JVal))
    ensures
        insert_by_name(s, x).len() == s.len() + 1,
    decreases s.len(),
{
    if s.len() > 0 {
        lemma_insert_by_name_len(s.drop_first(), x);
    }
}


/// Whether `a` lists, for each predicate the rules define (in the order of
/// [`group_rules`]), the predicates it depends on in one step or more, a
/// step going from a predicate to those its rules read.
pub open spec fn dependencies_of(rules: Seq<JVal>, a: Seq<(Seq<char>, Seq<Seq<char>>)>) -> bool {
    let g = group_rules(rules);
    exists|d: Seq<(Seq<char>, Seq<Seq<char>>)>| #![trigger d.len()] {
        &&& d.len() == g.len()
        &&& forall|i: int| 0 <= i < g.len() ==> (#[trigger] d[i]).0 == g[i].0
        &&& forall|i: int, n: Seq<char>| 0 <= i < g.len() ==> (#[trigger] d[i].1.contains(n) <==> group_args(g[i].1).contains(n))
        &&& a.len() == g.len()
        &&& forall|i: int| 0 <= i < g.len() ==> (#[trigger] a[i]).0 == g[i].0
        &&& forall|i: int, q: Seq<char>| 0 <= i < g.len() ==> (#[trigger] a[i].1.contains(q) <==> reaches(d, g[i].0, q))
    }
}

/// [`run_makes`], with the dependencies of the rules it gives back.
pub fn run_makes_with_deps(rules: &[Json]) -> (r: CompileResult<(Vec<Json>, Vec<(String, NameSet)>)>)
    requires
        rules.len() < usize::MAX,
    ensures
        ({
            let instrs = sorted_by_name(make_instructions(jv_seq(rules@)));
            &&& r matches Ok(t) ==> dependencies_of(jv_seq(t.0@), lists_view(t.1@))
            &&& if instrs.len() == 0 {
                r matches Ok(t) && jv_seq(t.0@) == jv_seq(rules@)
            } else {
                match crate::making::make_outcome(crate::making::initial_state(jv_seq(rules@)), instrs) {
                    Ok(s) => r matches Ok(t) && jv_seq(t.0@) == s.ext,
                    Err(e) => r matches Err(x) && x.message@ == e.0 && x.rule_text@ == e.1,
                }
            }
        }),
{
    let extended = match run_makes(rules) {
        Ok(v) => v,
        Err(e) => return Err(e),
    };
    let functors = Functors::new(extended.as_slice());
    let deps = clone_lists(functors.get_args_of_map());
    proof {
        let f = functors@;
        assert(dependencies_of(jv_seq(extended@), lists_view(deps@))) by {
            let g = group_rules(jv_seq(extended@));
            assert(g == f.rules_of);
            let d = f.direct_args_of;
            let a = lists_view(deps@);
            assert(a == f.args_of);
            assert(d.len() == g.len());
            assert(forall|i: int| 0 <= i < g.len() ==> (#[trigger] d[i]).0 == g[i].0);
            assert(forall|i: int, n: Seq<char>| 0 <= i < g.len() ==> (#[trigger] d[i].1.contains(n) <==> group_args(g[i].1).contains(n)));
            assert(a.len() == g.len());
            assert forall|i: int| 0 <= i < g.len() implies (#[trigger] a[i]).0 == g[i].0 by {
                assert(d[i].0 == g[i].0);
            }
            assert(forall|i: int, q: Seq<char>| 0 <= i < g.len() ==> (#[trigger] a[i].1.contains(q) <==> reaches(d, g[i].0, q)));
        }
    }
    Ok((extended, deps))
}

fn clone_lists(v: &Vec<(String, NameSet)>) -> (r: Vec<(String, NameSet)>)
    ensures
        lists_view(r@) == lists_view(v@),
{
    let mut out: Vec<(String, NameSet)> = Vec::new();
    let mut i: usize = 0;
    while i < v.len()
        invariant
            i <= v.len(),
            lists_view(out@) == lists_view(v@).take(i as int),
        decreases v.len() - i,
    {
        let ghost before = out@;
        out.push((v[i].0.clone(), v[i].1.clone()));
        proof {
            assert(lists_view(out@) =~= lists_view(before).push(lists_view(v@)[i as int]));
            assert(lists_view(v@).take(i + 1) =~= lists_view(v@).take(i as int).push(lists_view(v@)[i as int]));
        }
        i = i + 1;
    }
    assert(lists_view(v@).take(i as int) =~= lists_view(v@));
    out
}

} // verus!
