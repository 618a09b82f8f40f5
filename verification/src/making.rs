//! What carrying out `@Make` instructions gives, stated over the dependencies
//! of the predicates as sets: the order in which a dependency list holds its
//! names plays no part in it.

use vstd::prelude::*;
use crate::json::JVal;
use crate::strmap::{kv_get, set_add};
use crate::functors::{
    FunctorsV, CallState, succ, is_walk, reaches, group_rules, group_args, rules_for, rule_head_name,
    dependency_groups, relevant_args, call_key_text, parts, takes_part, call_step, call_fold, arg_names,
    sorted_by_text, renamed_all, collect_groups, structure_updated, refreshed, args_kept,
    read_instructions, made_names, stuck_message, annotation_first_arg_message, bad_make_message,
    empty_predicate_message, nullify_all, proven_nil, constant_rules,
};
use crate::text::{join, int_text};

verus! {

/// The dependencies listed in `d`, as a map from each listed name to the set
/// of names listed for it.
pub open spec fn sets_of(d: Seq<(Seq<char>, Seq<Seq<char>>)>) -> Map<Seq<char>, Set<Seq<char>>> {
    Map::new(|x: Seq<char>| kv_get(d, x) is Some, |x: Seq<char>| succ(d, x).to_set())
}

/// The names `x` depends on: none when it is not in the map.
pub open spec fn dep_set(m: Map<Seq<char>, Set<Seq<char>>>, x: Seq<char>) -> Set<Seq<char>> {
    if m.dom().contains(x) {
        m[x]
    } else {
        Set::empty()
    }
}

pub proof fn lemma_dep_set(d: Seq<(Seq<char>, Seq<Seq<char>>)>, x: Seq<char>)
    ensures
        dep_set(sets_of(d), x) == succ(d, x).to_set(),
        forall|q: Seq<char>| #![trigger dep_set(sets_of(d), x).contains(q)] #![trigger succ(d, x).contains(q)]
            dep_set(sets_of(d), x).contains(q) <==> succ(d, x).contains(q),
{
    if kv_get(d, x) is None {
        assert(succ(d, x).to_set() =~= Set::<Seq<char>>::empty());
    }
}

/// The state of the functors as far as making goes.
pub struct MakeState {
    pub ext: Seq<JVal>,
    pub direct: Map<Seq<char>, Set<Seq<char>>>,
    pub args: Map<Seq<char>, Set<Seq<char>>>,
    pub cached: Seq<(Seq<char>, Seq<char>)>,
    pub count: nat,
    pub constants: Seq<(Seq<char>, Seq<char>)>,
}

pub open spec fn abs_state(f: FunctorsV) -> MakeState {
    MakeState {
        ext: f.extended_rules,
        direct: sets_of(f.direct_args_of),
        args: sets_of(f.args_of),
        cached: f.cached,
        count: f.creation_count,
        constants: f.constants,
    }
}

/// The rules are grouped as [`group_rules`] groups them.
pub open spec fn grouped(f: FunctorsV) -> bool {
    f.rules_of == group_rules(f.extended_rules)
}

/// Whether `path` is a walk from `p` along `m`.
pub open spec fn is_walk_m(m: Map<Seq<char>, Set<Seq<char>>>, p: Seq<char>, path: Seq<Seq<char>>) -> bool {
    &&& path.len() > 0
    &&& dep_set(m, p).contains(path[0])
    &&& forall|i: int| 0 <= i < path.len() - 1 ==> #[trigger] dep_set(m, path[i]).contains(path[i + 1])
}

/// Whether `q` is reached from `p` along `m` in one step or more.
pub open spec fn reaches_m(m: Map<Seq<char>, Set<Seq<char>>>, p: Seq<char>, q: Seq<char>) -> bool {
    exists|path: Seq<Seq<char>>| #[trigger] is_walk_m(m, p, path) && path.last() == q
}

pub proof fn lemma_reaches_m(d: Seq<(Seq<char>, Seq<Seq<char>>)>, p: Seq<char>, q: Seq<char>)
    ensures
        reaches(d, p, q) == reaches_m(sets_of(d), p, q),
{
    assert forall|path: Seq<Seq<char>>| #[trigger] is_walk(d, p, path) == is_walk_m(sets_of(d), p, path) by {
        lemma_dep_set(d, p);
        if is_walk(d, p, path) {
            assert forall|i: int| 0 <= i < path.len() - 1 implies #[trigger] dep_set(sets_of(d), path[i]).contains(path[i + 1]) by {
                lemma_dep_set(d, path[i]);
            }
        }
        if is_walk_m(sets_of(d), p, path) {
            assert forall|i: int| 0 <= i < path.len() - 1 implies #[trigger] succ(d, path[i]).contains(path[i + 1]) by {
                lemma_dep_set(d, path[i]);
            }
        }
    }
    if reaches(d, p, q) {
        let path = choose|path: Seq<Seq<char>>| #[trigger] is_walk(d, p, path) && path.last() == q;
        assert(is_walk_m(sets_of(d), p, path));
    }
    if reaches_m(sets_of(d), p, q) {
        let path = choose|path: Seq<Seq<char>>| #[trigger] is_walk_m(sets_of(d), p, path) && path.last() == q;
        assert(is_walk(d, p, path));
    }
}

/// Whether `x` gets its direct dependencies afresh in an update for `new`.
pub open spec fn refreshed_m(direct: Map<Seq<char>, Set<Seq<char>>>, g: Seq<(Seq<char>, Seq<JVal>)>, new: Seq<char>, x: Seq<char>) -> bool {
    kv_get(g, x) is Some && (x == new || !direct.dom().contains(x))
}

/// Whether the dependencies of `x` stay in an update for `new`.
pub open spec fn kept_m(args: Map<Seq<char>, Set<Seq<char>>>, new: Seq<char>, x: Seq<char>) -> bool {
    args.dom().contains(x) && x != new && !args[x].contains(new)
}

/// The state after the structure is updated for `new` (see
/// [`structure_updated`]).
pub open spec fn updated_state(s: MakeState, new: Seq<char>) -> MakeState {
    let g = group_rules(s.ext);
    let direct = Map::new(
        |x: Seq<char>| s.direct.dom().contains(x) || kv_get(g, x) is Some,
        |x: Seq<char>| if refreshed_m(s.direct, g, new, x) { group_args(rules_for(g, x)) } else { s.direct[x] },
    );
    let args = Map::new(
        |x: Seq<char>| kv_get(g, x) is Some,
        |x: Seq<char>| if kept_m(s.args, new, x) { s.args[x] } else { Set::new(|q: Seq<char>| reaches_m(direct, x, q)) },
    );
    MakeState { direct, args, ..s }
}

pub proof fn lemma_updated_state(old: FunctorsV, upd: FunctorsV, new: Seq<char>)
    requires
        structure_updated(old, upd, new),
    ensures
        abs_state(upd) == updated_state(abs_state(old), new),
        grouped(upd),
{
    let s = abs_state(old);
    let t = updated_state(s, new);
    let g = upd.rules_of;
    let a = abs_state(upd);
    assert forall|x: Seq<char>| #[trigger] a.direct.dom().contains(x) <==> t.direct.dom().contains(x) by {}
    assert forall|x: Seq<char>| #[trigger] a.direct.dom().contains(x) implies a.direct[x] =~= t.direct[x] by {
        lemma_dep_set(old.direct_args_of, x);
        assert(refreshed(old.direct_args_of, g, new, x) == refreshed_m(s.direct, g, new, x));
    }
    assert(a.direct =~= t.direct);
    assert forall|i: int| 0 <= i < g.len() implies #[trigger] g[i].0 == upd.args_of[i].0 by {}
    assert forall|x: Seq<char>| #[trigger] a.args.dom().contains(x) <==> t.args.dom().contains(x) by {
        crate::strmap::lemma_kv_index_keys(upd.args_of, g, x);
        crate::strmap::lemma_kv_index_keys(g, upd.args_of, x);
    }
    assert forall|x: Seq<char>| #[trigger] a.args.dom().contains(x) implies a.args[x] =~= t.args[x] by {
        crate::strmap::lemma_kv_index_keys(upd.args_of, g, x);
        crate::strmap::lemma_kv_index_keys(g, upd.args_of, x);
        let i = crate::strmap::kv_index(upd.args_of, x);
        assert(upd.args_of[i].0 == x && g[i].0 == x);
        assert(succ(upd.args_of, x) == upd.args_of[i].1);
        lemma_dep_set(old.args_of, x);
        assert(args_kept(old.args_of, new, x) == kept_m(s.args, new, x));
        assert forall|q: Seq<char>| #[trigger] a.args[x].contains(q) <==> t.args[x].contains(q) by {
            lemma_reaches_m(upd.direct_args_of, x, q);
        }
    }
    assert(a.args =~= t.args);
}

// ---------------------------------------------------------------------------
// A functor call over the sets
// ---------------------------------------------------------------------------

pub open spec fn takes_part_m(m: Map<Seq<char>, Set<Seq<char>>>, applicant: Seq<char>, keys: Seq<Seq<char>>, r: JVal) -> bool {
    rule_head_name(r) == applicant || exists|q: Seq<char>| #[trigger] dep_set(m, rule_head_name(r)).contains(q) && keys.contains(q)
}

pub open spec fn parts_m(m: Map<Seq<char>, Set<Seq<char>>>, applicant: Seq<char>, keys: Seq<Seq<char>>, rs: Seq<JVal>) -> Seq<JVal>
    decreases rs.len(),
{
    if rs.len() == 0 {
        seq![]
    } else if takes_part_m(m, applicant, keys, rs.last()) {
        parts_m(m, applicant, keys, rs.drop_last()).push(rs.last())
    } else {
        parts_m(m, applicant, keys, rs.drop_last())
    }
}

pub open spec fn relevant_args_s(args: Seq<(Seq<char>, Seq<char>)>, deps: Set<Seq<char>>) -> Seq<(Seq<char>, Seq<char>)>
    decreases args.len(),
{
    if args.len() == 0 {
        seq![]
    } else if deps.contains(args.last().0) {
        relevant_args_s(args.drop_last(), deps).push(args.last())
    } else {
        relevant_args_s(args.drop_last(), deps)
    }
}

pub open spec fn call_key_text_s(functor: Seq<char>, args: Seq<(Seq<char>, Seq<char>)>, deps: Set<Seq<char>>) -> Seq<char> {
    functor + "("@ + join(
        crate::type_inference::expression::entry_texts(crate::type_inference::expression::sort_entries(relevant_args_s(args, deps))),
        ", "@,
    ) + ")"@
}

pub open spec fn call_step_m(st: CallState, r: JVal, name: Seq<char>, applicant: Seq<char>, args: Seq<(Seq<char>, Seq<char>)>, m: Map<Seq<char>, Set<Seq<char>>>, count: nat) -> CallState {
    let rp = rule_head_name(r);
    if rp == applicant {
        CallState { renames: crate::strmap::sm_insert(st.renames, rp, name), copies: st.copies.push(r), annotate: set_add(st.annotate, rp), ..st }
    } else if crate::strmap::sm_get(args, rp) is Some {
        st
    } else {
        let key = call_key_text_s(rp, args, dep_set(m, rp));
        match crate::strmap::sm_get(st.cached, key) {
            Some(n) => CallState { renames: crate::strmap::sm_insert(st.renames, rp, n), copies: st.copies.push(r), ..st },
            None => {
                let nn = rp + "_f"@ + int_text(count as int);
                CallState {
                    renames: crate::strmap::sm_insert(st.renames, rp, nn),
                    copies: st.copies.push(r),
                    annotate: set_add(st.annotate, rp),
                    cached: crate::strmap::sm_insert(st.cached, key, nn),
                }
            },
        }
    }
}

pub open spec fn call_fold_m(rs: Seq<JVal>, st: CallState, name: Seq<char>, applicant: Seq<char>, args: Seq<(Seq<char>, Seq<char>)>, m: Map<Seq<char>, Set<Seq<char>>>, count: nat) -> CallState
    decreases rs.len(),
{
    if rs.len() == 0 {
        st
    } else {
        call_step_m(call_fold_m(rs.drop_last(), st, name, applicant, args, m, count), rs.last(), name, applicant, args, m, count)
    }
}

proof fn lemma_relevant_args(args: Seq<(Seq<char>, Seq<char>)>, deps: Seq<Seq<char>>)
    ensures
        relevant_args(args, deps) == relevant_args_s(args, deps.to_set()),
    decreases args.len(),
{
    if args.len() > 0 {
        lemma_relevant_args(args.drop_last(), deps);
    }
}

proof fn lemma_parts(a: Seq<(Seq<char>, Seq<Seq<char>>)>, applicant: Seq<char>, keys: Seq<Seq<char>>, rs: Seq<JVal>)
    ensures
        parts(a, applicant, keys, rs) == parts_m(sets_of(a), applicant, keys, rs),
    decreases rs.len(),
{
    if rs.len() > 0 {
        lemma_parts(a, applicant, keys, rs.drop_last());
        lemma_dep_set(a, rule_head_name(rs.last()));
        assert(takes_part(a, applicant, keys, rs.last()) == takes_part_m(sets_of(a), applicant, keys, rs.last()));
    }
}

proof fn lemma_call_fold(rs: Seq<JVal>, st: CallState, name: Seq<char>, applicant: Seq<char>, args: Seq<(Seq<char>, Seq<char>)>, a: Seq<(Seq<char>, Seq<Seq<char>>)>, count: nat)
    ensures
        call_fold(rs, st, name, applicant, args, a, count) == call_fold_m(rs, st, name, applicant, args, sets_of(a), count),
    decreases rs.len(),
{
    if rs.len() > 0 {
        lemma_call_fold(rs.drop_last(), st, name, applicant, args, a, count);
        let rp = rule_head_name(rs.last());
        lemma_dep_set(a, rp);
        lemma_relevant_args(args, succ(a, rp));
        assert(call_key_text(rp, args, succ(a, rp)) == call_key_text_s(rp, args, dep_set(sets_of(a), rp)));
    }
}

/// A call of `applicant` making `name` with the arguments `args`: the rules
/// of the applicant and of what it depends on that take part, in text order,
/// are copied and renamed (see [`crate::functors::Functors::call_functor`]),
/// then the structure is updated; the text of a refused annotation rule
/// otherwise.
pub open spec fn call_spec(s: MakeState, name: Seq<char>, applicant: Seq<char>, args: Seq<(Seq<char>, Seq<char>)>) -> Result<MakeState, Seq<char>> {
    let count = s.count + 1;
    let g = group_rules(s.ext);
    let all = rules_for(g, applicant) + dependency_groups(g, dep_set(s.args, applicant), applicant);
    let rs = sorted_by_text(parts_m(s.args, applicant, arg_names(args), all));
    let st = call_fold_m(rs, CallState { renames: args, copies: seq![], annotate: seq![], cached: s.cached }, name, applicant, args, s.args, count as nat);
    match collect_groups(g, st.annotate) {
        Err(t) => Err(t),
        Ok(anns) => Ok(updated_state(
            MakeState {
                ext: s.ext + (st.copies + anns).map_values(|x: JVal| renamed_all(x, st.renames)),
                cached: st.cached,
                count: count as nat,
                ..s
            },
            name,
        )),
    }
}

/// What a call gathers, over the dependency lists of `f0` (see
/// [`crate::functors::Functors::call_functor`]).
pub open spec fn call_st(f0: FunctorsV, name: Seq<char>, applicant: Seq<char>, args: Seq<(Seq<char>, Seq<char>)>) -> CallState {
    let count = (f0.creation_count + 1) as nat;
    let all = rules_for(f0.rules_of, applicant) + dependency_groups(f0.rules_of, succ(f0.args_of, applicant).to_set(), applicant);
    let rs = sorted_by_text(parts(f0.args_of, applicant, arg_names(args), all));
    call_fold(rs, CallState { renames: args, copies: seq![], annotate: seq![], cached: f0.cached }, name, applicant, args, f0.args_of, count)
}

proof fn lemma_call_st(f0: FunctorsV, name: Seq<char>, applicant: Seq<char>, args: Seq<(Seq<char>, Seq<char>)>)
    requires
        grouped(f0),
    ensures
        ({
            let s = abs_state(f0);
            let g = group_rules(s.ext);
            let all = rules_for(g, applicant) + dependency_groups(g, dep_set(s.args, applicant), applicant);
            let rs = sorted_by_text(parts_m(s.args, applicant, arg_names(args), all));
            call_fold_m(rs, CallState { renames: args, copies: seq![], annotate: seq![], cached: s.cached }, name, applicant, args, s.args, (s.count + 1) as nat)
                == call_st(f0, name, applicant, args)
        }),
{
    let count = (f0.creation_count + 1) as nat;
    lemma_dep_set(f0.args_of, applicant);
    let all = rules_for(f0.rules_of, applicant) + dependency_groups(f0.rules_of, succ(f0.args_of, applicant).to_set(), applicant);
    lemma_parts(f0.args_of, applicant, arg_names(args), all);
    let rs = sorted_by_text(parts(f0.args_of, applicant, arg_names(args), all));
    lemma_call_fold(rs, CallState { renames: args, copies: seq![], annotate: seq![], cached: f0.cached }, name, applicant, args, f0.args_of, count);
}

/// A refused call, as [`crate::functors::Functors::call_functor`] states it,
/// is one as [`call_spec`] states it.
pub proof fn lemma_call_spec_err(f0: FunctorsV, name: Seq<char>, applicant: Seq<char>, args: Seq<(Seq<char>, Seq<char>)>, t: Seq<char>)
    requires
        grouped(f0),
        collect_groups(f0.rules_of, call_st(f0, name, applicant, args).annotate) == Err::<Seq<JVal>, Seq<char>>(t),
    ensures
        call_spec(abs_state(f0), name, applicant, args) == Err::<MakeState, Seq<char>>(t),
{
    lemma_call_st(f0, name, applicant, args);
}

/// A call carried out, as [`crate::functors::Functors::call_functor`] states
/// it, is one as [`call_spec`] states it.
pub proof fn lemma_call_spec_ok(f0: FunctorsV, name: Seq<char>, applicant: Seq<char>, args: Seq<(Seq<char>, Seq<char>)>, anns: Seq<JVal>, upd: FunctorsV)
    requires
        grouped(f0),
        collect_groups(f0.rules_of, call_st(f0, name, applicant, args).annotate) == Ok::<Seq<JVal>, Seq<char>>(anns),
        ({
            let st = call_st(f0, name, applicant, args);
            structure_updated(
                FunctorsV {
                    extended_rules: f0.extended_rules + (st.copies + anns).map_values(|x: JVal| renamed_all(x, st.renames)),
                    creation_count: (f0.creation_count + 1) as nat,
                    cached: st.cached,
                    ..f0
                },
                upd,
                name,
            )
        }),
    ensures
        call_spec(abs_state(f0), name, applicant, args) == Ok::<MakeState, Seq<char>>(abs_state(upd)),
        grouped(upd),
{
    lemma_call_st(f0, name, applicant, args);
    let st = call_st(f0, name, applicant, args);
    let pre = FunctorsV {
        extended_rules: f0.extended_rules + (st.copies + anns).map_values(|x: JVal| renamed_all(x, st.renames)),
        creation_count: (f0.creation_count + 1) as nat,
        cached: st.cached,
        ..f0
    };
    lemma_updated_state(pre, upd, name);
    let s = abs_state(f0);
    assert(abs_state(pre) == MakeState {
        ext: s.ext + (st.copies + anns).map_values(|x: JVal| renamed_all(x, st.renames)),
        cached: st.cached,
        count: (s.count + 1) as nat,
        ..s
    });
}

// ---------------------------------------------------------------------------
// Rounds of making
// ---------------------------------------------------------------------------

/// Whether an instruction has to wait while `pending` are to be made: its
/// applicant is pending, or a predicate the applicant depends on, or a
/// predicate it passes as an argument.
pub open spec fn waits_m(m: Map<Seq<char>, Set<Seq<char>>>, pending: Seq<Seq<char>>, ins: (Seq<char>, Seq<char>, Seq<(Seq<char>, Seq<char>)>)) -> bool {
    ||| pending.contains(ins.1)
    ||| exists|q: Seq<char>| #[trigger] dep_set(m, ins.1).contains(q) && pending.contains(q)
    ||| exists|k: int| 0 <= k < ins.2.len() && pending.contains(#[trigger] ins.2[k].1)
}

/// One round over the instructions: each whose name is pending and that
/// does not wait is carried out, its name leaving the pending ones; with
/// whether any was; or the text of a refused annotation rule.
pub open spec fn make_pass(
    s: MakeState,
    pending: Seq<Seq<char>>,
    built: bool,
    ps: Seq<(Seq<char>, Seq<char>, Seq<(Seq<char>, Seq<char>)>)>,
) -> Result<(MakeState, Seq<Seq<char>>, bool), Seq<char>>
    decreases ps.len(),
{
    if ps.len() == 0 {
        Ok((s, pending, built))
    } else {
        let ins = ps[0];
        if pending.contains(ins.0) && !waits_m(s.args, pending, ins) {
            match call_spec(s, ins.0, ins.1, ins.2) {
                Err(t) => Err(t),
                Ok(s2) => make_pass(s2, crate::concertina::remove_name(pending, ins.0), true, ps.drop_first()),
            }
        } else {
            make_pass(s, pending, built, ps.drop_first())
        }
    }
}

/// Rounds until nothing is pending: the state reached, or the message and
/// rule text of the error.
pub open spec fn make_rounds(
    s: MakeState,
    pending: Seq<Seq<char>>,
    ps: Seq<(Seq<char>, Seq<char>, Seq<(Seq<char>, Seq<char>)>)>,
) -> Result<MakeState, (Seq<char>, Seq<char>)>
    decreases pending.len(),
{
    if pending.len() == 0 {
        Ok(s)
    } else {
        match make_pass(s, pending, false, ps) {
            Err(t) => Err((annotation_first_arg_message(), t)),
            Ok(r) => if r.2 && r.1.len() < pending.len() {
                make_rounds(r.0, r.1, ps)
            } else {
                Err((stuck_message(pending), ""@))
            },
        }
    }
}

/// What carrying out the instructions `instrs` makes of the state `s0`: the
/// instructions are read, the names made round after round, the rules proven
/// empty removed and the rules of the constants' functions added; or the
/// message and rule text of the error.
pub open spec fn make_outcome(s0: MakeState, instrs: Seq<(Seq<char>, JVal)>) -> Result<MakeState, (Seq<char>, Seq<char>)> {
    match read_instructions(instrs, s0.constants) {
        Err(p) => Err((bad_make_message(p), ""@)),
        Ok(read) => {
            let s1 = MakeState { constants: read.1, ..s0 };
            match make_rounds(s1, made_names(read.0), read.0) {
                Err(e) => Err(e),
                Ok(s2) => {
                    let nul = nullify_all(s2.ext, proven_nil(s2.ext));
                    match nul.1 {
                        Some(p) => Err((empty_predicate_message(p), p)),
                        None => {
                            let s3 = updated_state(MakeState { ext: nul.0, ..s2 }, "nil"@);
                            Ok(MakeState { ext: s3.ext + constant_rules(read.1), ..s3 })
                        },
                    }
                },
            }
        },
    }
}

/// The state of the functors of `rules`.
pub open spec fn initial_state(rules: Seq<JVal>) -> MakeState {
    let g = group_rules(rules);
    let direct = Map::new(|x: Seq<char>| kv_get(g, x) is Some, |x: Seq<char>| group_args(rules_for(g, x)));
    MakeState {
        ext: rules,
        direct,
        args: Map::new(|x: Seq<char>| kv_get(g, x) is Some, |x: Seq<char>| Set::new(|q: Seq<char>| reaches_m(direct, x, q))),
        cached: seq![],
        count: 0,
        constants: seq![],
    }
}


/// The functors of `rules` as [`crate::functors::Functors::new`] states them
/// are in the state [`initial_state`].
pub proof fn lemma_initial_state(f: FunctorsV, rules: Seq<JVal>)
    requires
        f.extended_rules == rules,
        f.rules_of == group_rules(rules),
        f.direct_args_of.len() == f.rules_of.len(),
        f.args_of.len() == f.rules_of.len(),
        f.constants.len() == 0,
        f.creation_count == 0,
        f.cached.len() == 0,
        forall|i: int| 0 <= i < f.rules_of.len() ==> {
            &&& (#[trigger] f.direct_args_of[i]).0 == f.rules_of[i].0
            &&& f.args_of[i].0 == f.rules_of[i].0
        },
        forall|i: int, n: Seq<char>| 0 <= i < f.rules_of.len() ==> (#[trigger] f.direct_args_of[i].1.contains(n)
            <==> group_args(f.rules_of[i].1).contains(n)),
        forall|i: int, q: Seq<char>| 0 <= i < f.rules_of.len() ==> (#[trigger] f.args_of[i].1.contains(q)
            <==> reaches(f.direct_args_of, f.rules_of[i].0, q)),
    ensures
        abs_state(f) == initial_state(rules),
        grouped(f),
{
    let g = f.rules_of;
    let d = f.direct_args_of;
    let a = f.args_of;
    let t = initial_state(rules);
    assert forall|i: int| 0 <= i < g.len() implies #[trigger] d[i].0 == g[i].0 && #[trigger] a[i].0 == g[i].0 by {
        assert(d[i].0 == g[i].0);
    }
    assert forall|i: int| 0 <= i < g.len() implies #[trigger] g[i].0 == d[i].0 by {}
    assert forall|i: int| 0 <= i < g.len() implies #[trigger] g[i].0 == a[i].0 by {
        assert(d[i].0 == g[i].0);
    }
    assert forall|x: Seq<char>| #[trigger] sets_of(d).dom().contains(x) <==> t.direct.dom().contains(x) by {
        crate::strmap::lemma_kv_index_keys(d, g, x);
        crate::strmap::lemma_kv_index_keys(g, d, x);
    }
    assert forall|x: Seq<char>| #[trigger] sets_of(d).dom().contains(x) implies sets_of(d)[x] =~= t.direct[x] by {
        crate::strmap::lemma_kv_index_keys(d, g, x);
        crate::strmap::lemma_kv_index_keys(g, d, x);
        let i = crate::strmap::kv_index(d, x);
        assert(succ(d, x) == d[i].1);
        assert(rules_for(g, x) == g[i].1);
        assert forall|n: Seq<char>| #[trigger] sets_of(d)[x].contains(n) <==> t.direct[x].contains(n) by {
            assert(d[i].1.contains(n) <==> group_args(g[i].1).contains(n));
        }
    }
    assert(sets_of(d) =~= t.direct);
    assert forall|x: Seq<char>| #[trigger] sets_of(a).dom().contains(x) <==> t.args.dom().contains(x) by {
        crate::strmap::lemma_kv_index_keys(a, g, x);
        crate::strmap::lemma_kv_index_keys(g, a, x);
    }
    assert forall|x: Seq<char>| #[trigger] sets_of(a).dom().contains(x) implies sets_of(a)[x] =~= t.args[x] by {
        crate::strmap::lemma_kv_index_keys(a, g, x);
        crate::strmap::lemma_kv_index_keys(g, a, x);
        let i = crate::strmap::kv_index(a, x);
        assert(succ(a, x) == a[i].1);
        assert forall|q: Seq<char>| #[trigger] sets_of(a)[x].contains(q) <==> t.args[x].contains(q) by {
            assert(a[i].1.contains(q) <==> reaches(d, g[i].0, q));
            lemma_reaches_m(d, x, q);
        }
    }
    assert(sets_of(a) =~= t.args);
    assert(f.cached =~= Seq::<(Seq<char>, Seq<char>)>::empty());
    assert(f.constants =~= Seq::<(Seq<char>, Seq<char>)>::empty());
}
} // verus!
