//! The execution plan of a program's predicates: how the predicates of each
//! iteration are grouped, and what each predicate must wait for.

use vstd::prelude::*;
use crate::strmap::{NameSet, StrMap, names_view, set_add, sm_get, sm_insert, lemma_sm_insert_get};
use crate::annotations::{IterationDef, IterationV};
use crate::text::concat2;

verus! {

/// A predicate to compute, with the predicates it needs first.
#[derive(Debug)]
pub struct Action {
    pub name: String,
    pub action_type: ActionType,
    pub requires: Vec<String>,
    pub launcher: Launcher,
}

/// What an action stands for: data given from outside, a predicate computed
/// on the way, or one whose result is asked for.
#[derive(Debug, Clone, Copy, PartialEq, Eq)]
pub enum ActionType {
    Data,
    Intermediate,
    Final,
}

/// How an action is carried out: not at all (`Idle`), or by a query.
#[derive(Debug)]
pub enum Launcher {
    Idle,
    Query {
        predicate: String,
        engine: String,
        sql: String,
    },
}

pub open spec fn actions_view(v: Seq<Action>) -> Seq<(Seq<char>, Seq<Seq<char>>)> {
    v.map_values(|a: Action| (a.name@, names_view(a.requires@)))
}

pub open spec fn iterations_view(v: Seq<(String, IterationDef)>) -> Seq<(Seq<char>, IterationV)> {
    v.map_values(|e: (String, IterationDef)| (e.0@, e.1.model()))
}

/// Whether no name occurs twice.
pub open spec fn names_distinct<V>(es: Seq<(Seq<char>, V)>) -> bool {
    forall|i: int, j: int| 0 <= i < j < es.len() ==> es[i].0 != es[j].0
}

/// The halves of the iterations, in order: for each, `<name>_upper` with the
/// first half of its predicates, then `<name>_lower` with the second.
pub open spec fn halves(its: Seq<(Seq<char>, IterationV)>) -> Seq<(Seq<char>, Seq<Seq<char>>)>
    decreases its.len(),
{
    if its.len() == 0 {
        seq![]
    } else {
        let (name, it) = its.last();
        let ps = it.predicates;
        let mid = ps.len() / 2;
        halves(its.drop_last()) + seq![(name + "_upper"@, ps.take(mid as int)), (name + "_lower"@, ps.skip(mid as int))]
    }
}

/// The last half holding `p`, by name.
pub open spec fn last_half(hs: Seq<(Seq<char>, Seq<Seq<char>>)>, p: Seq<char>) -> Option<Seq<char>>
    decreases hs.len(),
{
    if hs.len() == 0 {
        None
    } else if hs.last().1.contains(p) {
        Some(hs.last().0)
    } else {
        last_half(hs.drop_last(), p)
    }
}

/// The last iteration listing action `p`, by name; none for a predicate that
/// is no action.
pub open spec fn last_iteration(its: Seq<(Seq<char>, IterationV)>, p: Seq<char>) -> Option<Seq<char>>
    decreases its.len(),
{
    if its.len() == 0 {
        None
    } else if its.last().1.predicates.contains(p) {
        Some(its.last().0)
    } else {
        last_iteration(its.drop_last(), p)
    }
}

/// Whether action `p` exists.
pub open spec fn is_action(acts: Seq<(Seq<char>, Seq<Seq<char>>)>, p: Seq<char>) -> bool {
    exists|j: int| 0 <= j < acts.len() && #[trigger] acts[j].0 == p
}

/// What half `h` needs: what its actions need.
pub open spec fn half_needs(acts: Seq<(Seq<char>, Seq<Seq<char>>)>, hs: Seq<(Seq<char>, Seq<Seq<char>>)>, h: Seq<char>, q: Seq<char>) -> bool {
    exists|j: int| 0 <= j < acts.len() && last_half(hs, #[trigger] acts[j].0) == Some(h) && acts[j].1.contains(q)
}

/// What action `a` (needing `own`) waits for: what it needs, and what each
/// half holding it needs from outside that half, so a half runs only after
/// everything its actions depend on.
pub open spec fn waits_for(acts: Seq<(Seq<char>, Seq<Seq<char>>)>, hs: Seq<(Seq<char>, Seq<Seq<char>>)>, a: Seq<char>, own: Seq<Seq<char>>, q: Seq<char>) -> bool {
    own.contains(q) || exists|h: int| 0 <= h < hs.len() && #[trigger] hs[h].1.contains(a) && half_needs(acts, hs, hs[h].0, q) && !hs[h].1.contains(q)
}

/// The maps the scheduler keeps for the iterations.
pub struct IterationMaps {
    /// Each iteration with its repetitions.
    pub iteration_repetitions: Vec<(String, i64)>,
    /// Each iteration with its stop signal.
    pub iteration_stop_signal: Vec<(String, Option<String>)>,
    /// Each iteration with its predicates.
    pub iteration_actions: Vec<(String, NameSet)>,
    /// Each action with the iteration it belongs to.
    pub action_iteration: StrMap,
    /// Each half of an iteration with its predicates.
    pub half_iteration_actions: Vec<(String, NameSet)>,
    /// Each predicate of a half with that half.
    pub action_half_iteration: StrMap,
    /// Each action with what it waits for.
    pub action_requires: Vec<(String, NameSet)>,
}

fn names_set(v: &Vec<String>) -> (r: NameSet)
    ensures
        forall|q: Seq<char>| #[trigger] r@.contains(q) <==> names_view(v@).contains(q),
{
    let mut r = NameSet::new();
    let mut i: usize = 0;
    while i < v.len()
        invariant
            i <= v.len(),
            forall|q: Seq<char>| #[trigger] r@.contains(q) <==> names_view(v@).take(i as int).contains(q),
        decreases v.len() - i,
    {
        let ghost before = r@;
        let ghost nv = v@[i as int]@;
        r.insert(v[i].clone());
        proof {
            let t0 = names_view(v@).take(i as int);
            let t1 = names_view(v@).take(i + 1);
            assert(t1 =~= t0.push(nv));
            assert forall|q: Seq<char>| #[trigger] r@.contains(q) <==> t1.contains(q) by {
                if !before.contains(nv) {
                    assert(r@ == before.push(nv));
                    if r@.contains(q) && q != nv {
                        let k = choose|k: int| 0 <= k < r@.len() && r@[k] == q;
                        assert(before[k] == q);
                    }
                    if before.contains(q) {
                        let k = choose|k: int| 0 <= k < before.len() && before[k] == q;
                        assert(r@[k] == q);
                    }
                    if q == nv {
                        assert(r@[before.len() as int] == q);
                    }
                }
                if t1.contains(q) && q != nv {
                    let k = choose|k: int| 0 <= k < t1.len() && t1[k] == q;
                    assert(t0[k] == q);
                }
                if t0.contains(q) {
                    let k = choose|k: int| 0 <= k < t0.len() && t0[k] == q;
                    assert(t1[k] == q);
                }
                if q == nv {
                    assert(t1[i as int] == q);
                }
            }
        }
        i = i + 1;
    }
    assert(names_view(v@).take(i as int) =~= names_view(v@));
    r
}

/// The names of `v` from `lo` to `hi`, as a set.
fn names_range(v: &Vec<String>, lo: usize, hi: usize) -> (r: NameSet)
    requires
        lo <= hi <= v.len(),
    ensures
        forall|q: Seq<char>| #[trigger] r@.contains(q) <==> names_view(v@).subrange(lo as int, hi as int).contains(q),
{
    let mut part: Vec<String> = Vec::new();
    let mut i: usize = lo;
    while i < hi
        invariant
            lo <= i <= hi <= v.len(),
            names_view(part@) == names_view(v@).subrange(lo as int, i as int),
        decreases hi - i,
    {
        let ghost before = part@;
        part.push(v[i].clone());
        assert(names_view(part@) =~= names_view(before).push(v@[i as int]@));
        assert(names_view(v@).subrange(lo as int, i + 1) =~= names_view(v@).subrange(lo as int, i as int).push(v@[i as int]@));
        i = i + 1;
    }
    names_set(&part)
}

proof fn lemma_set_add_contains(s: Seq<Seq<char>>, n: Seq<char>)
    ensures
        forall|m: Seq<char>| #[trigger] set_add(s, n).contains(m) <==> (s.contains(m) || m == n),
{
    assert forall|m: Seq<char>| #[trigger] set_add(s, n).contains(m) <==> (s.contains(m) || m == n) by {
        if !s.contains(n) {
            let t = s.push(n);
            assert(t[s.len() as int] == n);
            if s.contains(m) {
                let k = choose|k: int| 0 <= k < s.len() && s[k] == m;
                assert(t[k] == m);
            }
            if t.contains(m) {
                let k = choose|k: int| 0 <= k < t.len() && t[k] == m;
                if k < s.len() {
                    assert(s[k] == m);
                }
            }
        }
    }
}

/// Add to `r` the names of `src` that `except` lacks.
fn union_into(r: &mut NameSet, src: &NameSet, except: &NameSet)
    ensures
        forall|q: Seq<char>| #[trigger] final(r)@.contains(q) <==> (old(r)@.contains(q) || (src@.contains(q) && !except@.contains(q))),
{
    let ghost r0 = r@;
    let mut i: usize = 0;
    while i < src.names.len()
        invariant
            i <= src@.len(),
            src@.len() == src.names@.len(),
            forall|q: Seq<char>| #[trigger] r@.contains(q) <==> (r0.contains(q) || (src@.take(i as int).contains(q) && !except@.contains(q))),
        decreases src.names.len() - i,
    {
        let ghost before = r@;
        let ghost nv = src@[i as int];
        assert(src.names@[i as int]@ == nv);
        if !except.contains(src.names[i].as_str()) {
            r.insert(src.names[i].clone());
            proof {
                lemma_set_add_contains(before, nv);
            }
        }
        proof {
            let t0 = src@.take(i as int);
            let t1 = src@.take(i + 1);
            assert(t1 =~= t0.push(nv));
            assert forall|q: Seq<char>| #[trigger] r@.contains(q) <==> (r0.contains(q) || (t1.contains(q) && !except@.contains(q))) by {
                if t1.contains(q) && q != nv {
                    let k = choose|k: int| 0 <= k < t1.len() && t1[k] == q;
                    assert(t0[k] == q);
                }
                if t0.contains(q) {
                    let k = choose|k: int| 0 <= k < t0.len() && t0[k] == q;
                    assert(t1[k] == q);
                }
                if q == nv {
                    assert(t1[i as int] == q);
                }
            }
        }
        i = i + 1;
    }
    assert(src@.take(i as int) =~= src@);
}

/// Build the maps the scheduler keeps for the iterations: each iteration's
/// repetitions, stop signal and predicates; each action's iteration (the
/// last listing it); the halves of each iteration (its predicates split in
/// the middle) and each predicate's half (the last holding it); and what
/// each action waits for: what it needs, and what any half holding it needs
/// from outside that half.
pub fn understand_iterations(actions: &Vec<Action>, iterations: &Vec<(String, IterationDef)>) -> (r: IterationMaps)
    requires
        forall|i: int| 0 <= i < iterations@.len() ==> (#[trigger] iterations@[i]).1.predicates@.len() % 2 == 0,
    ensures
        ({
            let acts = actions_view(actions@);
            let its = iterations_view(iterations@);
            let hs = halves(its);
            &&& r.iteration_repetitions@.len() == its.len()
            &&& forall|i: int| 0 <= i < its.len() ==> (#[trigger] r.iteration_repetitions@[i]).0@ == its[i].0 && r.iteration_repetitions@[i].1 == its[i].1.repetitions
            &&& r.iteration_stop_signal@.len() == its.len()
            &&& forall|i: int| 0 <= i < its.len() ==> (#[trigger] r.iteration_stop_signal@[i]).0@ == its[i].0
                && crate::annotations::opt_text(r.iteration_stop_signal@[i].1) == its[i].1.stop_signal
            &&& r.iteration_actions@.len() == its.len()
            &&& forall|i: int| 0 <= i < its.len() ==> (#[trigger] r.iteration_actions@[i]).0@ == its[i].0
            &&& forall|i: int, q: Seq<char>| 0 <= i < its.len() ==> (#[trigger] r.iteration_actions@[i].1@.contains(q) <==> its[i].1.predicates.contains(q))
            &&& forall|p: Seq<char>| #[trigger] sm_get(r.action_iteration@, p) == if is_action(acts, p) { last_iteration(its, p) } else { None }
            &&& r.half_iteration_actions@.len() == hs.len()
            &&& forall|h: int| 0 <= h < hs.len() ==> (#[trigger] r.half_iteration_actions@[h]).0@ == hs[h].0
            &&& forall|h: int, q: Seq<char>| 0 <= h < hs.len() ==> (#[trigger] r.half_iteration_actions@[h].1@.contains(q) <==> hs[h].1.contains(q))
            &&& forall|p: Seq<char>| #[trigger] sm_get(r.action_half_iteration@, p) == last_half(hs, p)
            &&& r.action_requires@.len() == acts.len()
            &&& forall|i: int| 0 <= i < acts.len() ==> (#[trigger] r.action_requires@[i]).0@ == acts[i].0
            &&& forall|i: int, q: Seq<char>| 0 <= i < acts.len() ==> (#[trigger] r.action_requires@[i].1@.contains(q) <==> waits_for(acts, hs, acts[i].0, acts[i].1, q))
        }),
{
    let ghost acts = actions_view(actions@);
    let ghost its = iterations_view(iterations@);
    // Per iteration.
    let mut reps: Vec<(String, i64)> = Vec::new();
    let mut stops: Vec<(String, Option<String>)> = Vec::new();
    let mut members: Vec<(String, NameSet)> = Vec::new();
    let mut action_iteration = StrMap::new();
    let mut hv: Vec<(String, NameSet)> = Vec::new();
    let mut k: usize = 0;
    assert(its.take(0) =~= Seq::<(Seq<char>, IterationV)>::empty());
    while k < iterations.len()
        invariant
            k <= iterations.len(),
            its == iterations_view(iterations@),
            acts == actions_view(actions@),
            forall|i: int| 0 <= i < iterations@.len() ==> (#[trigger] iterations@[i]).1.predicates@.len() % 2 == 0,
            reps@.len() == k,
            stops@.len() == k,
            members@.len() == k,
            forall|i: int| 0 <= i < k ==> (#[trigger] reps@[i]).0@ == its[i].0 && reps@[i].1 == its[i].1.repetitions,
            forall|i: int| 0 <= i < k ==> (#[trigger] stops@[i]).0@ == its[i].0
                && crate::annotations::opt_text(stops@[i].1) == its[i].1.stop_signal,
            forall|i: int| 0 <= i < k ==> (#[trigger] members@[i]).0@ == its[i].0,
            forall|i: int, q: Seq<char>| 0 <= i < k ==> (#[trigger] members@[i].1@.contains(q) <==> its[i].1.predicates.contains(q)),
            forall|p: Seq<char>| #[trigger] sm_get(action_iteration@, p) == if is_action(acts, p) { last_iteration(its.take(k as int), p) } else { None },
            hv@.len() == halves(its.take(k as int)).len(),
            forall|h: int| 0 <= h < hv@.len() ==> (#[trigger] hv@[h]).0@ == halves(its.take(k as int))[h].0,
            forall|h: int, q: Seq<char>| 0 <= h < hv@.len() ==> (#[trigger] hv@[h].1@.contains(q) <==> halves(its.take(k as int))[h].1.contains(q)),
        decreases iterations.len() - k,
    {
        let name = &iterations[k].0;
        let it = &iterations[k].1;
        let ghost kv = its[k as int];
        assert(kv.0 == name@ && kv.1 == it.model());
        let ghost rb = reps@;
        let ghost sb = stops@;
        let ghost mb = members@;
        reps.push((name.clone(), it.repetitions));
        let stop = match &it.stop_signal {
            Some(s) => Some(s.clone()),
            None => None,
        };
        stops.push((name.clone(), stop));
        let set = names_set(&it.predicates);
        members.push((name.clone(), set));
        proof {
            assert forall|i: int| 0 <= i < k + 1 implies (#[trigger] reps@[i]).0@ == its[i].0 && reps@[i].1 == its[i].1.repetitions by {
                if i < k { assert(reps@[i] == rb[i]); }
            }
            assert forall|i: int| 0 <= i < k + 1 implies (#[trigger] stops@[i]).0@ == its[i].0
                && crate::annotations::opt_text(stops@[i].1) == its[i].1.stop_signal by {
                if i < k { assert(stops@[i] == sb[i]); }
            }
            assert forall|i: int| 0 <= i < k + 1 implies (#[trigger] members@[i]).0@ == its[i].0 by {
                if i < k { assert(members@[i] == mb[i]); }
            }
            assert forall|i: int, q: Seq<char>| 0 <= i < k + 1 implies (#[trigger] members@[i].1@.contains(q) <==> its[i].1.predicates.contains(q)) by {
                if i < k { assert(members@[i] == mb[i]); }
            }
        }
        // The actions of this iteration.
        let ghost ai0 = action_iteration@;
        let mut j: usize = 0;
        let ghost ps = names_view(it.predicates@);
        assert(ps == kv.1.predicates);
        while j < it.predicates.len()
            invariant
                j <= it.predicates.len(),
                ps == names_view(it.predicates@),
                acts == actions_view(actions@),
                forall|p: Seq<char>| #[trigger] sm_get(action_iteration@, p) == if is_action(acts, p) && ps.take(j as int).contains(p) { Some(name@) } else { sm_get(ai0, p) },
            decreases it.predicates.len() - j,
        {
            let p = &it.predicates[j];
            let ghost pv = p@;
            assert(pv == ps[j as int]);
            let mut found = false;
            let mut a: usize = 0;
            while a < actions.len()
                invariant
                    a <= actions.len(),
                    acts == actions_view(actions@),
                    pv == p@,
                    found <==> exists|x: int| 0 <= x < a && #[trigger] acts[x].0 == pv,
                decreases actions.len() - a,
            {
                assert(acts[a as int].0 == actions@[a as int].name@);
                if crate::text::str_eq(actions[a].name.as_str(), p.as_str()) {
                    found = true;
                }
                a = a + 1;
            }
            assert(found == is_action(acts, pv));
            let ghost before = action_iteration@;
            if found {
                action_iteration.insert(p.clone(), name.clone());
            }
            proof {
                let t0 = ps.take(j as int);
                let t1 = ps.take(j + 1);
                assert(t1 =~= t0.push(pv));
                assert forall|q: Seq<char>| #[trigger] sm_get(action_iteration@, q) == if is_action(acts, q) && t1.contains(q) { Some(name@) } else { sm_get(ai0, q) } by {
                    if found {
                        lemma_sm_insert_get(before, pv, name@, q);
                    }
                    if t1.contains(q) && q != pv {
                        let x = choose|x: int| 0 <= x < t1.len() && t1[x] == q;
                        assert(t0[x] == q);
                    }
                    if t0.contains(q) {
                        let x = choose|x: int| 0 <= x < t0.len() && t0[x] == q;
                        assert(t1[x] == q);
                    }
                    if q == pv {
                        assert(t1[j as int] == q);
                    }
                }
            }
            j = j + 1;
        }
        assert(ps.take(j as int) =~= ps);
        // The two halves of this iteration.
        let n = it.predicates.len();
        let mid = n / 2;
        let upper = names_range(&it.predicates, 0, mid);
        let lower = names_range(&it.predicates, mid, n);
        let ghost hb = hv@;
        hv.push((concat2(name.as_str(), "_upper"), upper));
        hv.push((concat2(name.as_str(), "_lower"), lower));
        proof {
            let t0 = its.take(k as int);
            let t1 = its.take(k + 1);
            assert(t1.drop_last() =~= t0);
            assert(t1.last() == kv);
            let h1 = halves(t1);
            assert(h1 == halves(t0) + seq![(name@ + "_upper"@, ps.take(mid as int)), (name@ + "_lower"@, ps.skip(mid as int))]);
            assert(ps.subrange(0, mid as int) =~= ps.take(mid as int));
            assert(ps.subrange(mid as int, n as int) =~= ps.skip(mid as int));
            assert forall|h: int| 0 <= h < hv@.len() implies (#[trigger] hv@[h]).0@ == h1[h].0 by {
                if h < hb.len() { assert(hv@[h] == hb[h]); }
            }
            assert forall|h: int, q: Seq<char>| 0 <= h < hv@.len() implies (#[trigger] hv@[h].1@.contains(q) <==> h1[h].1.contains(q)) by {
                if h < hb.len() { assert(hv@[h] == hb[h]); }
            }
            assert forall|p: Seq<char>| #[trigger] sm_get(action_iteration@, p) == if is_action(acts, p) { last_iteration(t1, p) } else { None } by {
            }
        }
        k = k + 1;
    }
    assert(its.take(k as int) =~= its);
    let ghost hs = halves(its);
    // Each predicate's half.
    let mut ahi = StrMap::new();
    let mut h: usize = 0;
    assert(hs.take(0) =~= Seq::<(Seq<char>, Seq<Seq<char>>)>::empty());
    while h < hv.len()
        invariant
            h <= hv@.len(),
            hv@.len() == hs.len(),
            forall|x: int| 0 <= x < hv@.len() ==> (#[trigger] hv@[x]).0@ == hs[x].0,
            forall|x: int, q: Seq<char>| 0 <= x < hv@.len() ==> (#[trigger] hv@[x].1@.contains(q) <==> hs[x].1.contains(q)),
            forall|p: Seq<char>| #[trigger] sm_get(ahi@, p) == last_half(hs.take(h as int), p),
        decreases hv.len() - h,
    {
        let hname = &hv[h].0;
        let set = &hv[h].1;
        let ghost a0 = ahi@;
        let mut j: usize = 0;
        while j < set.names.len()
            invariant
                j <= set@.len(),
                set@.len() == set.names@.len(),
                forall|p: Seq<char>| #[trigger] sm_get(ahi@, p) == if set@.take(j as int).contains(p) { Some(hname@) } else { sm_get(a0, p) },
            decreases set.names.len() - j,
        {
            let ghost before = ahi@;
            let ghost pv = set@[j as int];
            assert(set.names@[j as int]@ == pv);
            ahi.insert(set.names[j].clone(), hname.clone());
            proof {
                let t0 = set@.take(j as int);
                let t1 = set@.take(j + 1);
                assert(t1 =~= t0.push(pv));
                assert forall|q: Seq<char>| #[trigger] sm_get(ahi@, q) == if t1.contains(q) { Some(hname@) } else { sm_get(a0, q) } by {
                    lemma_sm_insert_get(before, pv, hname@, q);
                    if t1.contains(q) && q != pv {
                        let x = choose|x: int| 0 <= x < t1.len() && t1[x] == q;
                        assert(t0[x] == q);
                    }
                    if t0.contains(q) {
                        let x = choose|x: int| 0 <= x < t0.len() && t0[x] == q;
                        assert(t1[x] == q);
                    }
                    if q == pv {
                        assert(t1[j as int] == q);
                    }
                }
            }
            j = j + 1;
        }
        proof {
            assert(set@.take(j as int) =~= set@);
            let t1 = hs.take(h + 1);
            assert(t1.drop_last() =~= hs.take(h as int));
            assert(t1.last() == hs[h as int]);
            assert forall|p: Seq<char>| #[trigger] sm_get(ahi@, p) == last_half(t1, p) by {
                assert(set@.contains(p) <==> hs[h as int].1.contains(p));
            }
        }
        h = h + 1;
    }
    assert(hs.take(h as int) =~= hs);
    // What each half needs.
    let mut needs: Vec<NameSet> = Vec::new();
    let mut h: usize = 0;
    while h < hv.len()
        invariant
            h <= hv@.len(),
            hv@.len() == hs.len(),
            acts == actions_view(actions@),
            forall|x: int| 0 <= x < hv@.len() ==> (#[trigger] hv@[x]).0@ == hs[x].0,
            forall|p: Seq<char>| #[trigger] sm_get(ahi@, p) == last_half(hs, p),
            needs@.len() == h,
            forall|x: int, q: Seq<char>| 0 <= x < h ==> (#[trigger] needs@[x]@.contains(q) <==> half_needs(acts, hs, hs[x].0, q)),
        decreases hv.len() - h,
    {
        let hname = &hv[h].0;
        let mut r = NameSet::new();
        let empty = NameSet::new();
        let mut a: usize = 0;
        while a < actions.len()
            invariant
                a <= actions.len(),
                acts == actions_view(actions@),
                forall|p: Seq<char>| #[trigger] sm_get(ahi@, p) == last_half(hs, p),
                empty@.len() == 0,
                forall|q: Seq<char>| #[trigger] r@.contains(q) <==>
                    exists|j: int| 0 <= j < a && last_half(hs, #[trigger] acts[j].0) == Some(hname@) && acts[j].1.contains(q),
            decreases actions.len() - a,
        {
            let ghost before = r@;
            assert(acts[a as int].0 == actions@[a as int].name@);
            let belongs = match ahi.get(actions[a].name.as_str()) {
                Some(x) => crate::text::str_eq(x.as_str(), hname.as_str()),
                None => false,
            };
            assert(belongs == (last_half(hs, acts[a as int].0) == Some(hname@)));
            if belongs {
                let reqs = names_set(&actions[a].requires);
                union_into(&mut r, &reqs, &empty);
            }
            proof {
                assert forall|q: Seq<char>| #[trigger] r@.contains(q) <==>
                    exists|j: int| 0 <= j < a + 1 && last_half(hs, #[trigger] acts[j].0) == Some(hname@) && acts[j].1.contains(q) by {
                    if r@.contains(q) && !before.contains(q) {
                        assert(acts[a as int].1 == names_view(actions@[a as int].requires@));
                        assert(last_half(hs, acts[a as int].0) == Some(hname@) && acts[a as int].1.contains(q));
                    }
                    if exists|j: int| 0 <= j < a + 1 && last_half(hs, #[trigger] acts[j].0) == Some(hname@) && acts[j].1.contains(q) {
                        let j = choose|j: int| 0 <= j < a + 1 && last_half(hs, #[trigger] acts[j].0) == Some(hname@) && acts[j].1.contains(q);
                        if j == a {
                            assert(acts[a as int].1 == names_view(actions@[a as int].requires@));
                        }
                    }
                }
            }
            a = a + 1;
        }
        let ghost nb = needs@;
        let ghost rv = r@;
        needs.push(r);
        proof {
            assert forall|x: int, q: Seq<char>| 0 <= x < h + 1 implies (#[trigger] needs@[x]@.contains(q) <==> half_needs(acts, hs, hs[x].0, q)) by {
                if x < h {
                    assert(needs@[x] == nb[x]);
                } else {
                    assert(needs@[x]@ == rv);
                }
            }
        }
        h = h + 1;
    }
    // What each action waits for.
    let mut waits: Vec<(String, NameSet)> = Vec::new();
    let mut i: usize = 0;
    while i < actions.len()
        invariant
            i <= actions.len(),
            acts == actions_view(actions@),
            hv@.len() == hs.len(),
            needs@.len() == hs.len(),
            forall|x: int| 0 <= x < hv@.len() ==> (#[trigger] hv@[x]).0@ == hs[x].0,
            forall|x: int, q: Seq<char>| 0 <= x < hv@.len() ==> (#[trigger] hv@[x].1@.contains(q) <==> hs[x].1.contains(q)),
            forall|x: int, q: Seq<char>| 0 <= x < hs.len() ==> (#[trigger] needs@[x]@.contains(q) <==> half_needs(acts, hs, hs[x].0, q)),
            waits@.len() == i,
            forall|x: int| 0 <= x < i ==> (#[trigger] waits@[x]).0@ == acts[x].0,
            forall|x: int, q: Seq<char>| 0 <= x < i ==> (#[trigger] waits@[x].1@.contains(q) <==> waits_for(acts, hs, acts[x].0, acts[x].1, q)),
        decreases actions.len() - i,
    {
        let name = &actions[i].name;
        let ghost av = acts[i as int];
        assert(av.0 == name@ && av.1 == names_view(actions@[i as int].requires@));
        let mut set = names_set(&actions[i].requires);
        let mut h: usize = 0;
        while h < hv.len()
            invariant
                h <= hv@.len(),
                av.0 == name@,
                hv@.len() == hs.len(),
                needs@.len() == hs.len(),
                forall|x: int, q: Seq<char>| 0 <= x < hv@.len() ==> (#[trigger] hv@[x].1@.contains(q) <==> hs[x].1.contains(q)),
                forall|x: int, q: Seq<char>| 0 <= x < hs.len() ==> (#[trigger] needs@[x]@.contains(q) <==> half_needs(acts, hs, hs[x].0, q)),
                forall|x: int| 0 <= x < hv@.len() ==> (#[trigger] hv@[x]).0@ == hs[x].0,
                forall|q: Seq<char>| #[trigger] set@.contains(q) <==> (av.1.contains(q) || exists|y: int| 0 <= y < h && #[trigger] hs[y].1.contains(av.0)
                    && half_needs(acts, hs, hs[y].0, q) && !hs[y].1.contains(q)),
            decreases hv.len() - h,
        {
            let ghost before = set@;
            let holds = hv[h].1.contains(name.as_str());
            if holds {
                union_into(&mut set, &needs[h], &hv[h].1);
            }
            proof {
                assert(holds == hs[h as int].1.contains(av.0));
                assert forall|q: Seq<char>| #[trigger] set@.contains(q) <==> (av.1.contains(q) || exists|y: int| 0 <= y < h + 1 && #[trigger] hs[y].1.contains(av.0)
                    && half_needs(acts, hs, hs[y].0, q) && !hs[y].1.contains(q)) by {
                    assert(needs@[h as int]@.contains(q) <==> half_needs(acts, hs, hs[h as int].0, q));
                    assert(hv@[h as int].1@.contains(q) <==> hs[h as int].1.contains(q));
                    if exists|y: int| 0 <= y < h + 1 && #[trigger] hs[y].1.contains(av.0) && half_needs(acts, hs, hs[y].0, q) && !hs[y].1.contains(q) {
                        let y = choose|y: int| 0 <= y < h + 1 && #[trigger] hs[y].1.contains(av.0) && half_needs(acts, hs, hs[y].0, q) && !hs[y].1.contains(q);
                        if y < h {
                            assert(before.contains(q));
                        }
                    }
                    if set@.contains(q) && !before.contains(q) {
                        assert(hs[h as int].1.contains(av.0) && half_needs(acts, hs, hs[h as int].0, q) && !hs[h as int].1.contains(q));
                    }
                }
            }
            h = h + 1;
        }
        let ghost rb = waits@;
        let ghost sv = set@;
        waits.push((name.clone(), set));
        proof {
            assert forall|x: int| 0 <= x < i + 1 implies (#[trigger] waits@[x]).0@ == acts[x].0 by {
                if x < i { assert(waits@[x] == rb[x]); }
            }
            assert forall|x: int, q: Seq<char>| 0 <= x < i + 1 implies (#[trigger] waits@[x].1@.contains(q) <==> waits_for(acts, hs, acts[x].0, acts[x].1, q)) by {
                if x < i {
                    assert(waits@[x] == rb[x]);
                } else {
                    assert(waits@[x].1@ == sv);
                }
            }
        }
        i = i + 1;
    }
    IterationMaps {
        iteration_repetitions: reps,
        iteration_stop_signal: stops,
        iteration_actions: members,
        action_iteration,
        half_iteration_actions: hv,
        action_half_iteration: ahi,
        action_requires: waits,
    }
}


// ---------------------------------------------------------------------------
// Order of execution
// ---------------------------------------------------------------------------

/// What the scheduler reads of the iteration maps: what each action waits
/// for, the actions of each iteration, and each action's iteration.
pub struct SchedMaps {
    pub requires: Seq<(Seq<char>, Seq<Seq<char>>)>,
    pub members: Seq<(Seq<char>, Seq<Seq<char>>)>,
    pub iteration_of: Seq<(Seq<char>, Seq<char>)>,
}

pub open spec fn sched_maps(m: &IterationMaps) -> SchedMaps {
    SchedMaps {
        requires: crate::functors::lists_view(m.action_requires@),
        members: crate::functors::lists_view(m.iteration_actions@),
        iteration_of: m.action_iteration@,
    }
}

/// Where the scheduling stands: the actions still to place, the order so
/// far, and the iteration whose actions are being placed, if any.
pub struct Schedule {
    pub pending: Seq<Seq<char>>,
    pub placed: Seq<Seq<char>>,
    pub iteration: Option<Seq<char>>,
}

/// Whether action `a` waits for `q`.
pub open spec fn requirement(m: SchedMaps, a: Seq<char>, q: Seq<char>) -> bool {
    match crate::strmap::kv_get(m.requires, a) {
        Some(rs) => rs.contains(q),
        None => false,
    }
}

/// Whether everything action `a` waits for is placed.
pub open spec fn ready(m: SchedMaps, a: Seq<char>, placed: Seq<Seq<char>>) -> bool {
    forall|q: Seq<char>| #[trigger] requirement(m, a, q) ==> placed.contains(q)
}

/// Whether `a` is an action of iteration `it`.
pub open spec fn member(m: SchedMaps, it: Seq<char>, a: Seq<char>) -> bool {
    match crate::strmap::kv_get(m.members, it) {
        Some(ms) => ms.contains(a),
        None => false,
    }
}

/// Whether iteration `it` has no action left among `pending`.
pub open spec fn closes(m: SchedMaps, it: Seq<char>, pending: Seq<Seq<char>>) -> bool {
    &&& crate::strmap::kv_get(m.members, it) is Some
    &&& forall|q: Seq<char>| #[trigger] member(m, it, q) ==> !pending.contains(q)
}

/// The iteration still being placed once `pending` are left.
pub open spec fn still_placing(m: SchedMaps, it: Option<Seq<char>>, pending: Seq<Seq<char>>) -> Option<Seq<char>> {
    match it {
        Some(i) => if closes(m, i, pending) { None } else { Some(i) },
        None => None,
    }
}

/// The actions of `s` that belong to iteration `it`, in order.
pub open spec fn members_of(m: SchedMaps, it: Seq<char>, s: Seq<Seq<char>>) -> Seq<Seq<char>>
    decreases s.len(),
{
    if s.len() == 0 {
        seq![]
    } else {
        let r = members_of(m, it, s.drop_last());
        if member(m, it, s.last()) { r.push(s.last()) } else { r }
    }
}

/// The actions a round considers: all pending ones, or, while an iteration
/// is being placed, its pending actions.
pub open spec fn eligible(m: SchedMaps, st: Schedule) -> Seq<Seq<char>> {
    match st.iteration {
        None => st.pending,
        Some(it) => members_of(m, it, st.pending),
    }
}

/// `s` without the first occurrence of `a`.
pub open spec fn remove_name(s: Seq<Seq<char>>, a: Seq<char>) -> Seq<Seq<char>>
    decreases s.len(),
{
    if s.len() == 0 {
        s
    } else if s[0] == a {
        s.drop_first()
    } else {
        seq![s[0]] + remove_name(s.drop_first(), a)
    }
}

/// One round over the actions `el`: each pending one whose requirements are
/// placed is placed next; placing an action of an iteration ends the round
/// and makes that iteration the one being placed until none of its actions
/// is pending. `None` when an action of another iteration than the one
/// being placed comes up.
pub open spec fn place_pass(m: SchedMaps, st: Schedule, el: Seq<Seq<char>>) -> Option<Schedule>
    decreases el.len(),
{
    if el.len() == 0 {
        Some(st)
    } else {
        let a = el[0];
        if st.pending.contains(a) && ready(m, a, st.placed) {
            let placed = st.placed.push(a);
            let pending = remove_name(st.pending, a);
            match crate::strmap::sm_get(m.iteration_of, a) {
                Some(it2) => if st.iteration is Some && st.iteration != Some(it2) {
                    None
                } else {
                    Some(Schedule { pending, placed, iteration: still_placing(m, Some(it2), pending) })
                },
                None => place_pass(m, Schedule { pending, placed, iteration: still_placing(m, st.iteration, pending) }, el.drop_first()),
            }
        } else {
            place_pass(m, st, el.drop_first())
        }
    }
}

/// Rounds until every action is placed; `None` when a round places none.
pub open spec fn place_rounds(m: SchedMaps, st: Schedule) -> Option<Seq<Seq<char>>>
    decreases st.pending.len(),
{
    if st.pending.len() == 0 {
        Some(st.placed)
    } else {
        match place_pass(m, st, eligible(m, st)) {
            None => None,
            Some(st2) => if st2.pending.len() < st.pending.len() { place_rounds(m, st2) } else { None },
        }
    }
}

/// The order the actions of `acts` run in.
pub open spec fn schedule_of(m: SchedMaps, acts: Seq<(Seq<char>, Seq<Seq<char>>)>) -> Option<Seq<Seq<char>>> {
    place_rounds(m, Schedule { pending: acts.map_values(|a: (Seq<char>, Seq<Seq<char>>)| a.0), placed: seq![], iteration: None })
}

fn lookup_set<'b>(v: &'b Vec<(String, NameSet)>, k: &str) -> (r: Option<&'b NameSet>)
    ensures
        match r {
            Some(x) => crate::strmap::kv_get(crate::functors::lists_view(v@), k@) == Some(x@),
            None => crate::strmap::kv_get(crate::functors::lists_view(v@), k@) is None,
        },
{
    let p = crate::strmap::key_position(v, k);
    proof {
        crate::strmap::lemma_kv_index_keys(crate::functors::lists_view(v@), v@.map_values(|e: (String, NameSet)| (e.0@, ())), k@);
    }
    if p < v.len() {
        Some(&v[p].1)
    } else {
        None
    }
}

fn ready_exec(maps: &IterationMaps, a: &str, placed: &Vec<String>) -> (r: bool)
    ensures
        r == ready(sched_maps(maps), a@, names_view(placed@)),
{
    match lookup_set(&maps.action_requires, a) {
        None => true,
        Some(rs) => {
            let mut i: usize = 0;
            while i < rs.names.len()
                invariant
                    i <= rs.names.len(),
                    rs@.len() == rs.names.len(),
                    crate::strmap::kv_get(sched_maps(maps).requires, a@) == Some(rs@),
                    forall|k: int| 0 <= k < i ==> names_view(placed@).contains(#[trigger] rs@[k]),
                decreases rs.names.len() - i,
            {
                if !crate::functors::names_contain(placed, rs.names[i].as_str()) {
                    assert(rs.names@[i as int]@ == rs@[i as int]);
                    assert(rs@.contains(rs@[i as int]));
                    assert(crate::strmap::kv_get(sched_maps(maps).requires, a@) == Some(rs@));
                    assert(!names_view(placed@).contains(rs@[i as int]));
                    assert(requirement(sched_maps(maps), a@, rs@[i as int]));
                    return false;
                }
                i = i + 1;
            }
            true
        },
    }
}

fn member_exec(maps: &IterationMaps, it: &str, a: &str) -> (r: bool)
    ensures
        r == member(sched_maps(maps), it@, a@),
{
    match lookup_set(&maps.iteration_actions, it) {
        Some(ms) => ms.contains(a),
        None => false,
    }
}

fn closes_exec(maps: &IterationMaps, it: &str, pending: &Vec<String>) -> (r: bool)
    ensures
        r == closes(sched_maps(maps), it@, names_view(pending@)),
{
    match lookup_set(&maps.iteration_actions, it) {
        None => false,
        Some(ms) => {
            let mut i: usize = 0;
            while i < ms.names.len()
                invariant
                    i <= ms.names.len(),
                    ms@.len() == ms.names.len(),
                    crate::strmap::kv_get(sched_maps(maps).members, it@) == Some(ms@),
                    forall|k: int| 0 <= k < i ==> !names_view(pending@).contains(#[trigger] ms@[k]),
                decreases ms.names.len() - i,
            {
                if crate::functors::names_contain(pending, ms.names[i].as_str()) {
                    assert(ms.names@[i as int]@ == ms@[i as int]);
                    assert(names_view(pending@).contains(ms@[i as int]));
                    assert(crate::strmap::kv_get(sched_maps(maps).members, it@) == Some(ms@));
                    assert(member(sched_maps(maps), it@, ms@[i as int]));
                    return false;
                }
                i = i + 1;
            }
            true
        },
    }
}

fn remove_name_exec(v: &mut Vec<String>, a: &str)
    ensures
        names_view(final(v)@) == remove_name(names_view(old(v)@), a@),
{
    let ghost s = names_view(v@);
    let mut k: usize = 0;
    while k < v.len() && !crate::text::str_eq(v[k].as_str(), a)
        invariant
            k <= v.len(),
            v@ == old(v)@,
            s == names_view(v@),
            forall|j: int| 0 <= j < k ==> s[j] != a@,
        decreases v.len() - k,
    {
        k = k + 1;
    }
    proof {
        lemma_remove_name_at(s, a@, k as int);
    }
    if k < v.len() {
        v.remove(k);
        assert(names_view(v@) =~= s.take(k as int) + s.skip(k + 1));
    }
}

pub(crate) proof fn lemma_remove_name_at(s: Seq<Seq<char>>, a: Seq<char>, k: int)
    requires
        0 <= k <= s.len(),
        forall|j: int| 0 <= j < k ==> s[j] != a,
        k < s.len() ==> s[k] == a,
    ensures
        remove_name(s, a) == if k < s.len() { s.take(k) + s.skip(k + 1) } else { s },
    decreases k,
{
    if k == 0 {
        if s.len() > 0 {
            assert(s.take(0) + s.skip(1) =~= s.drop_first());
        }
    } else {
        let t = s.drop_first();
        assert forall|j: int| 0 <= j < k - 1 implies t[j] != a by {
            assert(t[j] == s[j + 1]);
        }
        if k < s.len() {
            assert(t[k - 1] == s[k]);
        }
        lemma_remove_name_at(t, a, k - 1);
        if k < s.len() {
            assert(seq![s[0]] + (t.take(k - 1) + t.skip(k)) =~= s.take(k) + s.skip(k + 1));
        } else {
            assert(seq![s[0]] + t =~= s);
        }
    }
}

pub open spec fn opt_name(o: Option<String>) -> Option<Seq<char>> {
    match o {
        Some(s) => Some(s@),
        None => None,
    }
}

/// The order to run the actions in: round after round, each pending action
/// whose requirements are placed goes next, in the order of `config`; once
/// an action of an iteration is placed, the round ends and only that
/// iteration's actions are considered until all of them are placed (see
/// [`place_rounds`]). Defined where no round comes to a stop without placing
/// an action.
pub fn sort_actions(config: &Vec<Action>, maps: &IterationMaps) -> (r: Vec<String>)
    requires
        schedule_of(sched_maps(maps), actions_view(config@)) is Some,
    ensures
        schedule_of(sched_maps(maps), actions_view(config@)) == Some(names_view(r@)),
{
    let ghost m = sched_maps(maps);
    let mut pending: Vec<String> = Vec::new();
    let mut i: usize = 0;
    let ghost names = actions_view(config@).map_values(|a: (Seq<char>, Seq<Seq<char>>)| a.0);
    while i < config.len()
        invariant
            i <= config.len(),
            names == actions_view(config@).map_values(|a: (Seq<char>, Seq<Seq<char>>)| a.0),
            names_view(pending@) == names.take(i as int),
        decreases config.len() - i,
    {
        let ghost before = pending@;
        pending.push(config[i].name.clone());
        proof {
            assert(names_view(pending@) =~= names_view(before).push(config@[i as int].name@));
            assert(names.take(i + 1) =~= names.take(i as int).push(names[i as int]));
        }
        i = i + 1;
    }
    assert(names.take(i as int) =~= names);
    let mut placed: Vec<String> = Vec::new();
    let mut placing: Option<String> = None;
    proof {
        assert(names_view(placed@) =~= Seq::<Seq<char>>::empty());
    }
    while pending.len() > 0
        invariant
            m == sched_maps(maps),
            place_rounds(m, Schedule { pending: names_view(pending@), placed: names_view(placed@), iteration: opt_name(placing) })
                == schedule_of(m, actions_view(config@)),
            schedule_of(m, actions_view(config@)) is Some,
        decreases pending.len(),
    {
        let ghost st0 = Schedule { pending: names_view(pending@), placed: names_view(placed@), iteration: opt_name(placing) };
        let remains = pending.len();
        let mut el: Vec<String> = Vec::new();
        let mut k: usize = 0;
        while k < pending.len()
            invariant
                k <= pending.len(),
                names_view(el@) == match opt_name(placing) {
                    None => names_view(pending@).take(k as int),
                    Some(it) => members_of(m, it, names_view(pending@).take(k as int)),
                },
                m == sched_maps(maps),
            decreases pending.len() - k,
        {
            proof {
                assert(names_view(pending@).take(k + 1).drop_last() =~= names_view(pending@).take(k as int));
            }
            let take = match &placing {
                None => true,
                Some(it) => member_exec(maps, it.as_str(), pending[k].as_str()),
            };
            if take {
                let ghost before = el@;
                el.push(pending[k].clone());
                assert(names_view(el@) =~= names_view(before).push(names_view(pending@)[k as int]));
            }
            k = k + 1;
        }
        assert(names_view(pending@).take(k as int) =~= names_view(pending@));
        assert(names_view(el@) == eligible(m, st0));
        let mut j: usize = 0;
        let mut stop = false;
        assert(names_view(el@).skip(0) =~= names_view(el@));
        assert(st0.pending.len() > 0);
        while j < el.len() && !stop
            invariant
                j <= el.len(),
                m == sched_maps(maps),
                names_view(el@) == eligible(m, st0),
                st0.pending.len() > 0,
                place_rounds(m, st0) == schedule_of(m, actions_view(config@)),
                schedule_of(m, actions_view(config@)) is Some,
                !stop ==> place_pass(m, Schedule { pending: names_view(pending@), placed: names_view(placed@), iteration: opt_name(placing) }, names_view(el@).skip(j as int))
                    == place_pass(m, st0, names_view(el@)),
                stop ==> place_pass(m, st0, names_view(el@)) == Some(Schedule { pending: names_view(pending@), placed: names_view(placed@), iteration: opt_name(placing) }),
                pending.len() <= remains,
                !stop ==> (pending.len() < remains || (names_view(pending@) == st0.pending && names_view(placed@) == st0.placed && opt_name(placing) == st0.iteration)),
                stop ==> pending.len() < remains,
            decreases el.len() - j, if stop { 0int } else { 1int },
        {
            let ghost cur = Schedule { pending: names_view(pending@), placed: names_view(placed@), iteration: opt_name(placing) };
            let ghost rest = names_view(el@).skip(j as int);
            proof {
                assert(rest.drop_first() =~= names_view(el@).skip(j + 1));
            }
            let a = el[j].clone();
            assert(rest.len() > 0 && rest[0] == a@);
            if crate::functors::names_contain(&pending, a.as_str()) && ready_exec(maps, a.as_str(), &placed) {
                placed.push(a.clone());
                remove_name_exec(&mut pending, a.as_str());
                proof {
                    assert(names_view(placed@) =~= cur.placed.push(a@));
                    assert(remove_name(cur.pending, a@).len() < cur.pending.len()) by {
                        lemma_remove_name_len(cur.pending, a@);
                    }
                }
                match maps.action_iteration.get(a.as_str()) {
                    Some(it2) => {
                        let clash = match &placing {
                            Some(cur_it) => !crate::text::str_eq(cur_it.as_str(), it2.as_str()),
                            None => false,
                        };
                        if clash {
                            proof {
                                assert(place_pass(m, cur, rest) is None);
                                assert(place_pass(m, st0, eligible(m, st0)) is None);
                                assert(place_rounds(m, st0) is None);
                            }
                            assert(false);
                        }
                        let closed = closes_exec(maps, it2.as_str(), &pending);
                        placing = if closed { None } else { Some(it2.clone()) };
                        stop = true;
                    },
                    None => {
                        match &placing {
                            Some(it) => {
                                if closes_exec(maps, it.as_str(), &pending) {
                                    placing = None;
                                }
                            },
                            None => {},
                        }
                    },
                }
            }
            j = j + 1;
        }
        if !stop {
            assert(names_view(el@).skip(j as int) =~= Seq::<Seq<char>>::empty());
        }
        if pending.len() >= remains {
            proof {
                assert(place_pass(m, st0, eligible(m, st0)) == Some(Schedule { pending: names_view(pending@), placed: names_view(placed@), iteration: opt_name(placing) }));
                assert(place_rounds(m, st0) is None);
            }
            assert(false);
        }
    }
    placed
}

proof fn lemma_remove_name_len(s: Seq<Seq<char>>, a: Seq<char>)
    requires
        s.contains(a),
    ensures
        remove_name(s, a).len() == s.len() - 1,
    decreases s.len(),
{
    if s[0] != a {
        let k = choose|k: int| 0 <= k < s.len() && s[k] == a;
        assert(s.drop_first()[k - 1] == a);
        lemma_remove_name_len(s.drop_first(), a);
    }
}

/// Whether `placed` is a valid start of an order: no action twice, and each
/// after everything it waits for.
pub open spec fn in_order(m: SchedMaps, placed: Seq<Seq<char>>) -> bool {
    &&& placed.no_duplicates()
    &&& forall|k: int, q: Seq<char>| 0 <= k < placed.len() && #[trigger] requirement(m, placed[k], q) ==> placed.take(k).contains(q)
}

/// Whether a state of the scheduling splits the actions `names` between the
/// placed ones, in order, and the pending ones.
pub open spec fn splits(m: SchedMaps, names: Seq<Seq<char>>, st: Schedule) -> bool {
    &&& in_order(m, st.placed)
    &&& st.pending.no_duplicates()
    &&& forall|x: Seq<char>| #[trigger] names.contains(x) <==> (st.placed.contains(x) || st.pending.contains(x))
    &&& forall|x: Seq<char>| #[trigger] st.placed.contains(x) ==> !st.pending.contains(x)
}

proof fn lemma_remove_name_contains(s: Seq<Seq<char>>, a: Seq<char>)
    requires
        s.no_duplicates(),
    ensures
        remove_name(s, a).no_duplicates(),
        forall|x: Seq<char>| #[trigger] remove_name(s, a).contains(x) <==> (s.contains(x) && x != a),
{
    let k: int = if s.contains(a) { choose|k: int| 0 <= k < s.len() && s[k] == a } else { s.len() as int };
    assert forall|j: int| 0 <= j < k implies s[j] != a by {
        if s.contains(a) && s[j] == a {
            assert(j != k);
        }
    }
    lemma_remove_name_at(s, a, k);
    let r = remove_name(s, a);
    if k < s.len() {
        assert(r.len() == s.len() - 1);
        assert forall|i: int| 0 <= i < r.len() implies #[trigger] r[i] == (if i < k { s[i] } else { s[i + 1] }) by {}
        assert forall|i: int, j: int| 0 <= i < r.len() && 0 <= j < r.len() && i != j implies r[i] != r[j] by {
            let si = if i < k { i } else { i + 1 };
            let sj = if j < k { j } else { j + 1 };
            assert(r[i] == s[si] && r[j] == s[sj]);
        }
        assert forall|x: Seq<char>| #[trigger] r.contains(x) <==> (s.contains(x) && x != a) by {
            if r.contains(x) {
                let i = choose|i: int| 0 <= i < r.len() && r[i] == x;
                let si = if i < k { i } else { i + 1 };
                assert(s[si] == x);
                assert(si != k);
            }
            if s.contains(x) && x != a {
                let i = choose|i: int| 0 <= i < s.len() && s[i] == x;
                assert(i != k);
                if i < k {
                    assert(r[i] == x);
                } else {
                    assert(r[i - 1] == x);
                }
            }
        }
    }
}

proof fn lemma_pass_splits(m: SchedMaps, names: Seq<Seq<char>>, st: Schedule, el: Seq<Seq<char>>)
    requires
        splits(m, names, st),
        place_pass(m, st, el) is Some,
    ensures
        splits(m, names, place_pass(m, st, el)->Some_0),
    decreases el.len(),
{
    if el.len() > 0 {
        let a = el[0];
        if st.pending.contains(a) && ready(m, a, st.placed) {
            let placed = st.placed.push(a);
            let pending = remove_name(st.pending, a);
            lemma_remove_name_contains(st.pending, a);
            assert(!st.placed.contains(a));
            assert(placed.no_duplicates()) by {
                assert forall|i: int, j: int| 0 <= i < placed.len() && 0 <= j < placed.len() && i != j implies placed[i] != placed[j] by {
                    if i == st.placed.len() {
                        assert(st.placed.contains(placed[j]));
                    } else if j == st.placed.len() {
                        assert(st.placed.contains(placed[i]));
                    }
                }
            }
            assert forall|k: int, q: Seq<char>| 0 <= k < placed.len() && #[trigger] requirement(m, placed[k], q) implies placed.take(k).contains(q) by {
                if k == st.placed.len() {
                    assert(placed.take(k) =~= st.placed);
                } else {
                    assert(placed.take(k) =~= st.placed.take(k));
                    assert(placed[k] == st.placed[k]);
                }
            }
            assert forall|x: Seq<char>| #[trigger] placed.contains(x) <==> (st.placed.contains(x) || x == a) by {
                if placed.contains(x) && x != a {
                    let i = choose|i: int| 0 <= i < placed.len() && placed[i] == x;
                    assert(st.placed[i] == x);
                }
                if st.placed.contains(x) {
                    let i = choose|i: int| 0 <= i < st.placed.len() && st.placed[i] == x;
                    assert(placed[i] == x);
                }
                if x == a {
                    assert(placed[st.placed.len() as int] == a);
                }
            }
            assert(splits(m, names, Schedule { pending, placed, iteration: still_placing(m, st.iteration, pending) }));
            match crate::strmap::sm_get(m.iteration_of, a) {
                Some(it2) => {
                    assert(splits(m, names, Schedule { pending, placed, iteration: still_placing(m, Some(it2), pending) }));
                },
                None => {
                    lemma_pass_splits(m, names, Schedule { pending, placed, iteration: still_placing(m, st.iteration, pending) }, el.drop_first());
                },
            }
        } else {
            lemma_pass_splits(m, names, st, el.drop_first());
        }
    }
}

proof fn lemma_rounds_splits(m: SchedMaps, names: Seq<Seq<char>>, st: Schedule)
    requires
        splits(m, names, st),
        place_rounds(m, st) is Some,
    ensures
        ({
            let v = place_rounds(m, st)->Some_0;
            &&& in_order(m, v)
            &&& forall|x: Seq<char>| #[trigger] names.contains(x) <==> v.contains(x)
        }),
    decreases st.pending.len(),
{
    if st.pending.len() > 0 {
        let st2 = place_pass(m, st, eligible(m, st))->Some_0;
        lemma_pass_splits(m, names, st, eligible(m, st));
        lemma_rounds_splits(m, names, st2);
    } else {
        assert forall|x: Seq<char>| #[trigger] names.contains(x) <==> st.placed.contains(x) by {
            assert(!st.pending.contains(x));
        }
    }
}

/// The order of execution lists every action once, and each after
/// everything it waits for.
pub proof fn law_actions_run_after_their_requirements(m: SchedMaps, acts: Seq<(Seq<char>, Seq<Seq<char>>)>)
    requires
        names_distinct(acts),
        schedule_of(m, acts) is Some,
    ensures
        ({
            let v = schedule_of(m, acts)->Some_0;
            &&& v.no_duplicates()
            &&& forall|x: Seq<char>| #[trigger] v.contains(x) <==> is_action(acts, x)
            &&& forall|k: int, q: Seq<char>| 0 <= k < v.len() && #[trigger] requirement(m, v[k], q) ==> v.take(k).contains(q)
        }),
{
    let names = acts.map_values(|a: (Seq<char>, Seq<Seq<char>>)| a.0);
    let st = Schedule { pending: names, placed: seq![], iteration: None };
    assert(names.no_duplicates()) by {
        assert forall|i: int, j: int| 0 <= i < names.len() && 0 <= j < names.len() && i != j implies names[i] != names[j] by {
            if i < j {
                assert(acts[i].0 != acts[j].0);
            } else {
                assert(acts[j].0 != acts[i].0);
            }
        }
    }
    assert(in_order(m, st.placed));
    assert(splits(m, names, st));
    lemma_rounds_splits(m, names, st);
    let v = schedule_of(m, acts)->Some_0;
    assert forall|x: Seq<char>| #[trigger] v.contains(x) <==> is_action(acts, x) by {
        if is_action(acts, x) {
            let j = choose|j: int| 0 <= j < acts.len() && #[trigger] acts[j].0 == x;
            assert(names[j] == x);
        }
        if names.contains(x) {
            let j = choose|j: int| 0 <= j < names.len() && names[j] == x;
            assert(acts[j].0 == x);
        }
    }
}

// ---------------------------------------------------------------------------
// Running iterations
// ---------------------------------------------------------------------------

/// The progress of a run: the actions still to run, the complete ones, how
/// many times each iterative action ran, and the actions stopped early.
pub struct RunState {
    pub actions_to_run: Vec<String>,
    pub complete_actions: NameSet,
    pub action_iterations_complete: Vec<(String, i64)>,
    pub action_stopped: NameSet,
}

pub open spec fn counts_view(v: Seq<(String, i64)>) -> Seq<(Seq<char>, i64)> {
    v.map_values(|e: (String, i64)| (e.0@, e.1))
}

/// How many actions at the front of `to_run` belong to iteration `it`.
pub open spec fn group_end(to_run: Seq<Seq<char>>, iteration_of: Seq<(Seq<char>, Seq<char>)>, it: Seq<char>) -> nat
    decreases to_run.len(),
{
    if to_run.len() > 0 && sm_get(iteration_of, to_run[0]) == Some(it) {
        1 + group_end(to_run.drop_first(), iteration_of, it)
    } else {
        0
    }
}

proof fn lemma_group_end(s: Seq<Seq<char>>, iof: Seq<(Seq<char>, Seq<char>)>, it: Seq<char>, i: int)
    requires
        0 <= i <= s.len(),
        forall|j: int| 0 <= j < i ==> sm_get(iof, #[trigger] s[j]) == Some(it),
        i < s.len() ==> sm_get(iof, s[i]) != Some(it),
    ensures
        group_end(s, iof, it) == i,
    decreases i,
{
    if i > 0 {
        let t = s.drop_first();
        assert forall|j: int| 0 <= j < i - 1 implies sm_get(iof, #[trigger] t[j]) == Some(it) by {
            assert(t[j] == s[j + 1]);
        }
        if i < s.len() {
            assert(t[i - 1] == s[i]);
        }
        assert(sm_get(iof, s[0]) == Some(it));
        lemma_group_end(t, iof, it, i - 1);
    }
}

/// Whether action `a` belongs to iteration `it`.
fn of_iteration(maps: &IterationMaps, a: &str, it: &str) -> (r: bool)
    ensures
        r == (sm_get(maps.action_iteration@, a@) == Some(it@)),
{
    match maps.action_iteration.get(a) {
        Some(x) => crate::text::str_eq(x.as_str(), it),
        None => false,
    }
}

/// After iterative action `one_action` ran once: its count of runs goes up;
/// it is complete once the count reaches the repetitions of its iteration,
/// or, before that, when its iteration was asked to stop (`stop_requested`),
/// then also stopped; otherwise it runs again right after the actions of its
/// iteration at the front of the queue.
pub fn update_state_for_iterative_action(state: &mut RunState, maps: &IterationMaps, one_action: &str, stop_requested: bool)
    requires
        crate::strmap::kv_get(counts_view(old(state).action_iterations_complete@), one_action@) matches Some(c) && c < i64::MAX,
        sm_get(maps.action_iteration@, one_action@) matches Some(it)
            && crate::strmap::kv_get(counts_view(maps.iteration_repetitions@), it) is Some,
    ensures
        ({
            let s0 = old(state);
            let counts = counts_view(s0.action_iterations_complete@);
            let c = (crate::strmap::kv_get(counts, one_action@)->Some_0 + 1) as i64;
            let it = sm_get(maps.action_iteration@, one_action@)->Some_0;
            let reps = crate::strmap::kv_get(counts_view(maps.iteration_repetitions@), it)->Some_0;
            &&& counts_view(final(state).action_iterations_complete@) == crate::strmap::kv_insert(counts, one_action@, c)
            &&& if c >= reps {
                &&& final(state).complete_actions@ == set_add(s0.complete_actions@, one_action@)
                &&& final(state).action_stopped@ == s0.action_stopped@
                &&& final(state).actions_to_run@ == s0.actions_to_run@
            } else if stop_requested {
                &&& final(state).complete_actions@ == set_add(s0.complete_actions@, one_action@)
                &&& final(state).action_stopped@ == set_add(s0.action_stopped@, one_action@)
                &&& final(state).actions_to_run@ == s0.actions_to_run@
            } else {
                &&& final(state).complete_actions@ == s0.complete_actions@
                &&& final(state).action_stopped@ == s0.action_stopped@
                &&& names_view(final(state).actions_to_run@) == names_view(s0.actions_to_run@).insert(
                    group_end(names_view(s0.actions_to_run@), maps.action_iteration@, it) as int, one_action@)
            }
        }),
{
    let ghost counts = counts_view(state.action_iterations_complete@);
    let p = crate::strmap::key_position(&state.action_iterations_complete, one_action);
    proof {
        crate::strmap::lemma_kv_index_keys(counts, state.action_iterations_complete@.map_values(|e: (String, i64)| (e.0@, ())), one_action@);
    }
    let c = state.action_iterations_complete[p].1 + 1;
    let name = state.action_iterations_complete[p].0.clone();
    state.action_iterations_complete.set(p, (name, c));
    proof {
        assert(counts_view(state.action_iterations_complete@) =~= crate::strmap::kv_insert(counts, one_action@, c));
    }
    let it: &String = match maps.action_iteration.get(one_action) {
        Some(x) => x,
        None => {
            assert(false);
            return;
        },
    };
    let q = crate::strmap::key_position(&maps.iteration_repetitions, it.as_str());
    proof {
        crate::strmap::lemma_kv_index_keys(counts_view(maps.iteration_repetitions@), maps.iteration_repetitions@.map_values(|e: (String, i64)| (e.0@, ())), it@);
    }
    let reps = maps.iteration_repetitions[q].1;
    if c >= reps {
        state.complete_actions.insert(one_action.to_string());
    } else if stop_requested {
        state.complete_actions.insert(one_action.to_string());
        state.action_stopped.insert(one_action.to_string());
    } else {
        let ghost s = names_view(state.actions_to_run@);
        let mut i: usize = 0;
        while i < state.actions_to_run.len() && of_iteration(maps, state.actions_to_run[i].as_str(), it.as_str())
            invariant
                i <= state.actions_to_run.len(),
                s == names_view(state.actions_to_run@),
                forall|j: int| 0 <= j < i ==> sm_get(maps.action_iteration@, #[trigger] s[j]) == Some(it@),
            decreases state.actions_to_run.len() - i,
        {
            i = i + 1;
        }
        proof {
            lemma_group_end(s, maps.action_iteration@, it@, i as int);
        }
        state.actions_to_run.insert(i, one_action.to_string());
        assert(names_view(state.actions_to_run@) =~= s.insert(i as int, one_action@));
    }
}

// ---------------------------------------------------------------------------
// The actions of a program
// ---------------------------------------------------------------------------

pub open spec fn launcher_view(l: Launcher) -> Option<(Seq<char>, Seq<char>, Seq<char>)> {
    match l {
        Launcher::Idle => None,
        Launcher::Query { predicate, engine, sql } => Some((predicate@, engine@, sql@)),
    }
}

/// An action as plain values: name, kind, what it needs, and its query.
pub open spec fn action_full(a: Action) -> (Seq<char>, ActionType, Seq<Seq<char>>, Option<(Seq<char>, Seq<char>, Seq<char>)>) {
    (a.name@, a.action_type, names_view(a.requires@), launcher_view(a.launcher))
}

pub open spec fn edges_view(v: Seq<(String, String)>) -> Seq<(Seq<char>, Seq<char>)> {
    v.map_values(|e: (String, String)| (e.0@, e.1@))
}

/// The sources of the edges into `t`, each once, in order.
pub open spec fn sources_of(edges: Seq<(Seq<char>, Seq<char>)>, t: Seq<char>) -> Seq<Seq<char>>
    decreases edges.len(),
{
    if edges.len() == 0 {
        seq![]
    } else {
        let r = sources_of(edges.drop_last(), t);
        if edges.last().1 == t { set_add(r, edges.last().0) } else { r }
    }
}

/// `acc` with the sources of `edges` added, each once: all of them, or only
/// those no table is exported for.
pub open spec fn add_data(acc: Seq<Seq<char>>, edges: Seq<(Seq<char>, Seq<char>)>, tables: Seq<(Seq<char>, Seq<char>)>, all: bool) -> Seq<Seq<char>>
    decreases edges.len(),
{
    if edges.len() == 0 {
        acc
    } else {
        let r = add_data(acc, edges.drop_last(), tables, all);
        let d = edges.last().0;
        if all || sm_get(tables, d) is None { set_add(r, d) } else { r }
    }
}

/// The data a program reads: the sources of data edges, and the sources of
/// dependency edges that no table is exported for.
pub open spec fn data_nodes(tables: Seq<(Seq<char>, Seq<char>)>, dep: Seq<(Seq<char>, Seq<char>)>, data: Seq<(Seq<char>, Seq<char>)>) -> Seq<Seq<char>> {
    add_data(add_data(seq![], data, tables, true), dep, tables, false)
}

/// The actions of a program: one for each piece of data, then one query for
/// each exported table, final when it is asked for, needing the sources of
/// the edges into it.
pub open spec fn config_of(
    tables: Seq<(Seq<char>, Seq<char>)>,
    dep: Seq<(Seq<char>, Seq<char>)>,
    data: Seq<(Seq<char>, Seq<char>)>,
    finals: Seq<Seq<char>>,
    engine: Seq<char>,
) -> Seq<(Seq<char>, ActionType, Seq<Seq<char>>, Option<(Seq<char>, Seq<char>, Seq<char>)>)> {
    data_nodes(tables, dep, data).map_values(|d: Seq<char>| (d, ActionType::Data, Seq::<Seq<char>>::empty(), None::<(Seq<char>, Seq<char>, Seq<char>)>))
        + tables.map_values(|e: (Seq<char>, Seq<char>)| (
            e.0,
            if finals.contains(e.0) { ActionType::Final } else { ActionType::Intermediate },
            sources_of(dep + data, e.0),
            Some((e.0, engine, e.1)),
        ))
}

fn add_data_exec(acc: &mut NameSet, edges: &Vec<(String, String)>, tables: &StrMap, all: bool)
    ensures
        final(acc)@ == add_data(old(acc)@, edges_view(edges@), tables@, all),
{
    let ghost ev = edges_view(edges@);
    let ghost a0 = acc@;
    let mut i: usize = 0;
    assert(ev.take(0) =~= Seq::<(Seq<char>, Seq<char>)>::empty());
    while i < edges.len()
        invariant
            i <= edges.len(),
            ev == edges_view(edges@),
            acc@ == add_data(a0, ev.take(i as int), tables@, all),
        decreases edges.len() - i,
    {
        proof {
            assert(ev.take(i + 1).drop_last() =~= ev.take(i as int));
            assert(ev.take(i + 1).last() == ev[i as int]);
        }
        if all || !tables.contains_key(edges[i].0.as_str()) {
            acc.insert(edges[i].0.clone());
        }
        i = i + 1;
    }
    assert(ev.take(i as int) =~= ev);
}

fn sources_exec(edges: &Vec<(String, String)>, t: &str) -> (r: Vec<String>)
    ensures
        names_view(r@) == sources_of(edges_view(edges@), t@),
{
    let ghost ev = edges_view(edges@);
    let mut out = NameSet::new();
    let mut i: usize = 0;
    assert(ev.take(0) =~= Seq::<(Seq<char>, Seq<char>)>::empty());
    while i < edges.len()
        invariant
            i <= edges.len(),
            ev == edges_view(edges@),
            out@ == sources_of(ev.take(i as int), t@),
        decreases edges.len() - i,
    {
        proof {
            assert(ev.take(i + 1).drop_last() =~= ev.take(i as int));
            assert(ev.take(i + 1).last() == ev[i as int]);
        }
        if crate::text::str_eq(edges[i].1.as_str(), t) {
            out.insert(edges[i].0.clone());
        }
        i = i + 1;
    }
    assert(ev.take(i as int) =~= ev);
    out.names
}

/// The actions to run for a program (see [`config_of`]).
pub fn build_config(
    table_to_export_map: &StrMap,
    dependency_edges: &Vec<(String, String)>,
    data_dependency_edges: &Vec<(String, String)>,
    final_predicates: &NameSet,
    sql_engine: &str,
) -> (r: Vec<Action>)
    ensures
        r@.map_values(|a: Action| action_full(a)) == config_of(table_to_export_map@, edges_view(dependency_edges@),
            edges_view(data_dependency_edges@), final_predicates@, sql_engine@),
{
    let ghost want = config_of(table_to_export_map@, edges_view(dependency_edges@), edges_view(data_dependency_edges@), final_predicates@, sql_engine@);
    let mut all_edges: Vec<(String, String)> = Vec::new();
    let mut i: usize = 0;
    while i < dependency_edges.len()
        invariant
            i <= dependency_edges.len(),
            edges_view(all_edges@) == edges_view(dependency_edges@).take(i as int),
        decreases dependency_edges.len() - i,
    {
        let ghost before = all_edges@;
        all_edges.push((dependency_edges[i].0.clone(), dependency_edges[i].1.clone()));
        proof {
            assert(edges_view(all_edges@) =~= edges_view(before).push(edges_view(dependency_edges@)[i as int]));
            assert(edges_view(dependency_edges@).take(i + 1) =~= edges_view(dependency_edges@).take(i as int).push(edges_view(dependency_edges@)[i as int]));
        }
        i = i + 1;
    }
    let mut j: usize = 0;
    assert(edges_view(dependency_edges@).take(i as int) =~= edges_view(dependency_edges@));
    while j < data_dependency_edges.len()
        invariant
            j <= data_dependency_edges.len(),
            edges_view(all_edges@) == edges_view(dependency_edges@) + edges_view(data_dependency_edges@).take(j as int),
        decreases data_dependency_edges.len() - j,
    {
        let ghost before = all_edges@;
        all_edges.push((data_dependency_edges[j].0.clone(), data_dependency_edges[j].1.clone()));
        proof {
            assert(edges_view(all_edges@) =~= edges_view(before).push(edges_view(data_dependency_edges@)[j as int]));
            assert(edges_view(dependency_edges@) + edges_view(data_dependency_edges@).take(j + 1)
                =~= (edges_view(dependency_edges@) + edges_view(data_dependency_edges@).take(j as int)).push(edges_view(data_dependency_edges@)[j as int]));
        }
        j = j + 1;
    }
    assert(edges_view(data_dependency_edges@).take(j as int) =~= edges_view(data_dependency_edges@));
    let mut data = NameSet::new();
    add_data_exec(&mut data, data_dependency_edges, table_to_export_map, true);
    add_data_exec(&mut data, dependency_edges, table_to_export_map, false);
    let ghost dn = data@;
    let mut result: Vec<Action> = Vec::new();
    let mut k: usize = 0;
    while k < data.names.len()
        invariant
            k <= data.names.len(),
            dn == data@,
            dn.len() == data.names.len(),
            result@.map_values(|a: Action| action_full(a)) == want.take(k as int),
            want == config_of(table_to_export_map@, edges_view(dependency_edges@), edges_view(data_dependency_edges@), final_predicates@, sql_engine@),
            dn == data_nodes(table_to_export_map@, edges_view(dependency_edges@), edges_view(data_dependency_edges@)),
        decreases data.names.len() - k,
    {
        let ghost before = result@;
        let no_needs: Vec<String> = Vec::new();
        assert(names_view(no_needs@) =~= Seq::<Seq<char>>::empty());
        result.push(Action { name: data.names[k].clone(), action_type: ActionType::Data, requires: no_needs, launcher: Launcher::Idle });
        proof {
            assert(result@.map_values(|a: Action| action_full(a)) =~= before.map_values(|a: Action| action_full(a)).push(want[k as int]));
            assert(want.take(k + 1) =~= want.take(k as int).push(want[k as int]));
        }
        k = k + 1;
    }
    let ghost nd = dn.len();
    let entries = &table_to_export_map.entries;
    let mut t: usize = 0;
    while t < entries.len()
        invariant
            t <= entries.len(),
            entries@ == table_to_export_map.entries@,
            result@.map_values(|a: Action| action_full(a)) == want.take(nd + t),
            nd == data_nodes(table_to_export_map@, edges_view(dependency_edges@), edges_view(data_dependency_edges@)).len(),
            want == config_of(table_to_export_map@, edges_view(dependency_edges@), edges_view(data_dependency_edges@), final_predicates@, sql_engine@),
            edges_view(all_edges@) == edges_view(dependency_edges@) + edges_view(data_dependency_edges@),
        decreases entries.len() - t,
    {
        let name = entries[t].0.clone();
        let kind = if final_predicates.contains(entries[t].0.as_str()) { ActionType::Final } else { ActionType::Intermediate };
        let needs = sources_exec(&all_edges, entries[t].0.as_str());
        let launcher = Launcher::Query { predicate: entries[t].0.clone(), engine: sql_engine.to_string(), sql: entries[t].1.clone() };
        let ghost before = result@;
        result.push(Action { name, action_type: kind, requires: needs, launcher });
        proof {
            assert(want[nd + t] == action_full(result@[result@.len() - 1]));
            assert(result@.map_values(|a: Action| action_full(a)) =~= before.map_values(|a: Action| action_full(a)).push(want[nd + t]));
            assert(want.take(nd + t + 1) =~= want.take(nd + t).push(want[nd + t]));
        }
        t = t + 1;
    }
    assert(want.take(nd + t) =~= want);
    result
}

/// An edge with `from` renamed to `to` at either end.
pub open spec fn renamed_edge(e: (Seq<char>, Seq<char>), from: Seq<char>, to: Seq<char>) -> (Seq<char>, Seq<char>) {
    (if e.0 == from { to } else { e.0 }, if e.1 == from { to } else { e.1 })
}

/// The edges with `from` renamed to `to`, each once, in order.
pub open spec fn renamed_edges(edges: Seq<(Seq<char>, Seq<char>)>, from: Seq<char>, to: Seq<char>) -> Seq<(Seq<char>, Seq<char>)>
    decreases edges.len(),
{
    if edges.len() == 0 {
        seq![]
    } else {
        let r = renamed_edges(edges.drop_last(), from, to);
        let e = renamed_edge(edges.last(), from, to);
        if r.contains(e) { r } else { r.push(e) }
    }
}

fn edge_in(v: &Vec<(String, String)>, a: &str, b: &str) -> (r: bool)
    ensures
        r == edges_view(v@).contains((a@, b@)),
{
    let mut i: usize = 0;
    while i < v.len()
        invariant
            i <= v.len(),
            forall|j: int| 0 <= j < i ==> edges_view(v@)[j] != (a@, b@),
        decreases v.len() - i,
    {
        if crate::text::str_eq(v[i].0.as_str(), a) && crate::text::str_eq(v[i].1.as_str(), b) {
            assert(edges_view(v@)[i as int] == (a@, b@));
            return true;
        }
        i = i + 1;
    }
    false
}

fn rename_edges(edges: &Vec<(String, String)>, from_name: &str, to_name: &str) -> (r: Vec<(String, String)>)
    ensures
        edges_view(r@) == renamed_edges(edges_view(edges@), from_name@, to_name@),
{
    let ghost ev = edges_view(edges@);
    let mut out: Vec<(String, String)> = Vec::new();
    let mut i: usize = 0;
    assert(ev.take(0) =~= Seq::<(Seq<char>, Seq<char>)>::empty());
    assert(edges_view(out@) =~= Seq::<(Seq<char>, Seq<char>)>::empty());
    while i < edges.len()
        invariant
            i <= edges.len(),
            ev == edges_view(edges@),
            edges_view(out@) == renamed_edges(ev.take(i as int), from_name@, to_name@),
        decreases edges.len() - i,
    {
        proof {
            assert(ev.take(i + 1).drop_last() =~= ev.take(i as int));
            assert(ev.take(i + 1).last() == ev[i as int]);
        }
        let a = if crate::text::str_eq(edges[i].0.as_str(), from_name) { to_name.to_string() } else { edges[i].0.clone() };
        let b = if crate::text::str_eq(edges[i].1.as_str(), from_name) { to_name.to_string() } else { edges[i].1.clone() };
        if !edge_in(&out, a.as_str(), b.as_str()) {
            let ghost before = out@;
            let ghost e = (a@, b@);
            out.push((a, b));
            assert(edges_view(out@) =~= edges_view(before).push(e));
        }
        i = i + 1;
    }
    assert(ev.take(i as int) =~= ev);
    out
}

/// Rename a predicate in the tables to export (its SQL moves to the new
/// name) and at both ends of the dependency and data edges.
pub fn rename_predicate(
    table_to_export_map: &mut StrMap,
    dependency_edges: &mut Vec<(String, String)>,
    data_dependency_edges: &mut Vec<(String, String)>,
    from_name: &str,
    to_name: &str,
)
    ensures
        final(table_to_export_map)@ == match sm_get(old(table_to_export_map)@, from_name@) {
            Some(v) => sm_insert(crate::strmap::sm_remove(old(table_to_export_map)@, from_name@), to_name@, v),
            None => old(table_to_export_map)@,
        },
        edges_view(final(dependency_edges)@) == renamed_edges(edges_view(old(dependency_edges)@), from_name@, to_name@),
        edges_view(final(data_dependency_edges)@) == renamed_edges(edges_view(old(data_dependency_edges)@), from_name@, to_name@),
{
    let sql: Option<String> = match table_to_export_map.get(from_name) {
        Some(v) => Some(v.clone()),
        None => None,
    };
    match sql {
        Some(v) => {
            table_to_export_map.remove(from_name);
            table_to_export_map.insert(to_name.to_string(), v);
        },
        None => {},
    }
    let dep = rename_edges(dependency_edges, from_name, to_name);
    *dependency_edges = dep;
    let data = rename_edges(data_dependency_edges, from_name, to_name);
    *data_dependency_edges = data;
}
} // verus!
