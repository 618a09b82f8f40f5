//! Intersection of types: the most specific type that two types agree on.

use vstd::prelude::*;
use crate::type_inference::types::{
    Type, TypeV, tv, fields_view, lemma_fields_view, field_index, field_type, has_field,
    lemma_field_index, field_position, tsize, fields_size, lemma_field_size_lt, rank_of,
};

verus! {

/// Source location `(start, end)` for error reporting.
pub type Bounds = (i64, i64);

/// Two types that cannot be intersected.
#[derive(Debug)]
pub struct TypeInferenceError {
    pub left: Type,
    pub right: Type,
    pub bounds: Bounds,
}

impl TypeInferenceError {
    pub fn new(left: Type, right: Type, bounds: Bounds) -> (r: TypeInferenceError)
        ensures
            r.left@ == left@,
            r.right@ == right@,
            r.bounds == bounds,
    {
        TypeInferenceError { left, right, bounds }
    }
}

// ---------------------------------------------------------------------------
// Specification
// ---------------------------------------------------------------------------

/// `fs` with field `k` set to `v`: the first field named `k` is replaced, or the
/// field is added at the end.
pub open spec fn set_field(fs: Seq<(Seq<char>, TypeV)>, k: Seq<char>, v: TypeV) -> Seq<(Seq<char>, TypeV)> {
    let i = field_index(fs, k);
    if i < fs.len() {
        fs.update(i, (k, v))
    } else {
        fs.push((k, v))
    }
}

/// Every field name of `fa` is a field of `fb`.
pub open spec fn keys_within(fa: Seq<(Seq<char>, TypeV)>, fb: Seq<(Seq<char>, TypeV)>) -> bool {
    forall|i: int| 0 <= i < fa.len() ==> has_field(fb, #[trigger] fa[i].0)
}

/// Intersection of two types; `None` when they have none.
pub open spec fn meet(a: TypeV, b: TypeV) -> Option<TypeV>
    decreases tsize(a) + tsize(b), 1nat,
{
    if rank_of(a) > rank_of(b) {
        meet_ordered(b, a)
    } else {
        meet_ordered(a, b)
    }
}

/// Intersection of `a` and `b`, where `a` has the lower or equal rank.
pub open spec fn meet_ordered(a: TypeV, b: TypeV) -> Option<TypeV>
    decreases tsize(a) + tsize(b), 0nat,
{
    match a {
        TypeV::Any => Some(b),
        TypeV::Bool => if b is Bool { Some(TypeV::Bool) } else { None },
        TypeV::Atomic => if b is Atomic { Some(TypeV::Atomic) } else { None },
        TypeV::Number => if b is Number || b is Atomic { Some(TypeV::Number) } else { None },
        TypeV::Str => if b is Str || b is Atomic { Some(TypeV::Str) } else { None },
        TypeV::List(x) => match b {
            TypeV::List(y) => match meet(*x, *y) {
                Some(m) => Some(TypeV::List(Box::new(m))),
                None => None,
            },
            _ => None,
        },
        TypeV::Record(fa, oa) => match b {
            TypeV::Record(fb, ob) => {
                if oa && ob {
                    merge_records(fa, fb, true)
                } else if oa && !ob {
                    if keys_within(fa, fb) { merge_records(fa, fb, false) } else { None }
                } else if !oa && !ob {
                    if keys_within(fa, fb) && keys_within(fb, fa) { merge_records(fa, fb, false) } else { None }
                } else {
                    None
                }
            },
            _ => None,
        },
    }
}

/// The fields of `fb` (the first `n`), each intersected with the field of the
/// same name in `fa` when there is one.
pub open spec fn merge_b(fa: Seq<(Seq<char>, TypeV)>, fb: Seq<(Seq<char>, TypeV)>, n: nat) -> Option<Seq<(Seq<char>, TypeV)>>
    decreases fields_size(fa) + fields_size(fb), n,
{
    if n == 0 || n > fb.len() {
        Some(seq![])
    } else {
        match merge_b(fa, fb, (n - 1) as nat) {
            Some(prev) => {
                let (k, bt) = fb[n - 1];
                match field_type(fa, k) {
                    Some(at) => {
                        proof {
                            lemma_field_index(fa, k);
                            lemma_field_size_lt(fa, field_index(fa, k));
                            lemma_field_size_lt(fb, n - 1);
                        }
                        match meet(at, bt) {
                            Some(m) => Some(set_field(prev, k, m)),
                            None => None,
                        }
                    },
                    None => Some(set_field(prev, k, bt)),
                }
            },
            None => None,
        }
    }
}

/// The two types an intersection that fails reports: the innermost pair that
/// has no intersection, in the order they are compared.
pub open spec fn clash(a: TypeV, b: TypeV) -> (TypeV, TypeV)
    decreases tsize(a) + tsize(b), 1nat,
{
    if rank_of(a) > rank_of(b) {
        clash_ordered(b, a)
    } else {
        clash_ordered(a, b)
    }
}

/// [`clash`] of `a` and `b`, where `a` has the lower or equal rank.
pub open spec fn clash_ordered(a: TypeV, b: TypeV) -> (TypeV, TypeV)
    decreases tsize(a) + tsize(b), 0nat,
{
    match a {
        TypeV::List(x) => match b {
            TypeV::List(y) => clash(*x, *y),
            _ => (a, b),
        },
        TypeV::Record(fa, oa) => match b {
            TypeV::Record(fb, ob) => {
                let compatible = if oa && ob {
                    true
                } else if oa && !ob {
                    keys_within(fa, fb)
                } else if !oa && !ob {
                    keys_within(fa, fb) && keys_within(fb, fa)
                } else {
                    false
                };
                if compatible {
                    clash_b(fa, fb, fb.len())
                } else {
                    (a, b)
                }
            },
            _ => (a, b),
        },
        _ => (a, b),
    }
}

/// [`clash`] of the first field of `fb` (among the first `n`) whose
/// intersection with the field of the same name in `fa` fails.
pub open spec fn clash_b(fa: Seq<(Seq<char>, TypeV)>, fb: Seq<(Seq<char>, TypeV)>, n: nat) -> (TypeV, TypeV)
    decreases fields_size(fa) + fields_size(fb), n,
{
    if n == 0 || n > fb.len() {
        (TypeV::Any, TypeV::Any)
    } else if merge_b(fa, fb, (n - 1) as nat) is None {
        clash_b(fa, fb, (n - 1) as nat)
    } else {
        let (k, bt) = fb[n - 1];
        match field_type(fa, k) {
            Some(at) => {
                proof {
                    lemma_field_index(fa, k);
                    lemma_field_size_lt(fa, field_index(fa, k));
                    lemma_field_size_lt(fb, n - 1);
                }
                clash(at, bt)
            },
            None => (TypeV::Any, TypeV::Any),
        }
    }
}

/// What a failed intersection of `a` and `b` at `bounds` reports.
pub open spec fn mismatch(a: TypeV, b: TypeV, bounds: Bounds) -> (TypeV, TypeV, Bounds) {
    (clash(a, b).0, clash(a, b).1, bounds)
}

/// `res` with the fields of `fa` (the first `n`) that it lacks added.
pub open spec fn add_missing(res: Seq<(Seq<char>, TypeV)>, fa: Seq<(Seq<char>, TypeV)>, n: nat) -> Seq<(Seq<char>, TypeV)>
    decreases n,
{
    if n == 0 || n > fa.len() {
        res
    } else {
        let prev = add_missing(res, fa, (n - 1) as nat);
        if has_field(prev, fa[n - 1].0) {
            prev
        } else {
            set_field(prev, fa[n - 1].0, fa[n - 1].1)
        }
    }
}

/// Intersection of two compatible records: `fb`'s fields intersected with
/// `fa`'s, then (for an opened result) `fa`'s other fields.
pub open spec fn merge_records(fa: Seq<(Seq<char>, TypeV)>, fb: Seq<(Seq<char>, TypeV)>, opened: bool) -> Option<TypeV>
    decreases fields_size(fa) + fields_size(fb) + 1, 0nat,
{
    match merge_b(fa, fb, fb.len()) {
        Some(res) => Some(TypeV::Record(if opened { add_missing(res, fa, fa.len()) } else { res }, opened)),
        None => None,
    }
}

} // verus!

verus! {

/// Set field `k` of a field list to `v`.
fn set_field_exec(res: &mut Vec<(String, Type)>, k: String, v: Type)
    ensures
        fields_view(final(res)@) == set_field(fields_view(old(res)@), k@, v@),
{
    proof {
        lemma_fields_view(res@);
    }
    let p = field_position(res, k.as_str());
    let ghost kv = k@;
    let ghost vv = v@;
    let ghost before = res@;
    if p < res.len() {
        res.set(p, (k, v));
        proof {
            lemma_fields_view(res@);
            lemma_fields_view(before);
            assert(fields_view(res@) =~= fields_view(before).update(p as int, (kv, vv)));
        }
    } else {
        res.push((k, v));
        proof {
            lemma_fields_view(res@);
            lemma_fields_view(before);
            assert(fields_view(res@) =~= fields_view(before).push((kv, vv)));
        }
    }
}

/// Whether every field name of `fa` is a field of `fb`.
fn keys_within_exec(fa: &Vec<(String, Type)>, fb: &Vec<(String, Type)>) -> (r: bool)
    ensures
        r == keys_within(fields_view(fa@), fields_view(fb@)),
{
    proof {
        lemma_fields_view(fa@);
        lemma_fields_view(fb@);
    }
    let ghost va = fields_view(fa@);
    let ghost vb = fields_view(fb@);
    let mut i: usize = 0;
    while i < fa.len()
        invariant
            va == fields_view(fa@),
            vb == fields_view(fb@),
            va.len() == fa.len(),
            vb.len() == fb.len(),
            forall|m: int| 0 <= m < fa.len() ==> #[trigger] va[m] == (fa@[m].0@, tv(fa@[m].1)),
            i <= fa.len(),
            forall|j: int| 0 <= j < i ==> has_field(vb, #[trigger] va[j].0),
        decreases fa.len() - i,
    {
        let p = field_position(fb, fa[i].0.as_str());
        proof {
            lemma_field_index(vb, va[i as int].0);
        }
        if p >= fb.len() {
            assert(!has_field(vb, va[i as int].0));
            return false;
        }
        i = i + 1;
    }
    true
}

/// `fb`'s fields, each intersected with `fa`'s field of the same name.
fn merge_b_exec(fa: &Vec<(String, Type)>, fb: &Vec<(String, Type)>, bounds: Bounds) -> (r: Result<Vec<(String, Type)>, TypeInferenceError>)
    ensures
        match r {
            Ok(v) => merge_b(fields_view(fa@), fields_view(fb@), fb@.len() as nat) == Some(fields_view(v@)),
            Err(e) => merge_b(fields_view(fa@), fields_view(fb@), fb@.len() as nat) is None && e.bounds == bounds
                && (e.left@, e.right@) == clash_b(fields_view(fa@), fields_view(fb@), fb@.len() as nat),
        },
    decreases fields_size(fields_view(fa@)) + fields_size(fields_view(fb@)), fb@.len(),
{
    proof {
        lemma_fields_view(fa@);
        lemma_fields_view(fb@);
    }
    let ghost va = fields_view(fa@);
    let ghost vb = fields_view(fb@);
    let mut res: Vec<(String, Type)> = Vec::new();
    let mut i: usize = 0;
    assert(fields_view(res@) =~= Seq::<(Seq<char>, TypeV)>::empty());
    while i < fb.len()
        invariant
            va == fields_view(fa@),
            vb == fields_view(fb@),
            va.len() == fa.len(),
            vb.len() == fb.len(),
            forall|m: int| 0 <= m < fa.len() ==> #[trigger] va[m] == (fa@[m].0@, tv(fa@[m].1)),
            forall|m: int| 0 <= m < fb.len() ==> #[trigger] vb[m] == (fb@[m].0@, tv(fb@[m].1)),
            i <= fb.len(),
            merge_b(va, vb, i as nat) == Some(fields_view(res@)),
        decreases fb.len() - i,
    {
        let k = fb[i].0.clone();
        let p = field_position(fa, k.as_str());
        proof {
            lemma_field_index(va, k@);
            assert(vb[i as int] == (fb@[i as int].0@, tv(fb@[i as int].1)));
        }
        if p < fa.len() {
            proof {
                lemma_field_size_lt(va, p as int);
                lemma_field_size_lt(vb, i as int);
                assert(va[p as int] == (fa@[p as int].0@, tv(fa@[p as int].1)));
            }
            match intersect(fa[p].1.clone(), fb[i].1.clone(), bounds) {
                Ok(m) => {
                    set_field_exec(&mut res, k, m);
                },
                Err(e) => {
                    proof {
                        lemma_merge_b_none(va, vb, (i + 1) as nat);
                        lemma_clash_b_first(va, vb, i as nat, fb@.len() as nat);
                    }
                    return Err(e);
                },
            }
        } else {
            set_field_exec(&mut res, k, fb[i].1.clone());
        }
        i = i + 1;
    }
    Ok(res)
}

proof fn lemma_clash_b_first(fa: Seq<(Seq<char>, TypeV)>, fb: Seq<(Seq<char>, TypeV)>, i: nat, n: nat)
    requires
        i < n <= fb.len(),
        merge_b(fa, fb, i) is Some,
        merge_b(fa, fb, i + 1) is None,
    ensures
        clash_b(fa, fb, n) == clash_b(fa, fb, i + 1),
    decreases n - i,
{
    if n > i + 1 {
        lemma_merge_b_none_upto(fa, fb, i + 1, (n - 1) as nat);
        lemma_clash_b_first(fa, fb, i, (n - 1) as nat);
    }
}

proof fn lemma_merge_b_none_upto(fa: Seq<(Seq<char>, TypeV)>, fb: Seq<(Seq<char>, TypeV)>, i: nat, m: nat)
    requires
        i <= m <= fb.len(),
        merge_b(fa, fb, i) is None,
    ensures
        merge_b(fa, fb, m) is None,
    decreases m - i,
{
    if m > i {
        lemma_merge_b_none_upto(fa, fb, i, (m - 1) as nat);
    }
}

proof fn lemma_merge_b_none(fa: Seq<(Seq<char>, TypeV)>, fb: Seq<(Seq<char>, TypeV)>, n: nat)
    requires
        n <= fb.len(),
        merge_b(fa, fb, n) is None,
    ensures
        merge_b(fa, fb, fb.len()) is None,
    decreases fb.len() - n,
{
    if n < fb.len() {
        lemma_merge_b_none(fa, fb, n + 1);
    }
}

/// `res` with the fields of `fa` that it lacks.
fn add_missing_exec(res: &mut Vec<(String, Type)>, fa: &Vec<(String, Type)>)
    ensures
        fields_view(final(res)@) == add_missing(fields_view(old(res)@), fields_view(fa@), fa@.len() as nat),
{
    proof {
        lemma_fields_view(fa@);
    }
    let ghost va = fields_view(fa@);
    let ghost r0 = fields_view(res@);
    let mut i: usize = 0;
    while i < fa.len()
        invariant
            va == fields_view(fa@),
            va.len() == fa.len(),
            forall|m: int| 0 <= m < fa.len() ==> #[trigger] va[m] == (fa@[m].0@, tv(fa@[m].1)),
            i <= fa.len(),
            fields_view(res@) == add_missing(r0, va, i as nat),
        decreases fa.len() - i,
    {
        proof {
            lemma_fields_view(res@);
            lemma_field_index(fields_view(res@), va[i as int].0);
        }
        let p = field_position(res, fa[i].0.as_str());
        if p >= res.len() {
            set_field_exec(res, fa[i].0.clone(), fa[i].1.clone());
        }
        i = i + 1;
    }
}

/// Intersect two types, returning the most specific common type.
pub fn intersect(a: Type, b: Type, bounds: Bounds) -> (r: Result<Type, TypeInferenceError>)
    ensures
        match r {
            Ok(t) => meet(a@, b@) == Some(t@),
            Err(e) => meet(a@, b@) is None && (e.left@, e.right@, e.bounds) == mismatch(a@, b@, bounds),
        },
    decreases tsize(a@) + tsize(b@), 1nat,
{
    if a.rank() > b.rank() {
        intersect_ordered(b, a, bounds)
    } else {
        intersect_ordered(a, b, bounds)
    }
}

fn intersect_ordered(a: Type, b: Type, bounds: Bounds) -> (r: Result<Type, TypeInferenceError>)
    ensures
        match r {
            Ok(t) => meet_ordered(a@, b@) == Some(t@),
            Err(e) => meet_ordered(a@, b@) is None && e.bounds == bounds && (e.left@, e.right@) == clash_ordered(a@, b@),
        },
    decreases tsize(a@) + tsize(b@), 0nat,
{
    match (&a, &b) {
        (Type::Any, _) => Ok(b),
        (Type::Bool, Type::Bool) => Ok(Type::Bool),
        (Type::Atomic, Type::Atomic) => Ok(Type::Atomic),
        (Type::Number, Type::Number) | (Type::Number, Type::Atomic) => Ok(Type::Number),
        (Type::String, Type::String) | (Type::String, Type::Atomic) => Ok(Type::String),
        (Type::List(x), Type::List(y)) => {
            match intersect((**x).clone(), (**y).clone(), bounds) {
                Ok(m) => Ok(Type::list(m)),
                Err(e) => Err(e),
            }
        },
        (Type::Record { fields: fa, is_opened: oa }, Type::Record { fields: fb, is_opened: ob }) => {
            let oa = *oa;
            let ob = *ob;
            proof {
                lemma_fields_view(fa@);
                lemma_fields_view(fb@);
            }
            let compatible = if oa && ob {
                true
            } else if oa && !ob {
                keys_within_exec(fa, fb)
            } else if !oa && !ob {
                keys_within_exec(fa, fb) && keys_within_exec(fb, fa)
            } else {
                false
            };
            if !compatible {
                return Err(TypeInferenceError::new(a, b, bounds));
            }
            let opened = oa && ob;
            let mut res = match merge_b_exec(fa, fb, bounds) {
                Ok(v) => v,
                Err(e) => return Err(e),
            };
            if opened {
                add_missing_exec(&mut res, fa);
            }
            Ok(Type::record(res, opened))
        },
        _ => Err(TypeInferenceError::new(a, b, bounds)),
    }
}

/// Intersect a list's element type with another element type.
pub fn intersect_list_element(list_type: &Type, element_type: Type, bounds: Bounds) -> (r: Result<Type, TypeInferenceError>)
    ensures
        match list_type@ {
            TypeV::List(e) => match r {
                Ok(t) => meet(*e, element_type@) == Some(t@),
                Err(er) => meet(*e, element_type@) is None && (er.left@, er.right@, er.bounds) == mismatch(*e, element_type@, bounds),
            },
            _ => r matches Err(er) && er.bounds == bounds && er.left@ == list_type@ && er.right@ == element_type@,
        },
{
    match list_type {
        Type::List(e) => intersect((**e).clone(), element_type, bounds),
        _ => Err(TypeInferenceError::new(list_type.clone(), element_type, bounds)),
    }
}


impl TypeInferenceError {
    /// The message of the error: the two types and where they meet.
    pub fn to_string(&self) -> (r: String)
        ensures
            r@ == "Type mismatch: cannot match "@ + crate::type_inference::types::type_text(self.left@) + " with "@
                + crate::type_inference::types::type_text(self.right@) + " at ("@ + crate::text::int_text(self.bounds.0 as int)
                + ", "@ + crate::text::int_text(self.bounds.1 as int) + ")"@,
    {
        let l = self.left.to_string();
        let r = self.right.to_string();
        let b0 = crate::text::int_to_string(self.bounds.0);
        let b1 = crate::text::int_to_string(self.bounds.1);
        let a = crate::text::concat4("Type mismatch: cannot match ", l.as_str(), " with ", r.as_str());
        let b = crate::text::concat5(" at (", b0.as_str(), ", ", b1.as_str(), ")");
        let out = crate::text::concat2(a.as_str(), b.as_str());
        assert(out@ =~= "Type mismatch: cannot match "@ + l@ + " with "@ + r@ + " at ("@ + b0@ + ", "@ + b1@ + ")"@);
        out
    }
}

/// `Any` is the neutral type of intersection, on either side.
pub proof fn law_meet_any(t: TypeV)
    ensures
        meet(TypeV::Any, t) == Some(t),
        meet(t, TypeV::Any) == Some(t),
{
}


/// Whether a type holds no record, at any depth.
pub open spec fn record_free(t: TypeV) -> bool
    decreases t,
{
    match t {
        TypeV::List(e) => record_free(*e),
        TypeV::Record(_, _) => false,
        _ => true,
    }
}

/// Intersection does not depend on the order of its operands when neither
/// holds a record (records keep the field order of one side).
pub proof fn law_meet_symmetric(a: TypeV, b: TypeV)
    requires
        record_free(a),
        record_free(b),
    ensures
        meet(a, b) == meet(b, a),
    decreases tsize(a) + tsize(b),
{
    match a {
        TypeV::List(x) => match b {
            TypeV::List(y) => {
                law_meet_symmetric(*x, *y);
            },
            _ => {},
        },
        _ => {},
    }
}

} // verus!
