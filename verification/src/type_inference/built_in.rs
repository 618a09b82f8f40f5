//! Types that built-in predicates impose on their arguments and values.

use vstd::prelude::*;
use crate::type_inference::types::{Type, TypeV};
use crate::text::str_eq;

verus! {

/// The type a built-in predicate requires of one of its fields.
pub open spec fn restriction(p: Seq<char>, f: Seq<char>) -> Option<TypeV> {
    if p == "Range"@ && f == "col0"@ {
        Some(TypeV::Number)
    } else if p == "Range"@ && f == "logica_value"@ {
        Some(TypeV::List(Box::new(TypeV::Number)))
    } else if p == "Num"@ && (f == "col0"@ || f == "logica_value"@) {
        Some(TypeV::Number)
    } else if p == "Str"@ && (f == "col0"@ || f == "logica_value"@) {
        Some(TypeV::Str)
    } else if p == "+"@ && (f == "left"@ || f == "right"@ || f == "logica_value"@) {
        Some(TypeV::Number)
    } else if p == "++"@ && (f == "left"@ || f == "right"@ || f == "logica_value"@) {
        Some(TypeV::Str)
    } else if inequality_name(p) && (f == "left"@ || f == "right"@) {
        Some(TypeV::Atomic)
    } else if inequality_name(p) && f == "logica_value"@ {
        Some(TypeV::Bool)
    } else {
        None
    }
}

pub open spec fn inequality_name(p: Seq<char>) -> bool {
    p == "<"@ || p == ">"@ || p == "<="@ || p == ">="@
}

/// Get the type restriction for a built-in predicate field.
pub fn built_in_restrictions(predicate_name: &str, field: &str) -> (r: Option<Type>)
    ensures
        match r {
            Some(t) => restriction(predicate_name@, field@) == Some(t@),
            None => restriction(predicate_name@, field@) is None,
        },
{
    let p = |a: &str| -> (b: bool) ensures b == (predicate_name@ == a@) { str_eq(predicate_name, a) };
    let f = |a: &str| -> (b: bool) ensures b == (field@ == a@) { str_eq(field, a) };
    let ineq = is_inequality_predicate(predicate_name);
    if p("Range") && f("col0") {
        Some(Type::Number)
    } else if p("Range") && f("logica_value") {
        Some(Type::list(Type::Number))
    } else if p("Num") && (f("col0") || f("logica_value")) {
        Some(Type::Number)
    } else if p("Str") && (f("col0") || f("logica_value")) {
        Some(Type::String)
    } else if p("+") && (f("left") || f("right") || f("logica_value")) {
        Some(Type::Number)
    } else if p("++") && (f("left") || f("right") || f("logica_value")) {
        Some(Type::String)
    } else if ineq && (f("left") || f("right")) {
        Some(Type::Atomic)
    } else if ineq && f("logica_value") {
        Some(Type::Bool)
    } else {
        None
    }
}

/// Types of the two sides of an inequality, once resolved.
pub open spec fn inequality_types(l: TypeV, r: TypeV) -> Option<(TypeV, TypeV)> {
    if (l is Number && r is Number) || (l is Number && r is Atomic) || (l is Atomic && r is Number) {
        Some((TypeV::Number, TypeV::Number))
    } else if (l is Str && r is Str) || (l is Str && r is Atomic) || (l is Atomic && r is Str) {
        Some((TypeV::Str, TypeV::Str))
    } else if l is Atomic && r is Atomic {
        Some((TypeV::Atomic, TypeV::Atomic))
    } else {
        None
    }
}

/// Check and resolve inequality argument types.
pub fn check_inequalities(left_type: &Type, right_type: &Type) -> (r: Option<(Type, Type)>)
    ensures
        match r {
            Some((a, b)) => inequality_types(left_type@, right_type@) == Some((a@, b@)),
            None => inequality_types(left_type@, right_type@) is None,
        },
{
    let ln = matches!(left_type, Type::Number);
    let rn = matches!(right_type, Type::Number);
    let ls = matches!(left_type, Type::String);
    let rs = matches!(right_type, Type::String);
    let la = matches!(left_type, Type::Atomic);
    let ra = matches!(right_type, Type::Atomic);
    if (ln && rn) || (ln && ra) || (la && rn) {
        Some((Type::Number, Type::Number))
    } else if (ls && rs) || (ls && ra) || (la && rs) {
        Some((Type::String, Type::String))
    } else if la && ra {
        Some((Type::Atomic, Type::Atomic))
    } else {
        None
    }
}

/// Predicates that have special type checking requirements.
pub fn is_inequality_predicate(name: &str) -> (r: bool)
    ensures
        r == inequality_name(name@),
{
    str_eq(name, "<") || str_eq(name, ">") || str_eq(name, "<=") || str_eq(name, ">=")
}

} // verus!
