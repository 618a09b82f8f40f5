use synalog::type_inference::intersection::{intersect, intersect_list_element, TypeInferenceError};
use synalog::type_inference::types::Type;

fn fields(pairs: Vec<(&str, Type)>) -> Vec<(String, Type)> {
    pairs.into_iter().map(|(k, t)| (k.to_string(), t)).collect()
}

#[test]
fn test_type_inference_error_display() {
    let err = TypeInferenceError::new(Type::Number, Type::String, (10, 20));
    let msg = err.to_string();
    assert!(msg.contains("Type mismatch"));
    assert!(msg.contains("number"));
    assert!(msg.contains("string"));
    assert!(msg.contains("10"));
    assert!(msg.contains("20"));
    assert_eq!(msg, "Type mismatch: cannot match number with string at (10, 20)");
}

#[test]
fn test_intersect_any() {
    let bounds = (0, 0);
    assert!(intersect(Type::Any, Type::Number, bounds).unwrap().equals(&Type::Number));
    assert!(intersect(Type::Number, Type::Any, bounds).unwrap().equals(&Type::Number));
    assert!(intersect(Type::Any, Type::Any, bounds).unwrap().equals(&Type::Any));
}

#[test]
fn test_intersect_bool() {
    let bounds = (0, 0);
    assert!(intersect(Type::Bool, Type::Bool, bounds).unwrap().equals(&Type::Bool));
    assert!(intersect(Type::Bool, Type::Number, bounds).is_err());
    assert!(intersect(Type::Bool, Type::String, bounds).is_err());
    assert!(intersect(Type::Bool, Type::Atomic, bounds).is_err());
}

#[test]
fn test_intersect_atomic() {
    let bounds = (0, 0);
    assert!(intersect(Type::Atomic, Type::Atomic, bounds).unwrap().equals(&Type::Atomic));
    assert!(intersect(Type::Number, Type::Atomic, bounds).unwrap().equals(&Type::Number));
    assert!(intersect(Type::Atomic, Type::Number, bounds).unwrap().equals(&Type::Number));
    assert!(intersect(Type::String, Type::Atomic, bounds).unwrap().equals(&Type::String));
    assert!(intersect(Type::Atomic, Type::String, bounds).unwrap().equals(&Type::String));
}

#[test]
fn test_intersect_mismatch() {
    let bounds = (0, 0);
    assert!(intersect(Type::Number, Type::String, bounds).is_err());
    assert!(intersect(Type::Bool, Type::Number, bounds).is_err());
    assert!(intersect(Type::Number, Type::list(Type::Number), bounds).is_err());
    assert!(intersect(Type::Atomic, Type::list(Type::Number), bounds).is_err());
}

#[test]
fn test_intersect_list() {
    let bounds = (0, 0);
    let list_num = Type::list(Type::Number);
    let list_any = Type::list(Type::Any);
    let list_str = Type::list(Type::String);
    assert!(intersect(list_num.clone(), list_any, bounds).unwrap().equals(&list_num));
    assert!(intersect(list_num.clone(), list_num.clone(), bounds).unwrap().equals(&list_num));
    assert!(intersect(list_num, list_str, bounds).is_err());
    assert!(intersect(Type::list(Type::Number), Type::record(vec![], false), bounds).is_err());
}

#[test]
fn test_intersect_record_both_opened() {
    let r1 = Type::record(fields(vec![("x", Type::Number)]), true);
    let r2 = Type::record(fields(vec![("y", Type::String)]), true);
    let result = intersect(r1, r2, (0, 0)).unwrap();
    assert!(result.is_opened());
    let fs = result.record_fields().unwrap();
    assert!(fs.iter().any(|(k, _)| k == "x"));
    assert!(fs.iter().any(|(k, _)| k == "y"));
}

#[test]
fn test_intersect_record_opened_closed() {
    let opened = Type::record(fields(vec![("x", Type::Number)]), true);
    let closed = Type::record(fields(vec![("x", Type::Number), ("y", Type::String)]), false);
    let result = intersect(opened, closed, (0, 0)).unwrap();
    assert!(!result.is_opened());
    assert_eq!(result.record_fields().unwrap().len(), 2);
}

#[test]
fn test_intersect_record_opened_closed_mismatch() {
    let opened = Type::record(fields(vec![("x", Type::Number), ("z", Type::Bool)]), true);
    let closed = Type::record(fields(vec![("x", Type::Number), ("y", Type::String)]), false);
    assert!(intersect(opened, closed, (0, 0)).is_err());
}

#[test]
fn test_intersect_record_both_closed() {
    let r1 = Type::record(fields(vec![("x", Type::Number)]), false);
    let r2 = Type::record(fields(vec![("x", Type::Number)]), false);
    let result = intersect(r1, r2, (0, 0)).unwrap();
    assert!(!result.is_opened());
    let r3 = Type::record(fields(vec![("y", Type::Number)]), false);
    let r4 = Type::record(fields(vec![("x", Type::Number)]), false);
    assert!(intersect(r3, r4, (0, 0)).is_err());
}

#[test]
fn test_intersect_record_with_non_record() {
    let rec = Type::record(vec![], false);
    assert!(intersect(rec, Type::Number, (0, 0)).is_err());
}

#[test]
fn test_intersect_list_element() {
    let bounds = (0, 0);
    let list = Type::list(Type::Any);
    let result = intersect_list_element(&list, Type::Number, bounds).unwrap();
    assert!(result.equals(&Type::Number));
    assert!(intersect_list_element(&Type::Number, Type::Number, bounds).is_err());
}

#[test]
fn test_type_display() {
    assert_eq!(Type::Any.to_string(), "any");
    assert_eq!(Type::Atomic.to_string(), "atomic");
    assert_eq!(Type::Number.to_string(), "number");
    assert_eq!(Type::String.to_string(), "string");
    assert_eq!(Type::Bool.to_string(), "bool");
    assert_eq!(Type::list(Type::Number).to_string(), "[number]");
    let rec = Type::record(fields(vec![("a", Type::Number)]), false);
    assert_eq!(rec.to_string(), "{a: number}");
    let rec2 = Type::record(fields(vec![("b", Type::Bool), ("a", Type::list(Type::String))]), true);
    assert_eq!(rec2.to_string(), "{a: [string], b: bool}");
}

#[test]
fn test_type_equality_relation() {
    assert!(Type::Any.equals(&Type::Any));
    assert!(Type::Atomic.equals(&Type::Atomic));
    assert!(Type::Number.equals(&Type::Number));
    assert!(Type::String.equals(&Type::String));
    assert!(Type::Bool.equals(&Type::Bool));
    assert!(!Type::Number.equals(&Type::String));
    assert!(Type::list(Type::Number).equals(&Type::list(Type::Number)));
    assert!(!Type::list(Type::Number).equals(&Type::list(Type::String)));
    let f1 = fields(vec![("x", Type::Number)]);
    assert!(Type::record(f1.clone(), false).equals(&Type::record(fields(vec![("x", Type::Number)]), false)));
    let opened = Type::record(f1.clone(), true);
    let closed = Type::record(fields(vec![("x", Type::Number), ("y", Type::String)]), false);
    assert!(opened.equals(&closed));
    let o2 = Type::record(fields(vec![("x", Type::Number), ("y", Type::String)]), true);
    assert!(Type::record(f1, true).equals(&o2));
    assert!(!Type::Number.equals(&Type::list(Type::Number)));
    assert!(!Type::Number.equals(&Type::record(vec![], false)));
}

#[test]
fn test_type_default() {
    let t: Type = Default::default();
    assert!(matches!(t, Type::Any));
}

#[test]
fn test_type_helpers() {
    assert!(Type::Any.is_any());
    assert!(!Type::Number.is_any());
    assert!(Type::list(Type::Number).is_list());
    assert!(!Type::Number.is_list());
    let rec = Type::record(vec![], true);
    assert!(rec.is_record());
    assert!(!Type::Number.is_record());
    let list = Type::list(Type::String);
    assert!(list.list_element().unwrap().equals(&Type::String));
    assert!(Type::Number.list_element().is_none());
    let rec = Type::record(fields(vec![("a", Type::Number)]), false);
    assert_eq!(rec.record_fields().unwrap().len(), 1);
    assert!(Type::Number.record_fields().is_none());
    assert!(Type::opened_record().is_opened());
    assert!(!Type::record(vec![], false).is_opened());
    assert!(!Type::Number.is_opened());
}

#[test]
fn test_type_rank() {
    assert_eq!(Type::Any.rank(), 0);
    assert_eq!(Type::Bool.rank(), 1);
    assert_eq!(Type::Number.rank(), 2);
    assert_eq!(Type::String.rank(), 3);
    assert_eq!(Type::Atomic.rank(), 4);
    assert_eq!(Type::list(Type::Any).rank(), 5);
    assert_eq!(Type::opened_record().rank(), 6);
    assert_eq!(Type::record(vec![], false).rank(), 7);
}

#[test]
fn test_record_fields_mut() {
    let mut rec = Type::record(vec![], false);
    if let Some(fs) = rec.record_fields_mut() {
        fs.push(("new".to_string(), Type::Bool));
    }
    assert!(rec.record_fields().unwrap().iter().any(|(k, _)| k == "new"));
    let mut num = Type::Number;
    assert!(num.record_fields_mut().is_none());
}

#[test]
fn test_intersect_symmetric_without_records() {
    let bounds = (0, 0);
    let pairs = vec![
        (Type::Number, Type::Atomic),
        (Type::String, Type::Atomic),
        (Type::list(Type::Any), Type::list(Type::Number)),
        (Type::list(Type::Atomic), Type::list(Type::String)),
    ];
    for (a, b) in pairs {
        let ab = intersect(a.clone(), b.clone(), bounds).unwrap();
        let ba = intersect(b, a, bounds).unwrap();
        assert!(ab.equals(&ba));
    }
    assert!(intersect(Type::Number, Type::Bool, bounds).is_err());
    assert!(intersect(Type::Bool, Type::Number, bounds).is_err());
}
