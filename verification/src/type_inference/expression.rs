//! Expressions of the type graph: the places in a rule that carry a type.

use vstd::prelude::*;
use crate::type_inference::types::{Type, TypeV, fields_view};
use crate::type_inference::built_in::{built_in_restrictions, restriction};
use crate::text::{join, text_lt, text_less, join_strings, concat2, concat3, concat4};

verus! {

/// An expression of the type graph.
#[derive(Debug)]
pub enum Expression {
    PredicateAddressing { predicate_name: String, field: String, predicate_id: usize, expr_type: Type },
    SubscriptAddressing { base: Box<Expression>, subscript_field: String, expr_type: Type },
    Variable { variable_name: String, expr_type: Type },
    StringLiteral,
    NumberLiteral,
    BooleanLiteral,
    NullLiteral,
    ListLiteral { elements: Vec<Expression>, expr_type: Type },
    RecordLiteral { fields: Vec<(String, Expression)>, expr_type: Type },
}

/// The type an expression carries.
pub open spec fn type_of(e: Expression) -> TypeV {
    match e {
        Expression::PredicateAddressing { expr_type, .. } => expr_type@,
        Expression::SubscriptAddressing { expr_type, .. } => expr_type@,
        Expression::Variable { expr_type, .. } => expr_type@,
        Expression::StringLiteral => TypeV::Str,
        Expression::NumberLiteral => TypeV::Number,
        Expression::BooleanLiteral => TypeV::Bool,
        Expression::NullLiteral => TypeV::Any,
        Expression::ListLiteral { expr_type, .. } => expr_type@,
        Expression::RecordLiteral { expr_type, .. } => expr_type@,
    }
}

/// The expression with its own type replaced by `t`, all else kept; literals
/// of scalar types are left as they are.
pub open spec fn with_type(e: Expression, t: Type) -> Expression {
    match e {
        Expression::PredicateAddressing { predicate_name, field, predicate_id, .. } =>
            Expression::PredicateAddressing { predicate_name, field, predicate_id, expr_type: t },
        Expression::SubscriptAddressing { base, subscript_field, .. } =>
            Expression::SubscriptAddressing { base, subscript_field, expr_type: t },
        Expression::Variable { variable_name, .. } => Expression::Variable { variable_name, expr_type: t },
        Expression::ListLiteral { elements, .. } => Expression::ListLiteral { elements, expr_type: t },
        Expression::RecordLiteral { fields, .. } => Expression::RecordLiteral { fields, expr_type: t },
        _ => e,
    }
}

/// Whether the expression keeps a type of its own (literals of scalar types
/// have a fixed one).
pub open spec fn has_own_type(e: Expression) -> bool {
    !(e is StringLiteral || e is NumberLiteral || e is BooleanLiteral || e is NullLiteral)
}

/// Names and types of a record literal's fields.
pub open spec fn field_types(fs: Seq<(String, Expression)>) -> Seq<(Seq<char>, TypeV)> {
    fs.map_values(|p: (String, Expression)| (p.0@, type_of(p.1)))
}

impl Expression {
    /// The field `field` of predicate `predicate_name`, typed as the built-in
    /// restrictions say (`Any` otherwise).
    pub fn predicate_addressing(predicate_name: &str, field: &str, predicate_id: usize) -> (r: Expression)
        ensures
            r matches Expression::PredicateAddressing { predicate_name: p, field: f, predicate_id: i, expr_type: t }
                && p@ == predicate_name@ && f@ == field@ && i == predicate_id
                && t@ == match restriction(predicate_name@, field@) {
                    Some(x) => x,
                    None => TypeV::Any,
                },
    {
        let expr_type = match built_in_restrictions(predicate_name, field) {
            Some(t) => t,
            None => Type::Any,
        };
        Expression::PredicateAddressing {
            predicate_name: predicate_name.to_string(),
            field: field.to_string(),
            predicate_id,
            expr_type,
        }
    }

    pub fn subscript_addressing(base: Expression, subscript_field: &str) -> (r: Expression)
        ensures
            r matches Expression::SubscriptAddressing { base: b, subscript_field: f, expr_type: t }
                && *b == base && f@ == subscript_field@ && t@ == TypeV::Any,
    {
        Expression::SubscriptAddressing {
            base: Box::new(base),
            subscript_field: subscript_field.to_string(),
            expr_type: Type::Any,
        }
    }

    pub fn variable(name: &str) -> (r: Expression)
        ensures
            r matches Expression::Variable { variable_name: v, expr_type: t } && v@ == name@ && t@ == TypeV::Any,
    {
        Expression::Variable { variable_name: name.to_string(), expr_type: Type::Any }
    }

    /// A list literal, typed as a list of its first element's type.
    pub fn list_literal(elements: Vec<Expression>) -> (r: Expression)
        ensures
            r matches Expression::ListLiteral { elements: es, expr_type: t } && es == elements
                && t@ == TypeV::List(Box::new(if elements@.len() > 0 { type_of(elements@[0]) } else { TypeV::Any })),
    {
        let element_type = if elements.len() > 0 {
            elements[0].get_type().clone()
        } else {
            Type::Any
        };
        Expression::ListLiteral { elements, expr_type: Type::list(element_type) }
    }

    /// A record literal, typed as a closed record of its fields' types.
    pub fn record_literal(fields: Vec<(String, Expression)>) -> (r: Expression)
        ensures
            r matches Expression::RecordLiteral { fields: fs, expr_type: t } && fs == fields
                && t@ == TypeV::Record(field_types(fields@), false),
    {
        let mut field_types_v: Vec<(String, Type)> = Vec::new();
        let mut i: usize = 0;
        while i < fields.len()
            invariant
                i <= fields.len(),
                fields_view(field_types_v@) == field_types(fields@).take(i as int),
            decreases fields.len() - i,
        {
            let k = fields[i].0.clone();
            let t = fields[i].1.get_type().clone();
            let ghost before = field_types_v@;
            field_types_v.push((k, t));
            proof {
                assert(field_types_v@.drop_last() =~= before);
                assert(field_types(fields@).take(i + 1) =~= field_types(fields@).take(i as int).push((fields@[i as int].0@, type_of(fields@[i as int].1))));
            }
            i = i + 1;
        }
        assert(field_types(fields@).take(i as int) =~= field_types(fields@));
        Expression::RecordLiteral { fields, expr_type: Type::record(field_types_v, false) }
    }

    pub fn get_type(&self) -> (r: &Type)
        ensures
            r@ == type_of(*self),
    {
        match self {
            Expression::PredicateAddressing { expr_type, .. } => expr_type,
            Expression::SubscriptAddressing { expr_type, .. } => expr_type,
            Expression::Variable { expr_type, .. } => expr_type,
            Expression::StringLiteral => &Type::String,
            Expression::NumberLiteral => &Type::Number,
            Expression::BooleanLiteral => &Type::Bool,
            Expression::NullLiteral => &Type::Any,
            Expression::ListLiteral { expr_type, .. } => expr_type,
            Expression::RecordLiteral { expr_type, .. } => expr_type,
        }
    }

    /// Give the expression a type; literals of scalar types keep theirs.
    pub fn set_type(&mut self, new_type: Type)
        ensures
            *final(self) == with_type(*old(self), new_type),
            type_of(*final(self)) == if has_own_type(*old(self)) { new_type@ } else { type_of(*old(self)) },
            has_own_type(*final(self)) == has_own_type(*old(self)),
            info(*final(self)) == retyped(info(*old(self)), new_type@),
    {
        match self {
            Expression::PredicateAddressing { expr_type, .. } => *expr_type = new_type,
            Expression::SubscriptAddressing { expr_type, .. } => *expr_type = new_type,
            Expression::Variable { expr_type, .. } => *expr_type = new_type,
            Expression::StringLiteral | Expression::NumberLiteral | Expression::BooleanLiteral => {},
            Expression::NullLiteral => {},
            Expression::ListLiteral { expr_type, .. } => *expr_type = new_type,
            Expression::RecordLiteral { expr_type, .. } => *expr_type = new_type,
        }
    }

    /// Whether the expression keeps a type of its own.
    pub fn has_own(&self) -> (r: bool)
        ensures
            r == has_own_type(*self),
    {
        match self {
            Expression::StringLiteral | Expression::NumberLiteral | Expression::BooleanLiteral | Expression::NullLiteral => false,
            _ => true,
        }
    }

    pub fn predicate_name(&self) -> (r: Option<&str>)
        ensures
            match *self {
                Expression::PredicateAddressing { predicate_name, .. } => r matches Some(p) && p@ == predicate_name@,
                _ => r is None,
            },
    {
        match self {
            Expression::PredicateAddressing { predicate_name, .. } => Some(predicate_name.as_str()),
            _ => None,
        }
    }

    pub fn field(&self) -> (r: Option<&str>)
        ensures
            match *self {
                Expression::PredicateAddressing { field, .. } => r matches Some(f) && f@ == field@,
                Expression::SubscriptAddressing { subscript_field, .. } => r matches Some(f) && f@ == subscript_field@,
                _ => r is None,
            },
    {
        match self {
            Expression::PredicateAddressing { field, .. } => Some(field.as_str()),
            Expression::SubscriptAddressing { subscript_field, .. } => Some(subscript_field.as_str()),
            _ => None,
        }
    }
}


// ---------------------------------------------------------------------------
// Text of an expression
// ---------------------------------------------------------------------------

/// The text of an expression, which names it in the type graph. Types are not
/// part of it; the fields of a record literal are listed by name in sorted order.
pub open spec fn expr_text(e: Expression) -> Seq<char>
    decreases e, 1nat,
{
    match e {
        Expression::PredicateAddressing { predicate_name, field, .. } => "PredicateAddressing("@
            + predicate_name@ + "."@ + field@ + ")"@,
        Expression::SubscriptAddressing { base, subscript_field, .. } => "SubscriptAddressing"@ + expr_text(*base)
            + "."@ + subscript_field@,
        Expression::Variable { variable_name, .. } => "Variable("@ + variable_name@ + ")"@,
        Expression::StringLiteral => "StringLiteral"@,
        Expression::NumberLiteral => "NumberLiteral"@,
        Expression::BooleanLiteral => "BooleanLiteral"@,
        Expression::NullLiteral => "NullLiteral"@,
        Expression::ListLiteral { elements, .. } => {
            proof {
                assert(decreases_to!(e => elements));
            }
            "ListLiteral["@ + join(texts_of(elements@), ", "@) + "]"@
        },
        Expression::RecordLiteral { fields, .. } => {
            proof {
                assert(decreases_to!(e => fields));
            }
            "RecordLiteral("@ + join(entry_texts(sort_entries(field_texts(fields@))), ", "@) + ")"@
        },
    }
}

/// The texts of expressions, in order.
pub open spec fn texts_of(es: Seq<Expression>) -> Seq<Seq<char>>
    decreases es, 0nat,
{
    if es.len() == 0 {
        seq![]
    } else {
        texts_of(es.drop_last()).push(expr_text(es.last()))
    }
}

/// Names and texts of record literal fields, in order.
pub open spec fn field_texts(fs: Seq<(String, Expression)>) -> Seq<(Seq<char>, Seq<char>)>
    decreases fs, 0nat,
{
    if fs.len() == 0 {
        seq![]
    } else {
        proof {
            assert(decreases_to!(fs => fs.last()));
        }
        field_texts(fs.drop_last()).push((fs.last().0@, expr_text(fs.last().1)))
    }
}

/// `s` with `x` inserted after the entries whose name is not above its name.
pub open spec fn insert_entry(s: Seq<(Seq<char>, Seq<char>)>, x: (Seq<char>, Seq<char>)) -> Seq<(Seq<char>, Seq<char>)>
    decreases s.len(),
{
    if s.len() == 0 {
        seq![x]
    } else if text_lt(x.0, s[0].0) {
        seq![x] + s
    } else {
        seq![s[0]] + insert_entry(s.drop_first(), x)
    }
}

/// Entries sorted by name, keeping the order of entries with the same name.
pub open spec fn sort_entries(s: Seq<(Seq<char>, Seq<char>)>) -> Seq<(Seq<char>, Seq<char>)>
    decreases s.len(),
{
    if s.len() == 0 {
        seq![]
    } else {
        insert_entry(sort_entries(s.drop_last()), s.last())
    }
}

/// `name: text` for each entry.
pub open spec fn entry_texts(s: Seq<(Seq<char>, Seq<char>)>) -> Seq<Seq<char>> {
    s.map_values(|e: (Seq<char>, Seq<char>)| e.0 + ": "@ + e.1)
}


proof fn lemma_insert_entry_at(s: Seq<(Seq<char>, Seq<char>)>, x: (Seq<char>, Seq<char>), j: int)
    requires
        0 <= j <= s.len(),
        forall|k: int| 0 <= k < j ==> !text_lt(x.0, s[k].0),
        j < s.len() ==> text_lt(x.0, s[j].0),
    ensures
        insert_entry(s, x) == s.take(j) + seq![x] + s.skip(j),
    decreases j,
{
    if j == 0 {
        assert(s.take(0) + seq![x] + s.skip(0) =~= if s.len() == 0 { seq![x] } else { seq![x] + s });
    } else {
        let t = s.drop_first();
        assert forall|k: int| 0 <= k < j - 1 implies !text_lt(x.0, t[k].0) by {
            assert(t[k] == s[k + 1]);
        }
        lemma_insert_entry_at(t, x, j - 1);
        assert(seq![s[0]] + (t.take(j - 1) + seq![x] + t.skip(j - 1)) =~= s.take(j) + seq![x] + s.skip(j));
    }
}

pub open spec fn pairs_view(v: Seq<(String, String)>) -> Seq<(Seq<char>, Seq<char>)> {
    v.map_values(|p: (String, String)| (p.0@, p.1@))
}

pub fn insert_entry_exec(v: &mut Vec<(String, String)>, x: (String, String))
    ensures
        pairs_view(final(v)@) == insert_entry(pairs_view(old(v)@), (x.0@, x.1@)),
{
    let ghost s = pairs_view(v@);
    let ghost xv = (x.0@, x.1@);
    let mut j: usize = 0;
    while j < v.len() && !text_less(x.0.as_str(), v[j].0.as_str())
        invariant
            j <= v.len(),
            s == pairs_view(v@),
            v@ == old(v)@,
            xv == (x.0@, x.1@),
            forall|k: int| 0 <= k < j ==> !text_lt(xv.0, s[k].0),
        decreases v.len() - j,
    {
        j = j + 1;
    }
    proof {
        lemma_insert_entry_at(s, xv, j as int);
    }
    v.insert(j, x);
    assert(pairs_view(v@) =~= s.take(j as int) + seq![xv] + s.skip(j as int));
}

impl Expression {
    /// The text naming this expression in the type graph.
    #[verifier::loop_isolation(false)]
    pub fn to_string(&self) -> (r: String)
        ensures
            r@ == expr_text(*self),
        decreases self,
    {
        match self {
            Expression::PredicateAddressing { predicate_name, field, .. } => {
                let a = concat4("PredicateAddressing(", predicate_name.as_str(), ".", field.as_str());
                let r = concat2(a.as_str(), ")");
                r
            },
            Expression::SubscriptAddressing { base, subscript_field, .. } => {
                let b = (**base).to_string();
                concat4("SubscriptAddressing", b.as_str(), ".", subscript_field.as_str())
            },
            Expression::Variable { variable_name, .. } => concat3("Variable(", variable_name.as_str(), ")"),
            Expression::StringLiteral => "StringLiteral".to_string(),
            Expression::NumberLiteral => "NumberLiteral".to_string(),
            Expression::BooleanLiteral => "BooleanLiteral".to_string(),
            Expression::NullLiteral => "NullLiteral".to_string(),
            Expression::ListLiteral { elements, .. } => {
                let mut texts: Vec<String> = Vec::new();
                let mut i: usize = 0;
                assert(elements@.take(0) =~= Seq::<Expression>::empty());
                assert(texts@.map_values(|t: String| t@) =~= Seq::<Seq<char>>::empty());
                while i < elements.len()
                    invariant
                        i <= elements.len(),
                        texts@.map_values(|t: String| t@) == texts_of(elements@.take(i as int)),
                    decreases elements.len() - i,
                {
                    proof {
                        assert(decreases_to!(*self => elements@[i as int]));
                        assert(elements@.take(i + 1).drop_last() =~= elements@.take(i as int));
                    }
                    let t = elements[i].to_string();
                    let ghost before = texts@.map_values(|t: String| t@);
                    texts.push(t);
                    assert(texts@.map_values(|t: String| t@) =~= before.push(t@));
                    i = i + 1;
                }
                assert(elements@.take(i as int) =~= elements@);
                let joined = join_strings(&texts, ", ");
                concat3("ListLiteral[", joined.as_str(), "]")
            },
            Expression::RecordLiteral { fields, .. } => {
                let mut entries: Vec<(String, String)> = Vec::new();
                let mut i: usize = 0;
                assert(fields@.take(0) =~= Seq::<(String, Expression)>::empty());
                assert(pairs_view(entries@) =~= Seq::<(Seq<char>, Seq<char>)>::empty());
                while i < fields.len()
                    invariant
                        i <= fields.len(),
                        pairs_view(entries@) == sort_entries(field_texts(fields@.take(i as int))),
                    decreases fields.len() - i,
                {
                    proof {
                        assert(decreases_to!(*self => fields@[i as int].1));
                        assert(fields@.take(i + 1).drop_last() =~= fields@.take(i as int));
                    }
                    let t = fields[i].1.to_string();
                    let k = fields[i].0.clone();
                    proof {
                        let ft = field_texts(fields@.take(i + 1));
                        assert(ft.drop_last() == field_texts(fields@.take(i as int)));
                        assert(ft.last() == (k@, t@));
                        assert(sort_entries(ft) == insert_entry(sort_entries(ft.drop_last()), ft.last()));
                    }
                    insert_entry_exec(&mut entries, (k, t));
                    i = i + 1;
                }
                assert(fields@.take(i as int) =~= fields@);
                let mut texts: Vec<String> = Vec::new();
                let mut j: usize = 0;
                let ghost ev = pairs_view(entries@);
                assert(texts@.map_values(|t: String| t@) =~= entry_texts(ev).take(0));
                while j < entries.len()
                    invariant
                        j <= entries.len(),
                        ev == pairs_view(entries@),
                        texts@.map_values(|t: String| t@) == entry_texts(ev).take(j as int),
                    decreases entries.len() - j,
                {
                    let t = concat3(entries[j].0.as_str(), ": ", entries[j].1.as_str());
                    let ghost before = texts@.map_values(|t: String| t@);
                    texts.push(t);
                    assert(texts@.map_values(|t: String| t@) =~= before.push(t@));
                    assert(entry_texts(ev).take(j + 1) =~= entry_texts(ev).take(j as int).push(ev[j as int].0 + ": "@ + ev[j as int].1));
                    j = j + 1;
                }
                assert(entry_texts(ev).take(j as int) =~= entry_texts(ev));
                let joined = join_strings(&texts, ", ");
                concat3("RecordLiteral(", joined.as_str(), ")")
            },
        }
    }
}


/// What the type graph reads of an expression.
pub struct ExprInfo {
    pub text: Seq<char>,
    pub ty: TypeV,
    pub own: bool,
    pub field: Option<Seq<char>>,
    pub pred: Option<Seq<char>>,
}

/// The field an expression addresses.
pub open spec fn field_of(e: Expression) -> Option<Seq<char>> {
    match e {
        Expression::PredicateAddressing { field, .. } => Some(field@),
        Expression::SubscriptAddressing { subscript_field, .. } => Some(subscript_field@),
        _ => None,
    }
}

/// The predicate an expression addresses.
pub open spec fn pred_of(e: Expression) -> Option<Seq<char>> {
    match e {
        Expression::PredicateAddressing { predicate_name, .. } => Some(predicate_name@),
        _ => None,
    }
}

pub open spec fn info(e: Expression) -> ExprInfo {
    ExprInfo { text: expr_text(e), ty: type_of(e), own: has_own_type(e), field: field_of(e), pred: pred_of(e) }
}

/// An expression given type `t`: it takes it unless its type is fixed.
pub open spec fn retyped(i: ExprInfo, t: TypeV) -> ExprInfo {
    ExprInfo { ty: if i.own { t } else { i.ty }, ..i }
}

impl Clone for Expression {
    #[verifier::loop_isolation(false)]
    fn clone(&self) -> (r: Expression)
        ensures
            info(r) == info(*self),
            expr_text(r) == expr_text(*self),
        decreases self,
    {
        match self {
            Expression::PredicateAddressing { predicate_name, field, predicate_id, expr_type } => Expression::PredicateAddressing {
                predicate_name: predicate_name.clone(),
                field: field.clone(),
                predicate_id: *predicate_id,
                expr_type: expr_type.clone(),
            },
            Expression::SubscriptAddressing { base, subscript_field, expr_type } => {
                let b = (**base).clone();
                Expression::SubscriptAddressing {
                    base: Box::new(b),
                    subscript_field: subscript_field.clone(),
                    expr_type: expr_type.clone(),
                }
            },
            Expression::Variable { variable_name, expr_type } => Expression::Variable {
                variable_name: variable_name.clone(),
                expr_type: expr_type.clone(),
            },
            Expression::StringLiteral => Expression::StringLiteral,
            Expression::NumberLiteral => Expression::NumberLiteral,
            Expression::BooleanLiteral => Expression::BooleanLiteral,
            Expression::NullLiteral => Expression::NullLiteral,
            Expression::ListLiteral { elements, expr_type } => {
                let mut out: Vec<Expression> = Vec::new();
                let mut i: usize = 0;
                assert(texts_of(out@) =~= texts_of(elements@.take(0)));
                while i < elements.len()
                    invariant
                        i <= elements.len(),
                        texts_of(out@) == texts_of(elements@.take(i as int)),
                    decreases elements.len() - i,
                {
                    proof {
                        assert(decreases_to!(*self => elements@[i as int]));
                        assert(elements@.take(i + 1).drop_last() =~= elements@.take(i as int));
                    }
                    let c = elements[i].clone();
                    let ghost before = out@;
                    out.push(c);
                    assert(out@.drop_last() =~= before);
                    i = i + 1;
                }
                assert(elements@.take(i as int) =~= elements@);
                Expression::ListLiteral { elements: out, expr_type: expr_type.clone() }
            },
            Expression::RecordLiteral { fields, expr_type } => {
                let mut out: Vec<(String, Expression)> = Vec::new();
                let mut i: usize = 0;
                assert(field_texts(out@) =~= field_texts(fields@.take(0)));
                while i < fields.len()
                    invariant
                        i <= fields.len(),
                        field_texts(out@) == field_texts(fields@.take(i as int)),
                    decreases fields.len() - i,
                {
                    proof {
                        assert(decreases_to!(*self => fields@[i as int].1));
                        assert(fields@.take(i + 1).drop_last() =~= fields@.take(i as int));
                    }
                    let k = fields[i].0.clone();
                    let c = fields[i].1.clone();
                    let ghost before = out@;
                    out.push((k, c));
                    assert(out@.drop_last() =~= before);
                    i = i + 1;
                }
                assert(fields@.take(i as int) =~= fields@);
                Expression::RecordLiteral { fields: out, expr_type: expr_type.clone() }
            },
        }
    }
}

} // verus!
