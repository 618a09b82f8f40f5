//! Types of Logica expressions.
//!
//! A record type lists its fields by name; field names are looked up by their
//! first occurrence. [`TypeV`] is the abstract value of a [`Type`].

use vstd::prelude::*;
use crate::text::chars_eq;

verus! {

/// A Logica type.
#[derive(Debug)]
pub enum Type {
    Any,
    Atomic,
    Number,
    String,
    Bool,
    List(Box<Type>),
    Record { fields: Vec<(String, Type)>, is_opened: bool },
}

/// Abstract value of a [`Type`].
pub enum TypeV {
    Any,
    Atomic,
    Number,
    Str,
    Bool,
    List(Box<TypeV>),
    Record(Seq<(Seq<char>, TypeV)>, bool),
}

pub open spec fn tv(t: Type) -> TypeV
    decreases t,
{
    match t {
        Type::Any => TypeV::Any,
        Type::Atomic => TypeV::Atomic,
        Type::Number => TypeV::Number,
        Type::String => TypeV::Str,
        Type::Bool => TypeV::Bool,
        Type::List(e) => TypeV::List(Box::new(tv(*e))),
        Type::Record { fields, is_opened } => TypeV::Record(fields_view(fields@), is_opened),
    }
}

pub open spec fn fields_view(fs: Seq<(String, Type)>) -> Seq<(Seq<char>, TypeV)>
    decreases fs,
{
    if fs.len() == 0 {
        seq![]
    } else {
        fields_view(fs.drop_last()).push((fs.last().0@, tv(fs.last().1)))
    }
}

impl View for Type {
    type V = TypeV;

    open spec fn view(&self) -> TypeV {
        tv(*self)
    }
}

pub proof fn lemma_fields_view(fs: Seq<(String, Type)>)
    ensures
        fields_view(fs).len() == fs.len(),
        forall|i: int| 0 <= i < fs.len() ==> #[trigger] fields_view(fs)[i] == (fs[i].0@, tv(fs[i].1)),
    decreases fs.len(),
{
    if fs.len() > 0 {
        lemma_fields_view(fs.drop_last());
        assert forall|i: int| 0 <= i < fs.len() implies #[trigger] fields_view(fs)[i] == (fs[i].0@, tv(fs[i].1)) by {
            if i < fs.len() - 1 {
                assert(fs.drop_last()[i] == fs[i]);
            }
        }
    }
}

// ---------------------------------------------------------------------------
// Fields of record types
// ---------------------------------------------------------------------------

/// Position of the first field named `k`, or the number of fields.
pub open spec fn field_index(fs: Seq<(Seq<char>, TypeV)>, k: Seq<char>) -> int
    decreases fs.len(),
{
    if fs.len() == 0 {
        0
    } else if fs[0].0 == k {
        0
    } else {
        1 + field_index(fs.drop_first(), k)
    }
}

/// Type of the field named `k`.
pub open spec fn field_type(fs: Seq<(Seq<char>, TypeV)>, k: Seq<char>) -> Option<TypeV> {
    let i = field_index(fs, k);
    if i < fs.len() {
        Some(fs[i].1)
    } else {
        None
    }
}

pub open spec fn has_field(fs: Seq<(Seq<char>, TypeV)>, k: Seq<char>) -> bool {
    field_type(fs, k) is Some
}

pub proof fn lemma_field_index(fs: Seq<(Seq<char>, TypeV)>, k: Seq<char>)
    ensures
        0 <= field_index(fs, k) <= fs.len(),
        field_index(fs, k) < fs.len() ==> fs[field_index(fs, k)].0 == k,
        forall|j: int| 0 <= j < field_index(fs, k) ==> #[trigger] fs[j].0 != k,
    decreases fs.len(),
{
    if fs.len() > 0 && fs[0].0 != k {
        lemma_field_index(fs.drop_first(), k);
        assert forall|j: int| 0 <= j < field_index(fs, k) implies #[trigger] fs[j].0 != k by {
            if j > 0 {
                assert(fs[j] == fs.drop_first()[j - 1]);
            }
        }
    }
}

proof fn lemma_field_index_at(fs: Seq<(Seq<char>, TypeV)>, k: Seq<char>, i: int)
    requires
        0 <= i <= fs.len(),
        i < fs.len() ==> fs[i].0 == k,
        forall|j: int| 0 <= j < i ==> #[trigger] fs[j].0 != k,
    ensures
        field_index(fs, k) == i,
    decreases i,
{
    if i > 0 {
        assert forall|j: int| 0 <= j < i - 1 implies #[trigger] fs.drop_first()[j].0 != k by {
            assert(fs.drop_first()[j] == fs[j + 1]);
        }
        lemma_field_index_at(fs.drop_first(), k, i - 1);
    } else if fs.len() > 0 {
        assert(fs[0].0 == k);
    }
}

/// Position of the first field named `k` in a field list, or its length.
pub fn field_position(fields: &Vec<(String, Type)>, k: &str) -> (r: usize)
    ensures
        r == field_index(fields_view(fields@), k@),
{
    proof {
        lemma_fields_view(fields@);
    }
    let ghost fv = fields_view(fields@);
    let kc = crate::text::chars_of(k);
    let mut i: usize = 0;
    while i < fields.len()
        invariant
            kc@ == k@,
            fv == fields_view(fields@),
            fv.len() == fields.len(),
            forall|m: int| 0 <= m < fields.len() ==> #[trigger] fv[m] == (fields@[m].0@, tv(fields@[m].1)),
            i <= fields.len(),
            forall|j: int| 0 <= j < i ==> #[trigger] fv[j].0 != k@,
        decreases fields.len() - i,
    {
        let fc = crate::text::chars_of(fields[i].0.as_str());
        if chars_eq(&fc, &kc) {
            proof {
                assert(fv[i as int].0 == k@);
                lemma_field_index_at(fv, k@, i as int);
            }
            return i;
        }
        assert(fv[i as int].0 != k@);
        i = i + 1;
    }
    proof {
        lemma_field_index_at(fv, k@, i as int);
    }
    i
}

// ---------------------------------------------------------------------------
// Size (a measure for recursion over types)
// ---------------------------------------------------------------------------

pub open spec fn tsize(t: TypeV) -> nat
    decreases t,
{
    match t {
        TypeV::List(e) => 1 + tsize(*e),
        TypeV::Record(fs, _) => 1 + fields_size(fs),
        _ => 1,
    }
}

pub open spec fn fields_size(fs: Seq<(Seq<char>, TypeV)>) -> nat
    decreases fs,
{
    if fs.len() == 0 {
        0
    } else {
        let last = fs.last();
        proof {
            assert(decreases_to!(fs => fs[fs.len() - 1]));
        }
        fields_size(fs.drop_last()) + 1 + tsize(last.1)
    }
}

pub proof fn lemma_field_size_lt(fs: Seq<(Seq<char>, TypeV)>, i: int)
    requires
        0 <= i < fs.len(),
    ensures
        tsize(fs[i].1) < fields_size(fs),
    decreases fs.len(),
{
    if i < fs.len() - 1 {
        lemma_field_size_lt(fs.drop_last(), i);
        assert(fs.drop_last()[i] == fs[i]);
    }
}

// ---------------------------------------------------------------------------
// Construction and queries
// ---------------------------------------------------------------------------

/// Rank of a type: the order in which intersection considers the two sides.
pub open spec fn rank_of(t: TypeV) -> int {
    match t {
        TypeV::Any => 0,
        TypeV::Bool => 1,
        TypeV::Number => 2,
        TypeV::Str => 3,
        TypeV::Atomic => 4,
        TypeV::List(_) => 5,
        TypeV::Record(_, opened) => if opened { 6 } else { 7 },
    }
}

impl Type {
    /// A list type.
    pub fn list(element: Type) -> (r: Type)
        ensures
            r@ == TypeV::List(Box::new(element@)),
    {
        Type::List(Box::new(element))
    }

    /// A record type with the given fields.
    pub fn record(fields: Vec<(String, Type)>, is_opened: bool) -> (r: Type)
        ensures
            r@ == TypeV::Record(fields_view(fields@), is_opened),
    {
        Type::Record { fields, is_opened }
    }

    /// An empty opened record type.
    pub fn opened_record() -> (r: Type)
        ensures
            r@ == TypeV::Record(Seq::empty(), true),
    {
        let r = Type::Record { fields: Vec::new(), is_opened: true };
        assert(fields_view(Seq::<(String, Type)>::empty()) =~= Seq::<(Seq<char>, TypeV)>::empty());
        r
    }

    pub fn is_any(&self) -> (r: bool)
        ensures
            r == (self@ is Any),
    {
        match self {
            Type::Any => true,
            _ => false,
        }
    }

    pub fn is_list(&self) -> (r: bool)
        ensures
            r == (self@ is List),
    {
        match self {
            Type::List(_) => true,
            _ => false,
        }
    }

    pub fn is_record(&self) -> (r: bool)
        ensures
            r == (self@ is Record),
    {
        match self {
            Type::Record { .. } => true,
            _ => false,
        }
    }

    /// Element type of a list type.
    pub fn list_element(&self) -> (r: Option<&Type>)
        ensures
            match self@ {
                TypeV::List(e) => r matches Some(x) && x@ == *e,
                _ => r is None,
            },
    {
        match self {
            Type::List(e) => Some(e),
            _ => None,
        }
    }

    /// Fields of a record type.
    pub fn record_fields(&self) -> (r: Option<&Vec<(String, Type)>>)
        ensures
            match self@ {
                TypeV::Record(fs, _) => r matches Some(v) && fields_view(v@) == fs,
                _ => r is None,
            },
    {
        match self {
            Type::Record { fields, .. } => Some(fields),
            _ => None,
        }
    }

    /// Fields of a record type, to be changed in place.
    pub fn record_fields_mut(&mut self) -> (r: Option<&mut Vec<(String, Type)>>)
        ensures
            match *old(self) {
                Type::Record { fields, is_opened } => r matches Some(v) && *v == fields
                    && final(self)@ == TypeV::Record(fields_view(final(v)@), is_opened),
                _ => r is None && final(self)@ == old(self)@,
            },
    {
        match self {
            Type::Record { fields, .. } => Some(fields),
            _ => None,
        }
    }

    /// Whether this is an opened record type.
    pub fn is_opened(&self) -> (r: bool)
        ensures
            r == (self@ matches TypeV::Record(_, o) && o),
    {
        match self {
            Type::Record { is_opened, .. } => *is_opened,
            _ => false,
        }
    }

    /// Rank of the type for intersection ordering.
    pub fn rank(&self) -> (r: u8)
        ensures
            r == rank_of(self@),
    {
        match self {
            Type::Any => 0,
            Type::Bool => 1,
            Type::Number => 2,
            Type::String => 3,
            Type::Atomic => 4,
            Type::List(_) => 5,
            Type::Record { is_opened, .. } => if *is_opened { 6 } else { 7 },
        }
    }
}

} // verus!

verus! {

impl Clone for Type {
    #[verifier::loop_isolation(false)]
    fn clone(&self) -> (r: Type)
        ensures
            r@ == self@,
        decreases self,
    {
        match self {
            Type::Any => Type::Any,
            Type::Atomic => Type::Atomic,
            Type::Number => Type::Number,
            Type::String => Type::String,
            Type::Bool => Type::Bool,
            Type::List(e) => {
                proof {
                    assert(decreases_to!(*self => **e));
                }
                let c = (**e).clone();
                Type::List(Box::new(c))
            },
            Type::Record { fields, is_opened } => {
                let mut out: Vec<(String, Type)> = Vec::new();
                let mut i: usize = 0;
                proof {
                    lemma_fields_view(fields@);
                }
                while i < fields.len()
                    invariant
                        i <= fields.len(),
                        fields_view(out@) == fields_view(fields@).take(i as int),
                    decreases fields.len() - i,
                {
                    proof {
                        assert(decreases_to!(*self => fields@[i as int].1));
                        lemma_fields_view(fields@);
                    }
                    let k = fields[i].0.clone();
                    let c = fields[i].1.clone();
                    let ghost before = out@;
                    out.push((k, c));
                    proof {
                        assert(out@.drop_last() =~= before);
                        assert(fields_view(fields@).take(i + 1) =~= fields_view(fields@).take(i as int).push((fields@[i as int].0@, tv(fields@[i as int].1))));
                    }
                    i = i + 1;
                }
                proof {
                    lemma_fields_view(fields@);
                    assert(fields_view(fields@).take(i as int) =~= fields_view(fields@));
                }
                Type::Record { fields: out, is_opened: *is_opened }
            },
        }
    }
}

} // verus!

verus! {

// ---------------------------------------------------------------------------
// Equality of types
// ---------------------------------------------------------------------------

/// Whether two types are equal. Two opened records are equal when their common
/// fields are; an opened record equals a closed one holding each of its fields
/// with an equal type; closed records are equal when they have the same fields
/// with equal types.
pub open spec fn teq(a: TypeV, b: TypeV) -> bool
    decreases tsize(a) + tsize(b), 1nat,
{
    match a {
        TypeV::Any => b is Any,
        TypeV::Atomic => b is Atomic,
        TypeV::Number => b is Number,
        TypeV::Str => b is Str,
        TypeV::Bool => b is Bool,
        TypeV::List(x) => match b {
            TypeV::List(y) => teq(*x, *y),
            _ => false,
        },
        TypeV::Record(fa, oa) => match b {
            TypeV::Record(fb, ob) => if oa && ob {
                fields_agree(fa, fb, false, true)
            } else if oa && !ob {
                fields_agree(fa, fb, true, true)
            } else if !oa && ob {
                fields_agree(fb, fa, true, true)
            } else {
                fa.len() == fb.len() && fields_agree(fa, fb, true, false)
            },
            _ => false,
        },
    }
}

/// Whether each field `(k, v)` of `xs` agrees with field `k` of `ys`: when `ys`
/// has it, with type `w`, `teq(w, v)` (with `lookup_first`) or `teq(v, w)`
/// holds; when it has not, only if the field is not `required`.
pub open spec fn fields_agree(xs: Seq<(Seq<char>, TypeV)>, ys: Seq<(Seq<char>, TypeV)>, required: bool, lookup_first: bool) -> bool
    decreases fields_size(xs) + fields_size(ys), 0nat,
{
    if xs.len() == 0 {
        true
    } else {
        let (k, v) = xs.last();
        proof {
            assert(fields_size(xs) == fields_size(xs.drop_last()) + 1 + tsize(v));
            lemma_field_index(ys, k);
            let j = field_index(ys, k);
            if j < ys.len() {
                lemma_field_size_lt(ys, j);
            }
        }
        fields_agree(xs.drop_last(), ys, required, lookup_first) && match field_type(ys, k) {
            Some(w) => if lookup_first { teq(w, v) } else { teq(v, w) },
            None => !required,
        }
    }
}

impl Type {
    /// Equality of types, as [`teq`] says.
    pub fn equals(&self, other: &Type) -> (r: bool)
        ensures
            r == teq(self@, other@),
        decreases tsize(self@) + tsize(other@), 1nat,
    {
        match (self, other) {
            (Type::Any, Type::Any) => true,
            (Type::Atomic, Type::Atomic) => true,
            (Type::Number, Type::Number) => true,
            (Type::String, Type::String) => true,
            (Type::Bool, Type::Bool) => true,
            (Type::List(x), Type::List(y)) => (**x).equals(&**y),
            (Type::Record { fields: fa, is_opened: oa }, Type::Record { fields: fb, is_opened: ob }) => {
                proof {
                    lemma_fields_view(fa@);
                    lemma_fields_view(fb@);
                }
                if *oa && *ob {
                    fields_agree_exec(fa, fb, false, true)
                } else if *oa && !*ob {
                    fields_agree_exec(fa, fb, true, true)
                } else if !*oa && *ob {
                    fields_agree_exec(fb, fa, true, true)
                } else {
                    fa.len() == fb.len() && fields_agree_exec(fa, fb, true, false)
                }
            },
            _ => false,
        }
    }
}

fn fields_agree_exec(xs: &Vec<(String, Type)>, ys: &Vec<(String, Type)>, required: bool, lookup_first: bool) -> (r: bool)
    ensures
        r == fields_agree(fields_view(xs@), fields_view(ys@), required, lookup_first),
    decreases fields_size(fields_view(xs@)) + fields_size(fields_view(ys@)), 0nat,
{
    let ghost xv = fields_view(xs@);
    let ghost yv = fields_view(ys@);
    proof {
        lemma_fields_view(xs@);
        lemma_fields_view(ys@);
    }
    let mut i: usize = 0;
    assert(xv.take(0) =~= Seq::<(Seq<char>, TypeV)>::empty());
    while i < xs.len()
        invariant
            i <= xs.len(),
            xv == fields_view(xs@),
            yv == fields_view(ys@),
            xv.len() == xs.len(),
            yv.len() == ys.len(),
            forall|m: int| 0 <= m < xs.len() ==> #[trigger] xv[m] == (xs@[m].0@, tv(xs@[m].1)),
            forall|m: int| 0 <= m < ys.len() ==> #[trigger] yv[m] == (ys@[m].0@, tv(ys@[m].1)),
            fields_agree(xv.take(i as int), yv, required, lookup_first),
        decreases xs.len() - i,
    {
        let ghost pre = xv.take(i as int);
        let ghost cur = xv.take(i + 1);
        proof {
            assert(cur.drop_last() =~= pre);
            assert(cur.last() == xv[i as int]);
            lemma_field_index(yv, xv[i as int].0);
            lemma_field_size_lt(xv, i as int);
            lemma_take_size(xv, i + 1);
        }
        let j = field_position(ys, xs[i].0.as_str());
        let ok = if j < ys.len() {
            proof {
                lemma_field_size_lt(yv, j as int);
            }
            if lookup_first {
                ys[j].1.equals(&xs[i].1)
            } else {
                xs[i].1.equals(&ys[j].1)
            }
        } else {
            !required
        };
        if !ok {
            proof {
                assert(!fields_agree(cur, yv, required, lookup_first));
                if fields_agree(xv, yv, required, lookup_first) {
                    lemma_agree_prefix(xv, yv, required, lookup_first, i + 1);
                }
            }
            return false;
        }
        i = i + 1;
    }
    assert(xv.take(i as int) =~= xv);
    true
}

proof fn lemma_agree_prefix(xs: Seq<(Seq<char>, TypeV)>, ys: Seq<(Seq<char>, TypeV)>, required: bool, lookup_first: bool, n: int)
    requires
        0 <= n <= xs.len(),
        fields_agree(xs, ys, required, lookup_first),
    ensures
        fields_agree(xs.take(n), ys, required, lookup_first),
    decreases xs.len(),
{
    if n < xs.len() {
        assert(xs.drop_last().take(n) =~= xs.take(n));
        lemma_agree_prefix(xs.drop_last(), ys, required, lookup_first, n);
    } else {
        assert(xs.take(n) =~= xs);
    }
}

proof fn lemma_take_size(fs: Seq<(Seq<char>, TypeV)>, n: int)
    requires
        0 <= n <= fs.len(),
    ensures
        fields_size(fs.take(n)) <= fields_size(fs),
    decreases fs.len(),
{
    if n < fs.len() {
        assert(fs.drop_last().take(n) =~= fs.take(n));
        lemma_take_size(fs.drop_last(), n);
    } else {
        assert(fs.take(n) =~= fs);
    }
}

} // verus!

verus! {

// ---------------------------------------------------------------------------
// Text of a type
// ---------------------------------------------------------------------------

/// The text of a type: `any`, `atomic`, `number`, `string`, `bool`, `[element]`,
/// or `{name: type, ...}` with the fields in sorted order.
pub open spec fn type_text(t: TypeV) -> Seq<char>
    decreases t, 1nat,
{
    match t {
        TypeV::Any => "any"@,
        TypeV::Atomic => "atomic"@,
        TypeV::Number => "number"@,
        TypeV::Str => "string"@,
        TypeV::Bool => "bool"@,
        TypeV::List(e) => "["@ + type_text(*e) + "]"@,
        TypeV::Record(fs, _) => "{"@ + crate::text::join(
            crate::type_inference::expression::entry_texts(crate::type_inference::expression::sort_entries(field_type_texts(fs))),
            ", "@,
        ) + "}"@,
    }
}

/// Names and texts of the types of fields, in order.
pub open spec fn field_type_texts(fs: Seq<(Seq<char>, TypeV)>) -> Seq<(Seq<char>, Seq<char>)>
    decreases fs, 0nat,
{
    if fs.len() == 0 {
        seq![]
    } else {
        proof {
            assert(decreases_to!(fs => fs.last()));
        }
        field_type_texts(fs.drop_last()).push((fs.last().0, type_text(fs.last().1)))
    }
}

impl Type {
    /// The text of this type.
    #[verifier::loop_isolation(false)]
    pub fn to_string(&self) -> (r: String)
        ensures
            r@ == type_text(self@),
        decreases self,
    {
        match self {
            Type::Any => "any".to_string(),
            Type::Atomic => "atomic".to_string(),
            Type::Number => "number".to_string(),
            Type::String => "string".to_string(),
            Type::Bool => "bool".to_string(),
            Type::List(e) => {
                let inner = (**e).to_string();
                crate::text::concat3("[", inner.as_str(), "]")
            },
            Type::Record { fields, .. } => {
                let ghost fv = fields_view(fields@);
                proof {
                    lemma_fields_view(fields@);
                }
                let mut entries: Vec<(String, String)> = Vec::new();
                let mut i: usize = 0;
                assert(fv.take(0) =~= Seq::<(Seq<char>, TypeV)>::empty());
                assert(crate::type_inference::expression::pairs_view(entries@) =~= Seq::<(Seq<char>, Seq<char>)>::empty());
                while i < fields.len()
                    invariant
                        i <= fields.len(),
                        fv == fields_view(fields@),
                        fv.len() == fields.len(),
                        crate::type_inference::expression::pairs_view(entries@)
                            == crate::type_inference::expression::sort_entries(field_type_texts(fv.take(i as int))),
                    decreases fields.len() - i,
                {
                    proof {
                        assert(decreases_to!(*self => fields@[i as int].1));
                        lemma_fields_view(fields@);
                        assert(fv.take(i + 1).drop_last() =~= fv.take(i as int));
                        assert(fv.take(i + 1).last() == fv[i as int]);
                    }
                    let t = fields[i].1.to_string();
                    let k = fields[i].0.clone();
                    proof {
                        let ft = field_type_texts(fv.take(i + 1));
                        assert(ft.drop_last() == field_type_texts(fv.take(i as int)));
                        assert(ft.last() == (k@, t@));
                        assert(crate::type_inference::expression::sort_entries(ft) == crate::type_inference::expression::insert_entry(
                            crate::type_inference::expression::sort_entries(ft.drop_last()),
                            ft.last(),
                        ));
                    }
                    crate::type_inference::expression::insert_entry_exec(&mut entries, (k, t));
                    i = i + 1;
                }
                assert(fv.take(i as int) =~= fv);
                let ghost ev = crate::type_inference::expression::pairs_view(entries@);
                let mut texts: Vec<String> = Vec::new();
                let mut j: usize = 0;
                assert(texts@.map_values(|t: String| t@) =~= crate::type_inference::expression::entry_texts(ev).take(0));
                while j < entries.len()
                    invariant
                        j <= entries.len(),
                        ev == crate::type_inference::expression::pairs_view(entries@),
                        texts@.map_values(|t: String| t@) == crate::type_inference::expression::entry_texts(ev).take(j as int),
                    decreases entries.len() - j,
                {
                    let t = crate::text::concat3(entries[j].0.as_str(), ": ", entries[j].1.as_str());
                    let ghost before = texts@.map_values(|t: String| t@);
                    texts.push(t);
                    assert(texts@.map_values(|t: String| t@) =~= before.push(t@));
                    assert(crate::type_inference::expression::entry_texts(ev).take(j + 1)
                        =~= crate::type_inference::expression::entry_texts(ev).take(j as int).push(ev[j as int].0 + ": "@ + ev[j as int].1));
                    j = j + 1;
                }
                assert(crate::type_inference::expression::entry_texts(ev).take(j as int) =~= crate::type_inference::expression::entry_texts(ev));
                let joined = crate::text::join_strings(&texts, ", ");
                crate::text::concat3("{", joined.as_str(), "}")
            },
        }
    }
}

} // verus!

verus! {

impl Default for Type {
    fn default() -> (r: Type)
        ensures
            r@ == TypeV::Any,
    {
        Type::Any
    }
}

} // verus!
