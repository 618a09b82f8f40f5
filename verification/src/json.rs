//! The syntax tree of a parsed Logica program: a JSON-like value.
//!
//! Objects keep their keys in insertion order. Their abstract view, [`JVal`],
//! replaces strings by their characters and vectors by sequences.

use vstd::prelude::*;
use crate::text::{chars_of, chars_eq, string_of, extend_chars, extend_str, int_text, int_to_string};

verus! {

/// Abstract value of a [`Json`] tree.
pub enum JVal {
    Null,
    Bool(bool),
    Int(i64),
    Str(Seq<char>),
    Array(Seq<JVal>),
    Object(Seq<(Seq<char>, JVal)>),
}

/// An object: key/value entries in insertion order, with distinct keys when
/// built through [`JsonObject::insert`].
#[derive(Debug)]
pub struct JsonObject {
    pub entries: Vec<(String, Json)>,
}

/// A node of the parsed program.
#[derive(Debug)]
pub enum Json {
    Null,
    Bool(bool),
    Int(i64),
    Str(String),
    Array(Vec<Json>),
    Object(JsonObject),
}

pub open spec fn jv(j: Json) -> JVal
    decreases j,
{
    match j {
        Json::Null => JVal::Null,
        Json::Bool(b) => JVal::Bool(b),
        Json::Int(i) => JVal::Int(i),
        Json::Str(s) => JVal::Str(s@),
        Json::Array(v) => JVal::Array(jv_seq(v@)),
        Json::Object(o) => JVal::Object(jv_entries(o.entries@)),
    }
}

pub open spec fn jv_seq(s: Seq<Json>) -> Seq<JVal>
    decreases s,
{
    if s.len() == 0 {
        seq![]
    } else {
        jv_seq(s.drop_last()).push(jv(s.last()))
    }
}

pub open spec fn jv_entries(s: Seq<(String, Json)>) -> Seq<(Seq<char>, JVal)>
    decreases s,
{
    if s.len() == 0 {
        seq![]
    } else {
        jv_entries(s.drop_last()).push((s.last().0@, jv(s.last().1)))
    }
}

impl View for Json {
    type V = JVal;

    open spec fn view(&self) -> JVal {
        jv(*self)
    }
}

impl View for JsonObject {
    type V = Seq<(Seq<char>, JVal)>;

    open spec fn view(&self) -> Seq<(Seq<char>, JVal)> {
        jv_entries(self.entries@)
    }
}

pub broadcast proof fn lemma_jv_seq_len(s: Seq<Json>)
    ensures
        #[trigger] jv_seq(s).len() == s.len(),
    decreases s.len(),
{
    if s.len() > 0 {
        lemma_jv_seq_len(s.drop_last());
    }
}

pub broadcast proof fn lemma_jv_seq_index(s: Seq<Json>, i: int)
    requires
        0 <= i < s.len(),
    ensures
        #[trigger] jv_seq(s)[i] == jv(s[i]),
    decreases s.len(),
{
    lemma_jv_seq_len(s.drop_last());
    if i < s.len() - 1 {
        lemma_jv_seq_index(s.drop_last(), i);
        assert(s.drop_last()[i] == s[i]);
    }
}

pub broadcast proof fn lemma_jv_entries_len(s: Seq<(String, Json)>)
    ensures
        #[trigger] jv_entries(s).len() == s.len(),
    decreases s.len(),
{
    if s.len() > 0 {
        lemma_jv_entries_len(s.drop_last());
    }
}

pub broadcast proof fn lemma_jv_entries_index(s: Seq<(String, Json)>, i: int)
    requires
        0 <= i < s.len(),
    ensures
        #[trigger] jv_entries(s)[i] == (s[i].0@, jv(s[i].1)),
    decreases s.len(),
{
    lemma_jv_entries_len(s.drop_last());
    if i < s.len() - 1 {
        lemma_jv_entries_index(s.drop_last(), i);
        assert(s.drop_last()[i] == s[i]);
    }
}

/// The view of two entry lists joined is the two views joined.
pub proof fn lemma_jv_entries_append(a: Seq<(String, Json)>, b: Seq<(String, Json)>)
    ensures
        jv_entries(a + b) == jv_entries(a) + jv_entries(b),
    decreases b.len(),
{
    if b.len() == 0 {
        assert(a + b =~= a);
        assert(jv_entries(a) + jv_entries(b) =~= jv_entries(a));
    } else {
        lemma_jv_entries_append(a, b.drop_last());
        assert((a + b).drop_last() =~= a + b.drop_last());
        assert((a + b).last() == b.last());
        assert(jv_entries(a) + jv_entries(b) =~= (jv_entries(a) + jv_entries(b.drop_last())).push((b.last().0@, jv(b.last().1))));
    }
}

/// The view of two lists of values joined is the two views joined.
pub proof fn lemma_jv_seq_append(a: Seq<Json>, b: Seq<Json>)
    ensures
        jv_seq(a + b) == jv_seq(a) + jv_seq(b),
    decreases b.len(),
{
    if b.len() == 0 {
        assert(a + b =~= a);
        assert(jv_seq(a) + jv_seq(b) =~= jv_seq(a));
    } else {
        lemma_jv_seq_append(a, b.drop_last());
        assert((a + b).drop_last() =~= a + b.drop_last());
        assert((a + b).last() == b.last());
        assert(jv_seq(a) + jv_seq(b) =~= (jv_seq(a) + jv_seq(b.drop_last())).push(jv(b.last())));
    }
}

pub broadcast group group_json_view {
    lemma_jv_seq_len,
    lemma_jv_seq_index,
    lemma_jv_entries_len,
    lemma_jv_entries_index,
}

// ---------------------------------------------------------------------------
// Abstract accessors
// ---------------------------------------------------------------------------

/// Index of the first entry with key `k`, or the length when there is none.
pub open spec fn entry_index(es: Seq<(Seq<char>, JVal)>, k: Seq<char>) -> int
    decreases es.len(),
{
    if es.len() == 0 {
        0
    } else if es[0].0 == k {
        0
    } else {
        1 + entry_index(es.drop_first(), k)
    }
}

/// Value of the first entry with key `k`.
pub open spec fn entries_get(es: Seq<(Seq<char>, JVal)>, k: Seq<char>) -> Option<JVal>
    decreases es.len(),
{
    if es.len() == 0 {
        None
    } else if es[0].0 == k {
        Some(es[0].1)
    } else {
        entries_get(es.drop_first(), k)
    }
}

/// Member `k` of an object value; `None` for other values.
pub open spec fn jget(v: JVal, k: Seq<char>) -> Option<JVal> {
    match v {
        JVal::Object(es) => entries_get(es, k),
        _ => None,
    }
}

pub open spec fn has_key(v: JVal, k: Seq<char>) -> bool {
    jget(v, k).is_some()
}

/// Characters of a string value; empty for other values.
pub open spec fn jstr(v: JVal) -> Seq<char> {
    match v {
        JVal::Str(s) => s,
        _ => seq![],
    }
}

/// Integer of an int value; zero for other values.
pub open spec fn jint(v: JVal) -> i64 {
    match v {
        JVal::Int(i) => i,
        _ => 0,
    }
}

/// Elements of an array value; empty for other values.
pub open spec fn jitems(v: JVal) -> Seq<JVal> {
    match v {
        JVal::Array(a) => a,
        _ => seq![],
    }
}

pub open spec fn jentries(v: JVal) -> Seq<(Seq<char>, JVal)> {
    match v {
        JVal::Object(es) => es,
        _ => seq![],
    }
}

/// Member `k` of `v`, or `Null` when absent.
pub open spec fn jfield(v: JVal, k: Seq<char>) -> JVal {
    match jget(v, k) {
        Some(x) => x,
        None => JVal::Null,
    }
}

/// `es` with the value of key `k` set to `x`: the first entry with that key is
/// replaced, or the pair is appended.
pub open spec fn entries_insert(es: Seq<(Seq<char>, JVal)>, k: Seq<char>, x: JVal) -> Seq<(Seq<char>, JVal)> {
    let i = entry_index(es, k);
    if i < es.len() {
        es.update(i, (k, x))
    } else {
        es.push((k, x))
    }
}

/// `es` without its entries whose key is `k`.
pub open spec fn entries_remove(es: Seq<(Seq<char>, JVal)>, k: Seq<char>) -> Seq<(Seq<char>, JVal)>
    decreases es.len(),
{
    if es.len() == 0 {
        es
    } else if es.last().0 == k {
        entries_remove(es.drop_last(), k)
    } else {
        entries_remove(es.drop_last(), k).push(es.last())
    }
}

pub proof fn lemma_entry_index(es: Seq<(Seq<char>, JVal)>, k: Seq<char>)
    ensures
        0 <= entry_index(es, k) <= es.len(),
        entry_index(es, k) < es.len() ==> es[entry_index(es, k)].0 == k && entries_get(es, k)
            == Some(es[entry_index(es, k)].1),
        entry_index(es, k) == es.len() ==> entries_get(es, k).is_none(),
        forall|j: int| 0 <= j < entry_index(es, k) ==> es[j].0 != k,
    decreases es.len(),
{
    if es.len() > 0 && es[0].0 != k {
        lemma_entry_index(es.drop_first(), k);
        assert forall|j: int| 0 <= j < entry_index(es, k) implies es[j].0 != k by {
            if j > 0 {
                assert(es[j] == es.drop_first()[j - 1]);
            }
        }
    }
}

pub proof fn lemma_entries_insert_get(es: Seq<(Seq<char>, JVal)>, k: Seq<char>, x: JVal, q: Seq<char>)
    ensures
        entries_get(entries_insert(es, k, x), q) == if q == k { Some(x) } else { entries_get(es, q) },
    decreases es.len(),
{
    lemma_entry_index(es, k);
    let ins = entries_insert(es, k, x);
    if es.len() == 0 {
        assert(ins =~= seq![(k, x)]);
        assert(ins.drop_first() =~= Seq::<(Seq<char>, JVal)>::empty());
    } else if es[0].0 == k {
        assert(entry_index(es, k) == 0);
        assert(ins[0] == (k, x));
        assert(ins.drop_first() =~= es.drop_first());
    } else {
        lemma_entries_insert_get(es.drop_first(), k, x, q);
        lemma_entry_index(es.drop_first(), k);
        assert(entry_index(es, k) == 1 + entry_index(es.drop_first(), k));
        assert(ins.len() > 0);
        assert(ins[0] == es[0]);
        assert(ins.drop_first() =~= entries_insert(es.drop_first(), k, x));
        if es[0].0 == q {
            assert(entries_get(ins, q) == Some(ins[0].1));
            assert(entries_get(es, q) == Some(es[0].1));
        } else {
            assert(entries_get(ins, q) == entries_get(ins.drop_first(), q));
            assert(entries_get(es, q) == entries_get(es.drop_first(), q));
        }
    }
}

// ---------------------------------------------------------------------------
// Executable API
// ---------------------------------------------------------------------------

impl JsonObject {
    pub fn new() -> (r: JsonObject)
        ensures
            r@ == Seq::<(Seq<char>, JVal)>::empty(),
    {
        JsonObject { entries: Vec::new() }
    }

    /// Position of the first entry with key `k`, if any.
    pub fn position(&self, k: &str) -> (r: Option<usize>)
        ensures
            match r {
                Some(i) => i == entry_index(self@, k@) && i < self@.len(),
                None => entry_index(self@, k@) == self@.len(),
            },
    {
        broadcast use group_json_view;
        proof {
            lemma_entry_index(self@, k@);
        }
        let kc = chars_of(k);
        let mut i: usize = 0;
        while i < self.entries.len()
            invariant
                kc@ == k@,
                i <= self.entries.len(),
                self@.len() == self.entries.len(),
                forall|j: int| 0 <= j < i ==> self@[j].0 != k@,
            decreases self.entries.len() - i,
        {
            let ec = chars_of(self.entries[i].0.as_str());
            proof {
                lemma_jv_entries_index(self.entries@, i as int);
            }
            if chars_eq(&ec, &kc) {
                proof {
                    lemma_first_match(self@, k@, i as int);
                }
                return Some(i);
            }
            i = i + 1;
        }
        proof {
            lemma_no_match(self@, k@);
        }
        None
    }

    /// Value of the first entry with key `k`.
    pub fn get(&self, k: &str) -> (r: Option<&Json>)
        ensures
            match r {
                Some(x) => entries_get(self@, k@) == Some(x@),
                None => entries_get(self@, k@).is_none(),
            },
    {
        broadcast use group_json_view;
        proof {
            lemma_entry_index(self@, k@);
        }
        match self.position(k) {
            Some(i) => Some(&self.entries[i].1),
            None => None,
        }
    }

    pub fn contains_key(&self, k: &str) -> (r: bool)
        ensures
            r == entries_get(self@, k@).is_some(),
    {
        self.get(k).is_some()
    }

    /// Set the value of key `k` (replacing the first entry with that key, or
    /// appending a new entry).
    pub fn insert(&mut self, k: String, v: Json)
        ensures
            final(self)@ == entries_insert(old(self)@, k@, v@),
    {
        broadcast use group_json_view;
        proof {
            lemma_entry_index(old(self)@, k@);
        }
        match self.position(k.as_str()) {
            Some(i) => {
                let ghost k_v = k@;
                self.entries.set(i, (k, v));
                assert(self@ =~= entries_insert(old(self)@, k_v, v@));
            },
            None => {
                let ghost k_v = k@;
                let ghost v_v = v@;
                self.entries.push((k, v));
                assert(self@ =~= entries_insert(old(self)@, k_v, v_v));
            },
        }
    }

    /// Remove every entry with key `k`.
    pub fn remove(&mut self, k: &str)
        ensures
            final(self)@ == entries_remove(old(self)@, k@),
    {
        broadcast use group_json_view;
        let kc = chars_of(k);
        let mut i: usize = 0;
        let ghost consumed: int = 0;
        proof {
            lemma_jv_entries_len(self.entries@);
        }
        assert(old(self)@.subrange(0, 0) =~= Seq::<(Seq<char>, JVal)>::empty());
        while i < self.entries.len()
            invariant
                kc@ == k@,
                0 <= consumed <= old(self)@.len(),
                i <= self@.len(),
                self@.len() == self.entries.len(),
                old(self)@.len() == old(self).entries.len(),
                self@.len() - i == old(self)@.len() - consumed,
                self@.subrange(0, i as int) == entries_remove(old(self)@.subrange(0, consumed), k@),
                self@.subrange(i as int, self@.len() as int) == old(self)@.subrange(consumed, old(self)@.len() as int),
            decreases self.entries.len() - i,
        {
            let ec = chars_of(self.entries[i].0.as_str());
            proof {
                lemma_jv_entries_index(self.entries@, i as int);
                lemma_jv_entries_len(self.entries@);
                lemma_jv_entries_len(old(self).entries@);
            }
            let ghost top = self@;
            let ghost c0 = consumed;
            assert(old(self)@.subrange(c0 + 1, old(self)@.len() as int) =~= old(self)@.subrange(c0, old(self)@.len() as int).drop_first());
            assert(top.subrange(i + 1, top.len() as int) =~= top.subrange(i as int, top.len() as int).drop_first());
            let ghost pre = old(self)@.subrange(0, consumed + 1);
            assert(pre.drop_last() =~= old(self)@.subrange(0, consumed));
            assert(pre.last() == self@[i as int]) by {
                assert(self@.subrange(i as int, self@.len() as int)[0] == self@[i as int]);
                assert(old(self)@.subrange(consumed, old(self)@.len() as int)[0] == pre.last());
            }
            if chars_eq(&ec, &kc) {
                let ghost before = self@;
                let ghost before_entries = self.entries@;
                self.entries.remove(i);
                proof {
                    lemma_jv_entries_remove(before_entries, i as int);
                    lemma_jv_entries_len(self.entries@);
                    consumed = consumed + 1;
                    assert(self@.subrange(0, i as int) =~= before.subrange(0, i as int));
                    assert(self@.subrange(i as int, self@.len() as int) =~= before.subrange(i + 1, before.len() as int));
                }
            } else {
                proof {
                    consumed = consumed + 1;
                    assert(self@.subrange(0, i + 1) =~= self@.subrange(0, i as int).push(self@[i as int]));
                }
                i = i + 1;
            }
        }
        assert(old(self)@.subrange(consumed, old(self)@.len() as int).len() == 0);
        assert(old(self)@.subrange(0, consumed) =~= old(self)@);
        assert(self@.subrange(0, i as int) =~= self@);
    }

    pub fn len(&self) -> (r: usize)
        ensures
            r == self@.len(),
    {
        broadcast use group_json_view;
        self.entries.len()
    }

    pub fn is_empty(&self) -> (r: bool)
        ensures
            r == (self@.len() == 0),
    {
        broadcast use group_json_view;
        self.entries.len() == 0
    }
}

proof fn lemma_jv_entries_remove(s: Seq<(String, Json)>, i: int)
    requires
        0 <= i < s.len(),
    ensures
        jv_entries(s.remove(i)) == jv_entries(s).remove(i),
{
    let a = jv_entries(s.remove(i));
    let b = jv_entries(s).remove(i);
    lemma_jv_entries_len(s.remove(i));
    lemma_jv_entries_len(s);
    assert forall|j: int| 0 <= j < a.len() implies a[j] == b[j] by {
        lemma_jv_entries_index(s.remove(i), j);
        if j < i {
            lemma_jv_entries_index(s, j);
        } else {
            lemma_jv_entries_index(s, j + 1);
        }
    }
    assert(a =~= b);
}

proof fn lemma_first_match(es: Seq<(Seq<char>, JVal)>, k: Seq<char>, i: int)
    requires
        0 <= i < es.len(),
        es[i].0 == k,
        forall|j: int| 0 <= j < i ==> es[j].0 != k,
    ensures
        entry_index(es, k) == i,
    decreases i,
{
    if i > 0 {
        lemma_first_match(es.drop_first(), k, i - 1);
    }
}

proof fn lemma_no_match(es: Seq<(Seq<char>, JVal)>, k: Seq<char>)
    requires
        forall|j: int| 0 <= j < es.len() ==> es[j].0 != k,
    ensures
        entry_index(es, k) == es.len(),
    decreases es.len(),
{
    if es.len() > 0 {
        lemma_no_match(es.drop_first(), k);
    }
}

impl Json {
    /// Member `k` of an object; `None` for other values or when absent.
    pub fn get(&self, k: &str) -> (r: Option<&Json>)
        ensures
            match r {
                Some(x) => jget(self@, k@) == Some(x@),
                None => jget(self@, k@).is_none(),
            },
            opt_view(r) == jfield(self@, k@),
    {
        match self {
            Json::Object(o) => o.get(k),
            _ => None,
        }
    }

    /// Whether this is an object with member `k`.
    pub fn has(&self, k: &str) -> (r: bool)
        ensures
            r == has_key(self@, k@),
    {
        self.get(k).is_some()
    }

    /// Characters of a string value; empty for other values.
    pub fn as_str(&self) -> (r: &str)
        ensures
            r@ == jstr(self@),
    {
        match self {
            Json::Str(s) => s.as_str(),
            _ => {
                let e = "";
                proof {
                    reveal_strlit("");
                }
                e
            },
        }
    }

    /// Integer of an int value; zero for other values.
    pub fn as_int(&self) -> (r: i64)
        ensures
            r == jint(self@),
    {
        match self {
            Json::Int(i) => *i,
            _ => 0,
        }
    }

    /// Elements of an array value.
    pub fn items(&self) -> (r: Option<&Vec<Json>>)
        ensures
            self@ is Array <==> r.is_some(),
            r matches Some(v) ==> jv_seq(v@) == jitems(self@),
    {
        match self {
            Json::Array(v) => Some(v),
            _ => None,
        }
    }

    /// Entries of an object value.
    pub fn object(&self) -> (r: Option<&JsonObject>)
        ensures
            self@ is Object <==> r.is_some(),
            r matches Some(o) ==> o@ == jentries(self@),
    {
        match self {
            Json::Object(o) => Some(o),
            _ => None,
        }
    }

    pub fn is_object(&self) -> (r: bool)
        ensures
            r == (self@ is Object),
    {
        match self {
            Json::Object(_) => true,
            _ => false,
        }
    }

    pub fn is_array(&self) -> (r: bool)
        ensures
            r == (self@ is Array),
    {
        match self {
            Json::Array(_) => true,
            _ => false,
        }
    }

    pub fn is_string(&self) -> (r: bool)
        ensures
            r == (self@ is Str),
    {
        match self {
            Json::Str(_) => true,
            _ => false,
        }
    }

    pub fn is_int(&self) -> (r: bool)
        ensures
            r == (self@ is Int),
    {
        match self {
            Json::Int(_) => true,
            _ => false,
        }
    }

    pub fn is_bool(&self) -> (r: bool)
        ensures
            r == (self@ is Bool),
    {
        match self {
            Json::Bool(_) => true,
            _ => false,
        }
    }

    pub fn is_null(&self) -> (r: bool)
        ensures
            r == (self@ is Null),
    {
        match self {
            Json::Null => true,
            _ => false,
        }
    }

    /// A string value holding the characters of `s`.
    pub fn string(s: &str) -> (r: Json)
        ensures
            r@ == JVal::Str(s@),
    {
        Json::Str(s.to_string())
    }
}

impl Clone for Json {
    #[verifier::loop_isolation(false)]
    fn clone(&self) -> (r: Json)
        ensures
            r@ == self@,
        decreases self,
    {
        match self {
            Json::Null => Json::Null,
            Json::Bool(b) => Json::Bool(*b),
            Json::Int(i) => Json::Int(*i),
            Json::Str(s) => Json::Str(s.clone()),
            Json::Array(v) => {
                let mut out: Vec<Json> = Vec::new();
                let mut i: usize = 0;
                while i < v.len()
                    invariant
                        i <= v.len(),
                        jv_seq(out@) == jv_seq(v@).subrange(0, i as int),
                    decreases v.len() - i,
                {
                    proof {
                        lemma_jv_seq_len(v@);
                        lemma_jv_seq_len(out@);
                        lemma_jv_seq_index(v@, i as int);
                    }
                    proof {
                        assert(decreases_to!(*self => v@[i as int]));
                    }
                    let c = v[i].clone();
                    let ghost before = out@;
                    out.push(c);
                    proof {
                        assert(out@.drop_last() =~= before);
                        assert(jv_seq(v@).subrange(0, i + 1) =~= jv_seq(v@).subrange(0, i as int).push(jv(v@[i as int])));
                    }
                    i = i + 1;
                }
                proof {
                    lemma_jv_seq_len(v@);
                    assert(jv_seq(v@).subrange(0, i as int) =~= jv_seq(v@));
                }
                Json::Array(out)
            },
            Json::Object(o) => {
                let mut out: Vec<(String, Json)> = Vec::new();
                let mut i: usize = 0;
                while i < o.entries.len()
                    invariant
                        i <= o.entries.len(),
                        jv_entries(out@) == jv_entries(o.entries@).subrange(0, i as int),
                    decreases o.entries.len() - i,
                {
                    proof {
                        lemma_jv_entries_len(o.entries@);
                        lemma_jv_entries_index(o.entries@, i as int);
                    }
                    let k = o.entries[i].0.clone();
                    proof {
                        assert(decreases_to!(*self => o.entries@[i as int].1));
                    }
                    let c = o.entries[i].1.clone();
                    let ghost before = out@;
                    out.push((k, c));
                    proof {
                        assert(out@.drop_last() =~= before);
                        assert(jv_entries(o.entries@).subrange(0, i + 1) =~= jv_entries(o.entries@).subrange(0, i as int).push((o.entries@[i as int].0@, jv(o.entries@[i as int].1))));
                    }
                    i = i + 1;
                }
                proof {
                    lemma_jv_entries_len(o.entries@);
                    assert(jv_entries(o.entries@).subrange(0, i as int) =~= jv_entries(o.entries@));
                }
                Json::Object(JsonObject { entries: out })
            },
        }
    }
}

impl Clone for JsonObject {
    fn clone(&self) -> (r: JsonObject)
        ensures
            r@ == self@,
    {
        let j = Json::Object(JsonObject { entries: Vec::new() });
        let mut out: Vec<(String, Json)> = Vec::new();
        let mut i: usize = 0;
        while i < self.entries.len()
            invariant
                i <= self.entries.len(),
                jv_entries(out@) == jv_entries(self.entries@).subrange(0, i as int),
            decreases self.entries.len() - i,
        {
            proof {
                lemma_jv_entries_len(self.entries@);
                lemma_jv_entries_index(self.entries@, i as int);
            }
            let k = self.entries[i].0.clone();
            let c = self.entries[i].1.clone();
            let ghost before = out@;
            out.push((k, c));
            proof {
                assert(out@.drop_last() =~= before);
                assert(jv_entries(self.entries@).subrange(0, i + 1) =~= jv_entries(self.entries@).subrange(0, i as int).push((self.entries@[i as int].0@, jv(self.entries@[i as int].1))));
            }
            i = i + 1;
        }
        proof {
            lemma_jv_entries_len(self.entries@);
            assert(jv_entries(self.entries@).subrange(0, i as int) =~= jv_entries(self.entries@));
        }
        JsonObject { entries: out }
    }
}

/// An object value built from key/value pairs, inserted in order.
pub fn json_obj(pairs: Vec<(String, Json)>) -> (r: Json)
    ensures
        r@ == JVal::Object(insert_all(jv_entries(pairs@))),
{
    let mut o = JsonObject::new();
    let mut i: usize = 0;
    let n = pairs.len();
    proof {
        lemma_jv_entries_len(pairs@);
    }
    let ghost ps = jv_entries(pairs@);
    let mut pairs = pairs;
    // consume from the front: reverse first so that pop yields pairs in order
    let mut rev: Vec<(String, Json)> = Vec::new();
    while pairs.len() > 0
        invariant
            jv_entries(rev@).len() + jv_entries(pairs@).len() == ps.len(),
            ps == jv_entries(pairs@) + jv_entries(rev@).reverse(),
        decreases pairs.len(),
    {
        proof {
            lemma_jv_entries_len(pairs@);
            lemma_jv_entries_len(rev@);
        }
        let ghost p0 = pairs@;
        let ghost r0 = rev@;
        let e = pairs.pop().unwrap();
        rev.push(e);
        proof {
            assert(pairs@ =~= p0.drop_last());
            assert(rev@.drop_last() =~= r0);
            assert(jv_entries(rev@) == jv_entries(r0).push((e.0@, jv(e.1))));
            assert(jv_entries(p0) == jv_entries(pairs@).push((e.0@, jv(e.1))));
            assert(jv_entries(rev@).reverse() =~= seq![(e.0@, jv(e.1))] + jv_entries(r0).reverse());
            lemma_jv_entries_len(pairs@);
            lemma_jv_entries_len(rev@);
        }
    }
    proof {
        lemma_jv_entries_len(pairs@);
        assert(jv_entries(pairs@) =~= Seq::<(Seq<char>, JVal)>::empty());
        assert(ps =~= jv_entries(rev@).reverse());
        assert(o@ == insert_all(ps.subrange(0, 0)));
    }
    while rev.len() > 0
        invariant
            ps.len() == n,
            jv_entries(rev@).len() + i == ps.len(),
            ps.subrange(i as int, ps.len() as int) == jv_entries(rev@).reverse(),
            o@ == insert_all(ps.subrange(0, i as int)),
        decreases rev.len(),
    {
        proof {
            lemma_jv_entries_len(rev@);
        }
        let ghost r0 = rev@;
        let (k, v) = rev.pop().unwrap();
        proof {
            assert(rev@ =~= r0.drop_last());
            assert(jv_entries(r0) == jv_entries(rev@).push((k@, jv(v))));
            assert(jv_entries(r0).reverse() =~= seq![(k@, jv(v))] + jv_entries(rev@).reverse());
            assert(ps[i as int] == (k@, jv(v))) by {
                assert(ps.subrange(i as int, ps.len() as int)[0] == ps[i as int]);
            }
            assert(ps.subrange(0, i + 1).drop_last() =~= ps.subrange(0, i as int));
            assert(ps.subrange(i + 1, ps.len() as int) =~= ps.subrange(i as int, ps.len() as int).drop_first());
            lemma_jv_entries_len(rev@);
        }
        o.insert(k, v);
        i = i + 1;
    }
    proof {
        assert(ps.subrange(0, i as int) =~= ps);
    }
    Json::Object(o)
}

// ---------------------------------------------------------------------------
// Size
// ---------------------------------------------------------------------------

/// Number of nodes of a value, counting containers and their members; a measure
/// that every member, and every absent member (read as `Null`), is below.
pub open spec fn jsize(v: JVal) -> nat
    decreases v,
{
    match v {
        JVal::Array(a) => 1 + seq_size(a),
        JVal::Object(es) => 1 + entries_size(es),
        _ => 0,
    }
}

pub open spec fn seq_size(a: Seq<JVal>) -> nat
    decreases a,
{
    if a.len() == 0 {
        0
    } else {
        seq_size(a.drop_last()) + 1 + jsize(a.last())
    }
}

pub open spec fn entries_size(es: Seq<(Seq<char>, JVal)>) -> nat
    decreases es,
{
    if es.len() == 0 {
        0
    } else {
        let last = es.last();
        proof {
            assert(decreases_to!(es => es[es.len() - 1]));
        }
        entries_size(es.drop_last()) + 1 + jsize(last.1)
    }
}

pub proof fn lemma_item_size(a: Seq<JVal>, i: int)
    requires
        0 <= i < a.len(),
    ensures
        jsize(a[i]) < seq_size(a),
    decreases a.len(),
{
    if i < a.len() - 1 {
        lemma_item_size(a.drop_last(), i);
        assert(a.drop_last()[i] == a[i]);
    }
}

pub proof fn lemma_entry_size(es: Seq<(Seq<char>, JVal)>, i: int)
    requires
        0 <= i < es.len(),
    ensures
        jsize(es[i].1) < entries_size(es),
    decreases es.len(),
{
    if i < es.len() - 1 {
        lemma_entry_size(es.drop_last(), i);
        assert(es.drop_last()[i] == es[i]);
    }
}

pub proof fn lemma_entries_get_at(es: Seq<(Seq<char>, JVal)>, k: Seq<char>)
    ensures
        entries_get(es, k) matches Some(x) ==> exists|i: int| 0 <= i < es.len() && x == es[i].1,
    decreases es.len(),
{
    if es.len() > 0 && es[0].0 != k {
        lemma_entries_get_at(es.drop_first(), k);
        if let Some(x) = entries_get(es, k) {
            let i = choose|i: int| 0 <= i < es.drop_first().len() && x == es.drop_first()[i].1;
            assert(es[i + 1] == es.drop_first()[i]);
        }
    }
}

/// A prefix of a list is no larger than the list.
pub proof fn lemma_seq_size_prefix(a: Seq<JVal>, n: int)
    requires
        0 <= n <= a.len(),
    ensures
        seq_size(a.take(n)) <= seq_size(a),
    decreases a.len() - n,
{
    if n < a.len() {
        lemma_seq_size_prefix(a, n + 1);
        assert(a.take(n + 1).drop_last() =~= a.take(n));
    } else {
        assert(a.take(n) =~= a);
    }
}

/// A member is smaller than its object; any other read gives `Null`, of size 0.
pub proof fn lemma_field_size(v: JVal, k: Seq<char>)
    ensures
        jsize(jfield(v, k)) <= jsize(v),
        v is Object ==> jsize(jfield(v, k)) < jsize(v),
        jget(v, k) matches Some(x) ==> jsize(x) < jsize(v),
{
    if let JVal::Object(es) = v {
        lemma_entries_get_at(es, k);
        if let Some(x) = entries_get(es, k) {
            let i = choose|i: int| 0 <= i < es.len() && x == es[i].1;
            lemma_entry_size(es, i);
        }
    }
}

/// The elements of an array are together smaller than the array.
pub proof fn lemma_items_size(v: JVal)
    ensures
        seq_size(jitems(v)) <= jsize(v),
        v is Array ==> seq_size(jitems(v)) < jsize(v),
{
    if !(v is Array) {
        assert(jitems(v) =~= Seq::<JVal>::empty());
    }
}

/// The value of an optional reference, `Null` when there is none.
pub open spec fn opt_view(o: Option<&Json>) -> JVal {
    match o {
        Some(x) => x@,
        None => JVal::Null,
    }
}

/// Member `k` of an optional value.
pub fn opt_field<'b>(o: Option<&'b Json>, k: &str) -> (r: Option<&'b Json>)
    ensures
        opt_view(r) == jfield(opt_view(o), k@),
        match r {
            Some(x) => jget(opt_view(o), k@) == Some(x@),
            None => jget(opt_view(o), k@) is None,
        },
{
    match o {
        Some(x) => x.get(k),
        None => None,
    }
}

/// Elements of an optional array value; empty for anything else.
pub fn opt_elements<'b>(o: Option<&'b Json>) -> (r: &'b [Json])
    ensures
        jv_seq(r@) == jitems(opt_view(o)),
{
    broadcast use group_json_view;
    match o {
        Some(Json::Array(v)) => v.as_slice(),
        _ => {
            let e: &[Json] = &[];
            assert(jv_seq(e@) =~= Seq::<JVal>::empty());
            e
        },
    }
}

/// Characters of an optional string value; empty for anything else.
pub fn opt_str<'b>(o: Option<&'b Json>) -> (r: &'b str)
    ensures
        r@ == jstr(opt_view(o)),
{
    match o {
        Some(x) => x.as_str(),
        None => {
            let e = "";
            proof {
                reveal_strlit("");
            }
            e
        },
    }
}

// ---------------------------------------------------------------------------
// Text form
// ---------------------------------------------------------------------------

/// A character as it is written inside a JSON string.
pub open spec fn escape_char(c: char) -> Seq<char> {
    if c == '"' {
        seq!['\\', '"']
    } else if c == '\\' {
        seq!['\\', '\\']
    } else if c == '\n' {
        seq!['\\', 'n']
    } else if c == '\r' {
        seq!['\\', 'r']
    } else if c == '\t' {
        seq!['\\', 't']
    } else {
        seq![c]
    }
}

pub open spec fn escape_json(s: Seq<char>) -> Seq<char>
    decreases s.len(),
{
    if s.len() == 0 {
        seq![]
    } else {
        escape_json(s.drop_last()) + escape_char(s.last())
    }
}

/// A string in double quotes, escaped.
pub open spec fn quoted_json(s: Seq<char>) -> Seq<char> {
    seq!['"'] + escape_json(s) + seq!['"']
}

/// Compact JSON text of a value: no spaces, members in their order.
pub open spec fn json_text(v: JVal) -> Seq<char>
    decreases v, 0nat,
{
    match v {
        JVal::Null => seq!['n', 'u', 'l', 'l'],
        JVal::Bool(b) => if b { seq!['t', 'r', 'u', 'e'] } else { seq!['f', 'a', 'l', 's', 'e'] },
        JVal::Int(i) => int_text(i as int),
        JVal::Str(s) => quoted_json(s),
        JVal::Array(a) => seq!['['] + items_text(a, a.len()) + seq![']'],
        JVal::Object(es) => seq!['{'] + members_text(es, es.len()) + seq!['}'],
    }
}

/// Texts of the first `n` elements, separated by commas.
pub open spec fn items_text(a: Seq<JVal>, n: nat) -> Seq<char>
    decreases a, n,
{
    if n == 0 || n > a.len() {
        seq![]
    } else if n == 1 {
        json_text(a[0])
    } else {
        items_text(a, (n - 1) as nat) + seq![','] + json_text(a[n - 1])
    }
}

/// Texts `"key":value` of the first `n` members, separated by commas.
pub open spec fn members_text(es: Seq<(Seq<char>, JVal)>, n: nat) -> Seq<char>
    decreases es, n,
{
    if n == 0 || n > es.len() {
        seq![]
    } else {
        let m = quoted_json(es[n - 1].0) + seq![':'] + {
            proof {
                assert(decreases_to!(es => es[n - 1]));
            }
            json_text(es[n - 1].1)
        };
        if n == 1 {
            m
        } else {
            members_text(es, (n - 1) as nat) + seq![','] + m
        }
    }
}

/// JSON form of a string: quoted, with `"`, `\` and line breaks escaped.
pub fn quote_json(s: &str) -> (r: Vec<char>)
    ensures
        r@ == quoted_json(s@),
{
    let sc = chars_of(s);
    let mut out: Vec<char> = Vec::new();
    out.push('"');
    let mut i: usize = 0;
    while i < sc.len()
        invariant
            sc@ == s@,
            i <= sc.len(),
            out@ == seq!['"'] + escape_json(s@.take(i as int)),
        decreases sc.len() - i,
    {
        let c = sc[i];
        let ghost before = out@;
        if c == '"' {
            out.push('\\');
            out.push('"');
        } else if c == '\\' {
            out.push('\\');
            out.push('\\');
        } else if c == '\n' {
            out.push('\\');
            out.push('n');
        } else if c == '\r' {
            out.push('\\');
            out.push('r');
        } else if c == '\t' {
            out.push('\\');
            out.push('t');
        } else {
            out.push(c);
        }
        assert(s@.take(i + 1).drop_last() =~= s@.take(i as int));
        assert(out@ =~= before + escape_char(c));
        i = i + 1;
    }
    assert(s@.take(i as int) =~= s@);
    out.push('"');
    out
}

impl Json {
    /// Compact JSON text of this value.
    pub fn to_text(&self) -> (r: String)
        ensures
            r@ == json_text(self@),
    {
        let v = self.text_chars();
        string_of(&v)
    }

    #[verifier::loop_isolation(false)]
    fn text_chars(&self) -> (r: Vec<char>)
        ensures
            r@ == json_text(self@),
        decreases self,
    {
        broadcast use group_json_view;
        let mut out: Vec<char> = Vec::new();
        match self {
            Json::Null => {
                out.push('n');
                out.push('u');
                out.push('l');
                out.push('l');
                assert(out@ =~= json_text(self@));
            },
            Json::Bool(b) => {
                if *b {
                    out.push('t');
                    out.push('r');
                    out.push('u');
                    out.push('e');
                } else {
                    out.push('f');
                    out.push('a');
                    out.push('l');
                    out.push('s');
                    out.push('e');
                }
                assert(out@ =~= json_text(self@));
            },
            Json::Int(i) => {
                let t = int_to_string(*i);
                extend_str(&mut out, t.as_str());
                assert(out@ =~= json_text(self@));
            },
            Json::Str(s) => {
                out = quote_json(s.as_str());
            },
            Json::Array(v) => {
                let ghost a = jv_seq(v@);
                out.push('[');
                let mut i: usize = 0;
                while i < v.len()
                    invariant
                        i <= v.len(),
                        a == jv_seq(v@),
                        a.len() == v.len(),
                        out@ == seq!['['] + items_text(a, i as nat),
                    decreases v.len() - i,
                {
                    proof {
                        assert(decreases_to!(*self => v@[i as int]));
                    }
                    let t = v[i].text_chars();
                    let ghost before = out@;
                    if i > 0 {
                        out.push(',');
                    }
                    extend_chars(&mut out, &t);
                    proof {
                        assert(a[i as int] == jv(v@[i as int]));
                        if i == 0 {
                            assert(out@ =~= seq!['['] + items_text(a, 1));
                        } else {
                            assert(out@ =~= seq!['['] + items_text(a, (i + 1) as nat));
                        }
                    }
                    i = i + 1;
                }
                out.push(']');
                assert(out@ =~= json_text(self@));
            },
            Json::Object(o) => {
                let ghost es = jv_entries(o.entries@);
                out.push('{');
                let mut i: usize = 0;
                while i < o.entries.len()
                    invariant
                        i <= o.entries.len(),
                        es == jv_entries(o.entries@),
                        es.len() == o.entries.len(),
                        out@ == seq!['{'] + members_text(es, i as nat),
                    decreases o.entries.len() - i,
                {
                    proof {
                        assert(decreases_to!(*self => o.entries@[i as int].1));
                    }
                    let k = quote_json(o.entries[i].0.as_str());
                    let t = o.entries[i].1.text_chars();
                    let ghost before = out@;
                    if i > 0 {
                        out.push(',');
                    }
                    extend_chars(&mut out, &k);
                    out.push(':');
                    extend_chars(&mut out, &t);
                    proof {
                        assert(es[i as int] == (o.entries@[i as int].0@, jv(o.entries@[i as int].1)));
                        if i == 0 {
                            assert(out@ =~= seq!['{'] + members_text(es, 1));
                        } else {
                            assert(out@ =~= seq!['{'] + members_text(es, (i + 1) as nat));
                        }
                    }
                    i = i + 1;
                }
                out.push('}');
                assert(out@ =~= json_text(self@));
            },
        }
        out
    }
}

/// An object with one member.
pub fn obj1(k: &str, v: Json) -> (r: Json)
    ensures
        r@ == JVal::Object(seq![(k@, v@)]),
{
    broadcast use group_json_view;
    let entries = vec![(k.to_string(), v)];
    proof {
        assert(jv_entries(entries@) =~= seq![(k@, v@)]);
    }
    Json::Object(JsonObject { entries })
}

/// An object with two members, in this order.
pub fn obj2(k1: &str, v1: Json, k2: &str, v2: Json) -> (r: Json)
    ensures
        r@ == JVal::Object(seq![(k1@, v1@), (k2@, v2@)]),
{
    broadcast use group_json_view;
    let ghost x1 = v1@;
    let ghost x2 = v2@;
    let entries = vec![(k1.to_string(), v1), (k2.to_string(), v2)];
    proof {
        assert(jv_entries(entries@) =~= seq![(k1@, x1), (k2@, x2)]);
    }
    Json::Object(JsonObject { entries })
}

/// Entries inserted one after another into an empty object.
pub open spec fn insert_all(es: Seq<(Seq<char>, JVal)>) -> Seq<(Seq<char>, JVal)>
    decreases es.len(),
{
    if es.len() == 0 {
        seq![]
    } else {
        entries_insert(insert_all(es.drop_last()), es.last().0, es.last().1)
    }
}

} // verus!
