//! A small map from names to text, kept as entries in insertion order.

use vstd::prelude::*;
use crate::text::{chars_of, chars_eq};

verus! {

/// Entries `(key, value)`; keys are distinct when built through [`StrMap::insert`].
#[derive(Debug)]
pub struct StrMap {
    pub entries: Vec<(String, String)>,
}

pub open spec fn sm_view(s: Seq<(String, String)>) -> Seq<(Seq<char>, Seq<char>)> {
    s.map_values(|e: (String, String)| (e.0@, e.1@))
}

impl View for StrMap {
    type V = Seq<(Seq<char>, Seq<char>)>;

    open spec fn view(&self) -> Seq<(Seq<char>, Seq<char>)> {
        sm_view(self.entries@)
    }
}

/// Index of the first entry with key `k`, or the length when there is none.
pub open spec fn sm_index(es: Seq<(Seq<char>, Seq<char>)>, k: Seq<char>) -> int
    decreases es.len(),
{
    if es.len() == 0 {
        0
    } else if es[0].0 == k {
        0
    } else {
        1 + sm_index(es.drop_first(), k)
    }
}

/// Value of the first entry with key `k`.
pub open spec fn sm_get(es: Seq<(Seq<char>, Seq<char>)>, k: Seq<char>) -> Option<Seq<char>>
    decreases es.len(),
{
    if es.len() == 0 {
        None
    } else if es[0].0 == k {
        Some(es[0].1)
    } else {
        sm_get(es.drop_first(), k)
    }
}

/// `es` with key `k` bound to `v` (first entry replaced, or the pair appended).
pub open spec fn sm_insert(es: Seq<(Seq<char>, Seq<char>)>, k: Seq<char>, v: Seq<char>) -> Seq<(Seq<char>, Seq<char>)> {
    let i = sm_index(es, k);
    if i < es.len() {
        es.update(i, (k, v))
    } else {
        es.push((k, v))
    }
}

pub proof fn lemma_sm_index(es: Seq<(Seq<char>, Seq<char>)>, k: Seq<char>)
    ensures
        0 <= sm_index(es, k) <= es.len(),
        sm_index(es, k) < es.len() ==> es[sm_index(es, k)].0 == k && sm_get(es, k) == Some(
            es[sm_index(es, k)].1,
        ),
        sm_index(es, k) == es.len() ==> sm_get(es, k).is_none(),
        forall|j: int| 0 <= j < sm_index(es, k) ==> es[j].0 != k,
    decreases es.len(),
{
    if es.len() > 0 && es[0].0 != k {
        lemma_sm_index(es.drop_first(), k);
        assert forall|j: int| 0 <= j < sm_index(es, k) implies es[j].0 != k by {
            if j > 0 {
                assert(es[j] == es.drop_first()[j - 1]);
            }
        }
    }
}

proof fn lemma_sm_first_match(es: Seq<(Seq<char>, Seq<char>)>, k: Seq<char>, i: int)
    requires
        0 <= i < es.len(),
        es[i].0 == k,
        forall|j: int| 0 <= j < i ==> es[j].0 != k,
    ensures
        sm_index(es, k) == i,
    decreases i,
{
    if i > 0 {
        lemma_sm_first_match(es.drop_first(), k, i - 1);
    }
}

proof fn lemma_sm_no_match(es: Seq<(Seq<char>, Seq<char>)>, k: Seq<char>)
    requires
        forall|j: int| 0 <= j < es.len() ==> es[j].0 != k,
    ensures
        sm_index(es, k) == es.len(),
    decreases es.len(),
{
    if es.len() > 0 {
        lemma_sm_no_match(es.drop_first(), k);
    }
}

/// Looking up a key after inserting it gives the inserted value; other keys keep
/// their values.
pub proof fn lemma_sm_insert_get(es: Seq<(Seq<char>, Seq<char>)>, k: Seq<char>, v: Seq<char>, q: Seq<char>)
    ensures
        sm_get(sm_insert(es, k, v), q) == if q == k { Some(v) } else { sm_get(es, q) },
    decreases es.len(),
{
    lemma_sm_index(es, k);
    let ins = sm_insert(es, k, v);
    if es.len() == 0 {
        assert(ins =~= seq![(k, v)]);
        assert(ins.drop_first() =~= Seq::<(Seq<char>, Seq<char>)>::empty());
    } else if es[0].0 == k {
        assert(ins[0] == (k, v));
        assert(ins.drop_first() =~= es.drop_first());
    } else {
        lemma_sm_insert_get(es.drop_first(), k, v, q);
        lemma_sm_index(es.drop_first(), k);
        assert(ins.len() > 0);
        assert(ins[0] == es[0]);
        assert(ins.drop_first() =~= sm_insert(es.drop_first(), k, v));
        if es[0].0 == q {
            assert(sm_get(ins, q) == Some(ins[0].1));
        } else {
            assert(sm_get(ins, q) == sm_get(ins.drop_first(), q));
            assert(sm_get(es, q) == sm_get(es.drop_first(), q));
        }
    }
}

/// Whether no key occurs twice.
pub open spec fn keys_distinct(es: Seq<(Seq<char>, Seq<char>)>) -> bool {
    forall|i: int, j: int| 0 <= i < j < es.len() ==> es[i].0 != es[j].0
}

/// Inserting into a map whose keys are distinct keeps them distinct: an
/// existing key has its value replaced, a new one is added once.
pub proof fn law_insert_keeps_keys_distinct(es: Seq<(Seq<char>, Seq<char>)>, k: Seq<char>, v: Seq<char>)
    requires
        keys_distinct(es),
    ensures
        keys_distinct(sm_insert(es, k, v)),
{
    lemma_sm_index(es, k);
    let r = sm_insert(es, k, v);
    let idx = sm_index(es, k);
    assert forall|i: int, j: int| 0 <= i < j < r.len() implies r[i].0 != r[j].0 by {
        if idx < es.len() {
            assert(r[i].0 == es[i].0 && r[j].0 == es[j].0);
        } else {
            if j == es.len() {
                assert(es[i].0 != k);
            } else {
                assert(r[i] == es[i] && r[j] == es[j]);
            }
        }
    }
}

/// Value of the last entry with key `k`: the value a map holds for `k` after the
/// entries are inserted one after another.
pub open spec fn last_get(es: Seq<(Seq<char>, Seq<char>)>, k: Seq<char>) -> Option<Seq<char>>
    decreases es.len(),
{
    if es.len() == 0 {
        None
    } else if es.last().0 == k {
        Some(es.last().1)
    } else {
        last_get(es.drop_last(), k)
    }
}

/// The value of `k` in a map holding `under`, after the entries `over` are inserted.
pub open spec fn overlay_get(over: Seq<(Seq<char>, Seq<char>)>, under: Seq<(Seq<char>, Seq<char>)>, k: Seq<char>) -> Option<Seq<char>> {
    match last_get(over, k) {
        Some(v) => Some(v),
        None => sm_get(under, k),
    }
}

/// `es` without its first entry with key `k`.
pub open spec fn sm_remove(es: Seq<(Seq<char>, Seq<char>)>, k: Seq<char>) -> Seq<(Seq<char>, Seq<char>)> {
    let i = sm_index(es, k);
    if i < es.len() {
        es.remove(i)
    } else {
        es
    }
}

impl StrMap {
    pub fn new() -> (r: StrMap)
        ensures
            r@ == Seq::<(Seq<char>, Seq<char>)>::empty(),
    {
        let r = StrMap { entries: Vec::new() };
        assert(r@ =~= Seq::<(Seq<char>, Seq<char>)>::empty());
        r
    }

    fn position(&self, k: &str) -> (r: Option<usize>)
        ensures
            match r {
                Some(i) => i == sm_index(self@, k@) && i < self@.len(),
                None => sm_index(self@, k@) == self@.len(),
            },
    {
        let kc = chars_of(k);
        let mut i: usize = 0;
        while i < self.entries.len()
            invariant
                kc@ == k@,
                i <= self.entries.len(),
                self@.len() == self.entries.len(),
                forall|j: int| 0 <= j < i ==> self@[j].0 != k@,
            decreases self.entries.len() - i,
        {
            let ec = chars_of(self.entries[i].0.as_str());
            if chars_eq(&ec, &kc) {
                proof {
                    lemma_sm_first_match(self@, k@, i as int);
                }
                return Some(i);
            }
            i = i + 1;
        }
        proof {
            lemma_sm_no_match(self@, k@);
        }
        None
    }

    /// Value bound to `k`, if any.
    pub fn get(&self, k: &str) -> (r: Option<&String>)
        ensures
            match r {
                Some(x) => sm_get(self@, k@) == Some(x@),
                None => sm_get(self@, k@).is_none(),
            },
    {
        proof {
            lemma_sm_index(self@, k@);
        }
        match self.position(k) {
            Some(i) => Some(&self.entries[i].1),
            None => None,
        }
    }

    pub fn contains_key(&self, k: &str) -> (r: bool)
        ensures
            r == sm_get(self@, k@).is_some(),
    {
        self.get(k).is_some()
    }

    /// Bind `k` to `v`, replacing an existing binding.
    pub fn insert(&mut self, k: String, v: String)
        ensures
            final(self)@ == sm_insert(old(self)@, k@, v@),
    {
        proof {
            lemma_sm_index(old(self)@, k@);
        }
        let ghost kv = k@;
        let ghost vv = v@;
        match self.position(k.as_str()) {
            Some(i) => {
                self.entries.set(i, (k, v));
                assert(self@ =~= sm_insert(old(self)@, kv, vv));
            },
            None => {
                self.entries.push((k, v));
                assert(self@ =~= sm_insert(old(self)@, kv, vv));
            },
        }
    }

    /// Take out the binding of `k`, if any: the first entry with that key.
    pub fn remove(&mut self, k: &str)
        ensures
            final(self)@ == sm_remove(old(self)@, k@),
    {
        proof {
            lemma_sm_index(old(self)@, k@);
        }
        match self.position(k) {
            Some(i) => {
                self.entries.remove(i);
                assert(self@ =~= sm_remove(old(self)@, k@));
            },
            None => {
                assert(self@ =~= sm_remove(old(self)@, k@));
            },
        }
    }

    pub fn len(&self) -> (r: usize)
        ensures
            r == self@.len(),
    {
        self.entries.len()
    }

    pub fn is_empty(&self) -> (r: bool)
        ensures
            r == (self@.len() == 0),
    {
        self.entries.len() == 0
    }

    /// Insert the pairs in order.
    pub fn insert_all_str(&mut self, pairs: &Vec<(&'static str, &'static str)>)
        ensures
            forall|q: Seq<char>| #[trigger] sm_get(final(self)@, q) == overlay_get(
                pairs@.map_values(|p: (&'static str, &'static str)| (p.0@, p.1@)),
                old(self)@,
                q,
            ),
    {
        let ghost pv = pairs@.map_values(|p: (&'static str, &'static str)| (p.0@, p.1@));
        let ghost base = self@;
        let mut i: usize = 0;
        assert forall|q: Seq<char>| #[trigger] sm_get(self@, q) == overlay_get(pv.take(0), base, q) by {
            assert(pv.take(0).len() == 0);
        }
        while i < pairs.len()
            invariant
                i <= pairs.len(),
                pv == pairs@.map_values(|p: (&'static str, &'static str)| (p.0@, p.1@)),
                forall|q: Seq<char>| #[trigger] sm_get(self@, q) == overlay_get(pv.take(i as int), base, q),
            decreases pairs.len() - i,
        {
            let (k, v) = pairs[i];
            let ghost before = self@;
            self.insert(k.to_string(), v.to_string());
            assert forall|q: Seq<char>| #[trigger] sm_get(self@, q) == overlay_get(pv.take(i + 1), base, q) by {
                lemma_sm_insert_get(before, k@, v@, q);
                assert(pv.take(i + 1).drop_last() =~= pv.take(i as int));
                assert(pv.take(i + 1).last() == (k@, v@));
                assert(sm_get(before, q) == overlay_get(pv.take(i as int), base, q));
            }
            i = i + 1;
        }
        assert(pv.take(i as int) =~= pv);
    }

    /// Insert the pairs in order.
    pub fn insert_all(&mut self, pairs: &Vec<(String, String)>)
        ensures
            forall|q: Seq<char>| #[trigger] sm_get(final(self)@, q) == overlay_get(sm_view(pairs@), old(self)@, q),
    {
        let ghost pv = sm_view(pairs@);
        let ghost base = self@;
        let mut i: usize = 0;
        assert forall|q: Seq<char>| #[trigger] sm_get(self@, q) == overlay_get(pv.take(0), base, q) by {
            assert(pv.take(0).len() == 0);
        }
        while i < pairs.len()
            invariant
                i <= pairs.len(),
                pv == sm_view(pairs@),
                forall|q: Seq<char>| #[trigger] sm_get(self@, q) == overlay_get(pv.take(i as int), base, q),
            decreases pairs.len() - i,
        {
            let k = pairs[i].0.clone();
            let v = pairs[i].1.clone();
            let ghost before = self@;
            self.insert(k, v);
            assert forall|q: Seq<char>| #[trigger] sm_get(self@, q) == overlay_get(pv.take(i + 1), base, q) by {
                lemma_sm_insert_get(before, pairs@[i as int].0@, pairs@[i as int].1@, q);
                assert(pv.take(i + 1).drop_last() =~= pv.take(i as int));
                assert(pv.take(i + 1).last() == (pairs@[i as int].0@, pairs@[i as int].1@));
                assert(sm_get(before, q) == overlay_get(pv.take(i as int), base, q));
            }
            i = i + 1;
        }
        assert(pv.take(i as int) =~= pv);
    }
}

impl Clone for StrMap {
    fn clone(&self) -> (r: StrMap)
        ensures
            r@ == self@,
    {
        let mut out: Vec<(String, String)> = Vec::new();
        let mut i: usize = 0;
        while i < self.entries.len()
            invariant
                i <= self.entries.len(),
                out@.len() == i,
                sm_view(out@) == sm_view(self.entries@).subrange(0, i as int),
            decreases self.entries.len() - i,
        {
            let k = self.entries[i].0.clone();
            let v = self.entries[i].1.clone();
            let ghost before = out@;
            out.push((k, v));
            proof {
                assert(sm_view(out@)[i as int] == sm_view(self.entries@)[i as int]);
                assert forall|j: int| 0 <= j < i implies sm_view(out@)[j] == sm_view(before)[j] by {
                    assert(out@[j] == before[j]);
                }
            }
            i = i + 1;
            assert(sm_view(out@) =~= sm_view(self.entries@).subrange(0, i as int));
        }
        assert(sm_view(self.entries@).subrange(0, i as int) =~= sm_view(self.entries@));
        StrMap { entries: out }
    }
}


/// A set of names, kept in insertion order without repetitions.
#[derive(Debug)]
pub struct NameSet {
    pub names: Vec<String>,
}

pub open spec fn names_view(s: Seq<String>) -> Seq<Seq<char>> {
    s.map_values(|n: String| n@)
}

impl View for NameSet {
    type V = Seq<Seq<char>>;

    open spec fn view(&self) -> Seq<Seq<char>> {
        names_view(self.names@)
    }
}

/// `s` with `n` appended unless it already holds it.
pub open spec fn set_add(s: Seq<Seq<char>>, n: Seq<char>) -> Seq<Seq<char>> {
    if s.contains(n) {
        s
    } else {
        s.push(n)
    }
}

impl NameSet {
    pub fn new() -> (r: NameSet)
        ensures
            r@ == Seq::<Seq<char>>::empty(),
    {
        let r = NameSet { names: Vec::new() };
        assert(r@ =~= Seq::<Seq<char>>::empty());
        r
    }

    /// Whether `n` is in the set.
    pub fn contains(&self, n: &str) -> (r: bool)
        ensures
            r == self@.contains(n@),
    {
        let nc = chars_of(n);
        let mut i: usize = 0;
        while i < self.names.len()
            invariant
                nc@ == n@,
                i <= self.names.len(),
                self@.len() == self.names.len(),
                forall|j: int| 0 <= j < i ==> self@[j] != n@,
            decreases self.names.len() - i,
        {
            let ec = chars_of(self.names[i].as_str());
            if chars_eq(&ec, &nc) {
                assert(self@[i as int] == n@);
                return true;
            }
            i = i + 1;
        }
        assert forall|j: int| 0 <= j < self@.len() implies self@[j] != n@ by {}
        false
    }

    /// Add `n` unless it is already there.
    pub fn insert(&mut self, n: String)
        ensures
            final(self)@ == set_add(old(self)@, n@),
    {
        if !self.contains(n.as_str()) {
            let ghost nv = n@;
            self.names.push(n);
            assert(self@ =~= old(self)@.push(nv));
        }
    }

    pub fn len(&self) -> (r: usize)
        ensures
            r == self@.len(),
    {
        self.names.len()
    }

    pub fn is_empty(&self) -> (r: bool)
        ensures
            r == (self@.len() == 0),
    {
        self.names.len() == 0
    }

    /// Take out the first occurrence of `n`, if any.
    pub fn remove(&mut self, n: &str)
        ensures
            final(self)@ == crate::concertina::remove_name(old(self)@, n@),
            !old(self)@.contains(n@) ==> final(self)@ == old(self)@,
            old(self)@.contains(n@) ==> final(self)@.len() + 1 == old(self)@.len(),
            old(self)@.no_duplicates() ==> final(self)@.no_duplicates()
                && forall|x: Seq<char>| #[trigger] final(self)@.contains(x) <==> (old(self)@.contains(x) && x != n@),
    {
        let nc = chars_of(n);
        let mut i: usize = 0;
        while i < self.names.len()
            invariant
                nc@ == n@,
                i <= self.names.len(),
                self@.len() == self.names.len(),
                self@ == old(self)@,
                forall|j: int| 0 <= j < i ==> self@[j] != n@,
            decreases self.names.len() - i,
        {
            let ec = chars_of(self.names[i].as_str());
            if chars_eq(&ec, &nc) {
                let ghost s = self@;
                self.names.remove(i);
                proof {
                    assert(self@ =~= s.remove(i as int));
                    assert(s[i as int] == n@);
                    crate::concertina::lemma_remove_name_at(s, n@, i as int);
                    assert(s.take(i as int) + s.skip(i + 1) =~= s.remove(i as int));
                    if s.no_duplicates() {
                        assert forall|x: Seq<char>| #[trigger] self@.contains(x) <==> (s.contains(x) && x != n@) by {
                            if self@.contains(x) {
                                let k = choose|k: int| 0 <= k < self@.len() && self@[k] == x;
                                if k < i {
                                    assert(s[k] == x);
                                } else {
                                    assert(s[k + 1] == x);
                                }
                            }
                            if s.contains(x) && x != n@ {
                                let k = choose|k: int| 0 <= k < s.len() && s[k] == x;
                                if k < i {
                                    assert(self@[k] == x);
                                } else {
                                    assert(self@[k - 1] == x);
                                }
                            }
                        }
                    }
                }
                return;
            }
            i = i + 1;
        }
        assert forall|j: int| 0 <= j < self@.len() implies self@[j] != n@ by {}
        proof {
            crate::concertina::lemma_remove_name_at(self@, n@, self@.len() as int);
        }
    }
}

/// Index of the first entry with key `k`, or the length when there is none.
pub open spec fn kv_index<V>(es: Seq<(Seq<char>, V)>, k: Seq<char>) -> int
    decreases es.len(),
{
    if es.len() == 0 {
        0
    } else if es[0].0 == k {
        0
    } else {
        1 + kv_index(es.drop_first(), k)
    }
}

/// Value of the first entry with key `k`.
pub open spec fn kv_get<V>(es: Seq<(Seq<char>, V)>, k: Seq<char>) -> Option<V>
    decreases es.len(),
{
    if es.len() == 0 {
        None
    } else if es[0].0 == k {
        Some(es[0].1)
    } else {
        kv_get(es.drop_first(), k)
    }
}

/// `es` with `k` bound to `v`: the first entry with that key replaced, or the
/// pair appended.
pub open spec fn kv_insert<V>(es: Seq<(Seq<char>, V)>, k: Seq<char>, v: V) -> Seq<(Seq<char>, V)> {
    let i = kv_index(es, k);
    if i < es.len() {
        es.update(i, (k, v))
    } else {
        es.push((k, v))
    }
}

pub proof fn lemma_kv_first_match<V>(es: Seq<(Seq<char>, V)>, k: Seq<char>, i: int)
    requires
        0 <= i < es.len(),
        es[i].0 == k,
        forall|j: int| 0 <= j < i ==> es[j].0 != k,
    ensures
        kv_index(es, k) == i,
    decreases i,
{
    if i > 0 {
        lemma_kv_first_match(es.drop_first(), k, i - 1);
    }
}

pub proof fn lemma_kv_no_match<V>(es: Seq<(Seq<char>, V)>, k: Seq<char>)
    requires
        forall|j: int| 0 <= j < es.len() ==> es[j].0 != k,
    ensures
        kv_index(es, k) == es.len(),
    decreases es.len(),
{
    if es.len() > 0 {
        lemma_kv_no_match(es.drop_first(), k);
    }
}

/// Position of the first entry with key `k` in a list of pairs keyed by text,
/// or the length when there is none.
pub fn key_position<V>(es: &Vec<(String, V)>, k: &str) -> (r: usize)
    ensures
        r == kv_index(es@.map_values(|e: (String, V)| (e.0@, ())), k@),
        r <= es.len(),
        r < es.len() ==> es@[r as int].0@ == k@,
{
    let ghost ks = es@.map_values(|e: (String, V)| (e.0@, ()));
    let kc = chars_of(k);
    let mut i: usize = 0;
    while i < es.len()
        invariant
            kc@ == k@,
            i <= es.len(),
            ks == es@.map_values(|e: (String, V)| (e.0@, ())),
            ks.len() == es.len(),
            forall|j: int| 0 <= j < i ==> ks[j].0 != k@,
        decreases es.len() - i,
    {
        let ec = chars_of(es[i].0.as_str());
        if chars_eq(&ec, &kc) {
            proof {
                lemma_kv_first_match(ks, k@, i as int);
            }
            return i;
        }
        i = i + 1;
    }
    proof {
        lemma_kv_no_match(ks, k@);
    }
    i
}

/// The index of a key depends on the keys alone.
pub proof fn lemma_kv_index_keys<V, W>(s: Seq<(Seq<char>, V)>, t: Seq<(Seq<char>, W)>, k: Seq<char>)
    requires
        s.len() == t.len(),
        forall|i: int| 0 <= i < s.len() ==> #[trigger] s[i].0 == t[i].0,
    ensures
        kv_index(s, k) == kv_index(t, k),
        kv_index(s, k) <= s.len(),
        0 <= kv_index(s, k),
        kv_index(s, k) < s.len() ==> kv_get(s, k) == Some(s[kv_index(s, k)].1) && s[kv_index(s, k)].0 == k,
        kv_index(s, k) == s.len() ==> kv_get(s, k) is None,
    decreases s.len(),
{
    if s.len() > 0 && s[0].0 != k {
        assert forall|i: int| 0 <= i < s.drop_first().len() implies #[trigger] s.drop_first()[i].0 == t.drop_first()[i].0 by {
            assert(s.drop_first()[i] == s[i + 1]);
            assert(t.drop_first()[i] == t[i + 1]);
        }
        lemma_kv_index_keys(s.drop_first(), t.drop_first(), k);
    }
}


impl Clone for NameSet {
    fn clone(&self) -> (r: NameSet)
        ensures
            r@ == self@,
    {
        let mut names: Vec<String> = Vec::new();
        let mut i: usize = 0;
        while i < self.names.len()
            invariant
                i <= self.names.len(),
                names_view(names@) == self@.take(i as int),
            decreases self.names.len() - i,
        {
            let ghost before = names@;
            names.push(self.names[i].clone());
            assert(names_view(names@) =~= names_view(before).push(self@[i as int]));
            assert(self@.take(i + 1) =~= self@.take(i as int).push(self@[i as int]));
            i = i + 1;
        }
        assert(self@.take(i as int) =~= self@);
        NameSet { names }
    }
}

} // verus!
