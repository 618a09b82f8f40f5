//! The type graph of a predicate: expressions, named by their text, linked by
//! edges. An edge is kept once, however often it is connected.

use vstd::prelude::*;
use crate::type_inference::edge::{Edge, EdgeInfo, einfo};
use crate::type_inference::intersection::Bounds;
use crate::strmap::{kv_index, kv_get, kv_insert, key_position, lemma_kv_index_keys};
use crate::text::{text_lt, text_less, str_eq};

verus! {

/// The identity of an edge: the texts of its two expressions in order, its
/// bounds and its kind.
pub open spec fn edge_key(e: EdgeInfo) -> (Seq<char>, Seq<char>, Bounds, u8) {
    if text_lt(e.b.text, e.a.text) {
        (e.b.text, e.a.text, e.bounds, e.tag)
    } else {
        (e.a.text, e.b.text, e.bounds, e.tag)
    }
}

struct EdgeKey {
    v1: String,
    v2: String,
    bounds: Bounds,
    tag: u8,
}

impl EdgeKey {
    spec fn view(&self) -> (Seq<char>, Seq<char>, Bounds, u8) {
        (self.v1@, self.v2@, self.bounds, self.tag)
    }

    fn from_edge(edge: &Edge) -> (r: EdgeKey)
        ensures
            r.view() == edge_key(einfo(*edge)),
    {
        let (a, b) = edge.vertices();
        let ta = a.to_string();
        let tb = b.to_string();
        if text_less(tb.as_str(), ta.as_str()) {
            EdgeKey { v1: tb, v2: ta, bounds: edge.bounds(), tag: edge.tag() }
        } else {
            EdgeKey { v1: ta, v2: tb, bounds: edge.bounds(), tag: edge.tag() }
        }
    }

    fn same(&self, other: &EdgeKey) -> (r: bool)
        ensures
            r == (self.view() == other.view()),
    {
        str_eq(self.v1.as_str(), other.v1.as_str()) && str_eq(self.v2.as_str(), other.v2.as_str())
            && self.bounds.0 == other.bounds.0 && self.bounds.1 == other.bounds.1 && self.tag == other.tag
    }
}

pub open spec fn edges_view(v: Seq<Edge>) -> Seq<EdgeInfo> {
    v.map_values(|e: Edge| einfo(e))
}

pub open spec fn links_view(l: Seq<(String, Vec<Edge>)>) -> Seq<(Seq<char>, Seq<EdgeInfo>)> {
    l.map_values(|p: (String, Vec<Edge>)| (p.0@, edges_view(p.1@)))
}

pub open spec fn conn_view(c: Seq<(String, Vec<(String, Vec<Edge>)>)>) -> Seq<(Seq<char>, Seq<(Seq<char>, Seq<EdgeInfo>)>)> {
    c.map_values(|p: (String, Vec<(String, Vec<Edge>)>)| (p.0@, links_view(p.1@)))
}

/// The abstract graph: for each expression, the expressions it is linked to and
/// the edges linking them; and the identities of the edges kept.
pub struct GraphV {
    pub conn: Seq<(Seq<char>, Seq<(Seq<char>, Seq<EdgeInfo>)>)>,
    pub keys: Seq<(Seq<char>, Seq<char>, Bounds, u8)>,
}

/// `c` with edge `e` added to the links from `x` to `y`.
pub open spec fn add_link(
    c: Seq<(Seq<char>, Seq<(Seq<char>, Seq<EdgeInfo>)>)>,
    x: Seq<char>,
    y: Seq<char>,
    e: EdgeInfo,
) -> Seq<(Seq<char>, Seq<(Seq<char>, Seq<EdgeInfo>)>)> {
    let inner = match kv_get(c, x) {
        Some(l) => l,
        None => seq![],
    };
    let list = match kv_get(inner, y) {
        Some(es) => es,
        None => seq![],
    };
    kv_insert(c, x, kv_insert(inner, y, list.push(e)))
}

/// The graph with edge `e` connected: unless an edge with its identity is kept,
/// it is linked from each of its expressions to the other.
pub open spec fn connect_spec(g: GraphV, e: EdgeInfo) -> GraphV {
    if g.keys.contains(edge_key(e)) {
        g
    } else {
        GraphV {
            conn: add_link(add_link(g.conn, e.a.text, e.b.text, e), e.b.text, e.a.text, e),
            keys: g.keys.push(edge_key(e)),
        }
    }
}

/// All edges of the links, in order.
pub open spec fn flat_links(l: Seq<(Seq<char>, Seq<EdgeInfo>)>) -> Seq<EdgeInfo>
    decreases l.len(),
{
    if l.len() == 0 {
        seq![]
    } else {
        flat_links(l.drop_last()) + l.last().1
    }
}

/// All edges of the connections, in order.
pub open spec fn flat_conn(c: Seq<(Seq<char>, Seq<(Seq<char>, Seq<EdgeInfo>)>)>) -> Seq<EdgeInfo>
    decreases c.len(),
{
    if c.len() == 0 {
        seq![]
    } else {
        flat_conn(c.drop_last()) + flat_links(c.last().1)
    }
}

/// The edges of `s` after those of `d`, each kept unless an edge with its
/// identity is already kept.
pub open spec fn dedup_into(d: Seq<EdgeInfo>, s: Seq<EdgeInfo>) -> Seq<EdgeInfo>
    decreases s.len(),
{
    if s.len() == 0 {
        d
    } else {
        let prev = dedup_into(d, s.drop_last());
        if prev.map_values(|x: EdgeInfo| edge_key(x)).contains(edge_key(s.last())) {
            prev
        } else {
            prev.push(s.last())
        }
    }
}

/// The graph with each edge of `s` connected in turn.
pub open spec fn connect_all(g: GraphV, s: Seq<EdgeInfo>) -> GraphV
    decreases s.len(),
{
    if s.len() == 0 {
        g
    } else {
        connect_spec(connect_all(g, s.drop_last()), s.last())
    }
}

/// The type graph of a predicate.
pub struct TypesGraph {
    expression_connections: Vec<(String, Vec<(String, Vec<Edge>)>)>,
    edges: Vec<EdgeKey>,
}

impl View for TypesGraph {
    type V = GraphV;

    closed spec fn view(&self) -> GraphV {
        GraphV {
            conn: conn_view(self.expression_connections@),
            keys: self.edges@.map_values(|k: EdgeKey| k.view()),
        }
    }
}

/// Add `e` to the links from `x` to `y`.
fn add_link_exec(c: &mut Vec<(String, Vec<(String, Vec<Edge>)>)>, x: String, y: String, e: Edge)
    ensures
        conn_view(final(c)@) == add_link(conn_view(old(c)@), x@, y@, einfo(e)),
{
    let ghost cv = conn_view(c@);
    let ghost ei = einfo(e);
    let p = key_position(c, x.as_str());
    proof {
        lemma_kv_index_keys(cv, c@.map_values(|q: (String, Vec<(String, Vec<Edge>)>)| (q.0@, ())), x@);
    }
    if p < c.len() {
        let ghost inner_v = cv[p as int].1;
        let mut entry = c.remove(p);
        assert(links_view(entry.1@) == inner_v);
        let q = key_position(&entry.1, y.as_str());
        proof {
            lemma_kv_index_keys(inner_v, entry.1@.map_values(|z: (String, Vec<Edge>)| (z.0@, ())), y@);
        }
        if q < entry.1.len() {
            let ghost list_v = inner_v[q as int].1;
            let mut link = entry.1.remove(q);
            assert(edges_view(link.1@) == list_v);
            let ghost before = link.1@;
            link.1.push(e);
            assert(edges_view(link.1@) =~= list_v.push(ei));
            let ghost l0 = entry.1@;
            entry.1.insert(q, link);
            assert(links_view(entry.1@) =~= kv_insert(inner_v, y@, list_v.push(ei)));
        } else {
            let mut list: Vec<Edge> = Vec::new();
            list.push(e);
            assert(edges_view(list@) =~= seq![ei]);
            entry.1.push((y, list));
            assert(links_view(entry.1@) =~= kv_insert(inner_v, y@, Seq::<EdgeInfo>::empty().push(ei)));
        }
        c.insert(p, entry);
        assert(conn_view(c@) =~= add_link(cv, x@, y@, ei));
    } else {
        let mut list: Vec<Edge> = Vec::new();
        list.push(e);
        assert(edges_view(list@) =~= seq![ei]);
        let mut inner: Vec<(String, Vec<Edge>)> = Vec::new();
        inner.push((y, list));
        let ghost yv = inner@[0].0@;
        assert(links_view(inner@) =~= seq![(yv, seq![ei])]);
        c.push((x, inner));
        assert(conn_view(c@) =~= add_link(cv, x@, y@, ei));
    }
}

impl TypesGraph {
    pub fn new() -> (r: TypesGraph)
        ensures
            r@.conn.len() == 0,
            r@.keys.len() == 0,
    {
        TypesGraph { expression_connections: Vec::new(), edges: Vec::new() }
    }

    fn has_key(&self, key: &EdgeKey) -> (r: bool)
        ensures
            r == self@.keys.contains(key.view()),
    {
        let ghost ks = self@.keys;
        let mut i: usize = 0;
        while i < self.edges.len()
            invariant
                i <= self.edges.len(),
                ks == self@.keys,
                ks.len() == self.edges.len(),
                forall|j: int| 0 <= j < i ==> ks[j] != key.view(),
            decreases self.edges.len() - i,
        {
            if self.edges[i].same(key) {
                assert(ks[i as int] == key.view());
                return true;
            }
            i = i + 1;
        }
        false
    }

    /// Connect the two expressions of `edge` by it, unless an edge with its
    /// identity is already there.
    pub fn connect(&mut self, edge: Edge)
        ensures
            final(self)@ == connect_spec(old(self)@, einfo(edge)),
    {
        let key = EdgeKey::from_edge(&edge);
        if self.has_key(&key) {
            return;
        }
        let ghost ei = einfo(edge);
        let ghost keys0 = self@.keys;
        self.edges.push(key);
        assert(self@.keys =~= keys0.push(edge_key(ei)));
        let (a, b) = edge.vertices();
        let first = a.to_string();
        let second = b.to_string();
        let copy = edge.clone();
        add_link_exec(&mut self.expression_connections, first.clone(), second.clone(), copy);
        add_link_exec(&mut self.expression_connections, second, first, edge);
    }
}


proof fn lemma_flat_links_push(l: Seq<(Seq<char>, Seq<EdgeInfo>)>, n: int)
    requires
        0 <= n < l.len(),
    ensures
        flat_links(l.take(n + 1)) == flat_links(l.take(n)) + l[n].1,
{
    assert(l.take(n + 1).drop_last() =~= l.take(n));
}

proof fn lemma_flat_conn_push(c: Seq<(Seq<char>, Seq<(Seq<char>, Seq<EdgeInfo>)>)>, n: int)
    requires
        0 <= n < c.len(),
    ensures
        flat_conn(c.take(n + 1)) == flat_conn(c.take(n)) + flat_links(c[n].1),
{
    assert(c.take(n + 1).drop_last() =~= c.take(n));
}

impl TypesGraph {
    /// The edges of the graph, each once, in the order of the connections.
    pub fn to_edges_vec(&self) -> (r: Vec<Edge>)
        ensures
            edges_view(r@) == dedup_into(seq![], flat_conn(self@.conn)),
    {
        let ghost cv = self@.conn;
        let conn = &self.expression_connections;
        let mut seen: Vec<EdgeKey> = Vec::new();
        let mut result: Vec<Edge> = Vec::new();
        let ghost mut done: Seq<EdgeInfo> = seq![];
        let mut i: usize = 0;
        assert(cv.take(0) =~= Seq::<(Seq<char>, Seq<(Seq<char>, Seq<EdgeInfo>)>)>::empty());
        assert(edges_view(result@) =~= dedup_into(seq![], done));
        while i < conn.len()
            invariant
                i <= conn.len(),
                cv == conn_view(conn@),
                cv.len() == conn.len(),
                done == flat_conn(cv.take(i as int)),
                edges_view(result@) == dedup_into(seq![], done),
                seen@.map_values(|k: EdgeKey| k.view()) == edges_view(result@).map_values(|x: EdgeInfo| edge_key(x)),
            decreases conn.len() - i,
        {
            let links = &conn[i].1;
            let ghost lv = cv[i as int].1;
            assert(lv == links_view(links@));
            let ghost start = done;
            let mut j: usize = 0;
            assert(lv.take(0) =~= Seq::<(Seq<char>, Seq<EdgeInfo>)>::empty());
            assert(start + flat_links(lv.take(0)) =~= start);
            while j < links.len()
                invariant
                    j <= links.len(),
                    lv == links_view(links@),
                    lv.len() == links.len(),
                    done == start + flat_links(lv.take(j as int)),
                    edges_view(result@) == dedup_into(seq![], done),
                    seen@.map_values(|k: EdgeKey| k.view()) == edges_view(result@).map_values(|x: EdgeInfo| edge_key(x)),
                decreases links.len() - j,
            {
                let list = &links[j].1;
                let ghost ev = lv[j as int].1;
                assert(ev == edges_view(list@));
                let ghost mid = done;
                let mut k: usize = 0;
                assert(mid + ev.take(0) =~= mid);
                while k < list.len()
                    invariant
                        k <= list.len(),
                        ev == edges_view(list@),
                        ev.len() == list.len(),
                        done == mid + ev.take(k as int),
                        edges_view(result@) == dedup_into(seq![], done),
                        seen@.map_values(|k: EdgeKey| k.view()) == edges_view(result@).map_values(|x: EdgeInfo| edge_key(x)),
                    decreases list.len() - k,
                {
                    let key = EdgeKey::from_edge(&list[k]);
                    let ghost d0 = done;
                    proof {
                        done = done.push(ev[k as int]);
                        assert(done.drop_last() =~= d0);
                        assert(mid + ev.take(k + 1) =~= done);
                    }
                    let mut present = false;
                    let mut m: usize = 0;
                    while m < seen.len()
                        invariant
                            m <= seen.len(),
                            present == (exists|t: int| 0 <= t < m && seen@[t].view() == key.view()),
                        decreases seen.len() - m,
                    {
                        if seen[m].same(&key) {
                            present = true;
                        }
                        m = m + 1;
                    }
                    let ghost rk = edges_view(result@).map_values(|x: EdgeInfo| edge_key(x));
                    assert(present == rk.contains(key.view())) by {
                        if present {
                            let t = choose|t: int| 0 <= t < seen.len() && seen@[t].view() == key.view();
                            assert(seen@.map_values(|k: EdgeKey| k.view())[t] == key.view());
                        }
                        if rk.contains(key.view()) {
                            let t = choose|t: int| 0 <= t < rk.len() && rk[t] == key.view();
                            assert(seen@.map_values(|k: EdgeKey| k.view())[t] == key.view());
                        }
                    }
                    if !present {
                        let ghost r0 = result@;
                        let ghost s0 = seen@;
                        seen.push(key);
                        result.push(list[k].clone());
                        assert(edges_view(result@) =~= edges_view(r0).push(ev[k as int]));
                        assert(seen@.map_values(|k: EdgeKey| k.view()) =~= s0.map_values(|k: EdgeKey| k.view()).push(edge_key(ev[k as int])));
                        assert(edges_view(result@).map_values(|x: EdgeInfo| edge_key(x)) =~= edges_view(r0).map_values(|x: EdgeInfo| edge_key(x)).push(edge_key(ev[k as int])));
                    }
                    k = k + 1;
                }
                proof {
                    assert(ev.take(k as int) =~= ev);
                    lemma_flat_links_push(lv, j as int);
                    assert(start + flat_links(lv.take(j + 1)) =~= mid + ev);
                }
                j = j + 1;
            }
            proof {
                assert(lv.take(j as int) =~= lv);
                lemma_flat_conn_push(cv, i as int);
            }
            i = i + 1;
        }
        assert(cv.take(i as int) =~= cv);
        result
    }

    /// The expressions linked to `expr`, with the edges linking them.
    pub fn connections_for(&self, expr: &str) -> (r: Option<&Vec<(String, Vec<Edge>)>>)
        ensures
            match kv_get(self@.conn, expr@) {
                Some(l) => r matches Some(v) && links_view(v@) == l,
                None => r is None,
            },
    {
        let c = &self.expression_connections;
        let p = key_position(c, expr);
        proof {
            lemma_kv_index_keys(self@.conn, c@.map_values(|q: (String, Vec<(String, Vec<Edge>)>)| (q.0@, ())), expr@);
        }
        if p < c.len() {
            Some(&c[p].1)
        } else {
            None
        }
    }

    /// Whether `expr` is an expression of the graph.
    pub fn contains_expression(&self, expr: &str) -> (r: bool)
        ensures
            r == kv_get(self@.conn, expr@).is_some(),
    {
        self.connections_for(expr).is_some()
    }

    /// The texts of the expressions of the graph.
    pub fn expressions(&self) -> (r: Vec<String>)
        ensures
            r@.map_values(|t: String| t@) == self@.conn.map_values(|p: (Seq<char>, Seq<(Seq<char>, Seq<EdgeInfo>)>)| p.0),
    {
        let ghost cv = self@.conn;
        let mut out: Vec<String> = Vec::new();
        let mut i: usize = 0;
        while i < self.expression_connections.len()
            invariant
                i <= self.expression_connections.len(),
                cv == self@.conn,
                cv == conn_view(self.expression_connections@),
                out@.map_values(|t: String| t@) == cv.take(i as int).map_values(|p: (Seq<char>, Seq<(Seq<char>, Seq<EdgeInfo>)>)| p.0),
            decreases self.expression_connections.len() - i,
        {
            let ghost before = out@;
            assert(cv[i as int].0 == self.expression_connections@[i as int].0@);
            out.push(self.expression_connections[i].0.clone());
            assert(cv.take(i + 1) =~= cv.take(i as int).push(cv[i as int]));
            assert(out@.map_values(|t: String| t@) =~= before.map_values(|t: String| t@).push(cv[i as int].0));
            assert(out@.map_values(|t: String| t@) =~= cv.take(i + 1).map_values(|p: (Seq<char>, Seq<(Seq<char>, Seq<EdgeInfo>)>)| p.0));
            i = i + 1;
        }
        assert(cv.take(i as int) =~= cv);
        out
    }

    /// Connect every edge of `other`.
    pub fn merge(&mut self, other: TypesGraph)
        ensures
            final(self)@ == connect_all(old(self)@, dedup_into(seq![], flat_conn(other@.conn))),
    {
        let edges = other.to_edges_vec();
        let ghost ev = edges_view(edges@);
        let n = edges.len();
        assert(ev.len() == n);
        let ghost g0 = self@;
        let mut edges = edges;
        let mut rev: Vec<Edge> = Vec::new();
        while edges.len() > 0
            invariant
                ev == edges_view(edges@) + edges_view(rev@).reverse(),
                ev.len() <= usize::MAX,
            decreases edges.len(),
        {
            let ghost e0 = edges@;
            let ghost r0 = rev@;
            let e = edges.pop().unwrap();
            rev.push(e);
            assert(edges_view(e0) =~= edges_view(edges@).push(einfo(e)));
            assert(edges_view(rev@).reverse() =~= seq![einfo(e)] + edges_view(r0).reverse());
        }
        assert(ev =~= edges_view(rev@).reverse());
        let mut i: usize = 0;
        assert(ev.take(0) =~= Seq::<EdgeInfo>::empty());
        while rev.len() > 0
            invariant
                ev.len() <= usize::MAX,
                ev.len() == i + rev.len(),
                ev.skip(i as int) == edges_view(rev@).reverse(),
                self@ == connect_all(g0, ev.take(i as int)),
            decreases rev.len(),
        {
            let ghost r0 = rev@;
            let e = rev.pop().unwrap();
            proof {
                assert(edges_view(r0) =~= edges_view(rev@).push(einfo(e)));
                assert(edges_view(r0).reverse() =~= seq![einfo(e)] + edges_view(rev@).reverse());
                assert(ev[i as int] == einfo(e)) by {
                    assert(ev.skip(i as int)[0] == ev[i as int]);
                }
                assert(ev.take(i + 1).drop_last() =~= ev.take(i as int));
                assert(ev.skip(i + 1) =~= ev.skip(i as int).drop_first());
            }
            self.connect(e);
            i = i + 1;
        }
        assert(ev.take(i as int) =~= ev);
    }
}


/// Connecting an edge twice is connecting it once.
pub proof fn law_connect_idempotent(g: GraphV, e: EdgeInfo)
    ensures
        connect_spec(connect_spec(g, e), e) == connect_spec(g, e),
{
    let g1 = connect_spec(g, e);
    if !g.keys.contains(edge_key(e)) {
        assert(g1.keys[g1.keys.len() - 1] == edge_key(e));
    }
    assert(g1.keys.contains(edge_key(e)));
}

/// The identities of the edges in order.
pub open spec fn keys_of(s: Seq<EdgeInfo>) -> Seq<(Seq<char>, Seq<char>, Bounds, u8)> {
    s.map_values(|x: EdgeInfo| edge_key(x))
}

/// No two of the edges have the same identity.
pub open spec fn distinct_keys(s: Seq<EdgeInfo>) -> bool {
    forall|i: int, j: int| 0 <= i < j < s.len() ==> edge_key(#[trigger] s[i]) != edge_key(#[trigger] s[j])
}

/// The edges of a graph, as [`TypesGraph::to_edges_vec`] lists them, have
/// distinct identities; each edge of the connections has the identity of one
/// of them.
pub proof fn law_edges_listed_once(d: Seq<EdgeInfo>, s: Seq<EdgeInfo>)
    requires
        distinct_keys(d),
    ensures
        distinct_keys(dedup_into(d, s)),
        forall|i: int| 0 <= i < s.len() ==> keys_of(dedup_into(d, s)).contains(edge_key(#[trigger] s[i])),
    decreases s.len(),
{
    if s.len() > 0 {
        law_edges_listed_once(d, s.drop_last());
        let prev = dedup_into(d, s.drop_last());
        let x = s.last();
        let r = dedup_into(d, s);
        if !keys_of(prev).contains(edge_key(x)) {
            assert forall|i: int, j: int| 0 <= i < j < r.len() implies edge_key(#[trigger] r[i]) != edge_key(#[trigger] r[j]) by {
                if j == r.len() - 1 {
                    assert(keys_of(prev)[i] == edge_key(r[i]));
                } else {
                    assert(r[i] == prev[i] && r[j] == prev[j]);
                }
            }
            assert(keys_of(r)[r.len() - 1] == edge_key(x));
        }
        assert forall|i: int| 0 <= i < s.len() implies keys_of(r).contains(edge_key(#[trigger] s[i])) by {
            if i < s.len() - 1 {
                assert(s.drop_last()[i] == s[i]);
                assert(keys_of(prev).contains(edge_key(s[i])));
                let k = choose|k: int| 0 <= k < keys_of(prev).len() && keys_of(prev)[k] == edge_key(s[i]);
                assert(keys_of(r)[k] == keys_of(prev)[k]);
            } else if keys_of(prev).contains(edge_key(x)) {
                let k = choose|k: int| 0 <= k < keys_of(prev).len() && keys_of(prev)[k] == edge_key(x);
                assert(keys_of(r)[k] == keys_of(prev)[k]);
            } else {
                assert(keys_of(r)[r.len() - 1] == edge_key(x));
            }
        }
    }
}

/// Connecting edges keeps the identities already there and adds each new
/// one once: after merging, the graph's edge identities are those it had and
/// those of the merged edges, each once.
pub proof fn law_merge_keys(g: GraphV, s: Seq<EdgeInfo>)
    ensures
        forall|k: (Seq<char>, Seq<char>, Bounds, u8)| #[trigger] connect_all(g, s).keys.contains(k)
            <==> (g.keys.contains(k) || keys_of(s).contains(k)),
        g.keys.no_duplicates() ==> connect_all(g, s).keys.no_duplicates(),
    decreases s.len(),
{
    if s.len() > 0 {
        law_merge_keys(g, s.drop_last());
        let prev = connect_all(g, s.drop_last());
        let e = s.last();
        let nk = edge_key(e);
        assert(keys_of(s) =~= keys_of(s.drop_last()).push(nk));
        assert forall|k: (Seq<char>, Seq<char>, Bounds, u8)| #[trigger] connect_all(g, s).keys.contains(k)
            <==> (g.keys.contains(k) || keys_of(s).contains(k)) by {
            let ks = keys_of(s);
            let kp = keys_of(s.drop_last());
            if ks.contains(k) && k != nk {
                let j = choose|j: int| 0 <= j < ks.len() && ks[j] == k;
                assert(kp[j] == k);
            }
            if kp.contains(k) {
                let j = choose|j: int| 0 <= j < kp.len() && kp[j] == k;
                assert(ks[j] == k);
            }
            if k == nk {
                assert(ks[ks.len() - 1] == k);
            }
            if !prev.keys.contains(nk) {
                let nkeys = prev.keys.push(nk);
                assert(nkeys[prev.keys.len() as int] == nk);
                if prev.keys.contains(k) {
                    let j = choose|j: int| 0 <= j < prev.keys.len() && prev.keys[j] == k;
                    assert(nkeys[j] == k);
                }
                if nkeys.contains(k) && k != nk {
                    let j = choose|j: int| 0 <= j < nkeys.len() && nkeys[j] == k;
                    assert(prev.keys[j] == k);
                }
            }
        }
        if g.keys.no_duplicates() && !prev.keys.contains(nk) {
            let nkeys = prev.keys.push(nk);
            assert forall|a: int, b: int| 0 <= a < nkeys.len() && 0 <= b < nkeys.len() && a != b implies nkeys[a] != nkeys[b] by {
                if b == prev.keys.len() {
                    assert(prev.keys[a] == nkeys[a]);
                } else if a == prev.keys.len() {
                    assert(prev.keys[b] == nkeys[b]);
                }
            }
        }
    }
}


/// Connecting an edge keeps every key the graph had, holds the edge's key
/// afterwards, adds at most that key, and keeps keys listed once.
pub proof fn law_connect_one_edge_per_key(g: GraphV, e: EdgeInfo)
    ensures
        connect_spec(g, e).keys.contains(edge_key(e)),
        forall|k: (Seq<char>, Seq<char>, Bounds, u8)| #[trigger] connect_spec(g, e).keys.contains(k) <==> (g.keys.contains(k) || k == edge_key(e)),
        g.keys.no_duplicates() ==> connect_spec(g, e).keys.no_duplicates(),
        connect_spec(connect_spec(g, e), e) == connect_spec(g, e),
{
    let s = seq![e];
    law_merge_keys(g, s);
    assert(s.drop_last() =~= Seq::<EdgeInfo>::empty());
    assert(connect_all(g, s.drop_last()) == g);
    assert(s.last() == e);
    assert(connect_all(g, s) == connect_spec(g, e));
    if !g.keys.contains(edge_key(e)) {
        assert(connect_spec(g, e).keys.last() == edge_key(e));
    }
    assert(keys_of(seq![e]) =~= seq![edge_key(e)]);
    law_connect_idempotent(g, e);
}

/// Merging a graph in leaves exactly the keys of both: those the graph had
/// and those of the edges of the other graph (as [`TypesGraph::to_edges_vec`]
/// lists them), each once when they were.
pub proof fn law_merge_key_union(g: GraphV, other: GraphV)
    ensures
        forall|k: (Seq<char>, Seq<char>, Bounds, u8)| #[trigger] connect_all(g, dedup_into(seq![], flat_conn(other.conn))).keys.contains(k)
            <==> (g.keys.contains(k) || keys_of(dedup_into(seq![], flat_conn(other.conn))).contains(k)),
        g.keys.no_duplicates() ==> connect_all(g, dedup_into(seq![], flat_conn(other.conn))).keys.no_duplicates(),
{
    law_merge_keys(g, dedup_into(seq![], flat_conn(other.conn)));
}
} // verus!
