//! Type inference: types flow along the edges of the type graphs until nothing
//! changes (or for at most a fixed number of passes).

use vstd::prelude::*;
use crate::type_inference::types::{Type, TypeV, teq, field_type, fields_view, field_position, lemma_fields_view, lemma_field_index};
use crate::type_inference::expression::{Expression, ExprInfo, info, retyped};
use crate::type_inference::edge::{Edge, EdgeInfo, einfo, ends, bounds_of, edge_tag};
use crate::type_inference::graph::{TypesGraph, edges_view, dedup_into, flat_conn, links_view};
use crate::type_inference::intersection::{Bounds, TypeInferenceError, meet, mismatch, intersect, intersect_list_element};
use crate::type_inference::built_in::{check_inequalities, is_inequality_predicate};
use crate::strmap::{kv_get, kv_index, kv_insert, key_position, lemma_kv_index_keys};
use crate::text::{str_eq, starts_with_str, has_prefix, concat4};

verus! {

/// How an edge constrains its two expressions, one step: the new edge and
/// whether a type changed, or what an edge whose types conflict reports: the
/// two types that have no intersection and the edge's bounds.
///
/// - equality: both sides take the intersection of their types;
/// - element of a list: an untyped list becomes a list, else the element and the
///   list's element take the intersection of their types;
/// - field of a record: an untyped parent becomes an opened record; a field the
///   record lacks is added to it; for a field it has, a type differing from the
///   intersection counts as a change though nothing is written back;
/// - predicate argument: nothing changes.
pub open spec fn infer_edge(e: EdgeInfo) -> Result<(EdgeInfo, bool), (TypeV, TypeV, Bounds)> {
    if e.tag == 0 {
        match meet(e.a.ty, e.b.ty) {
            None => Err(mismatch(e.a.ty, e.b.ty, e.bounds)),
            Some(res) => {
                let ca = !teq(res, e.a.ty);
                let cb = !teq(res, e.b.ty);
                let a2 = if ca { retyped(e.a, res) } else { e.a };
                let b2 = if cb { retyped(e.b, res) } else { e.b };
                Ok((EdgeInfo { a: a2, b: b2, ..e }, ca || cb))
            },
        }
    } else if e.tag == 1 {
        if e.a.ty is Any {
            Ok((EdgeInfo { a: retyped(e.a, TypeV::List(Box::new(TypeV::Any))), ..e }, true))
        } else {
            match e.a.ty {
                TypeV::List(x) => match meet(*x, e.b.ty) {
                    None => Err(mismatch(*x, e.b.ty, e.bounds)),
                    Some(res) => {
                        let cb = !teq(res, e.b.ty);
                        let b2 = if cb { retyped(e.b, res) } else { e.b };
                        let nl = TypeV::List(Box::new(res));
                        let ca = !teq(nl, e.a.ty);
                        let a2 = if ca { retyped(e.a, nl) } else { e.a };
                        Ok((EdgeInfo { a: a2, b: b2, ..e }, ca || cb))
                    },
                },
                _ => Err((e.a.ty, e.b.ty, e.bounds)),
            }
        }
    } else if e.tag == 2 {
        if e.a.ty is Any {
            Ok((EdgeInfo { a: retyped(e.a, TypeV::Record(Seq::empty(), true)), ..e }, true))
        } else {
            match e.a.ty {
                TypeV::Record(fs, opened) => match e.b.field {
                    None => Ok((e, false)),
                    Some(name) => match field_type(fs, name) {
                        Some(existing) => match meet(e.b.ty, existing) {
                            None => Err(mismatch(e.b.ty, existing, e.bounds)),
                            Some(res) => Ok((e, !teq(res, existing))),
                        },
                        None => Ok((EdgeInfo { a: retyped(e.a, TypeV::Record(fs.push((name, e.b.ty)), opened)), ..e }, true)),
                    },
                },
                _ => Ok((e, false)),
            }
        }
    } else {
        Ok((e, false))
    }
}

/// An end given type `ty` when its text is `text` (and its type is its own).
pub open spec fn spread_end(x: ExprInfo, text: Seq<char>, ty: TypeV) -> ExprInfo {
    if x.text == text { retyped(x, ty) } else { x }
}

pub open spec fn spread_edge(e: EdgeInfo, text: Seq<char>, ty: TypeV) -> EdgeInfo {
    EdgeInfo { a: spread_end(e.a, text, ty), b: spread_end(e.b, text, ty), ..e }
}

/// Every expression whose text is `text`, in every edge, given type `ty`: an
/// expression has one type, wherever it occurs.
pub open spec fn spread(es: Seq<(Seq<char>, EdgeInfo)>, text: Seq<char>, ty: TypeV) -> Seq<(Seq<char>, EdgeInfo)> {
    es.map_values(|p: (Seq<char>, EdgeInfo)| (p.0, spread_edge(p.1, text, ty)))
}

/// The rest of a pass from edge `i` on: each edge in turn constrains its two
/// expressions as [`infer_edge`] says, and when a type changed, the new types
/// of its two expressions are given to every occurrence of them. Returns the
/// edges after it, whether a type changed, and what the first conflicting
/// edge reports, if any (the edges are then left as they were before it).
pub open spec fn pass_from(es: Seq<(Seq<char>, EdgeInfo)>, i: nat, changed: bool) -> (Seq<(Seq<char>, EdgeInfo)>, bool, Option<(TypeV, TypeV, Bounds)>)
    decreases es.len() - i,
{
    if i >= es.len() {
        (es, changed, None)
    } else {
        match infer_edge(es[i as int].1) {
            Err(m) => (es, changed, Some(m)),
            Ok((e2, c)) => {
                let es1 = es.update(i as int, (es[i as int].0, e2));
                let es2 = if c { spread(spread(es1, e2.a.text, e2.a.ty), e2.b.text, e2.b.ty) } else { es1 };
                pass_from(es2, i + 1, changed || c)
            },
        }
    }
}

/// One pass over the edges in order.
pub open spec fn pass(es: Seq<(Seq<char>, EdgeInfo)>) -> (Seq<(Seq<char>, EdgeInfo)>, bool, Option<(TypeV, TypeV, Bounds)>) {
    pass_from(es, 0, false)
}

/// The type of the first expression with a type of its own whose text is `t`,
/// in the order of the edges and of their ends.
pub open spec fn first_own_type(es: Seq<(Seq<char>, EdgeInfo)>, t: Seq<char>) -> Option<TypeV>
    decreases es.len(),
{
    if es.len() == 0 {
        None
    } else if es[0].1.a.own && es[0].1.a.text == t {
        Some(es[0].1.a.ty)
    } else if es[0].1.b.own && es[0].1.b.text == t {
        Some(es[0].1.b.ty)
    } else {
        first_own_type(es.drop_first(), t)
    }
}

/// Whether every expression with a type of its own carries the type of the
/// first occurrence of its text: expressions with equal texts have equal types.
pub open spec fn consistent(es: Seq<(Seq<char>, EdgeInfo)>) -> bool {
    forall|i: int| 0 <= i < es.len() ==> {
        &&& ((#[trigger] es[i]).1.a.own ==> first_own_type(es, es[i].1.a.text) == Some(es[i].1.a.ty))
        &&& (es[i].1.b.own ==> first_own_type(es, es[i].1.b.text) == Some(es[i].1.b.ty))
    }
}

pub open spec fn align_end(x: ExprInfo, es: Seq<(Seq<char>, EdgeInfo)>) -> ExprInfo {
    if x.own {
        match first_own_type(es, x.text) {
            Some(t) => ExprInfo { ty: t, ..x },
            None => x,
        }
    } else {
        x
    }
}

/// The edges with each expression given the type of the first occurrence of
/// its text.
pub open spec fn align(es: Seq<(Seq<char>, EdgeInfo)>) -> Seq<(Seq<char>, EdgeInfo)> {
    es.map_values(|p: (Seq<char>, EdgeInfo)| (p.0, EdgeInfo { a: align_end(p.1.a, es), b: align_end(p.1.b, es), ..p.1 }))
}

/// At most `n` passes, stopping after a pass that changes nothing or fails.
pub open spec fn infer_rounds(es: Seq<(Seq<char>, EdgeInfo)>, n: nat) -> (Seq<(Seq<char>, EdgeInfo)>, Option<(TypeV, TypeV, Bounds)>)
    decreases n,
{
    if n == 0 {
        (es, None)
    } else {
        let (es2, changed, err) = pass(es);
        if err is Some {
            (es2, err)
        } else if changed {
            infer_rounds(es2, (n - 1) as nat)
        } else {
            (es2, None)
        }
    }
}

pub open spec fn named_edges(v: Seq<(String, Edge)>) -> Seq<(Seq<char>, EdgeInfo)> {
    v.map_values(|p: (String, Edge)| (p.0@, einfo(p.1)))
}

/// The number of passes inference makes at most.
pub const MAX_ITERATIONS: usize = 1000;

/// One step of inference on one edge, as [`infer_edge`] says.
fn infer_one(edge: &mut Edge) -> (r: Result<bool, TypeInferenceError>)
    ensures
        match infer_edge(einfo(*old(edge))) {
            Ok((e2, c)) => r matches Ok(c2) && c2 == c && einfo(*final(edge)) == e2,
            Err(m) => r matches Err(er) && (er.left@, er.right@, er.bounds) == m && einfo(*final(edge)) == einfo(*old(edge)),
        },
{
    match edge {
        Edge::Equality { left, right, bounds } => {
            let lt = left.get_type().clone();
            let rt = right.get_type().clone();
            let result = match intersect(lt.clone(), rt.clone(), *bounds) {
                Ok(t) => t,
                Err(e) => {
                    return Err(e);
                },
            };
            let ca = !result.equals(&lt);
            let cb = !result.equals(&rt);
            if ca {
                left.set_type(result.clone());
            }
            if cb {
                right.set_type(result);
            }
            Ok(ca || cb)
        },
        Edge::EqualityOfElement { list, element, bounds } => {
            if list.get_type().is_any() {
                list.set_type(Type::list(Type::Any));
                return Ok(true);
            }
            let et = element.get_type().clone();
            let result = match intersect_list_element(list.get_type(), et.clone(), *bounds) {
                Ok(t) => t,
                Err(e) => {
                    return Err(e);
                },
            };
            let cb = !result.equals(&et);
            if cb {
                element.set_type(result.clone());
            }
            let new_list_type = Type::list(result);
            let ca = !new_list_type.equals(list.get_type());
            if ca {
                list.set_type(new_list_type);
            }
            Ok(ca || cb)
        },
        Edge::FieldBelonging { parent, field, bounds } => {
            if parent.get_type().is_any() {
                parent.set_type(Type::opened_record());
                return Ok(true);
            }
            let pt = parent.get_type().clone();
            match pt {
                Type::Record { fields, is_opened } => {
                    let name = match field.field() {
                        Some(f) => f.to_string(),
                        None => {
                            return Ok(false);
                        },
                    };
                    let ft = field.get_type().clone();
                    proof {
                        lemma_fields_view(fields@);
                        lemma_field_index(fields_view(fields@), name@);
                    }
                    let p = field_position(&fields, name.as_str());
                    if p < fields.len() {
                        let existing = fields[p].1.clone();
                        let result = match intersect(ft, existing.clone(), *bounds) {
                            Ok(t) => t,
                            Err(e) => {
                                return Err(e);
                            },
                        };
                        Ok(!result.equals(&existing))
                    } else {
                        let mut fields = fields;
                        let ghost f0 = fields@;
                        fields.push((name, ft));
                        proof {
                            assert(fields@.drop_last() =~= f0);
                        }
                        parent.set_type(Type::record(fields, is_opened));
                        Ok(true)
                    }
                },
                _ => Ok(false),
            }
        },
        Edge::PredicateArgument { .. } => Ok(false),
    }
}


/// The abstract state of inference: the named edges, and the graphs by name.
pub struct InferenceV {
    pub edges: Seq<(Seq<char>, EdgeInfo)>,
    pub graphs: Seq<(Seq<char>, crate::type_inference::graph::GraphV)>,
}

pub open spec fn graphs_view(v: Seq<(String, TypesGraph)>) -> Seq<(Seq<char>, crate::type_inference::graph::GraphV)> {
    v.map_values(|p: (String, TypesGraph)| (p.0@, p.1@))
}

/// The edges of each graph, in turn, named by their graph.
pub open spec fn collect_edges(gs: Seq<(Seq<char>, crate::type_inference::graph::GraphV)>) -> Seq<(Seq<char>, EdgeInfo)>
    decreases gs.len(),
{
    if gs.len() == 0 {
        seq![]
    } else {
        let (name, g) = gs.last();
        collect_edges(gs.drop_last()) + dedup_into(seq![], flat_conn(g.conn)).map_values(|e: EdgeInfo| (name, e))
    }
}

/// Type inference over the graphs of a program's predicates.
pub struct TypeInference {
    all_edges: Vec<(String, Edge)>,
    graphs: Vec<(String, TypesGraph)>,
}

impl View for TypeInference {
    type V = InferenceV;

    closed spec fn view(&self) -> InferenceV {
        InferenceV { edges: named_edges(self.all_edges@), graphs: graphs_view(self.graphs@) }
    }
}

impl TypeInference {
    /// Inference over the given graphs: the edges of each graph, in turn.
    pub fn new(graphs: Vec<(String, TypesGraph)>) -> (r: TypeInference)
        ensures
            r@.graphs == graphs_view(graphs@),
            r@.edges == collect_edges(graphs_view(graphs@)),
    {
        let ghost gv = graphs_view(graphs@);
        let mut all_edges: Vec<(String, Edge)> = Vec::new();
        let mut i: usize = 0;
        assert(gv.take(0) =~= Seq::<(Seq<char>, crate::type_inference::graph::GraphV)>::empty());
        assert(named_edges(all_edges@) =~= Seq::<(Seq<char>, EdgeInfo)>::empty());
        while i < graphs.len()
            invariant
                i <= graphs.len(),
                gv == graphs_view(graphs@),
                named_edges(all_edges@) == collect_edges(gv.take(i as int)),
            decreases graphs.len() - i,
        {
            let name = &graphs[i].0;
            let edges = graphs[i].1.to_edges_vec();
            let ghost ev = edges_view(edges@);
            let ghost start = named_edges(all_edges@);
            let mut j: usize = 0;
            assert(start + ev.take(0).map_values(|e: EdgeInfo| (name@, e)) =~= start);
            while j < edges.len()
                invariant
                    j <= edges.len(),
                    ev == edges_view(edges@),
                    named_edges(all_edges@) == start + ev.take(j as int).map_values(|e: EdgeInfo| (name@, e)),
                decreases edges.len() - j,
            {
                let ghost before = named_edges(all_edges@);
                all_edges.push((name.clone(), edges[j].clone()));
                assert(named_edges(all_edges@) =~= before.push((name@, ev[j as int])));
                assert(ev.take(j + 1).map_values(|e: EdgeInfo| (name@, e)) =~= ev.take(j as int).map_values(|e: EdgeInfo| (name@, e)).push((name@, ev[j as int])));
                j = j + 1;
            }
            proof {
                assert(ev.take(j as int) =~= ev);
                assert(gv.take(i + 1).drop_last() =~= gv.take(i as int));
                assert(gv.take(i + 1).last() == (name@, graphs@[i as int].1@));
            }
            i = i + 1;
        }
        assert(gv.take(i as int) =~= gv);
        let mut engine = TypeInference { all_edges, graphs };
        engine.merge_graphs();
        engine
    }

    /// Look for references between the graphs. None is linked: the graphs are
    /// left as they are.
    fn merge_graphs(&mut self)
        ensures
            final(self)@ == old(self)@,
    {
    }

    /// One pass of inference over all edges.
    fn run_pass(&mut self) -> (r: (bool, Option<TypeInferenceError>))
        ensures
            final(self)@.graphs == old(self)@.graphs,
            final(self)@.edges == pass(old(self)@.edges).0,
            r.0 == pass(old(self)@.edges).1,
            match pass(old(self)@.edges).2 {
                Some(m) => r.1 matches Some(e) && (e.left@, e.right@, e.bounds) == m,
                None => r.1 is None,
            },
    {
        let ghost goal = pass(self@.edges);
        let mut changed = false;
        let mut i: usize = 0;
        let n = self.all_edges.len();
        while i < n
            invariant
                n == self.all_edges.len(),
                n == self@.edges.len(),
                i <= n,
                self@.graphs == old(self)@.graphs,
                goal == pass(old(self)@.edges),
                goal == pass_from(self@.edges, i as nat, changed),
            decreases n - i,
        {
            let ghost cur = self@.edges;
            let step = infer_one(&mut self.all_edges[i].1);
            proof {
                assert(self@.edges =~= cur.update(i as int, (cur[i as int].0, einfo(self.all_edges@[i as int].1))));
            }
            match step {
                Ok(c) => {
                    if c {
                        let (x, y) = self.all_edges[i].1.vertices();
                        let ta = x.to_string();
                        let tya = x.get_type().clone();
                        let tb = y.to_string();
                        let tyb = y.get_type().clone();
                        self.spread_exec(ta.as_str(), &tya);
                        self.spread_exec(tb.as_str(), &tyb);
                    }
                    changed = changed || c;
                },
                Err(e) => {
                    proof {
                        assert(self@.edges =~= cur);
                    }
                    return (changed, Some(e));
                },
            }
            i = i + 1;
        }
        (changed, None)
    }

    /// Give every occurrence of the expression whose text is `t` the type `ty`.
    fn spread_exec(&mut self, t: &str, ty: &Type)
        ensures
            final(self)@.graphs == old(self)@.graphs,
            final(self)@.edges == spread(old(self)@.edges, t@, ty@),
            final(self).all_edges@.len() == old(self).all_edges@.len(),
    {
        let ghost es0 = self@.edges;
        let mut j: usize = 0;
        while j < self.all_edges.len()
            invariant
                j <= self.all_edges.len(),
                self@.edges.len() == es0.len(),
                self@.graphs == old(self)@.graphs,
                es0 == old(self)@.edges,
                forall|k: int| 0 <= k < j ==> #[trigger] self@.edges[k] == (es0[k].0, spread_edge(es0[k].1, t@, ty@)),
                forall|k: int| j <= k < es0.len() ==> #[trigger] self@.edges[k] == es0[k],
            decreases self.all_edges.len() - j,
        {
            let ghost before = self@.edges;
            let ghost e0 = self.all_edges@[j as int].1;
            {
                let (x, y) = self.all_edges[j].1.vertices_mut();
                let tx = x.to_string();
                if str_eq(tx.as_str(), t) {
                    x.set_type(ty.clone());
                }
                let ty_text = y.to_string();
                if str_eq(ty_text.as_str(), t) {
                    y.set_type(ty.clone());
                }
            }
            proof {
                lemma_with_ends_info(e0, ends(self.all_edges@[j as int].1).0, ends(self.all_edges@[j as int].1).1);
                assert(self@.edges =~= before.update(j as int, (before[j as int].0, einfo(self.all_edges@[j as int].1))));
            }
            j = j + 1;
        }
        assert(self@.edges =~= spread(es0, t@, ty@));
    }

    /// The type of the first occurrence, with a type of its own, of the
    /// expression whose text is `t`.
    fn first_type_exec(&self, t: &str) -> (r: Option<Type>)
        ensures
            match first_own_type(self@.edges, t@) {
                Some(ty) => r matches Some(x) && x@ == ty,
                None => r is None,
            },
    {
        let ghost es = self@.edges;
        let mut i: usize = 0;
        assert(es.skip(0) =~= es);
        while i < self.all_edges.len()
            invariant
                i <= self.all_edges.len(),
                es == self@.edges,
                es.len() == self.all_edges.len(),
                first_own_type(es, t@) == first_own_type(es.skip(i as int), t@),
            decreases self.all_edges.len() - i,
        {
            proof {
                assert(es.skip(i as int)[0] == es[i as int]);
                assert(es.skip(i as int).drop_first() =~= es.skip(i + 1));
            }
            let (x, y) = self.all_edges[i].1.vertices();
            if x.has_own() && str_eq(x.to_string().as_str(), t) {
                return Some(x.get_type().clone());
            }
            if y.has_own() && str_eq(y.to_string().as_str(), t) {
                return Some(y.get_type().clone());
            }
            i = i + 1;
        }
        None
    }

    /// Give each expression the type of the first occurrence of its text.
    fn align_exec(&mut self)
        ensures
            final(self)@.graphs == old(self)@.graphs,
            final(self)@.edges == align(old(self)@.edges),
    {
        let ghost es0 = self@.edges;
        let mut targets: Vec<(Option<Type>, Option<Type>)> = Vec::new();
        let mut k: usize = 0;
        while k < self.all_edges.len()
            invariant
                k <= self.all_edges.len(),
                es0 == self@.edges,
                es0.len() == self.all_edges.len(),
                targets@.len() == k,
                forall|m: int| 0 <= m < k ==> target_ok((#[trigger] targets@[m]).0, es0[m].1.a, es0),
                forall|m: int| 0 <= m < k ==> target_ok((#[trigger] targets@[m]).1, es0[m].1.b, es0),
            decreases self.all_edges.len() - k,
        {
            let (x, y) = self.all_edges[k].1.vertices();
            let tx = if x.has_own() { self.first_type_exec(x.to_string().as_str()) } else { None };
            let ty = if y.has_own() { self.first_type_exec(y.to_string().as_str()) } else { None };
            targets.push((tx, ty));
            k = k + 1;
        }
        let mut j: usize = 0;
        while j < self.all_edges.len()
            invariant
                j <= self.all_edges.len(),
                self@.edges.len() == es0.len(),
                targets@.len() == es0.len(),
                self@.graphs == old(self)@.graphs,
                es0 == old(self)@.edges,
                forall|m: int| 0 <= m < es0.len() ==> target_ok((#[trigger] targets@[m]).0, es0[m].1.a, es0),
                forall|m: int| 0 <= m < es0.len() ==> target_ok((#[trigger] targets@[m]).1, es0[m].1.b, es0),
                forall|m: int| 0 <= m < j ==> #[trigger] self@.edges[m] == align(es0)[m],
                forall|m: int| j <= m < es0.len() ==> #[trigger] self@.edges[m] == es0[m],
            decreases self.all_edges.len() - j,
        {
            let ghost before = self@.edges;
            let ghost e0 = self.all_edges@[j as int].1;
            let tx = match &targets[j].0 {
                Some(t) => Some(t.clone()),
                None => None,
            };
            let tyy = match &targets[j].1 {
                Some(t) => Some(t.clone()),
                None => None,
            };
            {
                let (x, y) = self.all_edges[j].1.vertices_mut();
                match tx {
                    Some(t) => x.set_type(t),
                    None => {},
                }
                match tyy {
                    Some(t) => y.set_type(t),
                    None => {},
                }
            }
            proof {
                lemma_with_ends_info(e0, ends(self.all_edges@[j as int].1).0, ends(self.all_edges@[j as int].1).1);
                assert(self@.edges =~= before.update(j as int, (before[j as int].0, einfo(self.all_edges@[j as int].1))));
                assert(align(es0)[j as int] == (es0[j as int].0, EdgeInfo { a: align_end(es0[j as int].1.a, es0), b: align_end(es0[j as int].1.b, es0), ..es0[j as int].1 }));
            }
            j = j + 1;
        }
        assert(self@.edges =~= align(es0));
    }

    /// Run inference: each expression first takes the type of the first
    /// occurrence of its text; then passes over all edges until one changes
    /// nothing, a pass finds conflicting types, or [`MAX_ITERATIONS`] passes are
    /// made. Types flow through the graph: an expression has one type wherever
    /// it occurs, so what one edge learns of it every other edge sees.
    pub fn infer(&mut self) -> (r: Result<(), TypeInferenceError>)
        ensures
            final(self)@.graphs == old(self)@.graphs,
            final(self)@.edges == infer_rounds(align(old(self)@.edges), 1000).0,
            match infer_rounds(align(old(self)@.edges), 1000).1 {
                Some(m) => r matches Err(e) && (e.left@, e.right@, e.bounds) == m,
                None => r is Ok,
            },
            consistent(final(self)@.edges),
    {
        self.align_exec();
        proof {
            law_align_is_consistent(old(self)@.edges);
        }
        let ghost goal = infer_rounds(self@.edges, 1000);
        let mut changed = true;
        let mut iterations: usize = 0;
        while changed && iterations < MAX_ITERATIONS
            invariant
                iterations <= MAX_ITERATIONS,
                self@.graphs == old(self)@.graphs,
                goal == infer_rounds(align(old(self)@.edges), 1000),
                changed ==> goal == infer_rounds(self@.edges, (1000 - iterations) as nat),
                !changed ==> goal == (self@.edges, None::<(TypeV, TypeV, Bounds)>),
                consistent(self@.edges),
            decreases MAX_ITERATIONS - iterations,
        {
            proof {
                law_pass_keeps_types_shared(self@.edges);
            }
            let (c, err) = self.run_pass();
            iterations = iterations + 1;
            match err {
                Some(e) => {
                    return Err(e);
                },
                None => {},
            }
            changed = c;
        }
        Ok(())
    }
}

/// Whether `t` is the type an end is aligned to.
pub open spec fn target_ok(t: Option<Type>, x: ExprInfo, es: Seq<(Seq<char>, EdgeInfo)>) -> bool {
    match t {
        Some(ty) => x.own && first_own_type(es, x.text) == Some(ty@),
        None => !(x.own && first_own_type(es, x.text) is Some),
    }
}

proof fn lemma_with_ends_info(e: Edge, a: Expression, b: Expression)
    ensures
        einfo(crate::type_inference::edge::with_ends(e, a, b)) == (EdgeInfo { a: info(a), b: info(b), ..einfo(e) }),
{
}


/// The text naming field `field` of predicate `predicate_name`.
pub open spec fn addressing_text(predicate_name: Seq<char>, field: Seq<char>) -> Seq<char> {
    "PredicateAddressing("@ + predicate_name + "."@ + field + ")"@
}

/// The type of the first expression, in the order of the edges and of their
/// ends, whose text is `key`.
pub open spec fn type_named(es: Seq<(Seq<char>, EdgeInfo)>, key: Seq<char>) -> Option<TypeV>
    decreases es.len(),
{
    if es.len() == 0 {
        None
    } else if es[0].1.a.text == key {
        Some(es[0].1.a.ty)
    } else if es[0].1.b.text == key {
        Some(es[0].1.b.ty)
    } else {
        type_named(es.drop_first(), key)
    }
}

/// The field types of the expressions whose text starts with `prefix` and that
/// address a field, in the order of the edges and their ends; a later type of
/// a field replaces an earlier one.
pub open spec fn field_types_with_prefix(es: Seq<(Seq<char>, EdgeInfo)>, prefix: Seq<char>) -> Seq<(Seq<char>, TypeV)>
    decreases es.len(),
{
    if es.len() == 0 {
        seq![]
    } else {
        let prev = field_types_with_prefix(es.drop_last(), prefix);
        let e = es.last().1;
        let with_a = match e.a.field {
            Some(f) => if has_prefix(e.a.text, prefix) { kv_insert(prev, f, e.a.ty) } else { prev },
            None => prev,
        };
        match e.b.field {
            Some(f) => if has_prefix(e.b.text, prefix) { kv_insert(with_a, f, e.b.ty) } else { with_a },
            None => with_a,
        }
    }
}

pub open spec fn types_view(v: Seq<(String, Type)>) -> Seq<(Seq<char>, TypeV)> {
    v.map_values(|p: (String, Type)| (p.0@, p.1@))
}

/// Set `k` to `t` in a list of field types.
fn set_type_of(v: &mut Vec<(String, Type)>, k: String, t: Type)
    ensures
        types_view(final(v)@) == kv_insert(types_view(old(v)@), k@, t@),
{
    let ghost tv0 = types_view(v@);
    let p = key_position(v, k.as_str());
    proof {
        lemma_kv_index_keys(tv0, v@.map_values(|e: (String, Type)| (e.0@, ())), k@);
    }
    let ghost kv = k@;
    let ghost tt = t@;
    if p < v.len() {
        v.set(p, (k, t));
    } else {
        v.push((k, t));
    }
    assert(types_view(v@) =~= kv_insert(tv0, kv, tt));
}

impl TypeInference {
    /// The inferred type of field `field` of predicate `predicate_name`.
    pub fn get_type(&self, predicate_name: &str, field: &str) -> (r: Option<Type>)
        ensures
            match type_named(self@.edges, addressing_text(predicate_name@, field@)) {
                Some(t) => r matches Some(x) && x@ == t,
                None => r is None,
            },
    {
        let key = concat4("PredicateAddressing(", predicate_name, ".", field);
        let key = crate::text::concat2(key.as_str(), ")");
        let ghost es = self@.edges;
        let mut i: usize = 0;
        assert(es.skip(0) =~= es);
        while i < self.all_edges.len()
            invariant
                i <= self.all_edges.len(),
                es == self@.edges,
                es.len() == self.all_edges.len(),
                key@ == addressing_text(predicate_name@, field@),
                type_named(es, key@) == type_named(es.skip(i as int), key@),
            decreases self.all_edges.len() - i,
        {
            proof {
                assert(es.skip(i as int)[0] == es[i as int]);
                assert(es.skip(i as int).drop_first() =~= es.skip(i + 1));
            }
            let (v1, v2) = self.all_edges[i].1.vertices();
            let t1 = v1.to_string();
            if str_eq(t1.as_str(), key.as_str()) {
                return Some(v1.get_type().clone());
            }
            let t2 = v2.to_string();
            if str_eq(t2.as_str(), key.as_str()) {
                return Some(v2.get_type().clone());
            }
            i = i + 1;
        }
        None
    }

    /// The inferred types of the fields of predicate `predicate_name`.
    pub fn get_predicate_types(&self, predicate_name: &str) -> (r: Vec<(String, Type)>)
        ensures
            types_view(r@) == field_types_with_prefix(self@.edges, "PredicateAddressing("@ + predicate_name@),
    {
        let prefix = crate::text::concat2("PredicateAddressing(", predicate_name);
        let ghost es = self@.edges;
        let mut types: Vec<(String, Type)> = Vec::new();
        let mut i: usize = 0;
        assert(es.take(0) =~= Seq::<(Seq<char>, EdgeInfo)>::empty());
        assert(types_view(types@) =~= Seq::<(Seq<char>, TypeV)>::empty());
        while i < self.all_edges.len()
            invariant
                i <= self.all_edges.len(),
                es == self@.edges,
                es.len() == self.all_edges.len(),
                prefix@ == "PredicateAddressing("@ + predicate_name@,
                types_view(types@) == field_types_with_prefix(es.take(i as int), prefix@),
            decreases self.all_edges.len() - i,
        {
            proof {
                assert(es.take(i + 1).drop_last() =~= es.take(i as int));
                assert(es.take(i + 1).last() == es[i as int]);
            }
            let (v1, v2) = self.all_edges[i].1.vertices();
            let t1 = v1.to_string();
            if starts_with_str(t1.as_str(), prefix.as_str()) {
                if let Some(f) = v1.field() {
                    set_type_of(&mut types, f.to_string(), v1.get_type().clone());
                }
            }
            let t2 = v2.to_string();
            if starts_with_str(t2.as_str(), prefix.as_str()) {
                if let Some(f) = v2.field() {
                    set_type_of(&mut types, f.to_string(), v2.get_type().clone());
                }
            }
            i = i + 1;
        }
        assert(es.take(i as int) =~= es);
        types
    }
}


/// Whether every end with a type of its own and text `s` has type `v`.
pub open spec fn uniform(es: Seq<(Seq<char>, EdgeInfo)>, s: Seq<char>, v: TypeV) -> bool {
    forall|k: int| 0 <= k < es.len() ==> {
        &&& ((#[trigger] es[k]).1.a.own && es[k].1.a.text == s ==> es[k].1.a.ty == v)
        &&& (es[k].1.b.own && es[k].1.b.text == s ==> es[k].1.b.ty == v)
    }
}

/// Whether two edge lists have the same texts and kinds of ends everywhere.
pub open spec fn same_shape(es: Seq<(Seq<char>, EdgeInfo)>, qs: Seq<(Seq<char>, EdgeInfo)>) -> bool {
    &&& es.len() == qs.len()
    &&& forall|k: int| 0 <= k < es.len() ==> {
        &&& (#[trigger] es[k]).1.a.text == qs[k].1.a.text && es[k].1.a.own == qs[k].1.a.own
        &&& es[k].1.b.text == qs[k].1.b.text && es[k].1.b.own == qs[k].1.b.own
    }
}

/// Whether the ends with text `s` have the same types in both lists.
pub open spec fn agree_on(es: Seq<(Seq<char>, EdgeInfo)>, qs: Seq<(Seq<char>, EdgeInfo)>, s: Seq<char>) -> bool {
    forall|k: int| 0 <= k < es.len() ==> {
        &&& ((#[trigger] es[k]).1.a.text == s ==> es[k].1.a.ty == qs[k].1.a.ty)
        &&& (es[k].1.b.text == s ==> es[k].1.b.ty == qs[k].1.b.ty)
    }
}

proof fn lemma_uniform_first(es: Seq<(Seq<char>, EdgeInfo)>, s: Seq<char>, v: TypeV, k0: int)
    requires
        uniform(es, s, v),
        0 <= k0 < es.len(),
        (es[k0].1.a.own && es[k0].1.a.text == s) || (es[k0].1.b.own && es[k0].1.b.text == s),
    ensures
        first_own_type(es, s) == Some(v),
    decreases es.len(),
{
    assert(es[0] == es[0]);
    if !(es[0].1.a.own && es[0].1.a.text == s) && !(es[0].1.b.own && es[0].1.b.text == s) {
        let d = es.drop_first();
        assert forall|k: int| 0 <= k < d.len() implies {
            &&& ((#[trigger] d[k]).1.a.own && d[k].1.a.text == s ==> d[k].1.a.ty == v)
            &&& (d[k].1.b.own && d[k].1.b.text == s ==> d[k].1.b.ty == v)
        } by {
            assert(d[k] == es[k + 1]);
        }
        assert(d[k0 - 1] == es[k0]);
        lemma_uniform_first(d, s, v, k0 - 1);
    }
}

proof fn lemma_first_agree(es: Seq<(Seq<char>, EdgeInfo)>, qs: Seq<(Seq<char>, EdgeInfo)>, s: Seq<char>)
    requires
        same_shape(es, qs),
        agree_on(es, qs, s),
    ensures
        first_own_type(es, s) == first_own_type(qs, s),
    decreases es.len(),
{
    if es.len() > 0 {
        assert(es[0] == es[0] && qs[0] == qs[0]);
        let d = es.drop_first();
        let e = qs.drop_first();
        assert forall|k: int| 0 <= k < d.len() implies {
            &&& (#[trigger] d[k]).1.a.text == e[k].1.a.text && d[k].1.a.own == e[k].1.a.own
            &&& d[k].1.b.text == e[k].1.b.text && d[k].1.b.own == e[k].1.b.own
        } by {
            assert(d[k] == es[k + 1] && e[k] == qs[k + 1]);
        }
        assert forall|k: int| 0 <= k < d.len() implies {
            &&& ((#[trigger] d[k]).1.a.text == s ==> d[k].1.a.ty == e[k].1.a.ty)
            &&& (d[k].1.b.text == s ==> d[k].1.b.ty == e[k].1.b.ty)
        } by {
            assert(d[k] == es[k + 1] && e[k] == qs[k + 1]);
        }
        lemma_first_agree(d, e, s);
    }
}

proof fn lemma_first_some(es: Seq<(Seq<char>, EdgeInfo)>, k0: int, s: Seq<char>)
    requires
        0 <= k0 < es.len(),
        (es[k0].1.a.own && es[k0].1.a.text == s) || (es[k0].1.b.own && es[k0].1.b.text == s),
    ensures
        first_own_type(es, s) is Some,
    decreases es.len(),
{
    if !(es[0].1.a.own && es[0].1.a.text == s) && !(es[0].1.b.own && es[0].1.b.text == s) {
        assert(es.drop_first()[k0 - 1] == es[k0]);
        lemma_first_some(es.drop_first(), k0 - 1, s);
    }
}

/// `es` with each end aligned to the first occurrences in `rf`.
pub open spec fn align_to(es: Seq<(Seq<char>, EdgeInfo)>, rf: Seq<(Seq<char>, EdgeInfo)>) -> Seq<(Seq<char>, EdgeInfo)> {
    es.map_values(|p: (Seq<char>, EdgeInfo)| (p.0, EdgeInfo { a: align_end(p.1.a, rf), b: align_end(p.1.b, rf), ..p.1 }))
}

proof fn lemma_align_to_first(es: Seq<(Seq<char>, EdgeInfo)>, rf: Seq<(Seq<char>, EdgeInfo)>, s: Seq<char>)
    requires
        first_own_type(es, s) is Some ==> first_own_type(rf, s) is Some,
    ensures
        first_own_type(align_to(es, rf), s) == if first_own_type(es, s) is Some { first_own_type(rf, s) } else { None },
    decreases es.len(),
{
    if es.len() > 0 {
        let al = align_to(es, rf);
        assert(al[0] == (es[0].0, EdgeInfo { a: align_end(es[0].1.a, rf), b: align_end(es[0].1.b, rf), ..es[0].1 }));
        assert(al.drop_first() =~= align_to(es.drop_first(), rf));
        lemma_align_to_first(es.drop_first(), rf, s);
    }
}

/// Aligning gives every expression the type of the first occurrence of its
/// text, so afterwards expressions with equal texts have equal types.
pub proof fn law_align_is_consistent(es: Seq<(Seq<char>, EdgeInfo)>)
    ensures
        consistent(align(es)),
{
    let al = align(es);
    assert(al =~= align_to(es, es));
    assert forall|i: int| 0 <= i < al.len() implies {
        &&& ((#[trigger] al[i]).1.a.own ==> first_own_type(al, al[i].1.a.text) == Some(al[i].1.a.ty))
        &&& (al[i].1.b.own ==> first_own_type(al, al[i].1.b.text) == Some(al[i].1.b.ty))
    } by {
        let x = es[i].1.a;
        let y = es[i].1.b;
        if x.own {
            lemma_first_some(es, i, x.text);
            lemma_align_to_first(es, es, x.text);
        }
        if y.own {
            lemma_first_some(es, i, y.text);
            lemma_align_to_first(es, es, y.text);
        }
    }
}

proof fn lemma_infer_edge_shape(e: EdgeInfo)
    ensures
        infer_edge(e) matches Ok((e2, c)) ==> {
            &&& e2.a.text == e.a.text && e2.a.own == e.a.own
            &&& e2.b.text == e.b.text && e2.b.own == e.b.own
            &&& (!c ==> e2 == e)
        },
{
}

proof fn lemma_spread_shape(es: Seq<(Seq<char>, EdgeInfo)>, t: Seq<char>, ty: TypeV)
    ensures
        same_shape(spread(es, t, ty), es),
        uniform(spread(es, t, ty), t, ty),
        forall|s: Seq<char>| s != t ==> #[trigger] agree_on(spread(es, t, ty), es, s),
{
    let sp = spread(es, t, ty);
    assert forall|k: int| 0 <= k < sp.len() implies {
        &&& (#[trigger] sp[k]).1.a.text == es[k].1.a.text && sp[k].1.a.own == es[k].1.a.own
        &&& sp[k].1.b.text == es[k].1.b.text && sp[k].1.b.own == es[k].1.b.own
    } by {}
    assert forall|s: Seq<char>| s != t implies #[trigger] agree_on(sp, es, s) by {
        assert forall|k: int| 0 <= k < sp.len() implies {
            &&& ((#[trigger] sp[k]).1.a.text == s ==> sp[k].1.a.ty == es[k].1.a.ty)
            &&& (sp[k].1.b.text == s ==> sp[k].1.b.ty == es[k].1.b.ty)
        } by {}
    }
}

/// One step of a pass keeps the types shared.
proof fn lemma_step_consistent(es: Seq<(Seq<char>, EdgeInfo)>, i: int, e2: EdgeInfo, c: bool)
    requires
        consistent(es),
        0 <= i < es.len(),
        infer_edge(es[i].1) == Ok::<(EdgeInfo, bool), (TypeV, TypeV, Bounds)>((e2, c)),
    ensures
        consistent(if c {
            spread(spread(es.update(i, (es[i].0, e2)), e2.a.text, e2.a.ty), e2.b.text, e2.b.ty)
        } else {
            es.update(i, (es[i].0, e2))
        }),
{
    lemma_infer_edge_shape(es[i].1);
    let es1 = es.update(i, (es[i].0, e2));
    if !c {
        assert(es1 =~= es);
    } else {
        let ta = e2.a.text;
        let tb = e2.b.text;
        let s1 = spread(es1, ta, e2.a.ty);
        let s2 = spread(s1, tb, e2.b.ty);
        lemma_spread_shape(es1, ta, e2.a.ty);
        lemma_spread_shape(s1, tb, e2.b.ty);
        assert(same_shape(es1, es)) by {
            assert forall|k: int| 0 <= k < es1.len() implies {
                &&& (#[trigger] es1[k]).1.a.text == es[k].1.a.text && es1[k].1.a.own == es[k].1.a.own
                &&& es1[k].1.b.text == es[k].1.b.text && es1[k].1.b.own == es[k].1.b.own
            } by {}
        }
        assert(same_shape(s2, es)) by {
            assert forall|k: int| 0 <= k < s2.len() implies {
                &&& (#[trigger] s2[k]).1.a.text == es[k].1.a.text && s2[k].1.a.own == es[k].1.a.own
                &&& s2[k].1.b.text == es[k].1.b.text && s2[k].1.b.own == es[k].1.b.own
            } by {
                assert(s2[k] == s2[k] && s1[k] == s1[k] && es1[k] == es1[k]);
            }
        }
        assert forall|k: int| 0 <= k < s2.len() implies {
            &&& ((#[trigger] s2[k]).1.a.own ==> first_own_type(s2, s2[k].1.a.text) == Some(s2[k].1.a.ty))
            &&& (s2[k].1.b.own ==> first_own_type(s2, s2[k].1.b.text) == Some(s2[k].1.b.ty))
        } by {
            assert(s2[k] == s2[k] && s1[k] == s1[k] && es1[k] == es1[k] && es[k] == es[k]);
            let xs = seq![s2[k].1.a, s2[k].1.b];
            assert forall|w: int| 0 <= w < 2 implies (xs[w].own ==> first_own_type(s2, xs[w].text) == Some(xs[w].ty)) by {
                let x = xs[w];
                let s = x.text;
                if x.own {
                    if s == tb {
                        lemma_uniform_first(s2, tb, e2.b.ty, k);
                    } else if s == ta {
                        assert(agree_on(s2, s1, ta));
                        assert(uniform(s2, ta, e2.a.ty)) by {
                            assert forall|m: int| 0 <= m < s2.len() implies {
                                &&& ((#[trigger] s2[m]).1.a.own && s2[m].1.a.text == ta ==> s2[m].1.a.ty == e2.a.ty)
                                &&& (s2[m].1.b.own && s2[m].1.b.text == ta ==> s2[m].1.b.ty == e2.a.ty)
                            } by {
                                assert(s1[m] == s1[m]);
                            }
                        }
                        lemma_uniform_first(s2, ta, e2.a.ty, k);
                    } else {
                        assert(agree_on(s2, s1, s));
                        assert(agree_on(s1, es1, s));
                        assert(k != i);
                        assert(agree_on(s2, es, s)) by {
                            assert forall|m: int| 0 <= m < s2.len() implies {
                                &&& ((#[trigger] s2[m]).1.a.text == s ==> s2[m].1.a.ty == es[m].1.a.ty)
                                &&& (s2[m].1.b.text == s ==> s2[m].1.b.ty == es[m].1.b.ty)
                            } by {
                                assert(s1[m] == s1[m] && es1[m] == es1[m] && es[m] == es[m]);
                            }
                        }
                        lemma_first_agree(s2, es, s);
                        assert(es[k] == es[k]);
                    }
                }
            }
            assert(xs[0] == s2[k].1.a && xs[1] == s2[k].1.b);
        }
    }
}

proof fn lemma_pass_from_consistent(es: Seq<(Seq<char>, EdgeInfo)>, i: nat, changed: bool)
    requires
        consistent(es),
    ensures
        consistent(pass_from(es, i, changed).0),
    decreases es.len() - i,
{
    if i < es.len() {
        match infer_edge(es[i as int].1) {
            Err(m) => {},
            Ok((e2, c)) => {
                lemma_step_consistent(es, i as int, e2, c);
                let es1 = es.update(i as int, (es[i as int].0, e2));
                let es2 = if c { spread(spread(es1, e2.a.text, e2.a.ty), e2.b.text, e2.b.ty) } else { es1 };
                lemma_pass_from_consistent(es2, i + 1, changed || c);
            },
        }
    }
}

/// A pass keeps expressions with equal texts at equal types: what one edge
/// learns of an expression is given to all its occurrences.
pub proof fn law_pass_keeps_types_shared(es: Seq<(Seq<char>, EdgeInfo)>)
    requires
        consistent(es),
    ensures
        consistent(pass(es).0),
{
    lemma_pass_from_consistent(es, 0, false);
}

proof fn lemma_pass_from_sticks(es: Seq<(Seq<char>, EdgeInfo)>, i: nat)
    ensures
        pass_from(es, i, true).1,
    decreases es.len() - i,
{
    if i < es.len() {
        match infer_edge(es[i as int].1) {
            Err(m) => {},
            Ok((e2, c)) => {
                let es1 = es.update(i as int, (es[i as int].0, e2));
                let es2 = if c { spread(spread(es1, e2.a.text, e2.a.ty), e2.b.text, e2.b.ty) } else { es1 };
                lemma_pass_from_sticks(es2, i + 1);
            },
        }
    }
}

proof fn lemma_stable_from(es: Seq<(Seq<char>, EdgeInfo)>, i: nat)
    requires
        pass_from(es, i, false).2 is None,
        !pass_from(es, i, false).1,
    ensures
        pass_from(es, i, false).0 == es,
        forall|k: int| i <= k < es.len() && (#[trigger] es[k]).1.tag == 0 ==> (
            meet(es[k].1.a.ty, es[k].1.b.ty) matches Some(m) && teq(m, es[k].1.a.ty) && teq(m, es[k].1.b.ty)),
    decreases es.len() - i,
{
    if i < es.len() {
        lemma_infer_edge_shape(es[i as int].1);
        match infer_edge(es[i as int].1) {
            Err(m) => {},
            Ok((e2, c)) => {
                if c {
                    let es1 = es.update(i as int, (es[i as int].0, e2));
                    let es2 = spread(spread(es1, e2.a.text, e2.a.ty), e2.b.text, e2.b.ty);
                    lemma_pass_from_sticks(es2, i + 1);
                } else {
                    let es1 = es.update(i as int, (es[i as int].0, e2));
                    assert(es1 =~= es);
                    lemma_stable_from(es, i + 1);
                }
            },
        }
    }
}

/// A pass that fails nowhere and changes no type leaves every edge as it was,
/// and then both sides of each equality edge already have the type of their
/// intersection: what inference returns when it stops before its last pass is
/// such a fixed point.
pub proof fn law_stable_pass(es: Seq<(Seq<char>, EdgeInfo)>)
    requires
        pass(es).2 is None,
        !pass(es).1,
    ensures
        pass(es).0 == es,
        forall|i: int| 0 <= i < es.len() && (#[trigger] es[i]).1.tag == 0 ==> (
            meet(es[i].1.a.ty, es[i].1.b.ty) matches Some(m) && teq(m, es[i].1.a.ty) && teq(m, es[i].1.b.ty)),
{
    lemma_stable_from(es, 0);
}

/// Whether inference from `es` with at most `n` passes ends with a pass that
/// changes nothing (rather than with an error or by running out of passes).
pub open spec fn settles(es: Seq<(Seq<char>, EdgeInfo)>, n: nat) -> bool
    decreases n,
{
    if n == 0 {
        false
    } else {
        let (es2, changed, err) = pass(es);
        if err is Some {
            false
        } else if changed {
            settles(es2, (n - 1) as nat)
        } else {
            true
        }
    }
}

/// When inference settles, it succeeds and what it returns is a fixed point: a
/// further pass fails nowhere, changes no type and leaves every edge as it is.
pub proof fn law_inference_settles_at_fixed_point(es: Seq<(Seq<char>, EdgeInfo)>, n: nat)
    requires
        settles(es, n),
    ensures
        infer_rounds(es, n).1 is None,
        pass(infer_rounds(es, n).0).2 is None,
        !pass(infer_rounds(es, n).0).1,
        pass(infer_rounds(es, n).0).0 == infer_rounds(es, n).0,
    decreases n,
{
    let (es2, changed, err) = pass(es);
    if changed {
        law_inference_settles_at_fixed_point(es2, (n - 1) as nat);
    } else {
        law_stable_pass(es);
    }
}

} // verus!
