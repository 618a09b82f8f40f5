//! Edges of the type graph: relations between the types of two expressions.

use vstd::prelude::*;
use crate::type_inference::expression::{Expression, ExprInfo, info};
use crate::type_inference::intersection::Bounds;

verus! {

/// Edge in the type inference graph.
#[derive(Debug)]
pub enum Edge {
    /// Two expressions must have equal types.
    Equality { left: Expression, right: Expression, bounds: Bounds },
    /// The element type must match the list's element type.
    EqualityOfElement { list: Expression, element: Expression, bounds: Bounds },
    /// A field belongs to a record.
    FieldBelonging { parent: Expression, field: Expression, bounds: Bounds },
    /// Predicate argument relationship.
    PredicateArgument { logica_value: Expression, argument: Expression, bounds: Bounds },
}

/// The two expressions of an edge, in order.
pub open spec fn ends(e: Edge) -> (Expression, Expression) {
    match e {
        Edge::Equality { left, right, .. } => (left, right),
        Edge::EqualityOfElement { list, element, .. } => (list, element),
        Edge::FieldBelonging { parent, field, .. } => (parent, field),
        Edge::PredicateArgument { logica_value, argument, .. } => (logica_value, argument),
    }
}

pub open spec fn bounds_of(e: Edge) -> Bounds {
    match e {
        Edge::Equality { bounds, .. } => bounds,
        Edge::EqualityOfElement { bounds, .. } => bounds,
        Edge::FieldBelonging { bounds, .. } => bounds,
        Edge::PredicateArgument { bounds, .. } => bounds,
    }
}

/// The same kind of edge as `e`, between other expressions.
pub open spec fn with_ends(e: Edge, a: Expression, b: Expression) -> Edge {
    match e {
        Edge::Equality { bounds, .. } => Edge::Equality { left: a, right: b, bounds },
        Edge::EqualityOfElement { bounds, .. } => Edge::EqualityOfElement { list: a, element: b, bounds },
        Edge::FieldBelonging { bounds, .. } => Edge::FieldBelonging { parent: a, field: b, bounds },
        Edge::PredicateArgument { bounds, .. } => Edge::PredicateArgument { logica_value: a, argument: b, bounds },
    }
}

impl Edge {
    pub fn equality(left: Expression, right: Expression, bounds: Bounds) -> (r: Edge)
        ensures
            r == (Edge::Equality { left, right, bounds }),
    {
        Edge::Equality { left, right, bounds }
    }

    pub fn equality_of_element(list: Expression, element: Expression, bounds: Bounds) -> (r: Edge)
        ensures
            r == (Edge::EqualityOfElement { list, element, bounds }),
    {
        Edge::EqualityOfElement { list, element, bounds }
    }

    pub fn field_belonging(parent: Expression, field: Expression, bounds: Bounds) -> (r: Edge)
        ensures
            r == (Edge::FieldBelonging { parent, field, bounds }),
    {
        Edge::FieldBelonging { parent, field, bounds }
    }

    pub fn predicate_argument(logica_value: Expression, argument: Expression, bounds: Bounds) -> (r: Edge)
        ensures
            r == (Edge::PredicateArgument { logica_value, argument, bounds }),
    {
        Edge::PredicateArgument { logica_value, argument, bounds }
    }

    /// The bounds of this edge.
    pub fn bounds(&self) -> (r: Bounds)
        ensures
            r == bounds_of(*self),
    {
        match self {
            Edge::Equality { bounds, .. } => *bounds,
            Edge::EqualityOfElement { bounds, .. } => *bounds,
            Edge::FieldBelonging { bounds, .. } => *bounds,
            Edge::PredicateArgument { bounds, .. } => *bounds,
        }
    }

    /// The vertices (expressions) of this edge.
    pub fn vertices(&self) -> (r: (&Expression, &Expression))
        ensures
            (*r.0, *r.1) == ends(*self),
    {
        match self {
            Edge::Equality { left, right, .. } => (left, right),
            Edge::EqualityOfElement { list, element, .. } => (list, element),
            Edge::FieldBelonging { parent, field, .. } => (parent, field),
            Edge::PredicateArgument { logica_value, argument, .. } => (logica_value, argument),
        }
    }

    /// The vertices, to be changed in place.
    pub fn vertices_mut(&mut self) -> (r: (&mut Expression, &mut Expression))
        ensures
            (*r.0, *r.1) == ends(*old(self)),
            *final(self) == with_ends(*old(self), *final(r.0), *final(r.1)),
    {
        match self {
            Edge::Equality { left, right, .. } => (left, right),
            Edge::EqualityOfElement { list, element, .. } => (list, element),
            Edge::FieldBelonging { parent, field, .. } => (parent, field),
            Edge::PredicateArgument { logica_value, argument, .. } => (logica_value, argument),
        }
    }
}


/// The kind of an edge, as a number.
pub open spec fn edge_tag(e: Edge) -> u8 {
    match e {
        Edge::Equality { .. } => 0,
        Edge::EqualityOfElement { .. } => 1,
        Edge::FieldBelonging { .. } => 2,
        Edge::PredicateArgument { .. } => 3,
    }
}

/// What the type graph reads of an edge.
pub struct EdgeInfo {
    pub tag: u8,
    pub a: ExprInfo,
    pub b: ExprInfo,
    pub bounds: Bounds,
}

pub open spec fn einfo(e: Edge) -> EdgeInfo {
    EdgeInfo { tag: edge_tag(e), a: info(ends(e).0), b: info(ends(e).1), bounds: bounds_of(e) }
}

impl Edge {
    /// The kind of this edge.
    pub fn tag(&self) -> (r: u8)
        ensures
            r == edge_tag(*self),
    {
        match self {
            Edge::Equality { .. } => 0,
            Edge::EqualityOfElement { .. } => 1,
            Edge::FieldBelonging { .. } => 2,
            Edge::PredicateArgument { .. } => 3,
        }
    }
}

impl Clone for Edge {
    fn clone(&self) -> (r: Edge)
        ensures
            einfo(r) == einfo(*self),
    {
        match self {
            Edge::Equality { left, right, bounds } => Edge::Equality { left: left.clone(), right: right.clone(), bounds: *bounds },
            Edge::EqualityOfElement { list, element, bounds } => Edge::EqualityOfElement {
                list: list.clone(),
                element: element.clone(),
                bounds: *bounds,
            },
            Edge::FieldBelonging { parent, field, bounds } => Edge::FieldBelonging {
                parent: parent.clone(),
                field: field.clone(),
                bounds: *bounds,
            },
            Edge::PredicateArgument { logica_value, argument, bounds } => Edge::PredicateArgument {
                logica_value: logica_value.clone(),
                argument: argument.clone(),
                bounds: *bounds,
            },
        }
    }
}

} // verus!
