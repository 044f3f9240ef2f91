use vstd::prelude::*;

use crate::resolved_types::{FqnView, FullyQualifiedName, Member, TypeKind};
use crate::types::QualifiedName;
use std::rc::Rc;

verus! {

/// What kind of type a node stands for; an enum keeps its constants.
#[derive(Debug, PartialEq, Eq)]
pub enum TypeVariant {
    Class,
    Enum(Vec<String>),
    Interface,
    Annotation,
}

/// A variant as a value: an enum's constants as a sequence.
pub enum VariantView {
    Class,
    Enum(Seq<String>),
    Interface,
    Annotation,
}

impl View for TypeVariant {
    type V = VariantView;

    open spec fn view(&self) -> VariantView {
        match self {
            TypeVariant::Class => VariantView::Class,
            TypeVariant::Enum(vals) => VariantView::Enum(vals@),
            TypeVariant::Interface => VariantView::Interface,
            TypeVariant::Annotation => VariantView::Annotation,
        }
    }
}

/// The variant a type of kind `k` is drawn as.
pub open spec fn variant_of(k: TypeKind) -> VariantView {
    match k {
        TypeKind::Class { .. } => VariantView::Class,
        TypeKind::Enum { enum_vals, .. } => VariantView::Enum(enum_vals@),
        TypeKind::Interface { .. } => VariantView::Interface,
        TypeKind::Annotation { .. } => VariantView::Annotation,
    }
}

impl TypeVariant {
    /// The variant a type of this kind is drawn as; an enum keeps its
    /// constants, in order.
    pub fn from_typekind(typekind: &TypeKind) -> (r: Self)
        ensures
            r@ == variant_of(*typekind),
    {
        match typekind {
            TypeKind::Class { .. } => TypeVariant::Class,
            TypeKind::Enum { enum_vals, .. } => TypeVariant::Enum(crate::types::copy_strings(enum_vals)),
            TypeKind::Interface { .. } => TypeVariant::Interface,
            TypeKind::Annotation { .. } => TypeVariant::Annotation,
        }
    }

    /// A copy of this variant.
    pub fn duplicate(&self) -> (r: Self)
        ensures
            r@ == self@,
    {
        match self {
            TypeVariant::Class => TypeVariant::Class,
            TypeVariant::Enum(vals) => TypeVariant::Enum(crate::types::copy_strings(vals)),
            TypeVariant::Interface => TypeVariant::Interface,
            TypeVariant::Annotation => TypeVariant::Annotation,
        }
    }
}

/// How one type is related to another: it extends it, implements it, or
/// refers to it in a member (which the edge carries).
#[derive(Debug, PartialEq, Eq)]
pub enum EdgeVariant {
    Extends,
    Implements,
    Association(Rc<Member>),
}

/// Whether a type drawn as `from` can inherit from one drawn as `to`: a
/// class only from a class, an interface from anything, an annotation or an
/// enum from nothing.
pub open spec fn can_inherit(from: VariantView, to: VariantView) -> bool {
    match from {
        VariantView::Class => to is Class,
        VariantView::Interface => true,
        _ => false,
    }
}

impl EdgeVariant {
    /// Generate a graph based on inheritance edge
    /// from and to must exhibit inheritance relationship:
    /// `public class To extends From1 implements From2, From3 {...}`
    /// A class extends a class; an interface's edge is `Implements`.
    pub fn from_inheritance(from: &Node, to: &Node) -> (r: Self)
        requires
            can_inherit(from.type_variant@, to.type_variant@),
        ensures
            r == (if from.type_variant is Class { EdgeVariant::Extends } else { EdgeVariant::Implements }),
    {
        match &from.type_variant {
            TypeVariant::Class => EdgeVariant::Extends,
            _ => EdgeVariant::Implements,
        }
    }

    /// A copy of this variant, sharing the member of an association.
    pub fn duplicate(&self) -> (r: Self)
        ensures
            r == *self,
    {
        match self {
            EdgeVariant::Extends => EdgeVariant::Extends,
            EdgeVariant::Implements => EdgeVariant::Implements,
            EdgeVariant::Association(m) => EdgeVariant::Association(m.clone()),
        }
    }
}

/// A type's name together with the name of its package.
#[derive(Debug, Hash)]
pub struct Name {
    pub pkg_name: QualifiedName,
    pub name: QualifiedName,
}

/// A named property of a type, with the type it holds.
#[derive(Debug)]
pub struct Property {
    pub typename: FullyQualifiedName,
    pub name: String,
}

/// One end of a relationship: the type at the other end and how the two
/// are related.
#[derive(Debug)]
pub struct Edge {
    pub typename: FullyQualifiedName,
    pub variant: EdgeVariant,
}

impl View for Edge {
    type V = (FqnView, EdgeVariant);

    open spec fn view(&self) -> (FqnView, EdgeVariant) {
        (self.typename@, self.variant)
    }
}

/// The views of a list of edges, in order.
pub open spec fn edges_view(es: Seq<Edge>) -> Seq<(FqnView, EdgeVariant)> {
    es.map_values(|e: Edge| e@)
}

/// stores metadata and graph stuffs for nodes
#[derive(Debug)]
pub struct Node {
    pub name: FullyQualifiedName,
    pub type_variant: TypeVariant,
    pub members: Vec<Rc<Member>>,
    pub out_edges: Vec<Edge>,
    pub in_edges: Vec<Edge>,
}

/// What a node holds: the type's name, its variant, its members, and the
/// edges that leave it and that reach it, in the order they were added.
pub struct NodeView {
    pub name: FqnView,
    pub type_variant: VariantView,
    pub members: Seq<Rc<Member>>,
    pub out_edges: Seq<(FqnView, EdgeVariant)>,
    pub in_edges: Seq<(FqnView, EdgeVariant)>,
}

impl View for Node {
    type V = NodeView;

    open spec fn view(&self) -> NodeView {
        NodeView {
            name: self.name@,
            type_variant: self.type_variant@,
            members: self.members@,
            out_edges: edges_view(self.out_edges@),
            in_edges: edges_view(self.in_edges@),
        }
    }
}

} // verus!
