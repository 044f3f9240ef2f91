use vstd::prelude::*;

use std::rc::Rc;

use crate::types::{Modifiers, QualifiedName};

verus! {

#[derive(Debug, PartialEq, Eq, Structural, Clone, Copy)]
pub enum PrimitiveType {
    Int,
    Boolean,
    Char,
    Byte,
    Short,
    Long,
    Float,
    Double,
}

/// Where a resolved name comes from.
#[derive(Debug, PartialEq, Eq)]
pub enum TypeSource {
    InProjectType { package: QualifiedName },
    PrimitiveType(PrimitiveType),
    /// Any type outside the project (java.*, javafx, third-party deps like Spring, etc).
    /// We don't resolve or distinguish these further, so no origin is tracked.
    ExternalDependencyType,
    /// A type parameter in scope.
    Generic,
    /// A name that two inherited types both claim.
    Ambiguous,
}

/// The mathematical value of a [`TypeSource`].
pub enum SourceView {
    InProject(Seq<Seq<char>>),
    Primitive(PrimitiveType),
    External,
    Generic,
    Ambiguous,
}

impl View for TypeSource {
    type V = SourceView;

    open spec fn view(&self) -> SourceView {
        match self {
            TypeSource::InProjectType { package } => SourceView::InProject(package@),
            TypeSource::PrimitiveType(p) => SourceView::Primitive(*p),
            TypeSource::ExternalDependencyType => SourceView::External,
            TypeSource::Generic => SourceView::Generic,
            TypeSource::Ambiguous => SourceView::Ambiguous,
        }
    }
}

impl TypeSource {
    /// A copy of this source.
    pub fn duplicate(&self) -> (r: TypeSource)
        ensures
            r@ == self@,
    {
        match self {
            TypeSource::InProjectType { package } => TypeSource::InProjectType {
                package: package.duplicate(),
            },
            TypeSource::PrimitiveType(p) => TypeSource::PrimitiveType(*p),
            TypeSource::ExternalDependencyType => TypeSource::ExternalDependencyType,
            TypeSource::Generic => TypeSource::Generic,
            TypeSource::Ambiguous => TypeSource::Ambiguous,
        }
    }

    /// Whether the two sources are the same.
    pub fn same_as(&self, other: &TypeSource) -> (r: bool)
        ensures
            r == (self@ == other@),
    {
        match (self, other) {
            (TypeSource::InProjectType { package: a }, TypeSource::InProjectType { package: b }) => a.same_as(b),
            (TypeSource::PrimitiveType(a), TypeSource::PrimitiveType(b)) => *a == *b,
            (TypeSource::ExternalDependencyType, TypeSource::ExternalDependencyType) => true,
            (TypeSource::Generic, TypeSource::Generic) => true,
            (TypeSource::Ambiguous, TypeSource::Ambiguous) => true,
            _ => false,
        }
    }
}

/// A fully qualified name denotes a package and a type.
#[derive(Debug, PartialEq, Eq)]
pub struct FullyQualifiedName {
    pub source: TypeSource,
    pub typename: QualifiedName,
}

/// The mathematical value of a [`FullyQualifiedName`].
pub struct FqnView {
    pub source: SourceView,
    pub typename: Seq<Seq<char>>,
}

impl View for FullyQualifiedName {
    type V = FqnView;

    open spec fn view(&self) -> FqnView {
        FqnView { source: self.source@, typename: self.typename@ }
    }
}

/// The spelled-out name of a primitive type.
pub open spec fn primitive_name(p: PrimitiveType) -> Seq<char> {
    match p {
        PrimitiveType::Int => "int"@,
        PrimitiveType::Boolean => "boolean"@,
        PrimitiveType::Char => "char"@,
        PrimitiveType::Byte => "byte"@,
        PrimitiveType::Short => "short"@,
        PrimitiveType::Long => "long"@,
        PrimitiveType::Float => "float"@,
        PrimitiveType::Double => "double"@,
    }
}

/// The single name a resolved name stands for, if it stands for one: the
/// package followed by the type's name for a project type, the spelled-out
/// name of a primitive, and the name as written otherwise. An ambiguous name
/// stands for none.
pub open spec fn fqn_key(f: FqnView) -> Option<Seq<Seq<char>>> {
    match f.source {
        SourceView::InProject(package) => Some(package + f.typename),
        SourceView::Primitive(p) => Some(seq![primitive_name(p)]),
        SourceView::External => Some(f.typename),
        SourceView::Generic => Some(f.typename),
        SourceView::Ambiguous => None,
    }
}

impl FullyQualifiedName {
    /// A copy of this name.
    pub fn duplicate(&self) -> (r: FullyQualifiedName)
        ensures
            r@ == self@,
    {
        FullyQualifiedName { source: self.source.duplicate(), typename: self.typename.duplicate() }
    }

    /// Whether the two names are the same.
    pub fn same_as(&self, other: &FullyQualifiedName) -> (r: bool)
        ensures
            r == (self@ == other@),
    {
        self.source.same_as(&other.source) && self.typename.same_as(&other.typename)
    }

    /// The single name this resolved name stands for (see [`fqn_key`]).
    pub fn into_fqn(&self) -> (r: Option<QualifiedName>)
        ensures
            r matches Some(q) ==> fqn_key(self@) == Some(q@),
            r is None ==> fqn_key(self@) is None,
    {
        match &self.source {
            TypeSource::InProjectType { package } => {
                let mut i: usize = 0;
                let ghost start = package@;
                let mut v = crate::types::copy_strings(&package.0);
                while i < self.typename.0.len()
                    invariant
                        i <= self.typename.0@.len(),
                        crate::types::names_view(v@) == start + self.typename@.subrange(0, i as int),
                    decreases self.typename.0@.len() - i,
                {
                    let ghost before = crate::types::names_view(v@);
                    v.push(self.typename.0[i].clone());
                    assert(crate::types::names_view(v@) =~= before.push(self.typename@[i as int]));
                    assert(self.typename@.subrange(0, i + 1) =~= self.typename@.subrange(0, i as int).push(self.typename@[i as int]));
                    i = i + 1;
                }
                assert(self.typename@.subrange(0, i as int) =~= self.typename@);
                Some(QualifiedName(v))
            },
            TypeSource::PrimitiveType(prim) => {
                let s = match prim {
                    PrimitiveType::Int => "int",
                    PrimitiveType::Boolean => "boolean",
                    PrimitiveType::Char => "char",
                    PrimitiveType::Byte => "byte",
                    PrimitiveType::Short => "short",
                    PrimitiveType::Long => "long",
                    PrimitiveType::Float => "float",
                    PrimitiveType::Double => "double",
                };
                let mut v: Vec<String> = Vec::new();
                v.push(s.to_owned());
                let q = QualifiedName(v);
                assert(q@ =~= seq![s@]);
                Some(q)
            },
            TypeSource::ExternalDependencyType => Some(self.typename.duplicate()),
            TypeSource::Generic => Some(self.typename.duplicate()),
            TypeSource::Ambiguous => None,
        }
    }
}

/// A resolved type usage.
#[derive(Debug, PartialEq, Eq)]
pub struct RefType {
    pub name: FullyQualifiedName,
    pub type_arg_list: TypeArgList,
    pub arr_dim: u8,
}

#[derive(Debug, PartialEq, Eq)]
pub enum VoidableType {
    Void,
    RefType(RefType),
}

#[derive(Debug, PartialEq, Eq)]
pub enum TypeArg {
    Is(RefType),
    Extends(RefType),
    Super(RefType),
    Wildcard,
}

#[derive(Debug, PartialEq, Eq)]
pub struct TypeArgList(pub Vec<TypeArg>);

#[derive(Debug, PartialEq, Eq)]
pub struct TypeParam {
    pub name: FullyQualifiedName,
    pub extends_from: Vec<RefType>,
}

#[derive(Debug, PartialEq, Eq)]
pub struct TypeParamList(pub Vec<TypeParam>);

#[derive(Debug, PartialEq, Eq)]
pub struct Annotation {
    pub name: FullyQualifiedName,
    pub s: String,
}

#[derive(Debug, PartialEq, Eq)]
pub enum MemberKind {
    Property { reftype: RefType, arr_dim: u8 },
    Method {
        type_param_list: TypeParamList,
        input: Vec<RefType>,
        output: VoidableType,
        throws: Vec<RefType>,
    },
    Constructor { type_param_list: TypeParamList, input: Vec<RefType>, throws: Vec<RefType> },
}

#[derive(Debug, PartialEq, Eq)]
pub struct Member {
    pub name: String,
    pub member_kind: MemberKind,
    pub annotations: Vec<Annotation>,
    pub modifiers: Modifiers,
}

/// A typekind is an enum of different kinds of type
#[derive(Debug, PartialEq, Eq)]
pub enum TypeKind {
    Class { inherit_class: Option<RefType>, implement_interfaces: Vec<RefType> },
    Enum { implement_interfaces: Vec<RefType>, enum_vals: Vec<String> },
    Interface { extend_interfaces: Vec<RefType> },
    Annotation { annotation_properties: Vec<(String, RefType)> },
}

/// A type's body contains its members (not subtypes) and its subtypes.
#[derive(Debug, PartialEq, Eq)]
pub struct TypeBody {
    pub members: Vec<Rc<Member>>,
    pub subtypes: Vec<Rc<Type>>,
}

/// A type can be a class/enum/interface/annotation.
#[derive(Debug, PartialEq, Eq)]
pub struct Type {
    pub name: FullyQualifiedName,
    pub modifiers: Modifiers,
    pub type_kind: TypeKind,
    pub body: TypeBody,
    pub annotation: Vec<Annotation>,
    pub type_params: TypeParamList,
}

/// this is the AST when fully resolved.
#[derive(Debug, PartialEq, Eq)]
pub struct FileTypeTree(pub Vec<Rc<Type>>);

/// The resolved types of one package.
pub struct PackageTypeTree(pub Vec<Rc<Type>>);

} // verus!
