use vstd::prelude::*;

use std::rc::Rc;

use crate::parser::token::OwnedToken;

verus! {

broadcast use vstd::std_specs::vec::axiom_vec_index_decreases;

//-----------------------------------------------------------------------
//------------------ ERROR / RESULT TYPES -------------------------------
//-----------------------------------------------------------------------

/// Why parsing failed.
#[derive(Debug, Clone)]
pub enum ParseErrType {
    UnexpectedToken { expected: &'static str, got: Vec<OwnedToken> },
    UnexpectedEOF,
    LexerError,
    IndexingError,
    UnimplementedError,
    ImportError,
    SemanticError(&'static str),
    MultiplePublicTypesError,
}

impl ParseErrType {
    /// Turns the error kind into a parse error raised at `err_index`, inside
    /// the nonterminal `ctx`.
    pub fn to_stack_parse_err(self, err_index: usize, ctx: (&'static str, usize)) -> (r: ParseErr)
        ensures
            r.err == self,
            r.err_index == err_index,
            r.stack@ == seq![ctx],
    {
        ParseErr { err: self, err_index, stack: vec![ctx] }
    }
}

/// A parse error: its kind, where it was raised, and the nonterminals it was
/// raised within, innermost first.
#[derive(Debug, Clone)]
pub struct ParseErr {
    pub err: ParseErrType,
    pub stack: Vec<(&'static str, usize)>,
    pub err_index: usize,
}

/// The result of parsing one nonterminal.
pub type ParseResult<T> = Result<T, ParseErr>;

/// Results of nonterminals, which record the nonterminals they pass through.
pub trait GenericParseResult<T>: Sized {
    /// Pushes the current nonterminal's context onto an error's stack.
    fn push_context(self, ctx: (&'static str, usize)) -> (r: Self);
}

impl<T> GenericParseResult<T> for Result<T, ParseErr> {
    fn push_context(self, ctx: (&'static str, usize)) -> (r: Self)
        ensures
            self.is_ok() ==> r == self,
            self.is_err() ==> r.is_err() && r->Err_0.err == self->Err_0.err
                && r->Err_0.err_index == self->Err_0.err_index
                && r->Err_0.stack@ == self->Err_0.stack@.push(ctx),
    {
        match self {
            Ok(v) => Ok(v),
            Err(mut e) => {
                e.stack.push(ctx);
                Err(e)
            },
        }
    }
}

//-----------------------------------------------------------------------
//------------------ NAMES ----------------------------------------------
//-----------------------------------------------------------------------

/// A qualified name is a dotted name, e.g. `java.util.ArrayList`
#[derive(Debug, PartialEq, Eq, Clone, Hash)]
pub struct QualifiedName(pub Vec<String>);

/// The components of a name, as character sequences.
pub open spec fn names_view(v: Seq<String>) -> Seq<Seq<char>> {
    v.map_values(|s: String| s@)
}

impl View for QualifiedName {
    type V = Seq<Seq<char>>;

    open spec fn view(&self) -> Seq<Seq<char>> {
        names_view(self.0@)
    }
}

/// Whether `p` is a prefix of `n` (possibly all of it).
pub open spec fn is_prefix(p: Seq<Seq<char>>, n: Seq<Seq<char>>) -> bool {
    p.len() <= n.len() && n.subrange(0, p.len() as int) == p
}

/// Whether `p` is a prefix of `n` that leaves at least one component.
pub open spec fn is_proper_prefix(p: Seq<Seq<char>>, n: Seq<Seq<char>>) -> bool {
    p.len() < n.len() && n.subrange(0, p.len() as int) == p
}

/// Whether `n` names something declared directly inside `prefix`: it is
/// `prefix` with one more component.
pub open spec fn is_child_name(prefix: Seq<Seq<char>>, n: Seq<Seq<char>>) -> bool {
    n.len() == prefix.len() + 1 && n.subrange(0, prefix.len() as int) == prefix
}

/// A name with one more component is a child name.
pub proof fn lemma_child_name(p: Seq<Seq<char>>, x: Seq<char>)
    ensures
        is_child_name(p, p.push(x)),
        p.push(x).last() == x,
{
    assert(p.push(x).subrange(0, p.len() as int) =~= p);
}

/// Whether two strings hold the same characters.
pub fn string_eq(a: &String, b: &String) -> (r: bool)
    ensures
        r == (a@ == b@),
{
    *a == *b
}

/// Whether a string holds the characters of a literal.
pub fn string_is(a: &String, lit: &str) -> (r: bool)
    ensures
        r == (a@ == lit@),
{
    let b = lit.to_owned();
    *a == b
}

/// Whether one of the strings holds the characters of `lit`.
pub fn strings_contain(v: &Vec<String>, lit: &str) -> (r: bool)
    ensures
        r == exists|i: int| 0 <= i < v@.len() && (#[trigger] v@[i])@ == lit@,
{
    let mut i: usize = 0;
    while i < v.len()
        invariant
            i <= v@.len(),
            forall|k: int| 0 <= k < i ==> (#[trigger] v@[k])@ != lit@,
        decreases v@.len() - i,
    {
        if string_is(&v[i], lit) {
            return true;
        }
        i = i + 1;
    }
    false
}

/// A copy of a list of strings.
pub fn copy_strings(v: &Vec<String>) -> (r: Vec<String>)
    ensures
        r@ == v@,
{
    let mut r: Vec<String> = Vec::new();
    let mut i: usize = 0;
    while i < v.len()
        invariant
            i <= v@.len(),
            r@ == v@.subrange(0, i as int),
        decreases v@.len() - i,
    {
        r.push(v[i].clone());
        i = i + 1;
    }
    assert(r@ =~= v@);
    r
}

impl QualifiedName {
    /// The number of components.
    pub fn len(&self) -> (r: usize)
        ensures
            r == self@.len(),
    {
        self.0.len()
    }

    /// A copy of this name.
    pub fn duplicate(&self) -> (r: QualifiedName)
        ensures
            r@ == self@,
    {
        QualifiedName(copy_strings(&self.0))
    }

    /// Whether the two names have the same components.
    pub fn same_as(&self, other: &QualifiedName) -> (r: bool)
        ensures
            r == (self@ == other@),
    {
        if self.0.len() != other.0.len() {
            assert(self@.len() != other@.len());
            return false;
        }
        let mut i: usize = 0;
        while i < self.0.len()
            invariant
                self.0@.len() == other.0@.len(),
                i <= self.0@.len(),
                forall|k: int| 0 <= k < i ==> self@[k] == other@[k],
            decreases self.0@.len() - i,
        {
            if self.0[i] != other.0[i] {
                assert(self@[i as int] != other@[i as int]);
                return false;
            }
            i = i + 1;
        }
        assert(self@ =~= other@);
        true
    }

    /// The name made of the first `i` components, if there are that many.
    pub fn get_prefix(&self, i: usize) -> (r: Option<QualifiedName>)
        ensures
            i <= self@.len() <==> r.is_some(),
            r matches Some(p) ==> p@ == self@.subrange(0, i as int),
    {
        if i > self.0.len() {
            return None;
        }
        let mut v: Vec<String> = Vec::new();
        let mut k: usize = 0;
        while k < i
            invariant
                i <= self.0@.len(),
                k <= i,
                v@ == self.0@.subrange(0, k as int),
            decreases i - k,
        {
            v.push(self.0[k].clone());
            k = k + 1;
        }
        let r = QualifiedName(v);
        assert(r@ =~= self@.subrange(0, i as int));
        Some(r)
    }

    /// The name made of the components from the `i`-th on, if there are
    /// that many.
    pub fn get_suffix(&self, i: usize) -> (r: Option<QualifiedName>)
        ensures
            i <= self@.len() <==> r.is_some(),
            r matches Some(p) ==> p@ == self@.subrange(i as int, self@.len() as int),
    {
        if i > self.0.len() {
            return None;
        }
        let mut v: Vec<String> = Vec::new();
        let mut k: usize = i;
        while k < self.0.len()
            invariant
                i <= k <= self.0@.len(),
                v@ == self.0@.subrange(i as int, k as int),
            decreases self.0@.len() - k,
        {
            v.push(self.0[k].clone());
            k = k + 1;
        }
        let r = QualifiedName(v);
        assert(r@ =~= self@.subrange(i as int, self@.len() as int));
        Some(r)
    }

    /// Whether `prefix` is a prefix of this name (the whole name counts).
    pub fn has_prefix(&self, prefix: &QualifiedName) -> (r: bool)
        ensures
            r == is_prefix(prefix@, self@),
    {
        if prefix.0.len() > self.0.len() {
            return false;
        }
        let mut i: usize = 0;
        while i < prefix.0.len()
            invariant
                prefix.0@.len() <= self.0@.len(),
                i <= prefix.0@.len(),
                forall|k: int| 0 <= k < i ==> self@[k] == prefix@[k],
            decreases prefix.0@.len() - i,
        {
            if self.0[i] != prefix.0[i] {
                assert(self@.subrange(0, prefix@.len() as int)[i as int] != prefix@[i as int]);
                return false;
            }
            i = i + 1;
        }
        assert(self@.subrange(0, prefix@.len() as int) =~= prefix@);
        true
    }

    /// Whether `prefix` is a prefix of this name that leaves at least one
    /// component.
    pub fn has_proper_prefix(&self, prefix: &QualifiedName) -> (r: bool)
        ensures
            r == is_proper_prefix(prefix@, self@),
    {
        prefix.0.len() < self.0.len() && self.has_prefix(prefix)
    }

    /// The name relative to the package `pkg`: the components after it, if
    /// `pkg` is a proper prefix of this name.
    pub fn to_type_no_package(&self, pkg: &QualifiedName) -> (r: Option<QualifiedName>)
        ensures
            r.is_some() == is_proper_prefix(pkg@, self@),
            r matches Some(p) ==> p@ == self@.subrange(pkg@.len() as int, self@.len() as int),
    {
        if self.has_proper_prefix(pkg) {
            self.get_suffix(pkg.0.len())
        } else {
            None
        }
    }

    /// This name with one more component at the end.
    pub fn child(&self, s: &str) -> (r: QualifiedName)
        ensures
            r@ == self@.push(s@),
    {
        let mut v = copy_strings(&self.0);
        v.push(s.to_owned());
        let r = QualifiedName(v);
        assert(r@ =~= self@.push(s@));
        r
    }
}

//-----------------------------------------------------------------------
//------------------ TYPE USAGES ----------------------------------------
//-----------------------------------------------------------------------

/// A TypeArg has 4 values representing 4 different args:
/// - Is(A) = `A`
/// - Extends(A) = `? extends A`
/// - Super(A) = `? super A`
/// - Wildcard = `?`
#[derive(Debug, PartialEq, Eq)]
pub enum TypeArg {
    Is(RefType),
    Extends(RefType),
    Super(RefType),
    Wildcard,
}

/// A TypeArgList is a list of type args,
/// `<A, B, C>` is read as `vec![A, B, C]`
#[derive(Debug, PartialEq, Eq)]
pub struct TypeArgList(pub Vec<TypeArg>);

/// A struct to represent type usages with generic,
/// e.g. `java.util.Hashtable<Integer, ? extends com.util.MyClass>`
#[derive(Debug, PartialEq, Eq)]
pub struct RefType {
    pub name: QualifiedName,
    pub type_arg_list: TypeArgList,
    pub arr_dim: u8,
}

/// The mathematical value of a type usage.
pub struct RefTypeView {
    pub name: Seq<Seq<char>>,
    pub type_args: Seq<TypeArgView>,
    pub arr_dim: u8,
}

/// The mathematical value of a type argument.
pub enum TypeArgView {
    Is(RefTypeView),
    Extends(RefTypeView),
    Super(RefTypeView),
    Wildcard,
}

/// The value of a type usage.
pub open spec fn ref_type_view(r: RefType) -> RefTypeView
    decreases r,
{
    RefTypeView {
        name: r.name@,
        type_args: type_args_view(r.type_arg_list.0),
        arr_dim: r.arr_dim,
    }
}

/// The values of a list of type arguments.
pub open spec fn type_args_view(v: Vec<TypeArg>) -> Seq<TypeArgView>
    decreases v,
{
    Seq::new(
        v.len() as nat,
        |i: int|
            if 0 <= i < v.len() {
                type_arg_view(v[i])
            } else {
                TypeArgView::Wildcard
            },
    )
}

/// The value of a type argument.
pub open spec fn type_arg_view(a: TypeArg) -> TypeArgView
    decreases a,
{
    match a {
        TypeArg::Is(r) => TypeArgView::Is(ref_type_view(r)),
        TypeArg::Extends(r) => TypeArgView::Extends(ref_type_view(r)),
        TypeArg::Super(r) => TypeArgView::Super(ref_type_view(r)),
        TypeArg::Wildcard => TypeArgView::Wildcard,
    }
}

impl View for RefType {
    type V = RefTypeView;

    open spec fn view(&self) -> RefTypeView {
        ref_type_view(*self)
    }
}

impl View for TypeArg {
    type V = TypeArgView;

    open spec fn view(&self) -> TypeArgView {
        type_arg_view(*self)
    }
}

impl View for TypeArgList {
    type V = Seq<TypeArgView>;

    open spec fn view(&self) -> Seq<TypeArgView> {
        type_args_view(self.0)
    }
}

impl RefType {
    /// A copy of this type usage.
    pub fn duplicate(&self) -> (r: RefType)
        ensures
            r@ == self@,
        decreases self,
    {
        let mut args: Vec<TypeArg> = Vec::new();
        let n = self.type_arg_list.0.len();
        let mut i: usize = 0;
        while i < n
            invariant
                n == self.type_arg_list.0@.len(),
                i <= n,
                args@.len() == i,
                forall|k: int|
                    0 <= k < i ==> type_arg_view(#[trigger] args@[k]) == type_arg_view(
                        self.type_arg_list.0@[k],
                    ),
            decreases n - i,
        {
            let a = match &self.type_arg_list.0[i] {
                TypeArg::Is(r) => TypeArg::Is(r.duplicate()),
                TypeArg::Extends(r) => TypeArg::Extends(r.duplicate()),
                TypeArg::Super(r) => TypeArg::Super(r.duplicate()),
                TypeArg::Wildcard => TypeArg::Wildcard,
            };
            args.push(a);
            i = i + 1;
        }
        let r = RefType {
            name: self.name.duplicate(),
            type_arg_list: TypeArgList(args),
            arr_dim: self.arr_dim,
        };
        assert(type_args_view(r.type_arg_list.0) =~= type_args_view(self.type_arg_list.0));
        r
    }
}

/// A copy of a list of type usages.
pub fn copy_ref_types(v: &Vec<RefType>) -> (r: Vec<RefType>)
    ensures
        r@.len() == v@.len(),
        forall|k: int| 0 <= k < v@.len() ==> (#[trigger] r@[k])@ == v@[k]@,
{
    let mut r: Vec<RefType> = Vec::new();
    let mut i: usize = 0;
    while i < v.len()
        invariant
            i <= v@.len(),
            r@.len() == i,
            forall|k: int| 0 <= k < i ==> (#[trigger] r@[k])@ == v@[k]@,
        decreases v@.len() - i,
    {
        r.push(v[i].duplicate());
        i = i + 1;
    }
    r
}

/// An annotation is a string slice of one annotation for some type/property/method
#[derive(Debug, PartialEq, Eq, Clone)]
pub struct Annotation {
    pub name: QualifiedName,
    pub s: String,
}

impl Annotation {
    /// A copy of this annotation.
    pub fn duplicate(&self) -> (r: Annotation)
        ensures
            r.name@ == self.name@,
            r.s@ == self.s@,
    {
        Annotation { name: self.name.duplicate(), s: self.s.clone() }
    }
}

/// A copy of a list of annotations.
pub fn copy_annotations(v: &Vec<Annotation>) -> (r: Vec<Annotation>)
    ensures
        r@.len() == v@.len(),
        forall|k: int|
            0 <= k < v@.len() ==> (#[trigger] r@[k]).name@ == v@[k].name@ && r@[k].s@ == v@[k].s@,
{
    let mut r: Vec<Annotation> = Vec::new();
    let mut i: usize = 0;
    while i < v.len()
        invariant
            i <= v@.len(),
            r@.len() == i,
            forall|k: int|
                0 <= k < i ==> (#[trigger] r@[k]).name@ == v@[k].name@ && r@[k].s@ == v@[k].s@,
        decreases v@.len() - i,
    {
        r.push(v[i].duplicate());
        i = i + 1;
    }
    r
}

/// A voidable type is an output for a function.
#[derive(Debug, PartialEq, Eq)]
pub enum VoidableType {
    Void,
    RefType(RefType),
}

/// A list of parameters for generic types
#[derive(Debug, PartialEq, Eq)]
pub struct TypeParamList(pub Vec<TypeParam>);

/// A type param is an input type (class `BinaryTree<K Comparable<K>, V>`,
/// then `<K extends Comparable<K>>` and `<V>` are type params)
#[derive(Debug, PartialEq, Eq)]
pub struct TypeParam {
    pub name: String,
    pub extends_from: Vec<RefType>,
}

//-----------------------------------------------------------------------
//------------------ DECLARATIONS ---------------------------------------
//-----------------------------------------------------------------------

/// A member can be a method or a property.
#[derive(Debug, PartialEq, Eq)]
pub enum MemberKind {
    Property { reftype: RefType, arr_dim: u8 },
    Method {
        type_param_list: TypeParamList,
        input: Vec<RefType>,
        output: VoidableType,
        throws: Vec<RefType>,
    },
    Constructor { type_param_list: TypeParamList, input: Vec<RefType>, throws: Vec<RefType> },
}

#[derive(Debug, PartialEq, Eq)]
pub struct Member {
    pub name: String,
    pub member_kind: MemberKind,
    pub annotations: Vec<Annotation>,
    pub modifiers: Modifiers,
}

/// A typekind is an enum of different kinds of type
#[derive(Debug, PartialEq, Eq)]
pub enum TypeKind {
    Class { inherit_class: Option<RefType>, implement_interfaces: Vec<RefType> },
    Enum { implement_interfaces: Vec<RefType>, enum_vals: Vec<String> },
    Interface { extend_interfaces: Vec<RefType> },
    Annotation { annotation_properties: Vec<(String, RefType)> },
}

/// The views of a list of type references, in order.
pub open spec fn refs_view(v: Seq<RefType>) -> Seq<RefTypeView> {
    v.map_values(|r: RefType| r@)
}

/// Two kinds are the same kind with the same parents, constants and
/// annotation properties.
pub open spec fn same_kind(a: TypeKind, b: TypeKind) -> bool {
    match (a, b) {
        (
            TypeKind::Class { inherit_class: c1, implement_interfaces: i1 },
            TypeKind::Class { inherit_class: c2, implement_interfaces: i2 },
        ) => (match (c1, c2) {
            (Some(x), Some(y)) => x@ == y@,
            (None, None) => true,
            _ => false,
        }) && refs_view(i1@) == refs_view(i2@),
        (
            TypeKind::Enum { implement_interfaces: i1, enum_vals: e1 },
            TypeKind::Enum { implement_interfaces: i2, enum_vals: e2 },
        ) => refs_view(i1@) == refs_view(i2@) && e1@ == e2@,
        (TypeKind::Interface { extend_interfaces: i1 }, TypeKind::Interface { extend_interfaces: i2 }) => refs_view(i1@)
            == refs_view(i2@),
        (TypeKind::Annotation { annotation_properties: p1 }, TypeKind::Annotation { annotation_properties: p2 }) => {
            &&& p1@.len() == p2@.len()
            &&& forall|i: int| 0 <= i < p1@.len() ==> (#[trigger] p1@[i]).0@ == p2@[i].0@ && p1@[i].1@ == p2@[i].1@
        },
        _ => false,
    }
}

impl TypeKind {
    /// A copy of this kind.
    pub fn duplicate(&self) -> (r: TypeKind)
        ensures
            same_kind(r, *self),
    {
        match self {
            TypeKind::Class { inherit_class, implement_interfaces } => {
                let c = match inherit_class {
                    Some(x) => Some(x.duplicate()),
                    None => None,
                };
                let i = copy_ref_types(implement_interfaces);
                assert(refs_view(i@) =~= refs_view(implement_interfaces@));
                TypeKind::Class { inherit_class: c, implement_interfaces: i }
            },
            TypeKind::Enum { implement_interfaces, enum_vals } => {
                let i = copy_ref_types(implement_interfaces);
                assert(refs_view(i@) =~= refs_view(implement_interfaces@));
                TypeKind::Enum { implement_interfaces: i, enum_vals: copy_strings(enum_vals) }
            },
            TypeKind::Interface { extend_interfaces } => {
                let i = copy_ref_types(extend_interfaces);
                assert(refs_view(i@) =~= refs_view(extend_interfaces@));
                TypeKind::Interface { extend_interfaces: i }
            },
            TypeKind::Annotation { annotation_properties } => {
                let mut v: Vec<(String, RefType)> = Vec::new();
                let mut k: usize = 0;
                while k < annotation_properties.len()
                    invariant
                        k <= annotation_properties@.len(),
                        v@.len() == k,
                        forall|j: int|
                            0 <= j < k ==> (#[trigger] v@[j]).0@ == annotation_properties@[j].0@ && v@[j].1@
                                == annotation_properties@[j].1@,
                    decreases annotation_properties@.len() - k,
                {
                    let (name, r) = &annotation_properties[k];
                    v.push((name.clone(), r.duplicate()));
                    k = k + 1;
                }
                TypeKind::Annotation { annotation_properties: v }
            },
        }
    }
}

/// A type's body contains its members (not subtypes) and its subtypes.
#[derive(Debug, PartialEq, Eq)]
pub struct TypeBody {
    pub members: Vec<Rc<Member>>,
    pub subtypes: Vec<Rc<Type>>,
}

/// A type can be a class/enum/interface/annotation.
#[derive(Debug, PartialEq, Eq)]
pub struct Type {
    pub name: QualifiedName,
    pub modifiers: Modifiers,
    pub type_kind: TypeKind,
    pub body: TypeBody,
    pub annotation: Vec<Annotation>,
    pub type_params: TypeParamList,
}

#[derive(Debug, PartialEq, Eq, Clone)]
pub struct ImportObject {
    pub name: QualifiedName,
    pub is_static: bool,
    pub is_wildcard: bool,
}

/// How widely a declaration can be seen, from narrowest to widest.
#[derive(Debug, PartialEq, Eq, Structural, Clone, Copy, PartialOrd, Ord)]
pub enum AccessModifier {
    Private,
    Default,
    Protected,
    Public,
}

/// The place of an access modifier in the order from narrowest to widest.
pub open spec fn access_rank(a: AccessModifier) -> int {
    match a {
        AccessModifier::Private => 0,
        AccessModifier::Default => 1,
        AccessModifier::Protected => 2,
        AccessModifier::Public => 3,
    }
}

/// The narrower of two access modifiers.
pub open spec fn access_min_spec(a: AccessModifier, b: AccessModifier) -> AccessModifier {
    if access_rank(a) <= access_rank(b) {
        a
    } else {
        b
    }
}

impl AccessModifier {
    /// The place of this modifier in the order from narrowest to widest.
    pub fn rank(self) -> (r: u8)
        ensures
            r == access_rank(self),
    {
        match self {
            AccessModifier::Private => 0,
            AccessModifier::Default => 1,
            AccessModifier::Protected => 2,
            AccessModifier::Public => 3,
        }
    }

    /// The narrower of two access modifiers.
    pub fn narrower(self, other: AccessModifier) -> (r: AccessModifier)
        ensures
            r == access_min_spec(self, other),
    {
        if self.rank() <= other.rank() {
            self
        } else {
            other
        }
    }
}

#[derive(Debug, PartialEq, Eq, Clone)]
pub struct Modifiers {
    pub modifiers: Vec<String>,
    pub access_modifier: AccessModifier,
}

impl Modifiers {
    /// A copy of these modifiers.
    pub fn duplicate(&self) -> (r: Modifiers)
        ensures
            r.modifiers@ == self.modifiers@,
            r.access_modifier == self.access_modifier,
    {
        Modifiers { modifiers: copy_strings(&self.modifiers), access_modifier: self.access_modifier }
    }

    /// No modifiers, with default access.
    pub fn default_access() -> (r: Modifiers)
        ensures
            r.modifiers@.len() == 0,
            r.access_modifier == AccessModifier::Default,
    {
        Modifiers { modifiers: Vec::new(), access_modifier: AccessModifier::Default }
    }
}

#[derive(Debug, PartialEq, Eq)]
pub struct JavaFile {
    /// The package the file declares; empty for the default package.
    pub package_name: QualifiedName,
    /// imported objects, could be com.etc.*
    pub imported_objects: Vec<ImportObject>,
    /// type declarations in the current file
    pub type_decls: Vec<Rc<Type>>,
    /// the path the file was read from
    pub file: String,
}

} // verus!
