use vstd::prelude::*;

use std::rc::Rc;

use crate::name_resolution::err::ReadProjectErr;
use crate::name_resolution::export_types::ExportedInnerTypes;
use crate::name_resolution::waiting::{lemma_forest_prefix, names_distinct};
use crate::resolved_types;
use crate::resolved_types::{FqnView, FullyQualifiedName, SourceView, TypeSource};
use crate::types;
use crate::types::{access_min_spec, access_rank, copy_strings, AccessModifier, QualifiedName};

verus! {

broadcast use vstd::std_specs::vec::axiom_vec_index_decreases;

/// Why name resolution stopped.
#[derive(Debug, PartialEq, Eq, Structural, Clone, Copy)]
pub enum NameResolutionErr {
    /// Every type left waiting has a parent that is also still waiting.
    CyclicDependency,
    /// A type extends or implements a name that two inherited types claim.
    AmbiguousParent,
    /// A type extends or implements a primitive type.
    PrimitiveParent,
    /// A name was expected to be a type of the project and is not.
    MissingType,
}

/// What is known of one type of the project.
#[derive(Debug)]
pub struct TypeIndexEntry {
    // --------------------------- METADATA ----------------------------
    /// the fully qualified name of the type
    pub name: FullyQualifiedName,
    /// the visibility of the type, clamped by the types that enclose it.
    pub visibility: AccessModifier,
    /// the file this type is read from
    pub from_file: String,
    /// the modifiers (static, volatile, etc.)
    pub modifiers: Vec<String>,
    // -------------------------- UNRESOLVED ---------------------------
    /// the root of the ast that contains this type
    pub ast_root: Rc<types::JavaFile>,
    /// the unresolved node of the AST that is this type
    pub unresolved_node: Rc<types::Type>,
    // ------------------------ RESOLVE METADATA -----------------------
    /// the resolved node of the AST that is this type
    pub resolved_node: Option<resolved_types::Type>,
    /// the data to propagate to children nodes
    pub export_types: Option<ExportedInnerTypes>,
}

/// The name an entry is filed under.
pub open spec fn entry_key(e: TypeIndexEntry) -> Seq<Seq<char>> {
    e.name.typename@
}

/// A type, then the types it declares, each followed by the types it
/// declares in turn.
pub open spec fn type_tree(t: types::Type) -> Seq<types::Type>
    decreases t, 1nat,
{
    seq![t] + type_forest(t.body.subtypes@)
}

/// The types of the list in order, each followed by the types it declares.
pub open spec fn type_forest(s: Seq<Rc<types::Type>>) -> Seq<types::Type>
    decreases s, 0nat,
{
    if s.len() == 0 {
        Seq::empty()
    } else {
        type_forest(s.drop_last()) + type_tree(*s.last())
    }
}

/// The type an `Rc` holds.
pub open spec fn rc_type(r: &Rc<types::Type>) -> types::Type {
    **r
}

/// The names of the types, in order.
pub open spec fn tree_names(ts: Seq<types::Type>) -> Seq<Seq<Seq<char>>> {
    ts.map_values(|t: types::Type| t.name@)
}

/// Entry `k` is declared inside an entry `j` before it, and is filed with
/// its own access modifier narrowed to the visibility of entry `j`.
pub open spec fn clamped_by_parent(es: Seq<TypeIndexEntry>, k: int) -> bool {
    exists|j: int|
        0 <= j < k && (#[trigger] es[j]).unresolved_node.body.subtypes@.contains(es[k].unresolved_node)
            && es[k].visibility == access_min_spec(es[k].unresolved_node.modifiers.access_modifier, es[j].visibility)
}

/// Entry `k` is a type its file declares at the top, filed with its own
/// access modifier.
pub open spec fn filed_at_top(es: Seq<TypeIndexEntry>, k: int) -> bool {
    &&& es[k].ast_root.type_decls@.contains(es[k].unresolved_node)
    &&& es[k].visibility == es[k].unresolved_node.modifiers.access_modifier
}

/// Appending entries keeps what an entry's parent says of it.
pub proof fn lemma_clamped_by_parent_prefix(es: Seq<TypeIndexEntry>, fs: Seq<TypeIndexEntry>, k: int)
    requires
        0 <= k < es.len() <= fs.len(),
        forall|i: int| 0 <= i < es.len() ==> fs[i] == es[i],
        clamped_by_parent(es, k),
    ensures
        clamped_by_parent(fs, k),
{
    let j = choose|j: int|
        0 <= j < k && (#[trigger] es[j]).unresolved_node.body.subtypes@.contains(es[k].unresolved_node)
            && es[k].visibility == access_min_spec(es[k].unresolved_node.modifiers.access_modifier, es[j].visibility);
    assert(fs[j] == es[j] && fs[k] == es[k]);
}

/// The names the entries are filed under, in order.
pub open spec fn entry_keys(es: Seq<TypeIndexEntry>) -> Seq<Seq<Seq<char>>> {
    es.map_values(|e: TypeIndexEntry| entry_key(e))
}

/// The names of the types the files of package `pkg` declare, nested ones
/// included, file after file.
pub open spec fn package_type_names(asts: Seq<Rc<types::JavaFile>>, pkg: Seq<Seq<char>>) -> Seq<Seq<Seq<char>>>
    decreases asts.len(),
{
    if asts.len() == 0 {
        Seq::empty()
    } else {
        package_type_names(asts.drop_last(), pkg) + if asts.last().package_name@ == pkg {
            tree_names(type_forest(asts.last().type_decls@))
        } else {
            Seq::empty()
        }
    }
}

/// One more list of types after the first `i`.
pub proof fn lemma_type_forest_step(s: Seq<Rc<types::Type>>, i: int)
    requires
        0 <= i < s.len(),
    ensures
        type_forest(s.take(i + 1)) == type_forest(s.take(i)) + type_tree(rc_type(&s[i])),
        tree_names(type_forest(s.take(i + 1))) == tree_names(type_forest(s.take(i))) + tree_names(type_tree(rc_type(&s[i]))),
{
    assert(s.take(i + 1).drop_last() =~= s.take(i));
    assert(s.take(i + 1).last() == s[i]);
    assert(tree_names(type_forest(s.take(i)) + type_tree(rc_type(&s[i]))) =~= tree_names(type_forest(s.take(i))) + tree_names(
        type_tree(rc_type(&s[i])),
    ));
}

/// The names of one more file's types.
pub proof fn lemma_package_type_names_step(asts: Seq<Rc<types::JavaFile>>, i: int, pkg: Seq<Seq<char>>)
    requires
        0 <= i < asts.len(),
    ensures
        package_type_names(asts.take(i + 1), pkg) == package_type_names(asts.take(i), pkg) + if asts[i].package_name@
            == pkg {
            tree_names(type_forest(asts[i].type_decls@))
        } else {
            Seq::empty()
        },
{
    assert(asts.take(i + 1).drop_last() =~= asts.take(i));
    assert(asts.take(i + 1).last() == asts[i]);
}

/// Files of other packages give a package no names.
pub proof fn lemma_package_type_names_absent(asts: Seq<Rc<types::JavaFile>>, n: int, pkg: Seq<Seq<char>>)
    requires
        0 <= n <= asts.len(),
        forall|j: int| 0 <= j < n ==> (#[trigger] asts[j]).package_name@ != pkg,
    ensures
        package_type_names(asts.take(n), pkg) == Seq::<Seq<Seq<char>>>::empty(),
    decreases n,
{
    if n > 0 {
        lemma_package_type_names_absent(asts, n - 1, pkg);
        lemma_package_type_names_step(asts, n - 1, pkg);
        assert(Seq::<Seq<Seq<char>>>::empty() + Seq::<Seq<Seq<char>>>::empty() =~= Seq::<Seq<Seq<char>>>::empty());
    } else {
        assert(asts.take(0) =~= Seq::<Rc<types::JavaFile>>::empty());
    }
}

/// The keys of `es[a..c]` are those of `es[a..b]`, then those of `es[b..c]`.
pub proof fn lemma_entry_keys_split(es: Seq<TypeIndexEntry>, a: int, b: int, c: int)
    requires
        0 <= a <= b <= c <= es.len(),
    ensures
        entry_keys(es.subrange(a, c)) == entry_keys(es.subrange(a, b)) + entry_keys(es.subrange(b, c)),
{
    assert(entry_keys(es.subrange(a, c)) =~= entry_keys(es.subrange(a, b)) + entry_keys(es.subrange(b, c)));
}

/// The names of the first `j` files' types of a package come first among
/// those of the first `n` files.
pub proof fn lemma_package_type_names_prefix(asts: Seq<Rc<types::JavaFile>>, j: int, n: int, pkg: Seq<Seq<char>>)
    requires
        0 <= j <= n <= asts.len(),
    ensures
        package_type_names(asts.take(j), pkg).len() <= package_type_names(asts.take(n), pkg).len(),
        forall|k: int|
            0 <= k < package_type_names(asts.take(j), pkg).len() ==> #[trigger] package_type_names(asts.take(n), pkg)[k]
                == package_type_names(asts.take(j), pkg)[k],
    decreases n - j,
{
    if j < n {
        lemma_package_type_names_prefix(asts, j, n - 1, pkg);
        lemma_package_type_names_step(asts, n - 1, pkg);
    }
}

/// A name that repeats in the first part of a list repeats in the list.
pub proof fn lemma_repeat_in_prefix(p: Seq<Seq<Seq<char>>>, q: Seq<Seq<Seq<char>>>)
    requires
        p.len() <= q.len(),
        forall|k: int| 0 <= k < p.len() ==> #[trigger] q[k] == p[k],
        !names_distinct(p),
    ensures
        !names_distinct(q),
{
    let (i, j) = choose|i: int, j: int| 0 <= i < j < p.len() && #[trigger] p[i] == #[trigger] p[j];
    assert(q[i] == p[i] && q[j] == p[j]);
}

/// The entries of a well-formed package are filed under distinct names.
pub proof fn lemma_wf_keys_distinct(pkg: Package)
    requires
        pkg.wf(),
    ensures
        names_distinct(entry_keys(pkg.entries())),
{
    let ks = entry_keys(pkg.entries());
    assert forall|i: int, j: int| 0 <= i < j < ks.len() implies #[trigger] ks[i] != #[trigger] ks[j] by {
        assert(ks[i] == entry_key(pkg.entries()[i]) && ks[j] == entry_key(pkg.entries()[j]));
    }
}

/// The position of the first entry at or after `i` filed under `name`.
pub open spec fn entry_index_from(es: Seq<TypeIndexEntry>, name: Seq<Seq<char>>, i: int) -> Option<int>
    decreases es.len() - i,
{
    if i < 0 || i >= es.len() {
        None
    } else if entry_key(es[i]) == name {
        Some(i)
    } else {
        entry_index_from(es, name, i + 1)
    }
}

/// The position of the entry filed under `name`.
pub open spec fn entry_index(es: Seq<TypeIndexEntry>, name: Seq<Seq<char>>) -> Option<int> {
    entry_index_from(es, name, 0)
}

/// The position of the first package at or after `i` named `name`.
pub open spec fn package_index_from(ps: Seq<Package>, name: Seq<Seq<char>>, i: int) -> Option<int>
    decreases ps.len() - i,
{
    if i < 0 || i >= ps.len() {
        None
    } else if ps[i].package@ == name {
        Some(i)
    } else {
        package_index_from(ps, name, i + 1)
    }
}

/// The position of the package named `name`.
pub open spec fn package_index(ps: Seq<Package>, name: Seq<Seq<char>>) -> Option<int> {
    package_index_from(ps, name, 0)
}

/// The package that declares the type `name`: the first prefix of `name`,
/// of length `i` or more (and shorter than `name`), that names a package
/// holding the type. Gives the positions of the package and of the entry.
pub open spec fn origin_from(ps: Seq<Package>, name: Seq<Seq<char>>, i: int) -> Option<(int, int)>
    decreases name.len() - i,
{
    if i < 0 || i >= name.len() {
        None
    } else {
        match package_index(ps, name.subrange(0, i)) {
            Some(p) => match entry_index(ps[p].entries(), name) {
                Some(e) => Some((p, e)),
                None => origin_from(ps, name, i + 1),
            },
            None => origin_from(ps, name, i + 1),
        }
    }
}

/// The package that declares the type `name` (see [`origin_from`]).
pub open spec fn origin(ps: Seq<Package>, name: Seq<Seq<char>>) -> Option<(int, int)> {
    origin_from(ps, name, 1)
}

/// The in-project names that `name` can stand for, one per prefix shorter
/// than `n` that names a package holding the type.
pub open spec fn fqn_candidates(ps: Seq<Package>, name: Seq<Seq<char>>, n: int) -> Seq<FqnView>
    decreases n,
{
    if n <= 0 {
        Seq::empty()
    } else {
        let prev = fqn_candidates(ps, name, n - 1);
        let pkg = name.subrange(0, n - 1);
        match package_index(ps, pkg) {
            Some(p) => if entry_index(ps[p].entries(), name) is Some {
                prev.push(FqnView { source: SourceView::InProject(pkg), typename: name })
            } else {
                prev
            },
            None => prev,
        }
    }
}

/// A position found by [`entry_index_from`] holds an entry filed under the
/// name, and no earlier position from `j` on does.
pub proof fn lemma_entry_index_from(es: Seq<TypeIndexEntry>, name: Seq<Seq<char>>, j: int)
    requires
        0 <= j,
    ensures
        entry_index_from(es, name, j) matches Some(i) ==> j <= i < es.len() && entry_key(es[i])
            == name && forall|k: int| j <= k < i ==> entry_key(#[trigger] es[k]) != name,
        entry_index_from(es, name, j) is None ==> forall|k: int|
            j <= k < es.len() ==> entry_key(#[trigger] es[k]) != name,
    decreases es.len() - j,
{
    if j < es.len() && entry_key(es[j]) != name {
        lemma_entry_index_from(es, name, j + 1);
    }
}

/// A position found by [`package_index_from`] holds a package of that
/// name, and no earlier position from `j` on does.
pub proof fn lemma_package_index_from(ps: Seq<Package>, name: Seq<Seq<char>>, j: int)
    requires
        0 <= j,
    ensures
        package_index_from(ps, name, j) matches Some(i) ==> j <= i < ps.len() && ps[i].package@
            == name && forall|k: int| j <= k < i ==> (#[trigger] ps[k]).package@ != name,
        package_index_from(ps, name, j) is None ==> forall|k: int|
            j <= k < ps.len() ==> (#[trigger] ps[k]).package@ != name,
    decreases ps.len() - j,
{
    if j < ps.len() && ps[j].package@ != name {
        lemma_package_index_from(ps, name, j + 1);
    }
}

/// `new` is `old` with what is recorded of the entry at `i` changed, and
/// nothing else: the entry keeps its name, visibility, origin and node.
pub open spec fn entry_updated(old: Package, new: Package, i: int) -> bool {
    &&& new.package == old.package
    &&& 0 <= i < old.entries().len()
    &&& new.entries().len() == old.entries().len()
    &&& forall|k: int| 0 <= k < old.entries().len() && k != i ==> #[trigger] new.entries()[k] == old.entries()[k]
    &&& new.entries()[i].name == old.entries()[i].name
    &&& new.entries()[i].visibility == old.entries()[i].visibility
    &&& new.entries()[i].from_file == old.entries()[i].from_file
    &&& new.entries()[i].modifiers == old.entries()[i].modifiers
    &&& new.entries()[i].unresolved_node == old.entries()[i].unresolved_node
    &&& new.entries()[i].ast_root == old.entries()[i].ast_root
}

/// The types of one package, each filed under its fully qualified name.
#[derive(Debug)]
pub struct Package {
    pub package: QualifiedName,
    pub type_index: Vec<TypeIndexEntry>,
}

impl Package {
    /// The package's entries, in the order they were added.
    pub open spec fn entries(&self) -> Seq<TypeIndexEntry> {
        self.type_index@
    }

    /// No two entries are filed under the same name.
    pub open spec fn wf(&self) -> bool {
        forall|i: int, j: int|
            0 <= i < j < self.entries().len() ==> entry_key(#[trigger] self.entries()[i])
                != entry_key(#[trigger] self.entries()[j])
    }

    /// Every entry is named as a type of this package, and is filed with its
    /// own access modifier, narrowed to the visibility of the type that
    /// declares it where it is nested.
    pub open spec fn all_filed(&self) -> bool {
        forall|k: int|
            0 <= k < self.entries().len() ==> {
                &&& (#[trigger] self.entries()[k]).name@.source == SourceView::InProject(self.package@)
                &&& filed_at_top(self.entries(), k) || clamped_by_parent(self.entries(), k)
            }
    }

    /// Nothing has been resolved yet for any of the package's types.
    pub open spec fn all_fresh(&self) -> bool {
        forall|k: int|
            0 <= k < self.entries().len() ==> (#[trigger] self.entries()[k]).resolved_node is None
                && self.entries()[k].export_types is None
    }

    /// No type is filed as more visible than its own access modifier makes
    /// it.
    pub open spec fn all_clamped(&self) -> bool {
        forall|k: int|
            0 <= k < self.entries().len() ==> access_rank((#[trigger] self.entries()[k]).visibility) <= access_rank(
                self.entries()[k].unresolved_node.modifiers.access_modifier,
            )
    }

    /// A package with no types yet.
    pub fn new(pkg_name: &QualifiedName) -> (r: Self)
        ensures
            r.package@ == pkg_name@,
            r.entries().len() == 0,
            r.wf(),
            r.all_fresh(),
            r.all_clamped(),
            r.all_filed(),
    {
        Self { package: pkg_name.duplicate(), type_index: Vec::new() }
    }

    /// The entry filed under `typename`, if any.
    pub fn get_type(&self, typename: &QualifiedName) -> (r: Option<&TypeIndexEntry>)
        ensures
            r is None <==> entry_index(self.entries(), typename@) is None,
            r matches Some(e) ==> *e == self.entries()[entry_index(
                self.entries(),
                typename@,
            ).unwrap()],
    {
        match self.find(typename) {
            Some(i) => Some(&self.type_index[i]),
            None => None,
        }
    }

    /// The entry filed under `typename`, to be changed in place; the other
    /// entries stay as they are.
    pub fn get_mut_type(&mut self, typename: &QualifiedName) -> (r: Option<&mut TypeIndexEntry>)
        ensures
            entry_index(old(self).entries(), typename@) is None ==> r.is_none() && *final(self) == *old(self),
            entry_index(old(self).entries(), typename@) matches Some(i) ==> {
                &&& r.is_some()
                &&& *r.unwrap() == old(self).entries()[i]
                &&& final(self).package == old(self).package
                &&& final(self).entries().len() == old(self).entries().len()
                &&& *final(r.unwrap()) == final(self).entries()[i]
                &&& forall|j: int|
                    0 <= j < old(self).entries().len() && j != i ==> #[trigger] final(self).entries()[j]
                        == old(self).entries()[j]
            },
    {
        match self.find(typename) {
            Some(i) => Some(&mut self.type_index[i]),
            None => None,
        }
    }

    /// The position of the entry filed under `typename`, if any.
    pub fn find(&self, typename: &QualifiedName) -> (r: Option<usize>)
        ensures
            r matches Some(i) ==> entry_index(self.entries(), typename@) == Some(i as int) && i
                < self.entries().len() && entry_key(self.entries()[i as int]) == typename@,
            r is None ==> entry_index(self.entries(), typename@) is None,
    {
        proof {
            lemma_entry_index_from(self.type_index@, typename@, 0);
        }
        let mut i: usize = 0;
        while i < self.type_index.len()
            invariant
                i <= self.type_index@.len(),
                entry_index_from(self.type_index@, typename@, i as int) == entry_index(
                    self.type_index@,
                    typename@,
                ),
            decreases self.type_index@.len() - i,
        {
            if self.type_index[i].name.typename.same_as(typename) {
                return Some(i);
            }
            i = i + 1;
        }
        None
    }

    /// The package's entries, in the order they were added.
    pub fn iter(&self) -> (r: &Vec<TypeIndexEntry>)
        ensures
            r@ == self.entries(),
    {
        &self.type_index
    }

    /// The fully qualified name of `fqn` as a type of this package, if the
    /// package has it.
    pub fn get_fqn(&self, fqn: &QualifiedName) -> (r: Option<FullyQualifiedName>)
        ensures
            r is Some <==> entry_index(self.entries(), fqn@) is Some,
            r matches Some(f) ==> f@ == (FqnView {
                source: SourceView::InProject(self.package@),
                typename: fqn@,
            }),
    {
        match self.find(fqn) {
            None => None,
            Some(_) => Some(
                FullyQualifiedName {
                    source: TypeSource::InProjectType { package: self.package.duplicate() },
                    typename: fqn.duplicate(),
                },
            ),
        }
    }

    /// Files every type of `ast`, nested ones included, under its name.
    /// A nested type is never more visible than the type enclosing it.
    /// `SemanticErr` if a name is already taken in this package.
    pub fn add_ast(&mut self, ast: Rc<types::JavaFile>) -> (r: Result<(), ReadProjectErr>)
        requires
            old(self).wf(),
            old(self).all_fresh(),
            old(self).all_clamped(),
        ensures
            final(self).wf(),
            final(self).all_fresh(),
            final(self).all_clamped(),
            final(self).package == old(self).package,
            r is Ok ==> old(self).entries().len() <= final(self).entries().len()
                && final(self).entries().subrange(0, old(self).entries().len() as int) == old(
                self).entries(),
            r is Ok ==> entry_keys(final(self).entries()) == entry_keys(old(self).entries()) + tree_names(
                type_forest(ast.type_decls@),
            ),
            r is Ok && old(self).all_filed() && ast.package_name@ == old(self).package@ ==> final(self).all_filed(),
            r matches Err(e) ==> e is SemanticErr,
            r is Err <==> !names_distinct(entry_keys(old(self).entries()) + tree_names(type_forest(ast.type_decls@))),
    {
        let ghost hf = old(self).all_filed() && ast.package_name@ == old(self).package@;
        let mut i: usize = 0;
        assert(entry_keys(old(self).entries()) + tree_names(type_forest(ast.type_decls@.take(0))) =~= entry_keys(
            old(self).entries(),
        )) by {
            assert(ast.type_decls@.take(0) =~= Seq::<Rc<types::Type>>::empty());
        }
        while i < ast.type_decls.len()
            invariant
                self.wf(),
                self.all_fresh(),
                self.all_clamped(),
                self.package == old(self).package,
                old(self).entries().len() <= self.entries().len(),
                self.entries().subrange(0, old(self).entries().len() as int) == old(self).entries(),
                i <= ast.type_decls@.len(),
                entry_keys(self.entries()) == entry_keys(old(self).entries()) + tree_names(
                    type_forest(ast.type_decls@.take(i as int)),
                ),
                hf == (old(self).all_filed() && ast.package_name@ == old(self).package@),
                hf ==> self.all_filed(),
            decreases ast.type_decls@.len() - i,
        {
            let ghost before = self.entries();
            let t = ast.type_decls[i].clone();
            let res = self.add_ast_recursive(t, ast.clone(), &ast.file, AccessModifier::Public);
            if res.is_err() {
                proof {
                    let ds = ast.type_decls@;
                    lemma_type_forest_step(ds, i as int);
                    let whole = entry_keys(old(self).entries()) + tree_names(type_forest(ds));
                    let part = entry_keys(before) + tree_names(type_tree(rc_type(&ds[i as int])));
                    assert(part =~= entry_keys(old(self).entries()) + tree_names(type_forest(ds.take(i + 1))));
                    lemma_forest_prefix(ds, i + 1, ds.len() as int);
                    assert(ds.take(ds.len() as int) =~= ds);
                    assert forall|k: int| 0 <= k < part.len() implies #[trigger] whole[k] == part[k] by {
                        let o = entry_keys(old(self).entries()).len() as int;
                        if k >= o {
                            assert(type_forest(ds)[k - o] == type_forest(ds.take(i + 1))[k - o]);
                        }
                    }
                    lemma_repeat_in_prefix(part, whole);
                }
                return res;
            }
            proof {
                let es = self.entries();
                let m = before.len() as int;
                if hf {
                    assert forall|k: int| 0 <= k < es.len() implies {
                        &&& (#[trigger] es[k]).name@.source == SourceView::InProject(self.package@)
                        &&& filed_at_top(es, k) || clamped_by_parent(es, k)
                    } by {
                        if k < m {
                            assert(es[k] == es.subrange(0, m)[k]);
                            assert(es[k] == before[k]);
                            if !filed_at_top(before, k) {
                                assert forall|x: int| 0 <= x < before.len() implies es[x] == before[x] by {
                                    assert(es.subrange(0, m)[x] == before[x]);
                                }
                                lemma_clamped_by_parent_prefix(before, es, k);
                            }
                        } else if k == m {
                            assert(ast.type_decls@[i as int] == es[m].unresolved_node);
                            assert(es[m].ast_root.type_decls@.contains(es[m].unresolved_node));
                        }
                    }
                }
                lemma_type_forest_step(ast.type_decls@, i as int);
                lemma_entry_keys_split(es, 0, m, es.len() as int);
                assert(es.subrange(0, m) =~= before);
                assert(es.subrange(0, es.len() as int) =~= es);
            }
            assert(self.entries().subrange(0, old(self).entries().len() as int) =~= old(self).entries()) by {
                assert forall|k: int| 0 <= k < old(self).entries().len() implies self.entries()[k] == old(self).entries()[k] by {
                    assert(self.entries().subrange(0, before.len() as int)[k] == before[k]);
                    assert(before.subrange(0, old(self).entries().len() as int)[k] == old(self).entries()[k]);
                }
            }
            i = i + 1;
        }
        assert(ast.type_decls@.take(i as int) =~= ast.type_decls@);
        proof {
            lemma_wf_keys_distinct(*self);
        }
        Ok(())
    }

    /// Files `typeclass` and its nested types, each no more visible than
    /// `current_min_access_modifier` and than the types enclosing it.
    pub fn add_ast_recursive(
        &mut self,
        typeclass: Rc<types::Type>,
        ast_root: Rc<types::JavaFile>,
        from_file: &String,
        current_min_access_modifier: AccessModifier,
    ) -> (r: Result<(), ReadProjectErr>)
        requires
            old(self).wf(),
            old(self).all_fresh(),
            old(self).all_clamped(),
        ensures
            final(self).wf(),
            final(self).all_fresh(),
            final(self).all_clamped(),
            final(self).package == old(self).package,
            r is Ok ==> {
                let n = old(self).entries().len() as int;
                let es = final(self).entries();
                &&& n < es.len()
                &&& es.subrange(0, n) == old(self).entries()
                &&& es[n].unresolved_node == typeclass
                &&& es[n].ast_root == ast_root
                &&& es[n].name@ == (FqnView {
                    source: SourceView::InProject(ast_root.package_name@),
                    typename: typeclass.name@,
                })
                &&& es[n].visibility == access_min_spec(
                    typeclass.modifiers.access_modifier,
                    current_min_access_modifier,
                )
                &&& es[n].from_file@ == from_file@
                &&& es[n].resolved_node is None
                &&& es[n].export_types is None
                &&& forall|k: int|
                    n < k < es.len() ==> access_rank((#[trigger] es[k]).visibility) <= access_rank(
                        es[n].visibility,
                    )
                &&& entry_keys(es.subrange(n, es.len() as int)) == tree_names(type_tree(*typeclass))
                &&& forall|k: int|
                    n <= k < es.len() ==> (#[trigger] es[k]).name@.source == SourceView::InProject(
                        ast_root.package_name@,
                    )
                &&& forall|k: int| n < k < es.len() ==> #[trigger] clamped_by_parent(es, k)
            },
            r matches Err(e) ==> e is SemanticErr,
            r is Err <==> !names_distinct(entry_keys(old(self).entries()) + tree_names(type_tree(*typeclass))),
        decreases typeclass,
    {
        let visibility = typeclass.modifiers.access_modifier.narrower(current_min_access_modifier);
        if self.find(&typeclass.name).is_some() {
            proof {
                let ks = entry_keys(old(self).entries()) + tree_names(type_tree(rc_type(&typeclass)));
                let k = entry_index(old(self).entries(), typeclass.name@).unwrap();
                lemma_entry_index_from(old(self).entries(), typeclass.name@, 0);
                assert(ks[k] == typeclass.name@);
                assert(ks[old(self).entries().len() as int] == typeclass.name@);
            }
            return Err(ReadProjectErr::SemanticErr("duplicated type names inside same package"));
        }
        let ghost n = self.type_index@.len() as int;
        proof {
            lemma_entry_index_from(self.type_index@, typeclass.name@, 0);
        }
        self.type_index.push(
            TypeIndexEntry {
                name: FullyQualifiedName {
                    source: TypeSource::InProjectType { package: ast_root.package_name.duplicate() },
                    typename: typeclass.name.duplicate(),
                },
                visibility,
                from_file: from_file.clone(),
                modifiers: copy_strings(&typeclass.modifiers.modifiers),
                ast_root: ast_root.clone(),
                unresolved_node: typeclass.clone(),
                resolved_node: None,
                export_types: None,
            },
        );
        assert(self.type_index@.subrange(0, n) =~= old(self).type_index@);
        assert(entry_keys(self.entries().subrange(n, self.entries().len() as int)) =~= tree_names(
            seq![rc_type(&typeclass)] + type_forest(typeclass.body.subtypes@.take(0)),
        )) by {
            assert(typeclass.body.subtypes@.take(0) =~= Seq::<Rc<types::Type>>::empty());
            assert(seq![rc_type(&typeclass)] + Seq::<types::Type>::empty() =~= seq![rc_type(&typeclass)]);
        }
        let mut i: usize = 0;
        while i < typeclass.body.subtypes.len()
            invariant
                self.wf(),
                self.all_fresh(),
                self.all_clamped(),
                self.package == old(self).package,
                n == old(self).entries().len(),
                n < self.entries().len(),
                self.entries().subrange(0, n) == old(self).entries(),
                self.entries()[n].unresolved_node == typeclass,
                self.entries()[n].ast_root == ast_root,
                self.entries()[n].name@ == (FqnView {
                    source: SourceView::InProject(ast_root.package_name@),
                    typename: typeclass.name@,
                }),
                self.entries()[n].visibility == visibility,
                self.entries()[n].from_file@ == from_file@,
                self.entries()[n].resolved_node is None,
                self.entries()[n].export_types is None,
                visibility == access_min_spec(typeclass.modifiers.access_modifier, current_min_access_modifier),
                forall|k: int|
                    n < k < self.entries().len() ==> access_rank((#[trigger] self.entries()[k]).visibility)
                        <= access_rank(visibility),
                forall|k: int|
                    n <= k < self.entries().len() ==> (#[trigger] self.entries()[k]).name@.source
                        == SourceView::InProject(ast_root.package_name@),
                forall|k: int| n < k < self.entries().len() ==> #[trigger] clamped_by_parent(self.entries(), k),
                i <= typeclass.body.subtypes@.len(),
                entry_keys(self.entries().subrange(n, self.entries().len() as int)) == tree_names(
                    seq![rc_type(&typeclass)] + type_forest(typeclass.body.subtypes@.take(i as int)),
                ),
            decreases typeclass.body.subtypes@.len() - i,
        {
            let ghost before = self.entries();
            let inner = typeclass.body.subtypes[i].clone();
            let res = self.add_ast_recursive(inner, ast_root.clone(), from_file, visibility);
            if res.is_err() {
                proof {
                    let subs = typeclass.body.subtypes@;
                    lemma_type_forest_step(subs, i as int);
                    lemma_entry_keys_split(before, 0, n, before.len() as int);
                    assert(before.subrange(0, before.len() as int) =~= before);
                    let whole = entry_keys(old(self).entries()) + tree_names(type_tree(rc_type(&typeclass)));
                    let part = entry_keys(before) + tree_names(type_tree(rc_type(&subs[i as int])));
                    assert(part =~= entry_keys(old(self).entries()) + tree_names(seq![rc_type(&typeclass)] + type_forest(
                        subs.take(i + 1),
                    )));
                    lemma_forest_prefix(subs, i + 1, subs.len() as int);
                    assert(subs.take(subs.len() as int) =~= subs);
                    assert forall|k: int| 0 <= k < part.len() implies #[trigger] whole[k] == part[k] by {
                        let o = entry_keys(old(self).entries()).len() as int;
                        if k > o {
                            assert(type_forest(subs)[k - o - 1] == type_forest(subs.take(i + 1))[k - o - 1]);
                        }
                    }
                    lemma_repeat_in_prefix(part, whole);
                }
                return res;
            }
            proof {
                let m = before.len() as int;
                let es = self.entries();
                assert forall|k: int| 0 <= k < m implies es[k] == before[k] by {
                    assert(es.subrange(0, m)[k] == before[k]);
                }
                assert(es.subrange(0, n) =~= old(self).entries()) by {
                    assert forall|k: int| 0 <= k < n implies es[k] == old(self).entries()[k] by {
                        assert(before.subrange(0, n)[k] == old(self).entries()[k]);
                    }
                }
                assert forall|k: int| n < k < es.len() implies access_rank((#[trigger] es[k]).visibility)
                    <= access_rank(visibility) by {
                    if k < m {
                        assert(es[k] == before[k]);
                    } else if k > m {
                        assert(access_rank(es[k].visibility) <= access_rank(es[m].visibility));
                    }
                }
                assert forall|k: int| n <= k < es.len() implies (#[trigger] es[k]).name@.source
                    == SourceView::InProject(ast_root.package_name@) by {
                    if k < m {
                        assert(es[k] == before[k]);
                    }
                }
                assert forall|k: int| n < k < es.len() implies #[trigger] clamped_by_parent(es, k) by {
                    if k < m {
                        lemma_clamped_by_parent_prefix(before, es, k);
                    } else if k == m {
                        assert(es[n] == before[n]);
                        assert(typeclass.body.subtypes@[i as int] == es[m].unresolved_node);
                        assert(es[n].unresolved_node.body.subtypes@.contains(es[m].unresolved_node));
                    }
                }
                let subs = typeclass.body.subtypes@;
                lemma_type_forest_step(subs, i as int);
                lemma_entry_keys_split(es, n, m, es.len() as int);
                assert(es.subrange(n, m) =~= before.subrange(n, m));
                assert(tree_names(seq![rc_type(&typeclass)] + type_forest(subs.take(i + 1))) =~= tree_names(
                    seq![rc_type(&typeclass)] + type_forest(subs.take(i as int)),
                ) + tree_names(type_tree(rc_type(&subs[i as int]))));
                assert(tree_names(seq![rc_type(&typeclass)] + type_forest(subs.take(i as int))) =~= tree_names(
                    seq![rc_type(&typeclass)],
                ) + tree_names(type_forest(subs.take(i as int))));
                assert(tree_names(seq![rc_type(&typeclass)] + type_forest(subs.take(i + 1))) =~= tree_names(
                    seq![rc_type(&typeclass)],
                ) + tree_names(type_forest(subs.take(i + 1))));
            }
            i = i + 1;
        }
        assert(typeclass.body.subtypes@.take(i as int) =~= typeclass.body.subtypes@);
        proof {
            let es = self.entries();
            lemma_wf_keys_distinct(*self);
            lemma_entry_keys_split(es, 0, n, es.len() as int);
            assert(es.subrange(0, es.len() as int) =~= es);
            assert(type_tree(rc_type(&typeclass)) == seq![rc_type(&typeclass)] + type_forest(typeclass.body.subtypes@));
        }
        Ok(())
    }

    /// Records the resolved form of the type filed under `typename`.
    /// `MissingType` if there is no such entry.
    pub fn set_resolved_node(&mut self, typename: &QualifiedName, node: resolved_types::Type) -> (r: Result<(), NameResolutionErr>)
        ensures
            r is Err <==> entry_index(old(self).entries(), typename@) is None,
            r is Err ==> *final(self) == *old(self),
            r is Ok ==> {
                let i = entry_index(old(self).entries(), typename@).unwrap();
                &&& entry_updated(*old(self), *final(self), i)
                &&& final(self).entries()[i].resolved_node == Some(node)
                &&& final(self).entries()[i].export_types == old(self).entries()[i].export_types
            },
    {
        match self.find(typename) {
            None => Err(NameResolutionErr::MissingType),
            Some(i) => {
                let mut e = self.type_index.remove(i);
                e.resolved_node = Some(node);
                self.type_index.insert(i, e);
                Ok(())
            },
        }
    }

    /// Records what the type filed under `typename` hands down to the types
    /// that extend or implement it. `MissingType` if there is no such entry.
    pub fn set_export_types(&mut self, typename: &QualifiedName, exports: ExportedInnerTypes) -> (r: Result<(), NameResolutionErr>)
        ensures
            r is Err <==> entry_index(old(self).entries(), typename@) is None,
            r is Err ==> *final(self) == *old(self),
            r is Ok ==> {
                let i = entry_index(old(self).entries(), typename@).unwrap();
                &&& entry_updated(*old(self), *final(self), i)
                &&& final(self).entries()[i].resolved_node == old(self).entries()[i].resolved_node
                &&& final(self).entries()[i].export_types == Some(exports)
            },
    {
        match self.find(typename) {
            None => Err(NameResolutionErr::MissingType),
            Some(i) => {
                let mut e = self.type_index.remove(i);
                e.export_types = Some(exports);
                self.type_index.insert(i, e);
                Ok(())
            },
        }
    }

    /// Takes the resolved form of the type filed under `typename` out of
    /// its entry. `MissingType` if there is no such entry.
    pub fn take_resolved_node(&mut self, typename: &QualifiedName) -> (r: Result<Option<resolved_types::Type>, NameResolutionErr>)
        ensures
            r is Err <==> entry_index(old(self).entries(), typename@) is None,
            r is Err ==> *final(self) == *old(self),
            r matches Ok(n) ==> {
                let i = entry_index(old(self).entries(), typename@).unwrap();
                &&& entry_updated(*old(self), *final(self), i)
                &&& n == old(self).entries()[i].resolved_node
                &&& final(self).entries()[i].resolved_node is None
                &&& final(self).entries()[i].export_types == old(self).entries()[i].export_types
            },
    {
        match self.find(typename) {
            None => Err(NameResolutionErr::MissingType),
            Some(i) => {
                let mut e = self.type_index.remove(i);
                let n = e.resolved_node.take();
                self.type_index.insert(i, e);
                Ok(n)
            },
        }
    }
}

/// A mapping f of type Project is `f: PackageName -> Package`: the project's
/// packages, each with the types declared in it.
#[derive(Debug)]
pub struct Project(pub Vec<Package>);

impl Project {
    /// The packages, in the order they were first seen.
    pub open spec fn packages(&self) -> Seq<Package> {
        self.0@
    }

    /// No two packages share a name, and each package is well formed.
    pub open spec fn wf(&self) -> bool {
        &&& forall|i: int, j: int|
            0 <= i < j < self.packages().len() ==> (#[trigger] self.packages()[i]).package@ != (
            #[trigger] self.packages()[j]).package@
        &&& forall|i: int| 0 <= i < self.packages().len() ==> (#[trigger] self.packages()[i]).wf()
    }

    /// From a list of all AST's in the file, generate a Project: every type
    /// of every file is filed in the package its file declares.
    /// `SemanticErr` if two types of one package share a name.
    pub fn from_ast_lst(value: &[Rc<types::JavaFile>]) -> (r: Result<Self, ReadProjectErr>)
        ensures
            r matches Ok(p) ==> p.wf() && forall|i: int|
                0 <= i < value@.len() ==> package_index(
                    p.packages(),
                    (#[trigger] value@[i]).package_name@,
                ) is Some,
            r matches Ok(p) ==> forall|i: int| 0 <= i < p.packages().len() ==> (#[trigger] p.packages()[i]).all_fresh(),
            r matches Ok(p) ==> forall|i: int| 0 <= i < p.packages().len() ==> (#[trigger] p.packages()[i]).all_clamped(),
            r matches Ok(p) ==> forall|i: int, j: int|
                0 <= i < j < p.packages().len() ==> (#[trigger] p.packages()[i]).package@ != (
                #[trigger] p.packages()[j]).package@,
            r matches Ok(p) ==> forall|i: int|
                0 <= i < p.packages().len() ==> entry_keys((#[trigger] p.packages()[i]).entries())
                    == package_type_names(value@, p.packages()[i].package@),
            r matches Ok(p) ==> forall|i: int| 0 <= i < p.packages().len() ==> (#[trigger] p.packages()[i]).all_filed(),
            r matches Ok(p) ==> forall|i: int|
                0 <= i < p.packages().len() ==> exists|k: int|
                    0 <= k < value@.len() && (#[trigger] value@[k]).package_name@ == (#[trigger] p.packages()[i]).package@,
            r matches Err(e) ==> e is SemanticErr,
            r is Err <==> exists|pkg: Seq<Seq<char>>| !names_distinct(#[trigger] package_type_names(value@, pkg)),
    {
        let mut myself = Project(Vec::new());
        let mut i: usize = 0;
        while i < value.len()
            invariant
                forall|k: int|
                    0 <= k < myself.packages().len() ==> entry_keys((#[trigger] myself.packages()[k]).entries())
                        == package_type_names(value@.take(i as int), myself.packages()[k].package@),
                myself.wf(),
                forall|k: int| 0 <= k < myself.packages().len() ==> (#[trigger] myself.packages()[k]).all_fresh(),
                forall|k: int| 0 <= k < myself.packages().len() ==> (#[trigger] myself.packages()[k]).all_clamped(),
                forall|k: int| 0 <= k < myself.packages().len() ==> (#[trigger] myself.packages()[k]).all_filed(),
                forall|a: int|
                    0 <= a < myself.packages().len() ==> exists|k: int|
                        0 <= k < i && (#[trigger] value@[k]).package_name@ == (#[trigger] myself.packages()[a]).package@,
                i <= value@.len(),
                forall|k: int|
                    0 <= k < i ==> package_index(
                        myself.packages(),
                        (#[trigger] value@[k]).package_name@,
                    ) is Some,
            decreases value@.len() - i,
        {
            let ast = value[i].clone();
            let ghost before = myself.packages();
            let idx = match myself.find_package(&ast.package_name) {
                Some(idx) => idx,
                None => {
                    proof {
                        lemma_package_index_from(before, ast.package_name@, 0);
                    }
                    myself.0.push(Package::new(&ast.package_name));
                    proof {
                        assert forall|a: int, b: int|
                            0 <= a < b < myself.packages().len() implies (#[trigger] myself.packages()[a]).package@
                            != (#[trigger] myself.packages()[b]).package@ by {
                            if b < before.len() {
                                assert(myself.packages()[a] == before[a]);
                                assert(myself.packages()[b] == before[b]);
                            } else {
                                assert(myself.packages()[a] == before[a]);
                            }
                        }
                        assert forall|k: int| 0 <= k < i implies package_index(
                            myself.packages(),
                            (#[trigger] value@[k]).package_name@,
                        ) is Some by {
                            lemma_package_index_prefix(before, myself.packages(), value@[k].package_name@);
                        }
                    }
                    myself.0.len() - 1
                },
            };
            let ghost mid = myself.packages();
            let mut pkg = myself.0.remove(idx);
            let res = pkg.add_ast(ast);
            myself.0.insert(idx, pkg);
            proof {
                assert forall|a: int| 0 <= a < mid.len() implies (#[trigger] myself.packages()[a]).package@
                    == mid[a].package@ by {}
                assert forall|a: int, b: int|
                    0 <= a < b < myself.packages().len() implies (#[trigger] myself.packages()[a]).package@
                    != (#[trigger] myself.packages()[b]).package@ by {
                    assert(mid[a].package@ != mid[b].package@);
                }
                assert forall|k: int| 0 <= k <= i implies package_index(
                    myself.packages(),
                    (#[trigger] value@[k]).package_name@,
                ) is Some by {
                    lemma_package_index_same_names(mid, myself.packages(), value@[k].package_name@);
                    if k == i {
                        lemma_package_index_from(mid, value@[k].package_name@, 0);
                        lemma_package_index_found(mid, value@[k].package_name@, idx as int);
                    }
                }
            }
            match res {
                Ok(()) => {},
                Err(e) => {
                    proof {
                        let name = value@[i as int].package_name@;
                        lemma_package_type_names_step(value@, i as int, name);
                        if idx as int >= before.len() {
                            lemma_package_index_from(before, name, 0);
                            assert forall|j: int| 0 <= j < i implies (#[trigger] value@[j]).package_name@ != name by {
                                lemma_package_index_from(before, value@[j].package_name@, 0);
                            }
                            lemma_package_type_names_absent(value@, i as int, name);
                            assert(entry_keys(mid[idx as int].entries()) =~= Seq::<Seq<Seq<char>>>::empty());
                        } else {
                            assert(mid[idx as int] == before[idx as int]);
                            assert(mid[idx as int].package@ == name);
                        }
                        let part = package_type_names(value@.take(i + 1), name);
                        assert(part =~= entry_keys(mid[idx as int].entries()) + tree_names(
                            type_forest(value@[i as int].type_decls@),
                        ));
                        lemma_package_type_names_prefix(value@, i + 1, value@.len() as int, name);
                        assert(value@.take(value@.len() as int) =~= value@);
                        lemma_repeat_in_prefix(part, package_type_names(value@, name));
                    }
                    return Err(e);
                },
            }
            proof {
                let name = value@[i as int].package_name@;
                assert forall|k: int| 0 <= k < myself.packages().len() implies entry_keys(
                    (#[trigger] myself.packages()[k]).entries(),
                ) == package_type_names(value@.take(i + 1), myself.packages()[k].package@) by {
                    let kn = myself.packages()[k].package@;
                    lemma_package_type_names_step(value@, i as int, kn);
                    if k == idx as int {
                        assert(kn == name);
                        if idx as int >= before.len() {
                            lemma_package_index_from(before, name, 0);
                            assert forall|j: int| 0 <= j < i implies (#[trigger] value@[j]).package_name@ != name by {
                                lemma_package_index_from(before, value@[j].package_name@, 0);
                            }
                            lemma_package_type_names_absent(value@, i as int, name);
                            assert(mid[idx as int].entries().len() == 0);
                            assert(entry_keys(mid[idx as int].entries()) =~= Seq::<Seq<Seq<char>>>::empty());
                        } else {
                            assert(mid[idx as int] == before[idx as int]);
                        }
                        assert(entry_keys(mid[idx as int].entries()) + tree_names(type_forest(value@[i as int].type_decls@))
                            =~= package_type_names(value@.take(i as int), kn) + tree_names(
                            type_forest(value@[i as int].type_decls@),
                        ));
                    } else {
                        assert(myself.packages()[k] == mid[k]);
                        assert(mid[k].package@ != mid[idx as int].package@);
                        if k < before.len() {
                            assert(mid[k] == before[k]);
                        }
                        assert(package_type_names(value@.take(i as int), kn) + Seq::<Seq<Seq<char>>>::empty()
                            =~= package_type_names(value@.take(i as int), kn));
                    }
                }
            }
            i = i + 1;
        }
        assert(value@.take(value@.len() as int) =~= value@);
        proof {
            let ps = myself.packages();
            assert forall|pkg: Seq<Seq<char>>| names_distinct(#[trigger] package_type_names(value@, pkg)) by {
                lemma_package_index_from(ps, pkg, 0);
                match package_index(ps, pkg) {
                    Some(k) => {
                        lemma_wf_keys_distinct(ps[k]);
                    },
                    None => {
                        assert forall|j: int| 0 <= j < value@.len() implies (#[trigger] value@[j]).package_name@
                            != pkg by {
                            lemma_package_index_from(ps, value@[j].package_name@, 0);
                        }
                        lemma_package_type_names_absent(value@, value@.len() as int, pkg);
                    },
                }
            }
        }
        Ok(myself)
    }

    /// The position of the package named `name`, if any.
    pub fn find_package(&self, name: &QualifiedName) -> (r: Option<usize>)
        ensures
            r matches Some(i) ==> package_index(self.packages(), name@) == Some(i as int) && i
                < self.packages().len() && self.packages()[i as int].package@ == name@,
            r is None ==> package_index(self.packages(), name@) is None,
    {
        proof {
            lemma_package_index_from(self.0@, name@, 0);
        }
        let mut i: usize = 0;
        while i < self.0.len()
            invariant
                i <= self.0@.len(),
                package_index_from(self.0@, name@, i as int) == package_index(self.0@, name@),
            decreases self.0@.len() - i,
        {
            if self.0[i].package.same_as(name) {
                return Some(i);
            }
            i = i + 1;
        }
        None
    }

    /// Iterate over the packages.
    pub fn iter(&self) -> (r: &Vec<Package>)
        ensures
            r@ == self.packages(),
    {
        &self.0
    }

    /// The package named `name`, if any.
    pub fn get_package(&self, name: &QualifiedName) -> (r: Option<&Package>)
        ensures
            r is None <==> package_index(self.packages(), name@) is None,
            r matches Some(p) ==> *p == self.packages()[package_index(
                self.packages(),
                name@,
            ).unwrap()],
    {
        match self.find_package(name) {
            Some(i) => Some(&self.0[i]),
            None => None,
        }
    }

    /// The package named `name`, to be changed in place; the other packages
    /// stay as they are.
    pub fn get_mut_package(&mut self, name: &QualifiedName) -> (r: Option<&mut Package>)
        ensures
            package_index(old(self).packages(), name@) is None ==> r.is_none() && *final(self) == *old(self),
            package_index(old(self).packages(), name@) matches Some(i) ==> {
                &&& r.is_some()
                &&& *r.unwrap() == old(self).packages()[i]
                &&& final(self).packages().len() == old(self).packages().len()
                &&& *final(r.unwrap()) == final(self).packages()[i]
                &&& forall|j: int|
                    0 <= j < old(self).packages().len() && j != i ==> #[trigger] final(self).packages()[j]
                        == old(self).packages()[j]
            },
    {
        match self.find_package(name) {
            Some(i) => Some(&mut self.0[i]),
            None => None,
        }
    }

    /// The package that declares the type `name`, with the type's entry:
    /// the shortest proper prefix of `name` that names a package holding it.
    pub fn get_origin_package(&self, name: &QualifiedName) -> (r: Option<(&Package, &TypeIndexEntry)>)
        ensures
            r is None <==> origin(self.packages(), name@) is None,
            r matches Some(pe) ==> {
                let (p, e) = origin(self.packages(), name@).unwrap();
                &&& *pe.0 == self.packages()[p]
                &&& *pe.1 == self.packages()[p].entries()[e]
            },
    {
        let mut i: usize = 1;
        while i < name.len()
            invariant
                1 <= i,
                origin_from(self.packages(), name@, i as int) == origin(self.packages(), name@),
            decreases name@.len() - i,
        {
            let pkg = name.get_prefix(i).unwrap();
            match self.find_package(&pkg) {
                Some(p) => {
                    let package = &self.0[p];
                    match package.find(name) {
                        Some(e) => {
                            return Some((package, &package.type_index[e]));
                        },
                        None => {},
                    }
                },
                None => {},
            }
            i = i + 1;
        }
        None
    }

    /// Every in-project name that `fqn` can stand for: one for each proper
    /// prefix of it that names a package holding the type, shortest first.
    pub fn to_fqn(&self, fqn: &QualifiedName) -> (r: Vec<FullyQualifiedName>)
        ensures
            r@.map_values(|f: FullyQualifiedName| f@) == fqn_candidates(
                self.packages(),
                fqn@,
                fqn@.len() as int,
            ),
    {
        let mut v: Vec<FullyQualifiedName> = Vec::new();
        let mut i: usize = 0;
        while i < fqn.len()
            invariant
                i <= fqn@.len(),
                v@.map_values(|f: FullyQualifiedName| f@) == fqn_candidates(
                    self.packages(),
                    fqn@,
                    i as int,
                ),
            decreases fqn@.len() - i,
        {
            let pkgname = fqn.get_prefix(i).unwrap();
            let ghost before = v@;
            match self.find_package(&pkgname) {
                Some(p) => {
                    match self.0[p].find(fqn) {
                        Some(_) => {
                            v.push(
                                FullyQualifiedName {
                                    source: TypeSource::InProjectType { package: pkgname },
                                    typename: fqn.duplicate(),
                                },
                            );
                            assert(v@.map_values(|f: FullyQualifiedName| f@) =~= before.map_values(
                                |f: FullyQualifiedName| f@,
                            ).push(v@.last()@));
                        },
                        None => {},
                    }
                },
                None => {},
            }
            i = i + 1;
        }
        v
    }

    /// The position of the package `pkg` and of its entry `typename`, if
    /// both exist.
    pub open spec fn locate(&self, pkg: Seq<Seq<char>>, typename: Seq<Seq<char>>) -> Option<(int, int)> {
        match package_index(self.packages(), pkg) {
            Some(p) => match entry_index(self.packages()[p].entries(), typename) {
                Some(e) => Some((p, e)),
                None => None,
            },
            None => None,
        }
    }

    /// `self` is `prev` with what is recorded of the entry at `(p, e)`
    /// changed, and nothing else.
    pub open spec fn updated_from(&self, prev: Project, p: int, e: int) -> bool {
        &&& 0 <= p < prev.packages().len()
        &&& self.packages().len() == prev.packages().len()
        &&& forall|q: int| 0 <= q < prev.packages().len() && q != p ==> #[trigger] self.packages()[q] == prev.packages()[q]
        &&& entry_updated(prev.packages()[p], self.packages()[p], e)
    }

    /// Records the resolved form of the type `typename` of package `pkg`.
    /// `MissingType` if there is no such type.
    pub fn set_resolved_node(&mut self, pkg: &QualifiedName, typename: &QualifiedName, node: resolved_types::Type) -> (r: Result<(), NameResolutionErr>)
        requires
            old(self).wf(),
        ensures
            final(self).wf(),
            r is Err <==> old(self).locate(pkg@, typename@) is None,
            r is Err ==> *final(self) == *old(self),
            r is Ok ==> {
                let (p, e) = old(self).locate(pkg@, typename@).unwrap();
                &&& final(self).updated_from(*old(self), p, e)
                &&& final(self).packages()[p].entries()[e].resolved_node == Some(node)
                &&& final(self).packages()[p].entries()[e].export_types == old(self).packages()[p].entries()[e].export_types
            },
    {
        proof {
            lemma_package_index_from(self.0@, pkg@, 0);
        }
        match self.find_package(pkg) {
            None => Err(NameResolutionErr::MissingType),
            Some(p) => {
                proof {
                    lemma_entry_index_from(self.0@[p as int].entries(), typename@, 0);
                }
                if self.0[p].find(typename).is_none() {
                    return Err(NameResolutionErr::MissingType);
                }
                let ghost before = self.packages();
                let mut package = self.0.remove(p);
                let res = package.set_resolved_node(typename, node);
                proof {
                    lemma_update_keeps_wf(before[p as int], package, entry_index(before[p as int].entries(), typename@).unwrap());
                }
                self.0.insert(p, package);
                assert forall|a: int, b: int|
                    0 <= a < b < self.packages().len() implies (#[trigger] self.packages()[a]).package@
                    != (#[trigger] self.packages()[b]).package@ by {
                    assert(before[a].package@ != before[b].package@);
                }
                res
            },
        }
    }

    /// Records what the type `typename` of package `pkg` hands down.
    /// `MissingType` if there is no such type.
    pub fn set_export_types(&mut self, pkg: &QualifiedName, typename: &QualifiedName, exports: ExportedInnerTypes) -> (r: Result<(), NameResolutionErr>)
        requires
            old(self).wf(),
        ensures
            final(self).wf(),
            r is Err <==> old(self).locate(pkg@, typename@) is None,
            r is Err ==> *final(self) == *old(self),
            r is Ok ==> {
                let (p, e) = old(self).locate(pkg@, typename@).unwrap();
                &&& final(self).updated_from(*old(self), p, e)
                &&& final(self).packages()[p].entries()[e].resolved_node == old(self).packages()[p].entries()[e].resolved_node
                &&& final(self).packages()[p].entries()[e].export_types == Some(exports)
            },
    {
        proof {
            lemma_package_index_from(self.0@, pkg@, 0);
        }
        match self.find_package(pkg) {
            None => Err(NameResolutionErr::MissingType),
            Some(p) => {
                proof {
                    lemma_entry_index_from(self.0@[p as int].entries(), typename@, 0);
                }
                if self.0[p].find(typename).is_none() {
                    return Err(NameResolutionErr::MissingType);
                }
                let ghost before = self.packages();
                let mut package = self.0.remove(p);
                let res = package.set_export_types(typename, exports);
                proof {
                    lemma_update_keeps_wf(before[p as int], package, entry_index(before[p as int].entries(), typename@).unwrap());
                }
                self.0.insert(p, package);
                assert forall|a: int, b: int|
                    0 <= a < b < self.packages().len() implies (#[trigger] self.packages()[a]).package@
                    != (#[trigger] self.packages()[b]).package@ by {
                    assert(before[a].package@ != before[b].package@);
                }
                res
            },
        }
    }

    /// Takes the resolved form of the type `typename` of package `pkg` out
    /// of its entry. `MissingType` if there is no such type.
    pub fn take_resolved_node(&mut self, pkg: &QualifiedName, typename: &QualifiedName) -> (r: Result<Option<resolved_types::Type>, NameResolutionErr>)
        requires
            old(self).wf(),
        ensures
            final(self).wf(),
            r is Err <==> old(self).locate(pkg@, typename@) is None,
            r is Err ==> *final(self) == *old(self),
            r matches Ok(n) ==> {
                let (p, e) = old(self).locate(pkg@, typename@).unwrap();
                &&& final(self).updated_from(*old(self), p, e)
                &&& n == old(self).packages()[p].entries()[e].resolved_node
                &&& final(self).packages()[p].entries()[e].resolved_node is None
                &&& final(self).packages()[p].entries()[e].export_types == old(self).packages()[p].entries()[e].export_types
            },
    {
        proof {
            lemma_package_index_from(self.0@, pkg@, 0);
        }
        match self.find_package(pkg) {
            None => Err(NameResolutionErr::MissingType),
            Some(p) => {
                proof {
                    lemma_entry_index_from(self.0@[p as int].entries(), typename@, 0);
                }
                if self.0[p].find(typename).is_none() {
                    return Err(NameResolutionErr::MissingType);
                }
                let ghost before = self.packages();
                let mut package = self.0.remove(p);
                let res = package.take_resolved_node(typename);
                proof {
                    lemma_update_keeps_wf(before[p as int], package, entry_index(before[p as int].entries(), typename@).unwrap());
                }
                self.0.insert(p, package);
                assert forall|a: int, b: int|
                    0 <= a < b < self.packages().len() implies (#[trigger] self.packages()[a]).package@
                    != (#[trigger] self.packages()[b]).package@ by {
                    assert(before[a].package@ != before[b].package@);
                }
                res
            },
        }
    }
}

/// Adding a package at the end keeps the position of every name already
/// there.
pub proof fn lemma_package_index_prefix(ps: Seq<Package>, qs: Seq<Package>, name: Seq<Seq<char>>)
    requires
        ps.len() <= qs.len(),
        forall|k: int| 0 <= k < ps.len() ==> #[trigger] qs[k] == ps[k],
        package_index(ps, name) is Some,
    ensures
        package_index(qs, name) == package_index(ps, name),
{
    lemma_package_index_from(ps, name, 0);
    lemma_package_index_from(qs, name, 0);
    let i = package_index(ps, name).unwrap();
    assert(qs[i] == ps[i]);
    if package_index(qs, name) != Some(i) {
        match package_index(qs, name) {
            Some(j) => {
                if j < i {
                    assert(qs[j] == ps[j]);
                }
            },
            None => {},
        }
    }
}

/// Two lists of packages with the same names, position by position, find
/// a name at the same place.
pub proof fn lemma_package_index_same_names(ps: Seq<Package>, qs: Seq<Package>, name: Seq<Seq<char>>)
    requires
        ps.len() == qs.len(),
        forall|k: int| 0 <= k < ps.len() ==> (#[trigger] qs[k]).package@ == ps[k].package@,
    ensures
        package_index(qs, name) == package_index(ps, name),
{
    lemma_package_index_from(ps, name, 0);
    lemma_package_index_from(qs, name, 0);
    match package_index(ps, name) {
        Some(i) => {
            match package_index(qs, name) {
                Some(j) => {
                    assert(qs[i].package@ == ps[i].package@);
                    assert(qs[j].package@ == ps[j].package@);
                },
                None => {
                    assert(qs[i].package@ == ps[i].package@);
                },
            }
        },
        None => {
            match package_index(qs, name) {
                Some(j) => {
                    assert(qs[j].package@ == ps[j].package@);
                },
                None => {},
            }
        },
    }
}

/// With distinct names, a package is found at its own position.
pub proof fn lemma_package_index_found(ps: Seq<Package>, name: Seq<Seq<char>>, i: int)
    requires
        0 <= i < ps.len(),
        ps[i].package@ == name,
    ensures
        package_index(ps, name) is Some,
{
    lemma_package_index_from(ps, name, 0);
}

/// Changing what is recorded of one type keeps a package's names distinct.
pub proof fn lemma_update_keeps_wf(before: Package, after: Package, i: int)
    requires
        before.wf(),
        entry_updated(before, after, i),
    ensures
        after.wf(),
{
    assert forall|a: int, b: int|
        0 <= a < b < after.entries().len() implies entry_key(#[trigger] after.entries()[a]) != entry_key(
        #[trigger] after.entries()[b]) by {
        assert(entry_key(before.entries()[a]) != entry_key(before.entries()[b]));
    }
}

/// Two lists of entries with the same names, position by position, find a
/// name at the same place.
pub proof fn lemma_entry_index_same_keys(es: Seq<TypeIndexEntry>, fs: Seq<TypeIndexEntry>, name: Seq<Seq<char>>)
    requires
        es.len() == fs.len(),
        forall|k: int| 0 <= k < es.len() ==> entry_key(#[trigger] fs[k]) == entry_key(es[k]),
    ensures
        entry_index(fs, name) == entry_index(es, name),
{
    lemma_entry_index_from(es, name, 0);
    lemma_entry_index_from(fs, name, 0);
    match entry_index(es, name) {
        Some(i) => {
            assert(entry_key(fs[i]) == entry_key(es[i]));
            match entry_index(fs, name) {
                Some(j) => {
                    assert(entry_key(fs[j]) == entry_key(es[j]));
                },
                None => {},
            }
        },
        None => {
            match entry_index(fs, name) {
                Some(j) => {
                    assert(entry_key(fs[j]) == entry_key(es[j]));
                },
                None => {},
            }
        },
    }
}

/// Changing what is recorded of one type moves no package and no type.
pub proof fn lemma_locate_after_update(prev: Project, next: Project, p: int, e: int, pkg: Seq<Seq<char>>, name: Seq<Seq<char>>)
    requires
        next.updated_from(prev, p, e),
    ensures
        next.locate(pkg, name) == prev.locate(pkg, name),
        package_index(next.packages(), pkg) == package_index(prev.packages(), pkg),
{
    let ps = prev.packages();
    let qs = next.packages();
    assert forall|k: int| 0 <= k < ps.len() implies (#[trigger] qs[k]).package@ == ps[k].package@ by {
        if k != p {
            assert(qs[k] == ps[k]);
        }
    }
    lemma_package_index_same_names(ps, qs, pkg);
    match package_index(ps, pkg) {
        Some(i) => {
            lemma_package_index_from(ps, pkg, 0);
            if i == p {
                assert forall|k: int| 0 <= k < ps[p].entries().len() implies entry_key(#[trigger] qs[p].entries()[k])
                    == entry_key(ps[p].entries()[k]) by {
                    if k != e {
                        assert(qs[p].entries()[k] == ps[p].entries()[k]);
                    }
                }
                lemma_entry_index_same_keys(ps[p].entries(), qs[p].entries(), name);
            } else {
                assert(qs[i] == ps[i]);
            }
        },
        None => {},
    }
}

} // verus!
