use vstd::prelude::*;

use std::rc::Rc;

use crate::name_resolution::export_types::{ExportedInnerTypes, ExportedTypeEntry, ExportedTypeEntryName, ExportNameView};
use crate::name_resolution::resolve::TypeQueueEntry;
use crate::name_resolution::resolve_types::{
    entry_key, lemma_package_index_from, origin, origin_from, package_index, Package, Project, TypeIndexEntry,
};
use crate::resolved_types;
use crate::resolved_types::{primitive_name, FqnView, FullyQualifiedName, PrimitiveType, SourceView, TypeSource};
use crate::types::{self, is_prefix, is_proper_prefix, string_is, strings_contain, AccessModifier, QualifiedName};

verus! {

/// A binding of a name to what it stands for.
pub type Binding = (Seq<Seq<char>>, FqnView);

/// The binding of `k` made last among `bs`, if any.
pub open spec fn last_binding(bs: Seq<Binding>, k: Seq<Seq<char>>) -> Option<FqnView>
    decreases bs.len(),
{
    if bs.len() == 0 {
        None
    } else if bs.last().0 == k {
        Some(bs.last().1)
    } else {
        last_binding(bs.drop_last(), k)
    }
}

/// The position of the binding of `k` made last among `bs`, if any.
pub open spec fn last_index(bs: Seq<Binding>, k: Seq<Seq<char>>) -> Option<int>
    decreases bs.len(),
{
    if bs.len() == 0 {
        None
    } else if bs.last().0 == k {
        Some(bs.len() - 1)
    } else {
        last_index(bs.drop_last(), k)
    }
}

/// The bindings that popping `k` leaves: its last binding is undone.
pub open spec fn pop_binding(bs: Seq<Binding>, k: Seq<Seq<char>>) -> Seq<Binding> {
    match last_index(bs, k) {
        Some(i) => bs.remove(i),
        None => bs,
    }
}

/// The bindings left after popping each of `ks` in turn.
pub open spec fn pop_all(bs: Seq<Binding>, ks: Seq<Seq<Seq<char>>>) -> Seq<Binding>
    decreases ks.len(),
{
    if ks.len() == 0 {
        bs
    } else {
        pop_binding(pop_all(bs, ks.drop_last()), ks.last())
    }
}

/// The binding made last of a name in `a + b` is the one made last in `b`
/// if `b` binds it, else the one made last in `a`.
pub proof fn lemma_last_binding_concat(a: Seq<Binding>, b: Seq<Binding>, k: Seq<Seq<char>>)
    ensures
        last_binding(a + b, k) == (match last_binding(b, k) {
            Some(v) => Some(v),
            None => last_binding(a, k),
        }),
    decreases b.len(),
{
    if b.len() == 0 {
        assert(a + b =~= a);
    } else {
        assert((a + b).drop_last() =~= a + b.drop_last());
        assert((a + b).last() == b.last());
        lemma_last_binding_concat(a, b.drop_last(), k);
    }
}

/// The last index of a name holds its last binding.
pub proof fn lemma_last_index(bs: Seq<Binding>, k: Seq<Seq<char>>)
    ensures
        last_index(bs, k) matches Some(i) ==> 0 <= i < bs.len() && bs[i].0 == k && last_binding(bs, k)
            == Some(bs[i].1) && forall|j: int| i < j < bs.len() ==> (#[trigger] bs[j]).0 != k,
        last_index(bs, k) is None <==> last_binding(bs, k) is None,
        last_index(bs, k) is None ==> forall|j: int| 0 <= j < bs.len() ==> (#[trigger] bs[j]).0 != k,
    decreases bs.len(),
{
    if bs.len() > 0 && bs.last().0 != k {
        lemma_last_index(bs.drop_last(), k);
        assert forall|j: int| 0 <= j < bs.len() - 1 implies bs[j] == bs.drop_last()[j] by {}
    }
}

/// Popping a name right after binding it undoes the binding.
pub proof fn law_scope_push_then_pop(bs: Seq<Binding>, b: Binding)
    ensures
        last_binding(bs.push(b), b.0) == Some(b.1),
        pop_binding(bs.push(b), b.0) == bs,
{
    assert(bs.push(b).drop_last() =~= bs);
    assert(bs.push(b).remove(bs.len() as int) =~= bs);
}

// ------------------------ Scope construction at file entry ---------------------

/// The bindings a selector makes over a list of type entries, in order.
pub open spec fn select_bindings(es: Seq<TypeIndexEntry>, sel: spec_fn(TypeIndexEntry) -> Option<Binding>) -> Seq<Binding>
    decreases es.len(),
{
    if es.len() == 0 {
        Seq::empty()
    } else {
        select_bindings(es.drop_last(), sel) + match sel(es.last()) {
            Some(b) => seq![b],
            None => Seq::empty(),
        }
    }
}

/// Whether a type carries the `static` modifier.
pub open spec fn is_static_entry(e: TypeIndexEntry) -> bool {
    exists|i: int| 0 <= i < e.modifiers@.len() && (#[trigger] e.modifiers@[i])@ == "static"@
}

/// The name of `key` relative to its first `n` components.
pub open spec fn relative(key: Seq<Seq<char>>, n: int) -> Seq<Seq<char>> {
    key.subrange(n, key.len() as int)
}

/// The ways a set of types of one package is brought into scope.
#[derive(Clone, Copy)]
pub enum Tier {
    /// `import static P.T.*;`: the public static types nested in `T`,
    /// named relative to `T`.
    StaticMembers,
    /// `import P.*;`: the public types of `P`, named relative to `P`.
    PackageMembers,
    /// The types of the file's own package that are not private, named
    /// relative to the package.
    SamePackage,
    /// `import P.T;`: `T` and the public types nested in it, named from `T`
    /// on.
    SingleImport,
    /// The types declared in the file itself, named relative to the
    /// package.
    SameFile,
}

/// The binding, if any, that a tier makes for one type entry; `base` is the
/// imported name or the file's package, `pkg` the package of the entries,
/// `file` the file being resolved.
pub open spec fn tier_binding_spec(t: Tier, base: Seq<Seq<char>>, pkg: Seq<Seq<char>>, file: Seq<char>, e: TypeIndexEntry) -> Option<Binding> {
    let key = entry_key(e);
    let in_project = FqnView { source: SourceView::InProject(pkg), typename: key };
    match t {
        Tier::StaticMembers => if is_proper_prefix(base, key) && e.visibility
            == AccessModifier::Public && is_static_entry(e) {
            Some((relative(key, base.len() as int), e.name@))
        } else {
            None
        },
        Tier::PackageMembers => if e.visibility == AccessModifier::Public && is_proper_prefix(
            base,
            key,
        ) {
            Some((relative(key, base.len() as int), in_project))
        } else {
            None
        },
        Tier::SamePackage => if e.visibility != AccessModifier::Private && is_proper_prefix(
            base,
            key,
        ) {
            Some((relative(key, base.len() as int), in_project))
        } else {
            None
        },
        Tier::SingleImport => if is_prefix(base, key) && base.len() >= 1 && e.visibility
            == AccessModifier::Public {
            Some((relative(key, base.len() - 1), in_project))
        } else {
            None
        },
        Tier::SameFile => if e.from_file@ == file && is_proper_prefix(base, key) {
            Some((relative(key, base.len() as int), in_project))
        } else {
            None
        },
    }
}

/// The bindings a tier makes over a list of type entries.
pub open spec fn tier_bindings(t: Tier, base: Seq<Seq<char>>, pkg: Seq<Seq<char>>, file: Seq<char>, es: Seq<TypeIndexEntry>) -> Seq<Binding> {
    select_bindings(es, |e: TypeIndexEntry| tier_binding_spec(t, base, pkg, file, e))
}

/// The bindings one wildcard import makes.
pub open spec fn import_wildcard_bindings(io: types::ImportObject, ast_pkg: Seq<Seq<char>>, ps: Seq<Package>) -> Seq<Binding> {
    if io.name@ == ast_pkg {
        Seq::empty()
    } else if io.is_static && io.is_wildcard {
        match origin(ps, io.name@) {
            Some((p, _)) => tier_bindings(Tier::StaticMembers, io.name@, ps[p].package@, Seq::empty(), ps[p].entries()),
            None => Seq::empty(),
        }
    } else if !io.is_static && io.is_wildcard {
        match package_index(ps, io.name@) {
            Some(p) => tier_bindings(Tier::PackageMembers, io.name@, ps[p].package@, Seq::empty(), ps[p].entries()),
            None => Seq::empty(),
        }
    } else {
        Seq::empty()
    }
}

/// The bindings the wildcard imports of a file make, in order.
pub open spec fn wildcard_bindings(ios: Seq<types::ImportObject>, ast_pkg: Seq<Seq<char>>, ps: Seq<Package>) -> Seq<Binding>
    decreases ios.len(),
{
    if ios.len() == 0 {
        Seq::empty()
    } else {
        wildcard_bindings(ios.drop_last(), ast_pkg, ps) + import_wildcard_bindings(ios.last(), ast_pkg, ps)
    }
}

/// The bindings one single-type import makes.
pub open spec fn import_single_bindings(io: types::ImportObject, ps: Seq<Package>) -> Seq<Binding> {
    if io.is_wildcard {
        Seq::empty()
    } else {
        match origin(ps, io.name@) {
            Some((p, _)) => tier_bindings(Tier::SingleImport, io.name@, ps[p].package@, Seq::empty(), ps[p].entries()),
            None => Seq::empty(),
        }
    }
}

/// The bindings the single-type imports of a file make, in order.
pub open spec fn single_import_bindings(ios: Seq<types::ImportObject>, ps: Seq<Package>) -> Seq<Binding>
    decreases ios.len(),
{
    if ios.len() == 0 {
        Seq::empty()
    } else {
        single_import_bindings(ios.drop_last(), ps) + import_single_bindings(ios.last(), ps)
    }
}

/// The bindings of the types of a file's own package.
pub open spec fn same_package_bindings(ast: types::JavaFile, ps: Seq<Package>) -> Seq<Binding> {
    match package_index(ps, ast.package_name@) {
        Some(p) => tier_bindings(Tier::SamePackage, ast.package_name@, ast.package_name@, Seq::empty(), ps[p].entries()),
        None => Seq::empty(),
    }
}

/// The bindings of the types declared in the file itself.
pub open spec fn same_file_bindings(ast: types::JavaFile, ps: Seq<Package>) -> Seq<Binding> {
    match package_index(ps, ast.package_name@) {
        Some(p) => tier_bindings(Tier::SameFile, ast.package_name@, ast.package_name@, ast.file@, ps[p].entries()),
        None => Seq::empty(),
    }
}

/// The bindings a file starts with: wildcard imports, then the file's own
/// package, then single-type imports, then the file's own types, each over
/// the ones before.
pub open spec fn baseline_bindings(ast: types::JavaFile, ps: Seq<Package>) -> Seq<Binding> {
    wildcard_bindings(ast.imported_objects@, ast.package_name@, ps) + same_package_bindings(ast, ps)
        + single_import_bindings(ast.imported_objects@, ps) + same_file_bindings(ast, ps)
}

/// Name lookup in the scope a file starts with follows Java's order: a
/// type declared in the file itself wins, then a single-type import, then
/// a type of the same package, then a wildcard import.
pub proof fn law_scope_precedence(ast: types::JavaFile, ps: Seq<Package>, k: Seq<Seq<char>>)
    ensures
        last_binding(baseline_bindings(ast, ps), k) == (match last_binding(same_file_bindings(ast, ps), k) {
            Some(v) => Some(v),
            None => match last_binding(single_import_bindings(ast.imported_objects@, ps), k) {
                Some(v) => Some(v),
                None => match last_binding(same_package_bindings(ast, ps), k) {
                    Some(v) => Some(v),
                    None => last_binding(wildcard_bindings(ast.imported_objects@, ast.package_name@, ps), k),
                },
            },
        }),
{
    let w = wildcard_bindings(ast.imported_objects@, ast.package_name@, ps);
    let p = same_package_bindings(ast, ps);
    let s = single_import_bindings(ast.imported_objects@, ps);
    let f = same_file_bindings(ast, ps);
    lemma_last_binding_concat(w + p + s, f, k);
    lemma_last_binding_concat(w + p, s, k);
    lemma_last_binding_concat(w, p, k);
}

/// Whether binding `b` names a public type of one of the packages `ps`.
pub open spec fn binds_public_type(b: Binding, ps: Seq<Package>) -> bool {
    exists|p: int, e: int|
        0 <= p < ps.len() && 0 <= e < ps[p].entries().len() && (#[trigger] ps[p].entries()[e]).visibility
            == AccessModifier::Public && (b.1 == ps[p].entries()[e].name@ || b.1 == (FqnView {
            source: SourceView::InProject(ps[p].package@),
            typename: entry_key(ps[p].entries()[e]),
        }))
}

/// A binding a selector makes comes from one of the entries.
proof fn lemma_select_bindings_source(
    es: Seq<TypeIndexEntry>,
    sel: spec_fn(TypeIndexEntry) -> Option<Binding>,
    i: int,
) -> (j: int)
    requires
        0 <= i < select_bindings(es, sel).len(),
    ensures
        0 <= j < es.len(),
        sel(es[j]) == Some(select_bindings(es, sel)[i]),
    decreases es.len(),
{
    let prev = select_bindings(es.drop_last(), sel);
    if i < prev.len() {
        let j = lemma_select_bindings_source(es.drop_last(), sel, i);
        assert(es.drop_last()[j] == es[j]);
        j
    } else {
        es.len() - 1
    }
}

/// A binding made by a tier that reads other packages' types names a
/// public entry.
proof fn lemma_tier_binds_public(
    t: Tier,
    base: Seq<Seq<char>>,
    pkg: Seq<Seq<char>>,
    file: Seq<char>,
    es: Seq<TypeIndexEntry>,
    i: int,
) -> (j: int)
    requires
        t is StaticMembers || t is PackageMembers || t is SingleImport,
        0 <= i < tier_bindings(t, base, pkg, file, es).len(),
    ensures
        0 <= j < es.len(),
        es[j].visibility == AccessModifier::Public,
        tier_bindings(t, base, pkg, file, es)[i].1 == es[j].name@ || tier_bindings(t, base, pkg, file, es)[i].1
            == (FqnView { source: SourceView::InProject(pkg), typename: entry_key(es[j]) }),
{
    lemma_select_bindings_source(es, |e: TypeIndexEntry| tier_binding_spec(t, base, pkg, file, e), i)
}

/// Whether binding `b` names, relative to package `pkg`, a type of that
/// package that is not private.
pub open spec fn binds_non_private_type_of(b: Binding, pkg: Seq<Seq<char>>, ps: Seq<Package>) -> bool {
    exists|p: int, e: int|
        0 <= p < ps.len() && 0 <= e < ps[p].entries().len() && ps[p].package@ == pkg && (#[trigger] ps[p].entries()[
        e]).visibility != AccessModifier::Private && b == (
            relative(entry_key(ps[p].entries()[e]), pkg.len() as int),
            FqnView { source: SourceView::InProject(pkg), typename: entry_key(ps[p].entries()[e]) },
        )
}

/// Types of the file's own package come into scope unless they are
/// private: every binding of the same-package tier names a type of the
/// file's package that is not private.
pub proof fn law_same_package_binds_non_private(ast: types::JavaFile, ps: Seq<Package>)
    ensures
        forall|i: int|
            0 <= i < same_package_bindings(ast, ps).len() ==> binds_non_private_type_of(
                #[trigger] same_package_bindings(ast, ps)[i],
                ast.package_name@,
                ps,
            ),
{
    lemma_package_index_from(ps, ast.package_name@, 0);
    assert forall|i: int| 0 <= i < same_package_bindings(ast, ps).len() implies binds_non_private_type_of(
        #[trigger] same_package_bindings(ast, ps)[i],
        ast.package_name@,
        ps,
    ) by {
        let p = package_index(ps, ast.package_name@).unwrap();
        let es = ps[p].entries();
        let j = lemma_select_bindings_source(
            es,
            |e: TypeIndexEntry|
                tier_binding_spec(Tier::SamePackage, ast.package_name@, ast.package_name@, Seq::empty(), e),
            i,
        );
        assert(ps[p].entries()[j].visibility != AccessModifier::Private);
    }
}

/// A package found by `origin` is one of `ps`.
proof fn lemma_origin_from_in_range(ps: Seq<Package>, name: Seq<Seq<char>>, i: int)
    ensures
        origin_from(ps, name, i) matches Some((p, e)) ==> 0 <= p < ps.len(),
    decreases name.len() - i,
{
    if 0 <= i < name.len() {
        lemma_package_index_from(ps, name.subrange(0, i), 0);
        lemma_origin_from_in_range(ps, name, i + 1);
    }
}

/// A wildcard import only brings public types into scope: every binding
/// that the wildcard imports of a file make names a public type of the
/// project.
pub proof fn law_wildcard_imports_bind_public(ios: Seq<types::ImportObject>, ast_pkg: Seq<Seq<char>>, ps: Seq<Package>)
    ensures
        forall|i: int|
            0 <= i < wildcard_bindings(ios, ast_pkg, ps).len() ==> binds_public_type(
                #[trigger] wildcard_bindings(ios, ast_pkg, ps)[i],
                ps,
            ),
    decreases ios.len(),
{
    if ios.len() > 0 {
        law_wildcard_imports_bind_public(ios.drop_last(), ast_pkg, ps);
        let prev = wildcard_bindings(ios.drop_last(), ast_pkg, ps);
        let io = ios.last();
        let all = wildcard_bindings(ios, ast_pkg, ps);
        assert forall|i: int| 0 <= i < all.len() implies binds_public_type(#[trigger] all[i], ps) by {
            if i < prev.len() {
                assert(all[i] == prev[i]);
            } else {
                let k = i - prev.len();
                assert(all[i] == import_wildcard_bindings(io, ast_pkg, ps)[k]);
                if io.name@ != ast_pkg && io.is_static && io.is_wildcard {
                    lemma_origin_from_in_range(ps, io.name@, 1);
                    let (p, _) = origin(ps, io.name@).unwrap();
                    let j = lemma_tier_binds_public(
                        Tier::StaticMembers,
                        io.name@,
                        ps[p].package@,
                        Seq::empty(),
                        ps[p].entries(),
                        k,
                    );
                    assert(ps[p].entries()[j].visibility == AccessModifier::Public);
                } else if io.name@ != ast_pkg && !io.is_static && io.is_wildcard {
                    lemma_package_index_from(ps, io.name@, 0);
                    let p = package_index(ps, io.name@).unwrap();
                    let j = lemma_tier_binds_public(
                        Tier::PackageMembers,
                        io.name@,
                        ps[p].package@,
                        Seq::empty(),
                        ps[p].entries(),
                        k,
                    );
                    assert(ps[p].entries()[j].visibility == AccessModifier::Public);
                }
            }
        }
    }
}

/// A single-type import only brings public types into scope: every
/// binding that the single-type imports of a file make names a public
/// type of the project.
pub proof fn law_single_imports_bind_public(ios: Seq<types::ImportObject>, ps: Seq<Package>)
    ensures
        forall|i: int|
            0 <= i < single_import_bindings(ios, ps).len() ==> binds_public_type(
                #[trigger] single_import_bindings(ios, ps)[i],
                ps,
            ),
    decreases ios.len(),
{
    if ios.len() > 0 {
        law_single_imports_bind_public(ios.drop_last(), ps);
        let prev = single_import_bindings(ios.drop_last(), ps);
        let io = ios.last();
        let all = single_import_bindings(ios, ps);
        assert forall|i: int| 0 <= i < all.len() implies binds_public_type(#[trigger] all[i], ps) by {
            if i < prev.len() {
                assert(all[i] == prev[i]);
            } else {
                let k = i - prev.len();
                assert(all[i] == import_single_bindings(io, ps)[k]);
                if !io.is_wildcard {
                    lemma_origin_from_in_range(ps, io.name@, 1);
                    let (p, _) = origin(ps, io.name@).unwrap();
                    let j = lemma_tier_binds_public(
                        Tier::SingleImport,
                        io.name@,
                        ps[p].package@,
                        Seq::empty(),
                        ps[p].entries(),
                        k,
                    );
                    assert(ps[p].entries()[j].visibility == AccessModifier::Public);
                }
            }
        }
    }
}

/// One step of [`tier_bindings`] over a growing prefix.
pub proof fn lemma_tier_step(t: Tier, base: Seq<Seq<char>>, pkg: Seq<Seq<char>>, file: Seq<char>, es: Seq<TypeIndexEntry>, j: int)
    requires
        0 <= j < es.len(),
    ensures
        tier_bindings(t, base, pkg, file, es.subrange(0, j + 1)) == tier_bindings(t, base, pkg, file, es.subrange(0, j)) + match tier_binding_spec(t, base, pkg, file, es[j]) {
            Some(b) => seq![b],
            None => Seq::<Binding>::empty(),
        },
{
    assert(es.subrange(0, j + 1).drop_last() =~= es.subrange(0, j));
}

// ------------------------- Resolving members and types ------------------------

/// The primitive type a single-word name spells, if any.
pub open spec fn primitive_of(w: Seq<char>) -> Option<PrimitiveType> {
    if w == "byte"@ {
        Some(PrimitiveType::Byte)
    } else if w == "short"@ {
        Some(PrimitiveType::Short)
    } else if w == "int"@ {
        Some(PrimitiveType::Int)
    } else if w == "long"@ {
        Some(PrimitiveType::Long)
    } else if w == "float"@ {
        Some(PrimitiveType::Float)
    } else if w == "double"@ {
        Some(PrimitiveType::Double)
    } else if w == "boolean"@ {
        Some(PrimitiveType::Boolean)
    } else if w == "char"@ {
        Some(PrimitiveType::Char)
    } else {
        None
    }
}

/// What `name` stands for: its binding in scope if it has one; else the
/// project type it names in full; else a primitive type; else a type from
/// outside the project.
pub open spec fn resolve_name(bs: Seq<Binding>, ps: Seq<Package>, name: Seq<Seq<char>>) -> FqnView {
    match last_binding(bs, name) {
        Some(v) => v,
        None => match origin(ps, name) {
            Some((p, e)) => ps[p].entries()[e].name@,
            None => if name.len() == 1 && primitive_of(name[0]) is Some {
                FqnView { source: SourceView::Primitive(primitive_of(name[0]).unwrap()), typename: name }
            } else {
                FqnView { source: SourceView::External, typename: name }
            },
        },
    }
}

/// Java's eight primitive type keywords.
pub open spec fn is_primitive_keyword(w: Seq<char>) -> bool {
    ||| w == "byte"@
    ||| w == "short"@
    ||| w == "int"@
    ||| w == "long"@
    ||| w == "float"@
    ||| w == "double"@
    ||| w == "boolean"@
    ||| w == "char"@
}

/// A single word with no binding in scope and no project type of that name
/// resolves to a primitive type exactly when it is one of Java's eight
/// primitive keywords, and then to the primitive whose spelled-out name is
/// that word; any other such word stands for a type from outside the
/// project.
pub proof fn law_primitive_keywords_resolve(bs: Seq<Binding>, ps: Seq<Package>, w: Seq<char>)
    requires
        last_binding(bs, seq![w]) is None,
        origin(ps, seq![w]) is None,
    ensures
        is_primitive_keyword(w) ==> (resolve_name(bs, ps, seq![w]) matches FqnView {
            source: SourceView::Primitive(p),
            typename,
        } && primitive_name(p) == w && typename == seq![w]),
        !is_primitive_keyword(w) ==> resolve_name(bs, ps, seq![w]) == (FqnView {
            source: SourceView::External,
            typename: seq![w],
        }),
{
    reveal_strlit("byte");
    reveal_strlit("short");
    reveal_strlit("int");
    reveal_strlit("long");
    reveal_strlit("float");
    reveal_strlit("double");
    reveal_strlit("boolean");
    reveal_strlit("char");
    assert(seq![w][0] == w);
}

/// `r` is the type usage `t` with every name resolved in scope `bs`.
pub open spec fn resolves_ref(bs: Seq<Binding>, ps: Seq<Package>, t: types::RefType, r: resolved_types::RefType) -> bool
    decreases t,
{
    &&& r.name@ == resolve_name(bs, ps, t.name@)
    &&& r.arr_dim == t.arr_dim
    &&& r.type_arg_list.0@.len() == t.type_arg_list.0@.len()
    &&& forall|i: int|
        0 <= i < t.type_arg_list.0@.len() ==> resolves_arg(
            bs,
            ps,
            #[trigger] t.type_arg_list.0[i],
            r.type_arg_list.0[i],
        )
}

/// `b` is the type argument `a` with every name resolved in scope `bs`.
pub open spec fn resolves_arg(bs: Seq<Binding>, ps: Seq<Package>, a: types::TypeArg, b: resolved_types::TypeArg) -> bool
    decreases a,
{
    match (a, b) {
        (types::TypeArg::Is(x), resolved_types::TypeArg::Is(y)) => resolves_ref(bs, ps, x, y),
        (types::TypeArg::Extends(x), resolved_types::TypeArg::Extends(y)) => resolves_ref(bs, ps, x, y),
        (types::TypeArg::Super(x), resolved_types::TypeArg::Super(y)) => resolves_ref(bs, ps, x, y),
        (types::TypeArg::Wildcard, resolved_types::TypeArg::Wildcard) => true,
        _ => false,
    }
}

/// Each of `rs` is the matching one of `ts` resolved in scope `bs`.
pub open spec fn resolves_refs(bs: Seq<Binding>, ps: Seq<Package>, ts: Seq<types::RefType>, rs: Seq<resolved_types::RefType>) -> bool {
    &&& rs.len() == ts.len()
    &&& forall|i: int| 0 <= i < ts.len() ==> resolves_ref(bs, ps, #[trigger] ts[i], rs[i])
}

/// The bindings that bring type parameters into scope, as generics.
pub open spec fn generic_bindings(tps: Seq<types::TypeParam>) -> Seq<Binding> {
    tps.map_values(
        |tp: types::TypeParam|
            (seq![tp.name@], FqnView { source: SourceView::Generic, typename: seq![tp.name@] }),
    )
}

/// The names of a list of bindings, in order.
pub open spec fn binding_names(bs: Seq<Binding>) -> Seq<Seq<Seq<char>>> {
    bs.map_values(|b: Binding| b.0)
}

/// Undoing, in order, the bindings `pushed` made over `bs` (no name twice
/// among them, and none of them bound again in `rest`) leaves `bs` and `rest`.
pub proof fn law_pop_undoes_pushed(bs: Seq<Binding>, pushed: Seq<Binding>, rest: Seq<Binding>)
    requires
        forall|i: int, j: int| 0 <= i < j < pushed.len() ==> (#[trigger] pushed[i]).0 != (#[trigger] pushed[j]).0,
        forall|i: int, j: int| 0 <= i < pushed.len() && 0 <= j < rest.len() ==> (#[trigger] pushed[i]).0 != (#[trigger] rest[j]).0,
    ensures
        pop_all(bs + pushed + rest, binding_names(pushed)) == bs + rest,
    decreases pushed.len(),
{
    if pushed.len() == 0 {
        assert(binding_names(pushed) =~= Seq::<Seq<Seq<char>>>::empty());
        assert(bs + pushed + rest =~= bs + rest);
    } else {
        let x = pushed.last();
        let front = pushed.drop_last();
        let rest2 = seq![x] + rest;
        assert forall|i: int, j: int| 0 <= i < j < front.len() implies (#[trigger] front[i]).0 != (#[trigger] front[j]).0 by {
            assert(front[i] == pushed[i]);
            assert(front[j] == pushed[j]);
        }
        assert forall|i: int, j: int| 0 <= i < front.len() && 0 <= j < rest2.len() implies (#[trigger] front[i]).0 != (#[trigger] rest2[j]).0 by {
            assert(front[i] == pushed[i]);
            if j == 0 {
                assert(rest2[j] == pushed[pushed.len() - 1]);
            } else {
                assert(rest2[j] == rest[j - 1]);
            }
        }
        law_pop_undoes_pushed(bs, front, rest2);
        assert(bs + pushed + rest =~= bs + front + rest2);
        assert(binding_names(pushed).drop_last() =~= binding_names(front));
        assert(binding_names(pushed).last() == x.0);
        let mid = bs + rest2;
        lemma_last_index(mid, x.0);
        assert(mid[bs.len() as int] == x);
        assert forall|j: int| bs.len() < j < mid.len() implies (#[trigger] mid[j]).0 != x.0 by {
            assert(mid[j] == rest[j - bs.len() - 1]);
            assert(pushed[pushed.len() - 1] == x);
        }
        assert(last_index(mid, x.0) == Some(bs.len() as int)) by {
            lemma_last_index_is(mid, x.0, bs.len() as int);
        }
        assert(mid.remove(bs.len() as int) =~= bs + rest);
    }
}

/// A position holding a name, with no later position holding it, is the
/// name's last index.
pub proof fn lemma_last_index_is(bs: Seq<Binding>, k: Seq<Seq<char>>, i: int)
    requires
        0 <= i < bs.len(),
        bs[i].0 == k,
        forall|j: int| i < j < bs.len() ==> (#[trigger] bs[j]).0 != k,
    ensures
        last_index(bs, k) == Some(i),
    decreases bs.len(),
{
    if i < bs.len() - 1 {
        assert(bs.drop_last()[i] == bs[i]);
        assert forall|j: int| i < j < bs.drop_last().len() implies (#[trigger] bs.drop_last()[j]).0 != k by {
            assert(bs.drop_last()[j] == bs[j]);
        }
        lemma_last_index_is(bs.drop_last(), k, i);
    }
}

/// `r` is the voidable type `v` resolved in scope `bs`.
pub open spec fn resolves_voidable(bs: Seq<Binding>, ps: Seq<Package>, v: types::VoidableType, r: resolved_types::VoidableType) -> bool {
    match (v, r) {
        (types::VoidableType::Void, resolved_types::VoidableType::Void) => true,
        (types::VoidableType::RefType(t), resolved_types::VoidableType::RefType(x)) => resolves_ref(bs, ps, t, x),
        _ => false,
    }
}

/// `rs` are the type parameters `tps` resolved in scope `bs`: each named
/// as a generic, with its bounds resolved.
pub open spec fn resolves_type_params(bs: Seq<Binding>, ps: Seq<Package>, tps: Seq<types::TypeParam>, rs: Seq<resolved_types::TypeParam>) -> bool {
    &&& rs.len() == tps.len()
    &&& forall|i: int|
        0 <= i < tps.len() ==> {
            &&& (#[trigger] rs[i]).name@ == (FqnView {
                source: SourceView::Generic,
                typename: seq![tps[i].name@],
            })
            &&& resolves_refs(bs, ps, tps[i].extends_from@, rs[i].extends_from@)
        }
}

/// What an annotation's name stands for: its binding in scope, else a name
/// from outside the project.
pub open spec fn annotation_name(bs: Seq<Binding>, name: Seq<Seq<char>>) -> FqnView {
    match last_binding(bs, name) {
        Some(v) => v,
        None => FqnView { source: SourceView::External, typename: name },
    }
}

/// `rs` are the annotations `as_` with their names looked up in scope `bs`.
pub open spec fn resolves_annotations(bs: Seq<Binding>, as_: Seq<types::Annotation>, rs: Seq<resolved_types::Annotation>) -> bool {
    &&& rs.len() == as_.len()
    &&& forall|i: int|
        0 <= i < as_.len() ==> (#[trigger] rs[i]).name@ == annotation_name(bs, as_[i].name@)
            && rs[i].s@ == as_[i].s@
}

/// `r` is the member kind `k` resolved in scope `bs`; a method or
/// constructor resolves its signature with its own type parameters bound.
pub open spec fn resolves_member_kind(bs: Seq<Binding>, ps: Seq<Package>, k: types::MemberKind, r: resolved_types::MemberKind) -> bool {
    match (k, r) {
        (
            types::MemberKind::Property { reftype, arr_dim },
            resolved_types::MemberKind::Property { reftype: r2, arr_dim: d2 },
        ) => resolves_ref(bs, ps, reftype, r2) && arr_dim == d2,
        (
            types::MemberKind::Method { type_param_list, input, output, throws },
            resolved_types::MemberKind::Method {
                type_param_list: rl,
                input: ri,
                output: ro,
                throws: rt,
            },
        ) => {
            let inner = bs + generic_bindings(type_param_list.0@);
            &&& resolves_type_params(inner, ps, type_param_list.0@, rl.0@)
            &&& resolves_refs(inner, ps, input@, ri@)
            &&& resolves_voidable(inner, ps, output, ro)
            &&& resolves_refs(inner, ps, throws@, rt@)
        },
        (
            types::MemberKind::Constructor { type_param_list, input, throws },
            resolved_types::MemberKind::Constructor { type_param_list: rl, input: ri, throws: rt },
        ) => {
            let inner = bs + generic_bindings(type_param_list.0@);
            &&& resolves_type_params(inner, ps, type_param_list.0@, rl.0@)
            &&& resolves_refs(inner, ps, input@, ri@)
            &&& resolves_refs(inner, ps, throws@, rt@)
        },
        _ => false,
    }
}

/// `r` is the member `m` resolved in scope `bs`.
pub open spec fn resolves_member(bs: Seq<Binding>, ps: Seq<Package>, m: types::Member, r: resolved_types::Member) -> bool {
    &&& r.name@ == m.name@
    &&& r.modifiers.modifiers@ == m.modifiers.modifiers@
    &&& r.modifiers.access_modifier == m.modifiers.access_modifier
    &&& resolves_annotations(bs, m.annotations@, r.annotations@)
    &&& resolves_member_kind(bs, ps, m.member_kind, r.member_kind)
}

/// `r` is the type kind `k` resolved in scope `bs`.
pub open spec fn resolves_kind(bs: Seq<Binding>, ps: Seq<Package>, k: types::TypeKind, r: resolved_types::TypeKind) -> bool {
    match (k, r) {
        (
            types::TypeKind::Class { inherit_class, implement_interfaces },
            resolved_types::TypeKind::Class { inherit_class: ri, implement_interfaces: rs },
        ) => {
            &&& match (inherit_class, ri) {
                (None, None) => true,
                (Some(t), Some(x)) => resolves_ref(bs, ps, t, x),
                _ => false,
            }
            &&& resolves_refs(bs, ps, implement_interfaces@, rs@)
        },
        (
            types::TypeKind::Enum { implement_interfaces, enum_vals },
            resolved_types::TypeKind::Enum { implement_interfaces: rs, enum_vals: rv },
        ) => resolves_refs(bs, ps, implement_interfaces@, rs@) && rv@ == enum_vals@,
        (
            types::TypeKind::Interface { extend_interfaces },
            resolved_types::TypeKind::Interface { extend_interfaces: rs },
        ) => resolves_refs(bs, ps, extend_interfaces@, rs@),
        (
            types::TypeKind::Annotation { annotation_properties },
            resolved_types::TypeKind::Annotation { annotation_properties: rs },
        ) => {
            &&& rs@.len() == annotation_properties@.len()
            &&& forall|i: int|
                0 <= i < rs@.len() ==> (#[trigger] rs@[i]).0@ == annotation_properties@[i].0@
                    && resolves_ref(bs, ps, annotation_properties@[i].1, rs@[i].1)
        },
        _ => false,
    }
}

/// The binding an exported entry makes in a child's scope, if the child can
/// see it: a private entry never; a package-private one only from the same
/// package.
pub open spec fn inherit_binding(p: (QualifiedName, ExportedTypeEntry), pkg: Seq<Seq<char>>) -> Option<Binding> {
    let e = p.1;
    let min_rank = if (*e.root_package)@ == pkg {
        1int
    } else {
        2int
    };
    if types::access_rank(e.visibility) < min_rank {
        None
    } else {
        Some(
            (
                p.0@,
                match e.name@ {
                    ExportNameView::Inherited(s) => s,
                    ExportNameView::Own(s) => s,
                    ExportNameView::Ambiguous => FqnView {
                        source: SourceView::Ambiguous,
                        typename: Seq::empty(),
                    },
                },
            ),
        )
    }
}

/// The bindings the exports `ps_` of a parent make in a child of package
/// `pkg`, in order.
pub open spec fn inherit_bindings(ps_: Seq<(QualifiedName, ExportedTypeEntry)>, pkg: Seq<Seq<char>>) -> Seq<Binding>
    decreases ps_.len(),
{
    if ps_.len() == 0 {
        Seq::empty()
    } else {
        inherit_bindings(ps_.drop_last(), pkg) + match inherit_binding(ps_.last(), pkg) {
            Some(b) => seq![b],
            None => Seq::empty(),
        }
    }
}

/// A scope frame is, imagine each time you enter a scope, the new types/names
/// introduced there is called a scope frame.
pub struct ScopeFrame(pub Vec<QualifiedName>);

impl ScopeFrame {
    /// The names the frame introduced, in order.
    pub open spec fn names(&self) -> Seq<Seq<Seq<char>>> {
        self.0@.map_values(|q: QualifiedName| q@)
    }
}

/// A scope to resolve name with: the bindings made so far, in order. A
/// name stands for what it was bound to last; popping a name undoes its
/// last binding.
#[derive(Debug)]
pub struct Scope(Vec<(QualifiedName, FullyQualifiedName)>);

impl View for Scope {
    type V = Seq<Binding>;

    closed spec fn view(&self) -> Seq<Binding> {
        self.0@.map_values(|p: (QualifiedName, FullyQualifiedName)| (p.0@, p.1@))
    }
}

// -------------------------- Util Functions --------------------------------
impl Scope {
    /// Creates a new Scope with no bindings.
    pub fn new() -> (r: Self)
        ensures
            r@ == Seq::<Binding>::empty(),
    {
        Self(Vec::new())
    }

    /// A copy of this scope.
    pub fn duplicate(&self) -> (r: Self)
        ensures
            r@ == self@,
    {
        let mut v: Vec<(QualifiedName, FullyQualifiedName)> = Vec::new();
        let mut i: usize = 0;
        while i < self.0.len()
            invariant
                i <= self.0@.len(),
                v@.map_values(|p: (QualifiedName, FullyQualifiedName)| (p.0@, p.1@)) == self@.subrange(
                    0,
                    i as int,
                ),
            decreases self.0@.len() - i,
        {
            let ghost before = v@.map_values(|p: (QualifiedName, FullyQualifiedName)| (p.0@, p.1@));
            v.push((self.0[i].0.duplicate(), self.0[i].1.duplicate()));
            assert(v@.map_values(|p: (QualifiedName, FullyQualifiedName)| (p.0@, p.1@)) =~= before.push(self@[i as int]));
            assert(self@.subrange(0, i + 1) =~= self@.subrange(0, i as int).push(self@[i as int]));
            i = i + 1;
        }
        assert(self@.subrange(0, i as int) =~= self@);
        Self(v)
    }

    /// Binds `name` to `fqn`, over any earlier binding of it.
    pub fn push(&mut self, name: QualifiedName, fqn: FullyQualifiedName)
        ensures
            final(self)@ == old(self)@.push((name@, fqn@)),
    {
        let ghost b = (name@, fqn@);
        self.0.push((name, fqn));
        assert(self@ =~= old(self)@.push(b));
    }

    /// The position of the last binding of `name`, if any.
    fn last_position(&self, name: &QualifiedName) -> (r: Option<usize>)
        ensures
            r matches Some(i) ==> last_index(self@, name@) == Some(i as int),
            r is None ==> last_index(self@, name@) is None,
    {
        let mut i: usize = self.0.len();
        proof {
            assert(self@.subrange(0, i as int) =~= self@);
        }
        while i > 0
            invariant
                i <= self.0@.len(),
                self@.len() == self.0@.len(),
                last_index(self@, name@) == last_index(self@.subrange(0, i as int), name@),
            decreases i,
        {
            let ghost sub = self@.subrange(0, i as int);
            assert(sub.drop_last() =~= self@.subrange(0, i - 1));
            if self.0[i - 1].0.same_as(name) {
                return Some(i - 1);
            }
            i = i - 1;
        }
        None
    }

    /// pop undoes the last binding of `name` and gives what it was bound
    /// to, or None if `name` is not bound.
    pub fn pop(&mut self, name: &QualifiedName) -> (r: Option<FullyQualifiedName>)
        ensures
            final(self)@ == pop_binding(old(self)@, name@),
            r matches Some(f) ==> last_binding(old(self)@, name@) == Some(f@),
            r is None ==> last_binding(old(self)@, name@) is None,
    {
        proof {
            lemma_last_index(self@, name@);
        }
        match self.last_position(name) {
            Some(i) => {
                let (_, f) = self.0.remove(i);
                assert(self@ =~= old(self)@.remove(i as int));
                Some(f)
            },
            None => None,
        }
    }

    /// What `name` is bound to, if anything.
    pub fn peek(&self, name: &QualifiedName) -> (r: Option<&FullyQualifiedName>)
        ensures
            r matches Some(f) ==> last_binding(self@, name@) == Some(f@),
            r is None ==> last_binding(self@, name@) is None,
    {
        proof {
            lemma_last_index(self@, name@);
        }
        match self.last_position(name) {
            Some(i) => Some(&self.0[i].1),
            None => None,
        }
    }

    /// Runs `f` on the scope, then undoes the bindings of `frame`.
    pub fn with_frame<T, F: FnOnce(&mut Scope) -> T>(&mut self, frame: ScopeFrame, f: F) -> (r: T)
        requires
            forall|s: &mut Scope| #[trigger] f.requires((s,)),
        ensures
            exists|s: &mut Scope|
                f.ensures((s,), r) && *s == *old(self) && final(self)@ == pop_all(final(s)@, frame.names()),
    {
        let res = f(self);
        self.pop_frame(&frame);
        res
    }

    /// Undoes the last binding of each name of the frame, in order.
    pub fn pop_frame(&mut self, frame: &ScopeFrame)
        ensures
            final(self)@ == pop_all(old(self)@, frame.names()),
    {
        let mut i: usize = 0;
        while i < frame.0.len()
            invariant
                i <= frame.0@.len(),
                self@ == pop_all(old(self)@, frame.names().subrange(0, i as int)),
            decreases frame.0@.len() - i,
        {
            self.pop(&frame.0[i]);
            proof {
                let ks = frame.names().subrange(0, i + 1);
                assert(ks.drop_last() =~= frame.names().subrange(0, i as int));
            }
            i = i + 1;
        }
        assert(frame.names().subrange(0, i as int) =~= frame.names());
    }

    /// check if the name is in scope, and get is FQN.
    pub fn get_fqn(&self, name: &QualifiedName) -> (r: Option<&FullyQualifiedName>)
        ensures
            r matches Some(f) ==> last_binding(self@, name@) == Some(f@),
            r is None ==> last_binding(self@, name@) is None,
    {
        self.peek(name)
    }
}

impl Scope {
    /// The binding, if any, that tier `t` makes for the entry `e`.
    fn tier_binding(t: Tier, base: &QualifiedName, pkg: &QualifiedName, file: &String, e: &TypeIndexEntry) -> (r: Option<(QualifiedName, FullyQualifiedName)>)
        ensures
            r is None <==> tier_binding_spec(t, base@, pkg@, file@, *e) is None,
            r matches Some(b) ==> tier_binding_spec(t, base@, pkg@, file@, *e) == Some((b.0@, b.1@)),
    {
        let key = &e.name.typename;
        let in_project = |k: &QualifiedName| -> (f: FullyQualifiedName)
            ensures
                f@ == (FqnView { source: SourceView::InProject(pkg@), typename: k@ }),
        {
            FullyQualifiedName {
                source: TypeSource::InProjectType { package: pkg.duplicate() },
                typename: k.duplicate(),
            }
        };
        match t {
            Tier::StaticMembers => {
                if key.has_proper_prefix(base) && e.visibility == AccessModifier::Public
                    && strings_contain(&e.modifiers, "static") {
                    Some((key.get_suffix(base.len()).unwrap(), e.name.duplicate()))
                } else {
                    None
                }
            },
            Tier::PackageMembers => {
                if e.visibility == AccessModifier::Public && key.has_proper_prefix(base) {
                    Some((key.get_suffix(base.len()).unwrap(), in_project(key)))
                } else {
                    None
                }
            },
            Tier::SamePackage => {
                if e.visibility != AccessModifier::Private && key.has_proper_prefix(base) {
                    Some((key.get_suffix(base.len()).unwrap(), in_project(key)))
                } else {
                    None
                }
            },
            Tier::SingleImport => {
                if key.has_prefix(base) && base.len() >= 1 && e.visibility == AccessModifier::Public {
                    Some((key.get_suffix(base.len() - 1).unwrap(), in_project(key)))
                } else {
                    None
                }
            },
            Tier::SameFile => {
                if *file == e.from_file && key.has_proper_prefix(base) {
                    Some((key.get_suffix(base.len()).unwrap(), in_project(key)))
                } else {
                    None
                }
            },
        }
    }

    /// Makes the bindings tier `t` makes over the entries `es`, in order.
    fn push_selected(&mut self, t: Tier, base: &QualifiedName, pkg: &QualifiedName, file: &String, es: &Vec<TypeIndexEntry>)
        ensures
            final(self)@ == old(self)@ + tier_bindings(t, base@, pkg@, file@, es@),
    {
        let mut j: usize = 0;
        assert(tier_bindings(t, base@, pkg@, file@, es@.subrange(0, 0)) =~= Seq::<Binding>::empty());
        assert(old(self)@ + Seq::<Binding>::empty() =~= old(self)@);
        while j < es.len()
            invariant
                j <= es@.len(),
                self@ == old(self)@ + tier_bindings(t, base@, pkg@, file@, es@.subrange(0, j as int)),
            decreases es@.len() - j,
        {
            proof {
                lemma_tier_step(t, base@, pkg@, file@, es@, j as int);
            }
            let ghost before = self@;
            match Self::tier_binding(t, base, pkg, file, &es[j]) {
                Some((k, f)) => {
                    let ghost b = (k@, f@);
                    self.push(k, f);
                    assert(self@ =~= old(self)@ + tier_bindings(t, base@, pkg@, file@, es@.subrange(0, j + 1)));
                },
                None => {
                    assert(self@ =~= old(self)@ + tier_bindings(t, base@, pkg@, file@, es@.subrange(0, j + 1)));
                },
            }
            j = j + 1;
        }
        assert(es@.subrange(0, j as int) =~= es@);
    }

    /// Binds what the wildcard imports of `ast` bring in: for `import P.*;`
    /// the public types of `P`, for `import static P.T.*;` the public static
    /// types nested in `T`. An import of the file's own package is skipped.
    pub fn add_wildcard_import(&mut self, ast: &types::JavaFile, project: &Project)
        ensures
            final(self)@ == old(self)@ + wildcard_bindings(
                ast.imported_objects@,
                ast.package_name@,
                project.packages(),
            ),
    {
        let ghost ps = project.packages();
        let ghost ios = ast.imported_objects@;
        let empty = String::new();
        let mut i: usize = 0;
        assert(ios.subrange(0, 0) =~= Seq::<types::ImportObject>::empty());
        assert(old(self)@ + Seq::<Binding>::empty() =~= old(self)@);
        while i < ast.imported_objects.len()
            invariant
                i <= ios.len(),
                ios == ast.imported_objects@,
                ps == project.packages(),
                empty@ == Seq::<char>::empty(),
                self@ == old(self)@ + wildcard_bindings(ios.subrange(0, i as int), ast.package_name@, ps),
            decreases ios.len() - i,
        {
            let io = &ast.imported_objects[i];
            assert(ios.subrange(0, i + 1).drop_last() =~= ios.subrange(0, i as int));
            let ghost before = self@;
            if io.name.same_as(&ast.package_name) {
            } else if io.is_static && io.is_wildcard {
                match project.get_origin_package(&io.name) {
                    Some((pkg, _)) => {
                        self.push_selected(Tier::StaticMembers, &io.name, &pkg.package, &empty, &pkg.type_index);
                    },
                    None => {},
                }
            } else if !io.is_static && io.is_wildcard {
                match project.get_package(&io.name) {
                    Some(pkg) => {
                        self.push_selected(Tier::PackageMembers, &io.name, &pkg.package, &empty, &pkg.type_index);
                    },
                    None => {},
                }
            }
            assert(self@ =~= old(self)@ + wildcard_bindings(ios.subrange(0, i + 1), ast.package_name@, ps));
            i = i + 1;
        }
        assert(ios.subrange(0, i as int) =~= ios);
    }

    /// Binds the types of the file's own package that are not private.
    pub fn add_same_pkg(&mut self, ast: &types::JavaFile, project: &Project)
        requires
            package_index(project.packages(), ast.package_name@) is Some,
        ensures
            final(self)@ == old(self)@ + same_package_bindings(*ast, project.packages()),
    {
        let empty = String::new();
        let pkg = project.get_package(&ast.package_name).unwrap();
        self.push_selected(Tier::SamePackage, &ast.package_name, &ast.package_name, &empty, &pkg.type_index);
    }

    /// Binds what the single-type imports of `ast` bring in: for
    /// `import P.T;` the type `T` and the public types nested in it, named
    /// from `T` on.
    pub fn add_single_type_import(&mut self, ast: &types::JavaFile, project: &Project)
        ensures
            final(self)@ == old(self)@ + single_import_bindings(ast.imported_objects@, project.packages()),
    {
        let ghost ps = project.packages();
        let ghost ios = ast.imported_objects@;
        let empty = String::new();
        let mut i: usize = 0;
        assert(ios.subrange(0, 0) =~= Seq::<types::ImportObject>::empty());
        assert(old(self)@ + Seq::<Binding>::empty() =~= old(self)@);
        while i < ast.imported_objects.len()
            invariant
                i <= ios.len(),
                ios == ast.imported_objects@,
                ps == project.packages(),
                empty@ == Seq::<char>::empty(),
                self@ == old(self)@ + single_import_bindings(ios.subrange(0, i as int), ps),
            decreases ios.len() - i,
        {
            let io = &ast.imported_objects[i];
            assert(ios.subrange(0, i + 1).drop_last() =~= ios.subrange(0, i as int));
            if !io.is_wildcard {
                match project.get_origin_package(&io.name) {
                    Some((pkg, _)) => {
                        self.push_selected(Tier::SingleImport, &io.name, &pkg.package, &empty, &pkg.type_index);
                    },
                    None => {},
                }
            }
            assert(self@ =~= old(self)@ + single_import_bindings(ios.subrange(0, i + 1), ps));
            i = i + 1;
        }
        assert(ios.subrange(0, i as int) =~= ios);
    }

    /// Binds the types declared in the file itself.
    pub fn add_same_file(&mut self, ast: &types::JavaFile, project: &Project)
        requires
            package_index(project.packages(), ast.package_name@) is Some,
        ensures
            final(self)@ == old(self)@ + same_file_bindings(*ast, project.packages()),
    {
        let pkg = project.get_package(&ast.package_name).unwrap();
        self.push_selected(Tier::SameFile, &ast.package_name, &ast.package_name, &ast.file, &pkg.type_index);
    }

    /// Constructs a scope object from a project and an AST: wildcard
    /// imports, then the same package, then single-type imports, then the
    /// file's own types, each over the ones before (see
    /// [`law_scope_precedence`]).
    pub fn construct_baseline_scope(ast: &types::JavaFile, project: &Project) -> (r: Self)
        requires
            package_index(project.packages(), ast.package_name@) is Some,
        ensures
            r@ == baseline_bindings(*ast, project.packages()),
    {
        let mut scope = Self::new();
        scope.add_wildcard_import(ast, project);
        scope.add_same_pkg(ast, project);
        scope.add_single_type_import(ast, project);
        scope.add_same_file(ast, project);
        assert(scope@ =~= baseline_bindings(*ast, project.packages()));
        scope
    }
}

impl Scope {
    /// In general, find an FQN for any QN: its binding in scope, else the
    /// project type it names in full, else a primitive type, else a type
    /// from outside the project.
    pub fn resolve_qualified_name(&self, name: &QualifiedName, project: &Project) -> (r: FullyQualifiedName)
        ensures
            r@ == resolve_name(self@, project.packages(), name@),
    {
        match self.peek(name) {
            Some(t) => {
                return t.duplicate();
            },
            None => {},
        }
        match project.get_origin_package(name) {
            Some((_, e)) => {
                return e.name.duplicate();
            },
            None => {},
        }
        if name.0.len() == 1 {
            let w = &name.0[0];
            let prim = if string_is(w, "byte") {
                Some(PrimitiveType::Byte)
            } else if string_is(w, "short") {
                Some(PrimitiveType::Short)
            } else if string_is(w, "int") {
                Some(PrimitiveType::Int)
            } else if string_is(w, "long") {
                Some(PrimitiveType::Long)
            } else if string_is(w, "float") {
                Some(PrimitiveType::Float)
            } else if string_is(w, "double") {
                Some(PrimitiveType::Double)
            } else if string_is(w, "boolean") {
                Some(PrimitiveType::Boolean)
            } else if string_is(w, "char") {
                Some(PrimitiveType::Char)
            } else {
                None
            };
            match prim {
                Some(p) => {
                    return FullyQualifiedName {
                        source: TypeSource::PrimitiveType(p),
                        typename: name.duplicate(),
                    };
                },
                None => {},
            }
        }
        FullyQualifiedName { source: TypeSource::ExternalDependencyType, typename: name.duplicate() }
    }

    /// Resolves the names of annotations: an annotation's name stands for
    /// its binding in scope, else for a name from outside the project.
    pub fn resolve_annotations(&self, annotations: &Vec<types::Annotation>) -> (r: Vec<resolved_types::Annotation>)
        ensures
            resolves_annotations(self@, annotations@, r@),
    {
        let mut v: Vec<resolved_types::Annotation> = Vec::new();
        let mut i: usize = 0;
        while i < annotations.len()
            invariant
                i <= annotations@.len(),
                v@.len() == i,
                forall|k: int|
                    0 <= k < i ==> (#[trigger] v@[k]).name@ == annotation_name(self@, annotations@[k].name@)
                        && v@[k].s@ == annotations@[k].s@,
            decreases annotations@.len() - i,
        {
            let a = &annotations[i];
            let name = match self.get_fqn(&a.name) {
                Some(fqn) => fqn.duplicate(),
                None => FullyQualifiedName {
                    source: TypeSource::ExternalDependencyType,
                    typename: a.name.duplicate(),
                },
            };
            v.push(resolved_types::Annotation { name, s: a.s.clone() });
            i = i + 1;
        }
        v
    }

    /// Resolves a voidable type.
    pub fn resolve_voidable_type(&self, voidable: &types::VoidableType, project: &Project) -> (r: resolved_types::VoidableType)
        ensures
            resolves_voidable(self@, project.packages(), *voidable, r),
    {
        match voidable {
            types::VoidableType::Void => resolved_types::VoidableType::Void,
            types::VoidableType::RefType(s) => resolved_types::VoidableType::RefType(
                self.resolve_reftype(s, project),
            ),
        }
    }

    /// Resolves every name in a type usage.
    pub fn resolve_reftype(&self, reftype: &types::RefType, project: &Project) -> (r: resolved_types::RefType)
        ensures
            resolves_ref(self@, project.packages(), *reftype, r),
        decreases *reftype,
    {
        resolved_types::RefType {
            name: self.resolve_qualified_name(&reftype.name, project),
            type_arg_list: self.resolve_type_arg_list(&reftype.type_arg_list, project),
            arr_dim: reftype.arr_dim,
        }
    }

    /// Resolves every name in a list of type arguments.
    pub fn resolve_type_arg_list(&self, typearg_list: &types::TypeArgList, project: &Project) -> (r: resolved_types::TypeArgList)
        ensures
            r.0@.len() == typearg_list.0@.len(),
            forall|i: int|
                0 <= i < typearg_list.0@.len() ==> resolves_arg(
                    self@,
                    project.packages(),
                    #[trigger] typearg_list.0[i],
                    r.0[i],
                ),
        decreases *typearg_list,
    {
        let mut v: Vec<resolved_types::TypeArg> = Vec::new();
        let mut i: usize = 0;
        while i < typearg_list.0.len()
            invariant
                i <= typearg_list.0@.len(),
                v@.len() == i,
                forall|k: int|
                    0 <= k < i ==> resolves_arg(
                        self@,
                        project.packages(),
                        #[trigger] typearg_list.0[k],
                        v[k],
                    ),
            decreases typearg_list.0@.len() - i,
        {
            let a = self.resolve_type_arg(&typearg_list.0[i], project);
            v.push(a);
            i = i + 1;
        }
        resolved_types::TypeArgList(v)
    }

    /// Resolves every name in a type argument.
    pub fn resolve_type_arg(&self, typearg: &types::TypeArg, project: &Project) -> (r: resolved_types::TypeArg)
        ensures
            resolves_arg(self@, project.packages(), *typearg, r),
        decreases *typearg,
    {
        match typearg {
            types::TypeArg::Is(s) => resolved_types::TypeArg::Is(self.resolve_reftype(s, project)),
            types::TypeArg::Extends(s) => resolved_types::TypeArg::Extends(self.resolve_reftype(s, project)),
            types::TypeArg::Super(s) => resolved_types::TypeArg::Super(self.resolve_reftype(s, project)),
            types::TypeArg::Wildcard => resolved_types::TypeArg::Wildcard,
        }
    }

    /// Resolves every name in a list of type usages.
    pub fn resolve_reftypes(&self, ts: &Vec<types::RefType>, project: &Project) -> (r: Vec<resolved_types::RefType>)
        ensures
            resolves_refs(self@, project.packages(), ts@, r@),
    {
        let mut v: Vec<resolved_types::RefType> = Vec::new();
        let mut i: usize = 0;
        while i < ts.len()
            invariant
                i <= ts@.len(),
                v@.len() == i,
                forall|k: int| 0 <= k < i ==> resolves_ref(self@, project.packages(), #[trigger] ts@[k], v@[k]),
            decreases ts@.len() - i,
        {
            let r = self.resolve_reftype(&ts[i], project);
            v.push(r);
            i = i + 1;
        }
        v
    }

    /// Pushes the type params in, as generics, and resolves their bounds
    /// with all of them in scope; gives the frame to pop them with.
    pub fn push_and_resolve_type_params(
        &mut self,
        og_type_param_list: &types::TypeParamList,
        project: &Project,
    ) -> (r: (ScopeFrame, resolved_types::TypeParamList))
        ensures
            final(self)@ == old(self)@ + generic_bindings(og_type_param_list.0@),
            r.0.names() == binding_names(generic_bindings(og_type_param_list.0@)),
            resolves_type_params(final(self)@, project.packages(), og_type_param_list.0@, r.1.0@),
    {
        let ghost tps = og_type_param_list.0@;
        let mut scope_frame = ScopeFrame(Vec::new());
        // First, add the type params to the scope.
        let mut i: usize = 0;
        while i < og_type_param_list.0.len()
            invariant
                tps == og_type_param_list.0@,
                i <= tps.len(),
                self@ == old(self)@ + generic_bindings(tps.subrange(0, i as int)),
                scope_frame.names() == binding_names(generic_bindings(tps.subrange(0, i as int))),
            decreases tps.len() - i,
        {
            let tp = &og_type_param_list.0[i];
            let mut v: Vec<String> = Vec::new();
            v.push(tp.name.clone());
            let name = QualifiedName(v);
            assert(name@ =~= seq![tp.name@]);
            let ghost before = self@;
            let ghost fbefore = scope_frame.names();
            self.push(
                name.duplicate(),
                FullyQualifiedName { source: TypeSource::Generic, typename: name.duplicate() },
            );
            scope_frame.0.push(name);
            proof {
                assert(tps.subrange(0, i + 1) =~= tps.subrange(0, i as int).push(tps[i as int]));
                assert(generic_bindings(tps.subrange(0, i + 1)) =~= generic_bindings(tps.subrange(0, i as int)).push(
                    (seq![tps[i as int].name@], FqnView { source: SourceView::Generic, typename: seq![tps[i as int].name@] }),
                ));
                assert(self@ =~= old(self)@ + generic_bindings(tps.subrange(0, i + 1)));
                assert(scope_frame.names() =~= fbefore.push(name@));
                assert(scope_frame.names() =~= binding_names(generic_bindings(tps.subrange(0, i + 1))));
            }
            i = i + 1;
        }
        assert(tps.subrange(0, i as int) =~= tps);
        // Then, resolve the bounds.
        let mut type_param_list: Vec<resolved_types::TypeParam> = Vec::new();
        let mut j: usize = 0;
        while j < og_type_param_list.0.len()
            invariant
                tps == og_type_param_list.0@,
                j <= tps.len(),
                type_param_list@.len() == j,
                forall|k: int|
                    0 <= k < j ==> {
                        &&& (#[trigger] type_param_list@[k]).name@ == (FqnView {
                            source: SourceView::Generic,
                            typename: seq![tps[k].name@],
                        })
                        &&& resolves_refs(self@, project.packages(), tps[k].extends_from@, type_param_list@[k].extends_from@)
                    },
            decreases tps.len() - j,
        {
            let tp = &og_type_param_list.0[j];
            let mut v: Vec<String> = Vec::new();
            v.push(tp.name.clone());
            let name = QualifiedName(v);
            assert(name@ =~= seq![tp.name@]);
            let extends_from = self.resolve_reftypes(&tp.extends_from, project);
            type_param_list.push(
                resolved_types::TypeParam {
                    name: FullyQualifiedName { source: TypeSource::Generic, typename: name },
                    extends_from,
                },
            );
            j = j + 1;
        }
        (scope_frame, resolved_types::TypeParamList(type_param_list))
    }

    /// Resolves a type kind: its parents and, for an annotation type, its
    /// elements' types.
    pub fn resolve_typekind(&self, typekind: &types::TypeKind, project: &Project) -> (r: resolved_types::TypeKind)
        ensures
            resolves_kind(self@, project.packages(), *typekind, r),
    {
        match typekind {
            types::TypeKind::Class { inherit_class, implement_interfaces } => {
                let inherit = match inherit_class {
                    None => None,
                    Some(x) => Some(self.resolve_reftype(x, project)),
                };
                resolved_types::TypeKind::Class {
                    inherit_class: inherit,
                    implement_interfaces: self.resolve_reftypes(implement_interfaces, project),
                }
            },
            types::TypeKind::Enum { implement_interfaces, enum_vals } => resolved_types::TypeKind::Enum {
                implement_interfaces: self.resolve_reftypes(implement_interfaces, project),
                enum_vals: types::copy_strings(enum_vals),
            },
            types::TypeKind::Interface { extend_interfaces } => resolved_types::TypeKind::Interface {
                extend_interfaces: self.resolve_reftypes(extend_interfaces, project),
            },
            types::TypeKind::Annotation { annotation_properties } => {
                let mut v: Vec<(String, resolved_types::RefType)> = Vec::new();
                let mut i: usize = 0;
                while i < annotation_properties.len()
                    invariant
                        i <= annotation_properties@.len(),
                        v@.len() == i,
                        forall|k: int|
                            0 <= k < i ==> (#[trigger] v@[k]).0@ == annotation_properties@[k].0@
                                && resolves_ref(self@, project.packages(), annotation_properties@[k].1, v@[k].1),
                    decreases annotation_properties@.len() - i,
                {
                    let (name, reftype) = &annotation_properties[i];
                    v.push((name.clone(), self.resolve_reftype(reftype, project)));
                    i = i + 1;
                }
                resolved_types::TypeKind::Annotation { annotation_properties: v }
            },
        }
    }

    /// Resolves a member. A method or constructor sees its own type
    /// parameters; the scope is left as it was.
    pub fn resolve_member(&mut self, member: &types::Member, project: &Project) -> (r: resolved_types::Member)
        ensures
            final(self)@ == old(self)@,
            resolves_member(old(self)@, project.packages(), *member, r),
    {
        let annotations = self.resolve_annotations(&member.annotations);
        let member_kind = match &member.member_kind {
            types::MemberKind::Property { reftype, arr_dim } => resolved_types::MemberKind::Property {
                reftype: self.resolve_reftype(reftype, project),
                arr_dim: *arr_dim,
            },
            types::MemberKind::Method { type_param_list, input, output, throws } => {
                let mut inner = self.duplicate();
                let (_frame, resolved_params) = inner.push_and_resolve_type_params(type_param_list, project);
                resolved_types::MemberKind::Method {
                    type_param_list: resolved_params,
                    input: inner.resolve_reftypes(input, project),
                    output: inner.resolve_voidable_type(output, project),
                    throws: inner.resolve_reftypes(throws, project),
                }
            },
            types::MemberKind::Constructor { type_param_list, input, throws } => {
                let mut inner = self.duplicate();
                let (_frame, resolved_params) = inner.push_and_resolve_type_params(type_param_list, project);
                resolved_types::MemberKind::Constructor {
                    type_param_list: resolved_params,
                    input: inner.resolve_reftypes(input, project),
                    throws: inner.resolve_reftypes(throws, project),
                }
            },
        };
        resolved_types::Member {
            name: member.name.clone(),
            annotations,
            modifiers: member.modifiers.duplicate(),
            member_kind,
        }
    }

    /// Binds the nested types a parent hands down that a child of package
    /// `pkg_name` can see: public and protected ones always, package-private
    /// ones only from the same package, private ones never. An ambiguous
    /// name is bound as ambiguous. Gives the frame to pop them with.
    pub fn add_exported_types_from_parent(&mut self, exported_types: &ExportedInnerTypes, pkg_name: &QualifiedName) -> (r: ScopeFrame)
        ensures
            final(self)@ == old(self)@ + inherit_bindings(exported_types.pairs(), pkg_name@),
            r.names() == binding_names(inherit_bindings(exported_types.pairs(), pkg_name@)),
    {
        let es = exported_types.entries();
        let ghost ps_ = exported_types.pairs();
        let mut scopeframe = ScopeFrame(Vec::new());
        let mut i: usize = 0;
        while i < es.len()
            invariant
                es@ == ps_,
                i <= ps_.len(),
                self@ == old(self)@ + inherit_bindings(ps_.subrange(0, i as int), pkg_name@),
                scopeframe.names() == binding_names(inherit_bindings(ps_.subrange(0, i as int), pkg_name@)),
            decreases ps_.len() - i,
        {
            let (name, entry) = &es[i];
            assert(ps_.subrange(0, i + 1).drop_last() =~= ps_.subrange(0, i as int));
            let min_rank: u8 = if entry.root_package.same_as(pkg_name) {
                1
            } else {
                2
            };
            let ghost before = self@;
            let ghost fbefore = scopeframe.names();
            if entry.visibility.rank() >= min_rank {
                let fqn = match &entry.name {
                    ExportedTypeEntryName::Inherited(s) => s.duplicate(),
                    ExportedTypeEntryName::Own(s) => s.duplicate(),
                    ExportedTypeEntryName::Ambiguous => {
                        let empty = QualifiedName(Vec::new());
                        assert(empty@ =~= Seq::<Seq<char>>::empty());
                        FullyQualifiedName { source: TypeSource::Ambiguous, typename: empty }
                    },
                };
                self.push(name.duplicate(), fqn);
                scopeframe.0.push(name.duplicate());
                assert(scopeframe.names() =~= fbefore.push(name@));
            }
            assert(self@ =~= old(self)@ + inherit_bindings(ps_.subrange(0, i + 1), pkg_name@));
            assert(scopeframe.names() =~= binding_names(inherit_bindings(ps_.subrange(0, i + 1), pkg_name@)));
            i = i + 1;
        }
        assert(ps_.subrange(0, i as int) =~= ps_);
        scopeframe
    }
}

impl Scope {
    /// Resolves a type without its nested types: its name, annotations,
    /// kind and members are resolved with its own type parameters in scope,
    /// and each nested type is handed back as a queue entry that carries
    /// that scope. The scope is left as it was.
    pub fn resolve_type_no_child(
        &mut self,
        typeclass: Rc<types::Type>,
        project: &Project,
        ast_root: Rc<types::JavaFile>,
    ) -> (r: (resolved_types::Type, Vec<TypeQueueEntry>))
        ensures
            final(self)@ == old(self)@,
            ({
                let bs = old(self)@ + generic_bindings(typeclass.type_params.0@);
                let ps = project.packages();
                let t = r.0;
                &&& t.name@ == resolve_name(bs, ps, typeclass.name@)
                &&& t.modifiers.modifiers@ == typeclass.modifiers.modifiers@
                &&& t.modifiers.access_modifier == typeclass.modifiers.access_modifier
                &&& resolves_type_params(bs, ps, typeclass.type_params.0@, t.type_params.0@)
                &&& resolves_kind(bs, ps, typeclass.type_kind, t.type_kind)
                &&& t.annotation@.len() == typeclass.annotation@.len()
                &&& forall|i: int|
                    0 <= i < t.annotation@.len() ==> (#[trigger] t.annotation@[i]).name@ == resolve_name(
                        bs,
                        ps,
                        typeclass.annotation@[i].name@,
                    ) && t.annotation@[i].s@ == typeclass.annotation@[i].s@
                &&& t.body.members@.len() == typeclass.body.members@.len()
                &&& forall|i: int|
                    0 <= i < t.body.members@.len() ==> resolves_member(
                        bs,
                        ps,
                        *typeclass.body.members@[i],
                        *(#[trigger] t.body.members@[i]),
                    )
                &&& t.body.subtypes@.len() == 0
                &&& r.1@.len() == typeclass.body.subtypes@.len()
                &&& forall|i: int|
                    0 <= i < r.1@.len() ==> {
                        &&& (#[trigger] r.1@[i]).type_node == typeclass.body.subtypes@[i]
                        &&& r.1@[i].name@ == typeclass.body.subtypes@[i].name@
                        &&& r.1@[i].ast_root == ast_root
                        &&& r.1@[i].type_member_scope@ == bs
                    }
            }),
    {
        let mut inner = self.duplicate();
        let (_frame, type_params) = inner.push_and_resolve_type_params(&typeclass.type_params, project);
        let ghost bs = inner@;
        // members
        let mut members: Vec<Rc<resolved_types::Member>> = Vec::new();
        let mut i: usize = 0;
        while i < typeclass.body.members.len()
            invariant
                inner@ == bs,
                i <= typeclass.body.members@.len(),
                members@.len() == i,
                forall|k: int|
                    0 <= k < i ==> resolves_member(
                        bs,
                        project.packages(),
                        *typeclass.body.members@[k],
                        *(#[trigger] members@[k]),
                    ),
            decreases typeclass.body.members@.len() - i,
        {
            let m = inner.resolve_member(&typeclass.body.members[i], project);
            members.push(Rc::new(m));
            i = i + 1;
        }
        // the nested types, to be resolved later in this scope
        let mut children: Vec<TypeQueueEntry> = Vec::new();
        let mut j: usize = 0;
        while j < typeclass.body.subtypes.len()
            invariant
                inner@ == bs,
                j <= typeclass.body.subtypes@.len(),
                children@.len() == j,
                forall|k: int|
                    0 <= k < j ==> {
                        &&& (#[trigger] children@[k]).type_node == typeclass.body.subtypes@[k]
                        &&& children@[k].name@ == typeclass.body.subtypes@[k].name@
                        &&& children@[k].ast_root == ast_root
                        &&& children@[k].type_member_scope@ == bs
                    },
            decreases typeclass.body.subtypes@.len() - j,
        {
            let subtype = &typeclass.body.subtypes[j];
            children.push(
                TypeQueueEntry {
                    name: subtype.name.duplicate(),
                    ast_root: ast_root.clone(),
                    type_node: subtype.clone(),
                    type_member_scope: inner.duplicate(),
                },
            );
            j = j + 1;
        }
        // annotations of the type itself
        let mut annotation: Vec<resolved_types::Annotation> = Vec::new();
        let mut k: usize = 0;
        while k < typeclass.annotation.len()
            invariant
                inner@ == bs,
                k <= typeclass.annotation@.len(),
                annotation@.len() == k,
                forall|a: int|
                    0 <= a < k ==> (#[trigger] annotation@[a]).name@ == resolve_name(
                        bs,
                        project.packages(),
                        typeclass.annotation@[a].name@,
                    ) && annotation@[a].s@ == typeclass.annotation@[a].s@,
            decreases typeclass.annotation@.len() - k,
        {
            let x = &typeclass.annotation[k];
            annotation.push(
                resolved_types::Annotation {
                    name: inner.resolve_qualified_name(&x.name, project),
                    s: x.s.clone(),
                },
            );
            k = k + 1;
        }
        let t = resolved_types::Type {
            name: inner.resolve_qualified_name(&typeclass.name, project),
            modifiers: typeclass.modifiers.duplicate(),
            annotation,
            body: resolved_types::TypeBody { members, subtypes: Vec::new() },
            type_kind: inner.resolve_typekind(&typeclass.type_kind, project),
            type_params,
        };
        (t, children)
    }
}

} // verus!
