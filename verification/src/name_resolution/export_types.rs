use vstd::prelude::*;

use std::rc::Rc;

use crate::name_resolution::resolve_types::{entry_index, entry_key, origin, package_index, Package, Project};
use crate::name_resolution::scope::{resolve_name, Binding, Scope};
use crate::resolved_types::{FqnView, FullyQualifiedName, SourceView, TypeSource};
use crate::types::{self, is_proper_prefix, AccessModifier, QualifiedName};

verus! {

/// A nested type that a type hands down to the types that extend or
/// implement it.
#[derive(Debug)]
pub struct ExportedTypeEntry {
    pub name: ExportedTypeEntryName,
    pub visibility: AccessModifier,
    pub root_package: Rc<QualifiedName>,
}

/// Where an exported name comes from.
#[derive(Debug)]
pub enum ExportedTypeEntryName {
    /// Handed down from a parent.
    Inherited(FullyQualifiedName),
    /// Declared inside the type itself.
    Own(FullyQualifiedName),
    /// Handed down from two parents that disagree on it.
    Ambiguous,
}

/// The mathematical value of an [`ExportedTypeEntryName`].
pub enum ExportNameView {
    Inherited(FqnView),
    Own(FqnView),
    Ambiguous,
}

/// The mathematical value of an [`ExportedTypeEntry`].
pub struct ExportView {
    pub name: ExportNameView,
    pub visibility: AccessModifier,
    pub root_package: Seq<Seq<char>>,
}

impl View for ExportedTypeEntryName {
    type V = ExportNameView;

    open spec fn view(&self) -> ExportNameView {
        match self {
            ExportedTypeEntryName::Inherited(f) => ExportNameView::Inherited(f@),
            ExportedTypeEntryName::Own(f) => ExportNameView::Own(f@),
            ExportedTypeEntryName::Ambiguous => ExportNameView::Ambiguous,
        }
    }
}

impl View for ExportedTypeEntry {
    type V = ExportView;

    open spec fn view(&self) -> ExportView {
        ExportView { name: self.name@, visibility: self.visibility, root_package: (*self.root_package)@ }
    }
}

/// The map that a list of (name, entry) pairs describes; a later pair for
/// a name replaces an earlier one.
pub open spec fn export_map(s: Seq<(QualifiedName, ExportedTypeEntry)>) -> Map<
    Seq<Seq<char>>,
    ExportView,
>
    decreases s.len(),
{
    if s.len() == 0 {
        Map::empty()
    } else {
        export_map(s.drop_last()).insert(s.last().0@, s.last().1@)
    }
}

/// What one handed-down entry does to the exports of a type: a name the
/// type declares itself stays its own; a name first seen is adopted as
/// inherited; a name inherited from elsewhere becomes ambiguous if the two
/// disagree; an ambiguous name stays ambiguous.
pub open spec fn merge_entry(m: Map<Seq<Seq<char>>, ExportView>, k: Seq<Seq<char>>, e: ExportView) -> Map<
    Seq<Seq<char>>,
    ExportView,
> {
    if m.contains_key(k) {
        let mine = m[k];
        let ambiguous = ExportView {
            name: ExportNameView::Ambiguous,
            visibility: mine.visibility,
            root_package: mine.root_package,
        };
        match mine.name {
            ExportNameView::Own(_) => m,
            ExportNameView::Inherited(s) => match e.name {
                ExportNameView::Inherited(s1) => if s != s1 {
                    m.insert(k, ambiguous)
                } else {
                    m
                },
                ExportNameView::Own(s1) => if s != s1 {
                    m.insert(k, ambiguous)
                } else {
                    m
                },
                ExportNameView::Ambiguous => m.insert(k, ambiguous),
            },
            ExportNameView::Ambiguous => m.insert(k, ambiguous),
        }
    } else {
        m.insert(
            k,
            ExportView {
                name: match e.name {
                    ExportNameView::Own(s) => ExportNameView::Inherited(s),
                    ExportNameView::Inherited(s) => ExportNameView::Inherited(s),
                    ExportNameView::Ambiguous => ExportNameView::Ambiguous,
                },
                visibility: e.visibility,
                root_package: e.root_package,
            },
        )
    }
}

/// The exports after merging in the handed-down entries `es`, in order.
pub open spec fn merge_all(m: Map<Seq<Seq<char>>, ExportView>, es: Seq<(Seq<Seq<char>>, ExportView)>) -> Map<
    Seq<Seq<char>>,
    ExportView,
>
    decreases es.len(),
{
    if es.len() == 0 {
        m
    } else {
        let prev = merge_all(m, es.drop_last());
        merge_entry(prev, es.last().0, es.last().1)
    }
}

/// The (name, entry) pairs of a list of exports, in order.
pub open spec fn export_pairs(s: Seq<(QualifiedName, ExportedTypeEntry)>) -> Seq<
    (Seq<Seq<char>>, ExportView),
> {
    s.map_values(|p: (QualifiedName, ExportedTypeEntry)| (p.0@, p.1@))
}

/// The pairs of several lists of exports, one list after another.
pub open spec fn all_export_pairs(inhs: Seq<&ExportedInnerTypes>) -> Seq<(Seq<Seq<char>>, ExportView)>
    decreases inhs.len(),
{
    if inhs.len() == 0 {
        Seq::empty()
    } else {
        all_export_pairs(inhs.drop_last()) + export_pairs(inhs.last().pairs())
    }
}

/// The exports a type starts with, before anything is inherited: each
/// nested descendant among `es` (a name with `prefix` as a proper prefix),
/// filed under its name relative to `prefix`, as its own.
pub open spec fn own_exports(es: Seq<crate::name_resolution::resolve_types::TypeIndexEntry>, prefix: Seq<Seq<char>>, pkg: Seq<Seq<char>>) -> Map<
    Seq<Seq<char>>,
    ExportView,
>
    decreases es.len(),
{
    if es.len() == 0 {
        Map::empty()
    } else {
        let prev = own_exports(es.drop_last(), prefix, pkg);
        let e = es.last();
        let key = entry_key(e);
        if is_proper_prefix(prefix, key) {
            prev.insert(
                key.subrange(prefix.len() as int, key.len() as int),
                ExportView {
                    name: ExportNameView::Own(
                        FqnView { source: SourceView::InProject(pkg), typename: key },
                    ),
                    visibility: e.visibility,
                    root_package: pkg,
                },
            )
        } else {
            prev
        }
    }
}

/// Merging the pairs of `a` and then those of `b` is merging those of
/// `a + b`.
pub proof fn lemma_merge_all_concat(m: Map<Seq<Seq<char>>, ExportView>, a: Seq<(Seq<Seq<char>>, ExportView)>, b: Seq<(Seq<Seq<char>>, ExportView)>)
    ensures
        merge_all(m, a + b) == merge_all(merge_all(m, a), b),
    decreases b.len(),
{
    if b.len() == 0 {
        assert(a + b =~= a);
    } else {
        assert((a + b).drop_last() =~= a + b.drop_last());
        assert((a + b).last() == b.last());
        lemma_merge_all_concat(m, a, b.drop_last());
    }
}

/// Two export maps hold the same names, each of the same kind and origin
/// (visibility and package aside).
pub open spec fn same_export_names(m1: Map<Seq<Seq<char>>, ExportView>, m2: Map<Seq<Seq<char>>, ExportView>) -> bool {
    &&& m1.dom() == m2.dom()
    &&& forall|k: Seq<Seq<char>>| #[trigger] m1.contains_key(k) ==> m1[k].name == m2[k].name
}

/// Merging one entry into maps that hold the same names gives maps that
/// hold the same names.
pub proof fn lemma_merge_entry_same_names(
    m1: Map<Seq<Seq<char>>, ExportView>,
    m2: Map<Seq<Seq<char>>, ExportView>,
    k: Seq<Seq<char>>,
    e: ExportView,
)
    requires
        same_export_names(m1, m2),
    ensures
        same_export_names(merge_entry(m1, k, e), merge_entry(m2, k, e)),
{
    assert(merge_entry(m1, k, e).dom() =~= merge_entry(m2, k, e).dom());
}

/// Merging the same entries into maps that hold the same names gives maps
/// that hold the same names.
pub proof fn lemma_merge_all_same_names(
    m1: Map<Seq<Seq<char>>, ExportView>,
    m2: Map<Seq<Seq<char>>, ExportView>,
    es: Seq<(Seq<Seq<char>>, ExportView)>,
)
    requires
        same_export_names(m1, m2),
    ensures
        same_export_names(merge_all(m1, es), merge_all(m2, es)),
    decreases es.len(),
{
    if es.len() > 0 {
        lemma_merge_all_same_names(m1, m2, es.drop_last());
        lemma_merge_entry_same_names(merge_all(m1, es.drop_last()), merge_all(m2, es.drop_last()), es.last().0, es.last().1);
    }
}

/// Merging two handed-down entries in either order gives the same names,
/// each of the same kind and origin.
pub proof fn lemma_merge_entry_swap(
    m: Map<Seq<Seq<char>>, ExportView>,
    x: (Seq<Seq<char>>, ExportView),
    y: (Seq<Seq<char>>, ExportView),
)
    ensures
        same_export_names(
            merge_entry(merge_entry(m, x.0, x.1), y.0, y.1),
            merge_entry(merge_entry(m, y.0, y.1), x.0, x.1),
        ),
{
    let a = merge_entry(merge_entry(m, x.0, x.1), y.0, y.1);
    let b = merge_entry(merge_entry(m, y.0, y.1), x.0, x.1);
    assert(a.dom() =~= b.dom());
}

/// Which of two neighbouring handed-down entries is merged first changes
/// no name of the exports: the same names come out, each own, inherited
/// from the same type, or ambiguous alike, whatever is merged before or
/// after the two. (The visibility and package kept for a name can follow
/// the order.)
pub proof fn law_merge_order_names(
    m: Map<Seq<Seq<char>>, ExportView>,
    before: Seq<(Seq<Seq<char>>, ExportView)>,
    x: (Seq<Seq<char>>, ExportView),
    y: (Seq<Seq<char>>, ExportView),
    after: Seq<(Seq<Seq<char>>, ExportView)>,
)
    ensures
        same_export_names(
            merge_all(m, before + seq![x, y] + after),
            merge_all(m, before + seq![y, x] + after),
        ),
{
    let pre = merge_all(m, before);
    lemma_merge_all_concat(m, before + seq![x, y], after);
    lemma_merge_all_concat(m, before + seq![y, x], after);
    lemma_merge_all_concat(m, before, seq![x, y]);
    lemma_merge_all_concat(m, before, seq![y, x]);
    assert(seq![x, y].drop_last() =~= seq![x]);
    assert(seq![y, x].drop_last() =~= seq![y]);
    assert(seq![x].drop_last() =~= Seq::<(Seq<Seq<char>>, ExportView)>::empty());
    assert(seq![y].drop_last() =~= Seq::<(Seq<Seq<char>>, ExportView)>::empty());
    assert(merge_all(pre, Seq::<(Seq<Seq<char>>, ExportView)>::empty()) == pre);
    assert(merge_all(pre, seq![x]) == merge_entry(pre, x.0, x.1));
    assert(merge_all(pre, seq![y]) == merge_entry(pre, y.0, y.1));
    assert(merge_all(pre, seq![x, y]) == merge_entry(merge_entry(pre, x.0, x.1), y.0, y.1));
    assert(merge_all(pre, seq![y, x]) == merge_entry(merge_entry(pre, y.0, y.1), x.0, x.1));
    lemma_merge_entry_swap(pre, x, y);
    lemma_merge_all_same_names(merge_all(pre, seq![x, y]), merge_all(pre, seq![y, x]), after);
}

/// A name the type declares itself is never replaced by an inherited one.
pub proof fn law_import_keeps_own(m: Map<Seq<Seq<char>>, ExportView>, es: Seq<(Seq<Seq<char>>, ExportView)>, k: Seq<Seq<char>>)
    requires
        m.contains_key(k),
        m[k].name is Own,
    ensures
        merge_all(m, es).contains_key(k),
        merge_all(m, es)[k] == m[k],
    decreases es.len(),
{
    if es.len() > 0 {
        law_import_keeps_own(m, es.drop_last(), k);
    }
}

/// Once a name is ambiguous it stays ambiguous.
pub proof fn law_import_ambiguity_sticky(m: Map<Seq<Seq<char>>, ExportView>, es: Seq<(Seq<Seq<char>>, ExportView)>, k: Seq<Seq<char>>)
    requires
        m.contains_key(k),
        m[k].name is Ambiguous,
    ensures
        merge_all(m, es).contains_key(k),
        merge_all(m, es)[k].name is Ambiguous,
    decreases es.len(),
{
    if es.len() > 0 {
        law_import_ambiguity_sticky(m, es.drop_last(), k);
    }
}

/// After merging, the exported names are those exported before and those
/// handed down; none is dropped.
pub proof fn law_import_names(m: Map<Seq<Seq<char>>, ExportView>, es: Seq<(Seq<Seq<char>>, ExportView)>, k: Seq<Seq<char>>)
    ensures
        merge_all(m, es).contains_key(k) <==> (m.contains_key(k) || exists|j: int| 0 <= j < es.len() && (#[trigger] es[j]).0 == k),
    decreases es.len(),
{
    if es.len() > 0 {
        law_import_names(m, es.drop_last(), k);
        if exists|j: int| 0 <= j < es.drop_last().len() && (#[trigger] es.drop_last()[j]).0 == k {
            let j = choose|j: int| 0 <= j < es.drop_last().len() && (#[trigger] es.drop_last()[j]).0 == k;
            assert(es[j] == es.drop_last()[j]);
        }
        if exists|j: int| 0 <= j < es.len() && (#[trigger] es[j]).0 == k {
            let j = choose|j: int| 0 <= j < es.len() && (#[trigger] es[j]).0 == k;
            if j < es.len() - 1 {
                assert(es.drop_last()[j] == es[j]);
            }
        }
    }
}

/// A name inherited from one origin becomes ambiguous when a handed-down
/// entry gives it another origin, or is itself ambiguous (the diamond
/// case); merging the same origin again changes nothing of that.
pub proof fn law_import_conflict(m: Map<Seq<Seq<char>>, ExportView>, es: Seq<(Seq<Seq<char>>, ExportView)>, k: Seq<Seq<char>>, j: int)
    requires
        m.contains_key(k),
        m[k].name is Inherited,
        0 <= j < es.len(),
        es[j].0 == k,
        match es[j].1.name {
            ExportNameView::Inherited(s) => s != m[k].name->Inherited_0,
            ExportNameView::Own(s) => s != m[k].name->Inherited_0,
            ExportNameView::Ambiguous => true,
        },
    ensures
        merge_all(m, es).contains_key(k),
        merge_all(m, es)[k].name is Ambiguous,
    decreases es.len(),
{
    if j < es.len() - 1 {
        assert(es.drop_last()[j] == es[j]);
        law_import_conflict(m, es.drop_last(), k, j);
    } else {
        lemma_inherited_stays(m, es.drop_last(), k);
    }
}

/// A name inherited from one origin keeps that origin or becomes
/// ambiguous; it never takes another origin.
pub proof fn lemma_inherited_stays(m: Map<Seq<Seq<char>>, ExportView>, es: Seq<(Seq<Seq<char>>, ExportView)>, k: Seq<Seq<char>>)
    requires
        m.contains_key(k),
        m[k].name is Inherited,
    ensures
        merge_all(m, es).contains_key(k),
        merge_all(m, es)[k].name == m[k].name || merge_all(m, es)[k].name is Ambiguous,
    decreases es.len(),
{
    if es.len() > 0 {
        lemma_inherited_stays(m, es.drop_last(), k);
    }
}

/// An inherited name is never turned into the type's own.
pub proof fn lemma_inherited_never_own(m: Map<Seq<Seq<char>>, ExportView>, es: Seq<(Seq<Seq<char>>, ExportView)>, k: Seq<Seq<char>>)
    requires
        m.contains_key(k),
        !(m[k].name is Own),
    ensures
        merge_all(m, es).contains_key(k),
        !(merge_all(m, es)[k].name is Own),
    decreases es.len(),
{
    if es.len() > 0 {
        lemma_inherited_never_own(m, es.drop_last(), k);
    }
}

/// The type usages a type kind extends or implements, in order.
pub open spec fn parent_refs(k: &types::TypeKind) -> Seq<types::RefType> {
    match *k {
        types::TypeKind::Class { inherit_class, implement_interfaces } => match inherit_class {
            Some(c) => seq![c] + implement_interfaces@,
            None => implement_interfaces@,
        },
        types::TypeKind::Enum { implement_interfaces, .. } => implement_interfaces@,
        types::TypeKind::Interface { extend_interfaces } => extend_interfaces@,
        types::TypeKind::Annotation { .. } => Seq::empty(),
    }
}

/// The entry of the project type a parent name resolves to in scope `bs`,
/// if it resolves to a project type.
pub open spec fn parent_entry(bs: Seq<Binding>, ps: Seq<Package>, r: types::RefType) -> Option<crate::name_resolution::resolve_types::TypeIndexEntry> {
    let f = resolve_name(bs, ps, r.name@);
    match f.source {
        SourceView::InProject(pkg) => match package_index(ps, pkg) {
            Some(p) => match entry_index(ps[p].entries(), f.typename) {
                Some(e) => Some(ps[p].entries()[e]),
                None => None,
            },
            None => None,
        },
        _ => None,
    }
}

/// Every parent that resolves to a project type is a type of the project
/// whose exports are known.
pub open spec fn parents_exported(bs: Seq<Binding>, ps: Seq<Package>, parents: Seq<types::RefType>) -> bool {
    forall|i: int|
        0 <= i < parents.len() ==> match resolve_name(bs, ps, (#[trigger] parents[i]).name@).source {
            SourceView::InProject(_) => parent_entry(bs, ps, parents[i]) matches Some(e) && e.export_types is Some,
            _ => true,
        }
}

/// The pairs the parents hand down, parent after parent; a parent outside
/// the project hands down nothing.
pub open spec fn parent_pairs(bs: Seq<Binding>, ps: Seq<Package>, parents: Seq<types::RefType>) -> Seq<(Seq<Seq<char>>, ExportView)>
    decreases parents.len(),
{
    if parents.len() == 0 {
        Seq::empty()
    } else {
        parent_pairs(bs, ps, parents.drop_last()) + match parent_entry(bs, ps, parents.last()) {
            Some(e) => match e.export_types {
                Some(x) => export_pairs(x.pairs()),
                None => Seq::empty(),
            },
            None => Seq::empty(),
        }
    }
}

/// ExportedInnerTypes is viewed by structs that will extend/implement it:
/// the nested types a type hands down, each filed under its name relative
/// to that type.
#[derive(Debug)]
pub struct ExportedInnerTypes(Vec<(QualifiedName, ExportedTypeEntry)>);

impl View for ExportedInnerTypes {
    type V = Map<Seq<Seq<char>>, ExportView>;

    open spec fn view(&self) -> Map<Seq<Seq<char>>, ExportView> {
        export_map(self.pairs())
    }
}

impl ExportedInnerTypes {
    /// The (name, entry) pairs, in the order they were added.
    pub closed spec fn pairs(&self) -> Seq<(QualifiedName, ExportedTypeEntry)> {
        self.0@
    }

    /// No two pairs are filed under the same name.
    pub open spec fn wf(&self) -> bool {
        forall|i: int, j: int|
            0 <= i < j < self.pairs().len() ==> (#[trigger] self.pairs()[i]).0@ != (
            #[trigger] self.pairs()[j]).0@
    }

    /// The (name, entry) pairs, in the order they were added.
    pub fn entries(&self) -> (r: &Vec<(QualifiedName, ExportedTypeEntry)>)
        ensures
            r@ == self.pairs(),
    {
        &self.0
    }

    /// No exports.
    pub fn new() -> (r: Self)
        ensures
            r@ == Map::<Seq<Seq<char>>, ExportView>::empty(),
            r.wf(),
    {
        ExportedInnerTypes(Vec::new())
    }

    /// The position of the pair filed under `name`, if any.
    fn position(&self, name: &QualifiedName) -> (r: Option<usize>)
        requires
            self.wf(),
        ensures
            r matches Some(i) ==> i < self.pairs().len() && self.pairs()[i as int].0@ == name@,
            r is None ==> forall|i: int|
                0 <= i < self.pairs().len() ==> (#[trigger] self.pairs()[i]).0@ != name@,
    {
        let mut i: usize = 0;
        while i < self.0.len()
            invariant
                i <= self.0@.len(),
                forall|k: int| 0 <= k < i ==> (#[trigger] self.0@[k]).0@ != name@,
            decreases self.0@.len() - i,
        {
            if self.0[i].0.same_as(name) {
                return Some(i);
            }
            i = i + 1;
        }
        None
    }

    /// The entry exported under `name`, if any.
    pub fn get(&self, name: &QualifiedName) -> (r: Option<&ExportedTypeEntry>)
        requires
            self.wf(),
        ensures
            r is Some <==> self@.contains_key(name@),
            r matches Some(e) ==> e@ == self@[name@],
    {
        proof {
            lemma_export_map_keys(self.pairs());
        }
        match self.position(name) {
            Some(i) => {
                proof {
                    lemma_export_map_at(self.pairs(), i as int);
                }
                Some(&self.0[i].1)
            },
            None => None,
        }
    }

    /// Exports `entry` under `name`, replacing what was exported under it.
    pub fn insert(&mut self, name: QualifiedName, entry: ExportedTypeEntry)
        requires
            old(self).wf(),
        ensures
            final(self).wf(),
            final(self)@ == old(self)@.insert(name@, entry@),
    {
        proof {
            lemma_export_map_keys(self.pairs());
        }
        let ghost before = self.0@;
        let ghost k = name@;
        let ghost v = entry@;
        match self.position(&name) {
            Some(i) => {
                self.0.remove(i);
                proof {
                    lemma_export_map_remove(before, i as int);
                    assert forall|a: int| 0 <= a < self.0@.len() implies (#[trigger] self.0@[a]).0@ != k by {
                        let a0 = if a < i { a } else { a + 1 };
                        assert(self.0@[a] == before[a0]);
                        if a0 != i as int {
                            assert(before[a0].0@ != before[i as int].0@);
                        }
                    }
                }
            },
            None => {},
        }
        let ghost mid = self.0@;
        assert(export_map(mid) =~= export_map(before).remove(k)) by {
            lemma_export_map_keys(before);
            if !export_map(before).contains_key(k) {
                assert(mid == before);
            }
        }
        self.0.push((name, entry));
        assert(self.0@.drop_last() =~= mid);
        assert(export_map(self.0@) =~= export_map(before).insert(k, v));
        assert forall|a: int, b: int|
            0 <= a < b < self.0@.len() implies (#[trigger] self.0@[a]).0@ != (#[trigger] self.0@[b]).0@ by {
            if b < self.0@.len() - 1 {
                assert(self.0@[a] == mid[a]);
                assert(self.0@[b] == mid[b]);
            } else {
                assert(self.0@[a] == mid[a]);
            }
        }
    }
}

/// The names in a list of pairs are exactly the keys of its map.
pub proof fn lemma_export_map_keys(s: Seq<(QualifiedName, ExportedTypeEntry)>)
    ensures
        forall|k: Seq<Seq<char>>|
            export_map(s).contains_key(k) <==> exists|i: int| 0 <= i < s.len() && (#[trigger] s[i]).0@ == k,
    decreases s.len(),
{
    if s.len() > 0 {
        lemma_export_map_keys(s.drop_last());
        assert forall|k: Seq<Seq<char>>|
            export_map(s).contains_key(k) <==> exists|i: int| 0 <= i < s.len() && (#[trigger] s[i]).0@ == k by {
            if export_map(s.drop_last()).contains_key(k) {
                let i = choose|i: int| 0 <= i < s.drop_last().len() && (#[trigger] s.drop_last()[i]).0@ == k;
                assert(s[i] == s.drop_last()[i]);
            }
            if exists|i: int| 0 <= i < s.len() && (#[trigger] s[i]).0@ == k {
                let i = choose|i: int| 0 <= i < s.len() && (#[trigger] s[i]).0@ == k;
                if i < s.len() - 1 {
                    assert(s.drop_last()[i] == s[i]);
                }
            }
        }
    }
}

/// With distinct names, the map holds each pair's entry under its name.
pub proof fn lemma_export_map_at(s: Seq<(QualifiedName, ExportedTypeEntry)>, i: int)
    requires
        0 <= i < s.len(),
        forall|a: int, b: int| 0 <= a < b < s.len() ==> (#[trigger] s[a]).0@ != (#[trigger] s[b]).0@,
    ensures
        export_map(s).contains_key(s[i].0@),
        export_map(s)[s[i].0@] == s[i].1@,
    decreases s.len(),
{
    if i < s.len() - 1 {
        assert forall|a: int, b: int|
            0 <= a < b < s.drop_last().len() implies (#[trigger] s.drop_last()[a]).0@ != (
            #[trigger] s.drop_last()[b]).0@ by {
            assert(s.drop_last()[a] == s[a]);
            assert(s.drop_last()[b] == s[b]);
        }
        assert(s.drop_last()[i] == s[i]);
        lemma_export_map_at(s.drop_last(), i);
    }
}

/// Removing the only pair filed under a name removes that name from the
/// map and leaves the rest.
pub proof fn lemma_export_map_remove(s: Seq<(QualifiedName, ExportedTypeEntry)>, i: int)
    requires
        0 <= i < s.len(),
        forall|a: int, b: int| 0 <= a < b < s.len() ==> (#[trigger] s[a]).0@ != (#[trigger] s[b]).0@,
    ensures
        export_map(s.remove(i)) == export_map(s).remove(s[i].0@),
        forall|a: int, b: int|
            0 <= a < b < s.remove(i).len() ==> (#[trigger] s.remove(i)[a]).0@ != (
            #[trigger] s.remove(i)[b]).0@,
    decreases s.len(),
{
    lemma_export_map_keys(s);
    if i == s.len() - 1 {
        assert(s.remove(i) =~= s.drop_last());
        lemma_export_map_keys(s.drop_last());
        assert(!export_map(s.drop_last()).contains_key(s[i].0@)) by {
            if export_map(s.drop_last()).contains_key(s[i].0@) {
                let j = choose|j: int|
                    0 <= j < s.drop_last().len() && (#[trigger] s.drop_last()[j]).0@ == s[i].0@;
                assert(s[j] == s.drop_last()[j]);
            }
        }
        assert(export_map(s.remove(i)) =~= export_map(s).remove(s[i].0@));
    } else {
        let t = s.drop_last();
        assert forall|a: int, b: int| 0 <= a < b < t.len() implies (#[trigger] t[a]).0@ != (
            #[trigger] t[b]).0@ by {
            assert(t[a] == s[a]);
            assert(t[b] == s[b]);
        }
        assert(t[i] == s[i]);
        lemma_export_map_remove(t, i);
        assert(s.remove(i) =~= t.remove(i).push(s.last()));
        assert(s.remove(i).drop_last() =~= t.remove(i));
        assert(s.last().0@ != s[i].0@);
        assert(export_map(s.remove(i)) =~= export_map(s).remove(s[i].0@));
    }
    assert forall|a: int, b: int|
        0 <= a < b < s.remove(i).len() implies (#[trigger] s.remove(i)[a]).0@ != (
        #[trigger] s.remove(i)[b]).0@ by {
        let a0 = if a < i { a } else { a + 1 };
        let b0 = if b < i { b } else { b + 1 };
        assert(s.remove(i)[a] == s[a0]);
        assert(s.remove(i)[b] == s[b0]);
    }
}

impl ExportedInnerTypes {
    /// The exports a type starts with: every nested descendant of `node`
    /// among the types of `package`, filed under its name relative to
    /// `node`, as its own, whatever its visibility. `node` itself is not
    /// among them.
    pub fn from_type_pre_inheritance(node: Rc<types::Type>, package: &Package) -> (r: Self)
        ensures
            r.wf(),
            r@ == own_exports(package.entries(), node.name@, package.package@),
    {
        let prefix = &node.name;
        let mut res = Self::new();
        let from_package = Rc::new(package.package.duplicate());
        let es = package.iter();
        let mut j: usize = 0;
        assert(es@.subrange(0, 0) =~= Seq::<crate::name_resolution::resolve_types::TypeIndexEntry>::empty());
        while j < es.len()
            invariant
                es@ == package.entries(),
                j <= es@.len(),
                res.wf(),
                (*from_package)@ == package.package@,
                res@ == own_exports(es@.subrange(0, j as int), prefix@, package.package@),
            decreases es@.len() - j,
        {
            let entry = &es[j];
            let name = &entry.name.typename;
            assert(es@.subrange(0, j + 1).drop_last() =~= es@.subrange(0, j as int));
            if name.has_proper_prefix(prefix) {
                let k = name.get_suffix(prefix.len()).unwrap();
                let v = ExportedTypeEntry {
                    name: ExportedTypeEntryName::Own(
                        FullyQualifiedName {
                            source: TypeSource::InProjectType { package: package.package.duplicate() },
                            typename: name.duplicate(),
                        },
                    ),
                    visibility: entry.visibility,
                    root_package: from_package.clone(),
                };
                res.insert(k, v);
            }
            j = j + 1;
        }
        assert(es@.subrange(0, j as int) =~= es@);
        res
    }

    /// Marks the name `name`, which must be exported, as ambiguous.
    fn mark_ambiguous(&mut self, name: &QualifiedName)
        requires
            old(self).wf(),
            old(self)@.contains_key(name@),
        ensures
            final(self).wf(),
            final(self)@ == old(self)@.insert(
                name@,
                ExportView {
                    name: ExportNameView::Ambiguous,
                    visibility: old(self)@[name@].visibility,
                    root_package: old(self)@[name@].root_package,
                },
            ),
    {
        let e = self.get(name).unwrap();
        let v = ExportedTypeEntry {
            name: ExportedTypeEntryName::Ambiguous,
            visibility: e.visibility,
            root_package: e.root_package.clone(),
        };
        self.insert(name.duplicate(), v);
    }

    /// Merges in one handed-down entry (see [`merge_entry`]).
    fn import_entry(&mut self, name: &QualifiedName, entry: &ExportedTypeEntry)
        requires
            old(self).wf(),
        ensures
            final(self).wf(),
            final(self)@ == merge_entry(old(self)@, name@, entry@),
    {
        let mut set_ambiguous = false;
        match self.get(name) {
            Some(my_entry) => {
                match &my_entry.name {
                    ExportedTypeEntryName::Own(_) => {},
                    ExportedTypeEntryName::Inherited(s) => match &entry.name {
                        ExportedTypeEntryName::Inherited(s1) => {
                            if !s.same_as(s1) {
                                set_ambiguous = true;
                            }
                        },
                        ExportedTypeEntryName::Own(s1) => {
                            if !s.same_as(s1) {
                                set_ambiguous = true;
                            }
                        },
                        ExportedTypeEntryName::Ambiguous => {
                            set_ambiguous = true;
                        },
                    },
                    ExportedTypeEntryName::Ambiguous => {
                        set_ambiguous = true;
                    },
                }
                if set_ambiguous {
                    self.mark_ambiguous(name);
                }
            },
            None => {
                let n = match &entry.name {
                    ExportedTypeEntryName::Own(s) => ExportedTypeEntryName::Inherited(s.duplicate()),
                    ExportedTypeEntryName::Inherited(s) => ExportedTypeEntryName::Inherited(s.duplicate()),
                    ExportedTypeEntryName::Ambiguous => ExportedTypeEntryName::Ambiguous,
                };
                self.insert(
                    name.duplicate(),
                    ExportedTypeEntry {
                        name: n,
                        visibility: entry.visibility,
                        root_package: entry.root_package.clone(),
                    },
                );
            },
        }
    }

    /// Merges in what the parents hand down, parent after parent, entry
    /// after entry: a name the type declares itself stays its own, a new
    /// name is adopted as inherited, two different origins for one name make
    /// it ambiguous, and an ambiguous name stays ambiguous (see the
    /// `law_import_*` laws).
    pub fn import_inheritance(&mut self, inheritances: &[&ExportedInnerTypes])
        requires
            old(self).wf(),
        ensures
            final(self).wf(),
            final(self)@ == merge_all(old(self)@, all_export_pairs(inheritances@)),
    {
        let ghost inhs = inheritances@;
        let mut i: usize = 0;
        assert(inhs.subrange(0, 0) =~= Seq::<&ExportedInnerTypes>::empty());
        while i < inheritances.len()
            invariant
                inhs == inheritances@,
                i <= inhs.len(),
                self.wf(),
                self@ == merge_all(old(self)@, all_export_pairs(inhs.subrange(0, i as int))),
            decreases inhs.len() - i,
        {
            let inheritance = inheritances[i];
            let pairs = inheritance.entries();
            let ghost base = all_export_pairs(inhs.subrange(0, i as int));
            let mut j: usize = 0;
            assert(export_pairs(pairs@.subrange(0, 0)) =~= Seq::<(Seq<Seq<char>>, ExportView)>::empty());
            assert(base + Seq::<(Seq<Seq<char>>, ExportView)>::empty() =~= base);
            while j < pairs.len()
                invariant
                    pairs@ == inheritance.pairs(),
                    j <= pairs@.len(),
                    self.wf(),
                    self@ == merge_all(old(self)@, base + export_pairs(pairs@.subrange(0, j as int))),
                decreases pairs@.len() - j,
            {
                let (name, entry) = &pairs[j];
                let ghost before = base + export_pairs(pairs@.subrange(0, j as int));
                self.import_entry(name, entry);
                proof {
                    let after = base + export_pairs(pairs@.subrange(0, j + 1));
                    assert(after =~= before.push((name@, entry@)));
                    assert(after.drop_last() =~= before);
                }
                j = j + 1;
            }
            proof {
                assert(pairs@.subrange(0, j as int) =~= pairs@);
                assert(inhs.subrange(0, i + 1).drop_last() =~= inhs.subrange(0, i as int));
                assert(inhs.subrange(0, i + 1).last() == inheritance);
            }
            i = i + 1;
        }
        assert(inhs.subrange(0, i as int) =~= inhs);
    }

    /// Adds the exports of the project type `r` resolves to in `scope`, if
    /// it resolves to a project type.
    fn push_parent_exports<'p>(scope: &Scope, project: &'p Project, r: &types::RefType, out: &mut Vec<&'p ExportedInnerTypes>)
        requires
            parents_exported(scope@, project.packages(), seq![*r]),
        ensures
            all_export_pairs(final(out)@) == all_export_pairs(old(out)@) + match parent_entry(
                scope@,
                project.packages(),
                *r,
            ) {
                Some(e) => match e.export_types {
                    Some(x) => export_pairs(x.pairs()),
                    None => Seq::empty(),
                },
                None => Seq::empty(),
            },
    {
        assert(seq![*r][0] == *r);
        let fqn = scope.resolve_qualified_name(&r.name, project);
        match &fqn.source {
            TypeSource::InProjectType { package } => {
                let pkg = project.get_package(package).unwrap();
                let type_ind = pkg.get_type(&fqn.typename).unwrap();
                let x = type_ind.export_types.as_ref().unwrap();
                let ghost before = out@;
                out.push(x);
                assert(out@.drop_last() =~= before);
            },
            _ => {
                assert(all_export_pairs(old(out)@) + Seq::<(Seq<Seq<char>>, ExportView)>::empty() =~= all_export_pairs(old(out)@));
            },
        }
    }

    /// The exports of a type: its own nested types, then what its parents
    /// (the types it extends or implements, as resolved in `scope`) hand
    /// down, merged in order.
    pub fn from_type(node: Rc<types::Type>, scope: &Scope, project: &Project) -> (r: Self)
        requires
            origin(project.packages(), node.name@) is Some,
            parents_exported(scope@, project.packages(), parent_refs(&node.type_kind)),
        ensures
            r.wf(),
            ({
                let (p, _) = origin(project.packages(), node.name@).unwrap();
                let pkg = project.packages()[p];
                r@ == merge_all(
                    own_exports(pkg.entries(), node.name@, pkg.package@),
                    parent_pairs(scope@, project.packages(), parent_refs(&node.type_kind)),
                )
            }),
    {
        let (pkg, _) = project.get_origin_package(&node.name).unwrap();
        let mut res = Self::from_type_pre_inheritance(node.clone(), pkg);
        let mut inheritance_import_vec: Vec<&ExportedInnerTypes> = Vec::new();
        assert(inheritance_import_vec@ =~= Seq::<&ExportedInnerTypes>::empty());
        let ghost bs = scope@;
        let ghost ps = project.packages();
        let ghost parents = parent_refs(&node.type_kind);
        let refs: &Vec<types::RefType> = match &node.type_kind {
            types::TypeKind::Class { inherit_class, implement_interfaces } => {
                match inherit_class {
                    Some(c) => {
                        assert(parents[0] == *c);
                        Self::push_parent_exports(scope, project, c, &mut inheritance_import_vec);
                        assert(parent_pairs(bs, ps, parents.subrange(0, 1)) =~= all_export_pairs(inheritance_import_vec@)) by {
                            assert(parents.subrange(0, 1).drop_last() =~= Seq::<types::RefType>::empty());
                            assert(parents.subrange(0, 1).last() == *c);
                            assert(parent_pairs(bs, ps, Seq::<types::RefType>::empty()) =~= Seq::<(Seq<Seq<char>>, ExportView)>::empty());
                            assert(all_export_pairs(Seq::<&ExportedInnerTypes>::empty()) =~= Seq::<(Seq<Seq<char>>, ExportView)>::empty());
                        }
                    },
                    None => {},
                }
                implement_interfaces
            },
            types::TypeKind::Enum { implement_interfaces, .. } => implement_interfaces,
            types::TypeKind::Interface { extend_interfaces } => extend_interfaces,
            types::TypeKind::Annotation { .. } => {
                assert(all_export_pairs(inheritance_import_vec@) =~= parent_pairs(bs, ps, parents));
                res.import_inheritance(inheritance_import_vec.as_slice());
                return res;
            },
        };
        let ghost offset = parents.len() - refs@.len();
        assert(offset == 0 || offset == 1);
        assert(forall|k: int| 0 <= k < refs@.len() ==> #[trigger] refs@[k] == parents[offset + k]);
        assert(all_export_pairs(inheritance_import_vec@) == parent_pairs(bs, ps, parents.subrange(0, offset))) by {
            if offset == 0 {
                assert(parents.subrange(0, 0) =~= Seq::<types::RefType>::empty());
            }
        }
        let mut i: usize = 0;
        while i < refs.len()
            invariant
                bs == scope@,
                ps == project.packages(),
                parents == parent_refs(&node.type_kind),
                parents_exported(bs, ps, parents),
                offset + refs@.len() == parents.len(),
                0 <= offset,
                forall|k: int| 0 <= k < refs@.len() ==> #[trigger] refs@[k] == parents[offset + k],
                i <= refs@.len(),
                all_export_pairs(inheritance_import_vec@) == parent_pairs(bs, ps, parents.subrange(0, offset + i)),
            decreases refs@.len() - i,
        {
            assert(parents[offset + i] == refs@[i as int]);
            assert(parents_exported(bs, ps, seq![refs@[i as int]])) by {
                assert(seq![refs@[i as int]][0] == parents[offset + i]);
            }
            Self::push_parent_exports(scope, project, &refs[i], &mut inheritance_import_vec);
            assert(parents.subrange(0, offset + i + 1).drop_last() =~= parents.subrange(0, offset + i));
            i = i + 1;
        }
        assert(parents.subrange(0, offset + i) =~= parents);
        res.import_inheritance(inheritance_import_vec.as_slice());
        res
    }
}

} // verus!
