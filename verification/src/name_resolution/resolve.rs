use vstd::prelude::*;

use std::rc::Rc;

use crate::name_resolution::err::ReadProjectErr;
use crate::name_resolution::export_types::{parent_entry, parent_refs, parents_exported, ExportedInnerTypes};
use crate::name_resolution::resolve_types::{
    entry_index, entry_key, entry_keys, origin, origin_from, package_index, package_type_names, rc_type, type_forest, type_tree,
    NameResolutionErr, Package, Project, TypeIndexEntry,
};
use crate::name_resolution::waiting::{
    file_pairs, lemma_contains_concat, lemma_file_pair_listed, lemma_file_pairs_distinct, lemma_file_pairs_slot,
    lemma_forest_prefix, lemma_forest_slot, lemma_listed_file_pair, lemma_listed_located, lemma_locate_found,
    lemma_locate_unique, lemma_queued_pairs_children, lemma_queued_pairs_concat, lemma_queued_pairs_first,
    lemma_queued_pairs_push, lemma_resolved_at_after_update, lemma_tree_pairs_concat,
    lemma_tree_pairs_index, lemma_tree_pairs_tree, names_distinct, pairs_distinct, pairs_filed, queued_pairs,
    resolved_at, tree_pairs, unresolved_among,
};
use crate::name_resolution::scope::{baseline_bindings, resolve_name, Binding, Scope};
use crate::resolved_types::{self, SourceView, TypeSource};
use crate::types::{self, QualifiedName};

verus! {

broadcast use vstd::std_specs::vec::axiom_vec_index_decreases;

/// A type waiting to be resolved, with the scope its body is resolved in.
#[derive(Debug)]
pub struct TypeQueueEntry {
    pub name: QualifiedName,
    pub ast_root: Rc<types::JavaFile>,
    pub type_node: Rc<types::Type>,
    pub type_member_scope: Scope,
}

/// The file and the type of a queue entry.
pub open spec fn entry_view(e: TypeQueueEntry) -> (types::JavaFile, types::Type) {
    (*e.ast_root, *e.type_node)
}

/// The top-level types of the files, each with its file: file after file,
/// each file's types in order.
pub open spec fn top_level_entries(asts: Seq<Rc<types::JavaFile>>) -> Seq<(types::JavaFile, types::Type)>
    decreases asts.len(),
{
    if asts.len() == 0 {
        Seq::empty()
    } else {
        let f = *asts.last();
        top_level_entries(asts.drop_last()) + f.type_decls@.map_values(|t: Rc<types::Type>| (f, *t))
    }
}

/// The type `t` of package `pkg` can be resolved on its own: it names no
/// parent (no `extends`, no `implements`), the package has a name, and the
/// type's name is the package's followed by at least one more word.
pub open spec fn standalone_type(pkg: Seq<Seq<char>>, t: types::Type) -> bool {
    &&& parent_refs(&t.type_kind).len() == 0
    &&& 1 <= pkg.len() < t.name@.len()
    &&& t.name@.subrange(0, pkg.len() as int) == pkg
}

/// Every type of the files, nested ones included, can be resolved on its
/// own (see [`standalone_type`]).
pub open spec fn files_standalone(asts: Seq<Rc<types::JavaFile>>) -> bool {
    forall|i: int, k: int|
        0 <= i < asts.len() && 0 <= k < type_forest(asts[i].type_decls@).len() ==> standalone_type(
            asts[i].package_name@,
            #[trigger] type_forest(asts[i].type_decls@)[k],
        )
}

/// Every type of the tree of a queue entry can be resolved on its own.
pub open spec fn entry_standalone(e: TypeQueueEntry) -> bool {
    forall|k: int|
        0 <= k < type_tree(rc_type(&e.type_node)).len() ==> standalone_type(
            e.ast_root.package_name@,
            #[trigger] type_tree(rc_type(&e.type_node))[k],
        )
}

/// A name is found by [`origin_from`] from `i` on when some prefix of it at
/// least `i` long is a package holding it.
pub proof fn lemma_origin_from_found(ps: Seq<Package>, name: Seq<Seq<char>>, i: int, j: int)
    requires
        1 <= i <= j < name.len(),
        package_index(ps, name.subrange(0, j)) matches Some(p) && entry_index(ps[p].entries(), name) is Some,
    ensures
        origin_from(ps, name, i) is Some,
    decreases j - i,
{
    if i < j {
        lemma_origin_from_found(ps, name, i + 1, j);
    }
}

/// A type filed in its package, whose name extends the package's, has an
/// origin.
pub proof fn lemma_standalone_origin(project: Project, pkg: Seq<Seq<char>>, t: types::Type)
    requires
        standalone_type(pkg, t),
        project.locate(pkg, t.name@) is Some,
    ensures
        origin(project.packages(), t.name@) is Some,
{
    lemma_origin_from_found(project.packages(), t.name@, 1, pkg.len() as int);
}

/// Each top-level entry is a top-level type of one of the files, with that
/// file.
pub proof fn lemma_top_level_entry(asts: Seq<Rc<types::JavaFile>>, q: int)
    requires
        0 <= q < top_level_entries(asts).len(),
    ensures
        exists|i: int, j: int|
            0 <= i < asts.len() && 0 <= j < asts[i].type_decls@.len() && #[trigger] top_level_entries(asts)[q] == (
            *asts[i],
            *asts[i].type_decls@[j],
        ),
    decreases asts.len(),
{
    let pre = top_level_entries(asts.drop_last());
    if q < pre.len() {
        lemma_top_level_entry(asts.drop_last(), q);
        let (i, j) = choose|i: int, j: int|
            0 <= i < asts.drop_last().len() && 0 <= j < asts.drop_last()[i].type_decls@.len()
                && #[trigger] top_level_entries(asts.drop_last())[q] == (
            *asts.drop_last()[i],
            *asts.drop_last()[i].type_decls@[j],
        );
        assert(asts.drop_last()[i] == asts[i]);
        assert(top_level_entries(asts)[q] == pre[q]);
    } else {
        let i = asts.len() - 1;
        let j = q - pre.len();
        assert(top_level_entries(asts)[q] == (*asts[i], *asts[i].type_decls@[j]));
    }
}

/// When every type of the files can be resolved on its own, so can the
/// tree of each entry queued at the start.
pub proof fn lemma_top_level_standalone(asts: Seq<Rc<types::JavaFile>>, q: Seq<TypeQueueEntry>)
    requires
        files_standalone(asts),
        q.map_values(|e: TypeQueueEntry| entry_view(e)) == top_level_entries(asts),
    ensures
        forall|m: int| 0 <= m < q.len() ==> #[trigger] entry_standalone(q[m]),
{
    assert forall|m: int| 0 <= m < q.len() implies #[trigger] entry_standalone(q[m]) by {
        assert(q.map_values(|e: TypeQueueEntry| entry_view(e))[m] == entry_view(q[m]));
        lemma_top_level_entry(asts, m);
        let (i, j) = choose|i: int, j: int|
            0 <= i < asts.len() && 0 <= j < asts[i].type_decls@.len() && #[trigger] top_level_entries(asts)[m] == (
            *asts[i],
            *asts[i].type_decls@[j],
        );
        let decls = asts[i].type_decls@;
        assert forall|k: int| 0 <= k < type_tree(rc_type(&q[m].type_node)).len() implies standalone_type(
            q[m].ast_root.package_name@,
            #[trigger] type_tree(rc_type(&q[m].type_node))[k],
        ) by {
            assert(rc_type(&q[m].type_node) == rc_type(&decls[j]));
            lemma_forest_slot(decls, j, k);
            let kk = type_forest(decls.take(j)).len() + k;
            assert(standalone_type(asts[i].package_name@, type_forest(decls)[kk]));
        }
    }
}

/// The nested types of a queued type can be resolved on their own when it
/// can.
pub proof fn lemma_children_standalone(e: TypeQueueEntry, c: TypeQueueEntry, i: int)
    requires
        entry_standalone(e),
        0 <= i < e.type_node.body.subtypes@.len(),
        c.type_node == e.type_node.body.subtypes@[i],
        c.ast_root == e.ast_root,
    ensures
        entry_standalone(c),
{
    let t = rc_type(&e.type_node);
    let subs = t.body.subtypes@;
    assert(type_tree(t) == seq![t] + type_forest(subs));
    assert forall|k: int| 0 <= k < type_tree(rc_type(&c.type_node)).len() implies standalone_type(
        c.ast_root.package_name@,
        #[trigger] type_tree(rc_type(&c.type_node))[k],
    ) by {
        lemma_forest_slot(subs, i, k);
        let kk = type_forest(subs.take(i)).len() + k;
        assert(type_tree(t)[1 + kk] == type_forest(subs)[kk]);
    }
}

/// Whether the resolver has types left to resolve.
#[derive(Debug, Clone, Copy, PartialEq, Eq, Structural)]
pub enum ResolveStatus {
    Finished,
    Unfinished,
}

/// Why a set of files could not be resolved.
#[derive(Debug)]
pub enum ResolveError {
    /// The files could not be turned into a project.
    ReadProject(ReadProjectErr),
    /// Resolution stopped.
    NameResolution(NameResolutionErr),
}

/// Every resolved type's exports are known.
pub open spec fn exported_if_resolved(ps: Seq<Package>) -> bool {
    forall|p: int, e: int|
        0 <= p < ps.len() && 0 <= e < ps[p].entries().len() ==> ((#[trigger] ps[p].entries()[e]).resolved_node is Some
            ==> ps[p].entries()[e].export_types is Some)
}

/// What checking one parent gives: whether the project type it resolves
/// to is resolved already (a type from outside the project, or a type
/// parameter, counts as resolved), or an error for a parent that is
/// ambiguous, primitive, or named as a project type that does not exist.
pub open spec fn parent_status(bs: Seq<Binding>, ps: Seq<Package>, r: types::RefType) -> Result<bool, NameResolutionErr> {
    let f = resolve_name(bs, ps, r.name@);
    match f.source {
        SourceView::InProject(pkg) => match package_index(ps, pkg) {
            Some(p) => match entry_index(ps[p].entries(), f.typename) {
                Some(e) => Ok(ps[p].entries()[e].resolved_node is Some),
                None => Err(NameResolutionErr::MissingType),
            },
            None => Err(NameResolutionErr::MissingType),
        },
        SourceView::Ambiguous => Err(NameResolutionErr::AmbiguousParent),
        SourceView::Primitive(_) => Err(NameResolutionErr::PrimitiveParent),
        SourceView::External => Ok(true),
        SourceView::Generic => Ok(true),
    }
}

/// Checking the parents in order, stopping at the first that is not
/// resolved or is in error.
pub open spec fn parents_status(bs: Seq<Binding>, ps: Seq<Package>, parents: Seq<types::RefType>) -> Result<bool, NameResolutionErr>
    decreases parents.len(),
{
    if parents.len() == 0 {
        Ok(true)
    } else {
        match parent_status(bs, ps, parents[0]) {
            Err(e) => Err(e),
            Ok(false) => Ok(false),
            Ok(true) => parents_status(bs, ps, parents.drop_first()),
        }
    }
}

/// When every parent is resolved, every parent's exports are known.
pub proof fn lemma_ready_parents_exported(bs: Seq<Binding>, ps: Seq<Package>, parents: Seq<types::RefType>)
    requires
        parents_status(bs, ps, parents) == Ok::<bool, NameResolutionErr>(true),
        exported_if_resolved(ps),
    ensures
        parents_exported(bs, ps, parents),
    decreases parents.len(),
{
    if parents.len() > 0 {
        lemma_ready_parents_exported(bs, ps, parents.drop_first());
        assert forall|i: int| 0 <= i < parents.len() implies match resolve_name(bs, ps, (#[trigger] parents[i]).name@).source {
            SourceView::InProject(_) => parent_entry(bs, ps, parents[i]) matches Some(e) && e.export_types is Some,
            _ => true,
        } by {
            if i > 0 {
                assert(parents.drop_first()[i - 1] == parents[i]);
            } else {
                let f = resolve_name(bs, ps, parents[0].name@);
                assert(parent_status(bs, ps, parents[0]) == Ok::<bool, NameResolutionErr>(true));
                match f.source {
                    SourceView::InProject(pkg) => {
                        let p = package_index(ps, pkg).unwrap();
                        crate::name_resolution::resolve_types::lemma_package_index_from(ps, pkg, 0);
                        let e = entry_index(ps[p].entries(), f.typename).unwrap();
                        crate::name_resolution::resolve_types::lemma_entry_index_from(ps[p].entries(), f.typename, 0);
                        assert(ps[p].entries()[e].resolved_node is Some);
                    },
                    _ => {},
                }
            }
        }
    }
}

/// `r` has the nesting of `t`: as many nested types, each with the nesting
/// of the matching one.
pub open spec fn same_shape(t: types::Type, r: resolved_types::Type) -> bool
    decreases t,
{
    &&& r.body.subtypes@.len() == t.body.subtypes@.len()
    &&& forall|i: int|
        0 <= i < t.body.subtypes@.len() ==> same_shape(*t.body.subtypes[i], *(#[trigger] r.body.subtypes@[i]))
}

/// Each top-level type of the tree has the nesting of the matching type of
/// the file.
pub open spec fn files_same_shape(f: types::JavaFile, tree: resolved_types::FileTypeTree) -> bool {
    &&& tree.0@.len() == f.type_decls@.len()
    &&& forall|i: int| 0 <= i < f.type_decls@.len() ==> same_shape(*f.type_decls@[i], *(#[trigger] tree.0@[i]))
}

/// Once its queue is empty, the resolver has resolved every type of the
/// project: no type is left without a resolved form.
pub proof fn law_empty_queue_all_resolved(r: Resolver)
    requires
        r.wf(),
        r.queue@.len() == 0,
    ensures
        forall|p: int, e: int|
            0 <= p < r.project.packages().len() && 0 <= e < r.project.packages()[p].entries().len()
                ==> (#[trigger] r.project.packages()[p].entries()[e]).resolved_node is Some,
{
    assert(r.queue@ =~= Seq::<TypeQueueEntry>::empty());
    assert(queued_pairs(r.queue@) =~= Seq::<(Seq<Seq<char>>, Seq<Seq<char>>)>::empty());
    let ps = r.project.packages();
    assert forall|p: int, e: int|
        0 <= p < ps.len() && 0 <= e < ps[p].entries().len() implies (#[trigger] ps[p].entries()[e]).resolved_node is Some by {
        if ps[p].entries()[e].resolved_node is None {
            assert(queued_pairs(r.queue@).contains((ps[p].package@, entry_key(ps[p].entries()[e]))));
        }
    }
}

/// Resolves the types of a project in an order that puts every type after
/// the types it extends or implements.
#[derive(Debug)]
pub struct Resolver {
    pub queue: Vec<TypeQueueEntry>,
    pub project: Project,
    pub early_termination_counter: usize,
}

impl Resolver {
    /// The resolver's parts agree: the project is well formed, the resolved
    /// types' exports are known, every queued type is filed under its own
    /// name, and the counter of postponed types never passes the queue.
    pub open spec fn wf_core(&self) -> bool {
        &&& self.project.wf()
        &&& exported_if_resolved(self.project.packages())
        &&& self.early_termination_counter <= self.queue@.len()
        &&& forall|i: int|
            0 <= i < self.queue@.len() ==> (#[trigger] self.queue@[i]).name@ == self.queue@[i].type_node.name@
    }

    /// The resolver's invariant: its parts agree, every type waiting in the
    /// queue (nested ones included) is filed in the project, and every type
    /// of the project not yet resolved is waiting.
    pub open spec fn wf(&self) -> bool {
        &&& self.wf_core()
        &&& pairs_filed(queued_pairs(self.queue@), self.project)
        &&& unresolved_among(queued_pairs(self.queue@), self.project.packages())
    }

    /// How far the resolver is from done: the number of types waiting,
    /// nested ones included, then how many queued types are still to be
    /// tried before the queue is known to be stuck.
    pub open spec fn progress(&self) -> (nat, nat) {
        (queued_pairs(self.queue@).len(), (self.queue@.len() - self.early_termination_counter) as nat)
    }

    /// Builds the project from the files and queues every top-level type,
    /// each with the scope its file starts with. Every type of the files,
    /// nested ones included, is waiting, each once.
    pub fn new(asts: &[Rc<types::JavaFile>]) -> (r: Result<Self, ReadProjectErr>)
        ensures
            r matches Ok(res) ==> res.wf() && res.early_termination_counter == 0,
            r matches Ok(res) ==> queued_pairs(res.queue@) == file_pairs(asts@),
            r matches Ok(res) ==> res.queue@.map_values(|e: TypeQueueEntry| entry_view(e)) == top_level_entries(asts@),
            r matches Ok(res) ==> pairs_distinct(file_pairs(asts@)),
            r matches Ok(res) ==> forall|i: int|
                0 <= i < res.queue@.len() ==> (#[trigger] res.queue@[i]).type_member_scope@ == baseline_bindings(
                    *res.queue@[i].ast_root,
                    res.project.packages(),
                ),
            r matches Err(e) ==> e is SemanticErr,
            r is Err <==> exists|pkg: Seq<Seq<char>>| !names_distinct(#[trigger] package_type_names(asts@, pkg)),
    {
        let project = match Project::from_ast_lst(asts) {
            Ok(p) => p,
            Err(e) => {
                return Err(e);
            },
        };
        proof {
            assert forall|p: int, e: int|
                0 <= p < project.packages().len() && 0 <= e < project.packages()[p].entries().len() implies ((#[trigger] project.packages()[p].entries()[e]).resolved_node is Some
                ==> project.packages()[p].entries()[e].export_types is Some) by {
                assert(project.packages()[p].all_fresh());
            }
        }
        let mut queue: Vec<TypeQueueEntry> = Vec::new();
        let mut i: usize = 0;
        proof {
            assert(asts@.take(0) =~= Seq::<Rc<types::JavaFile>>::empty());
        }
        while i < asts.len()
            invariant
                project.wf(),
                i <= asts@.len(),
                forall|k: int| 0 <= k < asts@.len() ==> package_index(project.packages(), (#[trigger] asts@[k]).package_name@) is Some,
                forall|q: int| 0 <= q < queue@.len() ==> (#[trigger] queue@[q]).name@ == queue@[q].type_node.name@,
                forall|q: int|
                    0 <= q < queue@.len() ==> (#[trigger] queue@[q]).type_member_scope@ == baseline_bindings(
                        *queue@[q].ast_root,
                        project.packages(),
                    ),
                queued_pairs(queue@) == file_pairs(asts@.take(i as int)),
                queue@.map_values(|e: TypeQueueEntry| entry_view(e)) == top_level_entries(asts@.take(i as int)),
            decreases asts@.len() - i,
        {
            let ast = &asts[i];
            assert(package_index(project.packages(), asts@[i as int].package_name@) is Some);
            let scope = Scope::construct_baseline_scope(ast, &project);
            let ghost before = queued_pairs(queue@);
            let ghost pkg = ast.package_name@;
            let ghost decls = ast.type_decls@;
            let mut j: usize = 0;
            proof {
                assert(decls.take(0) =~= Seq::<Rc<types::Type>>::empty());
                assert(before + tree_pairs(pkg, type_forest(decls.take(0))) =~= before);
            }
            while j < ast.type_decls.len()
                invariant
                    project.wf(),
                    j <= decls.len(),
                    decls == ast.type_decls@,
                    pkg == ast.package_name@,
                    scope@ == baseline_bindings(**ast, project.packages()),
                    forall|q: int| 0 <= q < queue@.len() ==> (#[trigger] queue@[q]).name@ == queue@[q].type_node.name@,
                    forall|q: int|
                        0 <= q < queue@.len() ==> (#[trigger] queue@[q]).type_member_scope@ == baseline_bindings(
                            *queue@[q].ast_root,
                            project.packages(),
                        ),
                    queued_pairs(queue@) == before + tree_pairs(pkg, type_forest(decls.take(j as int))),
                    queue@.map_values(|e: TypeQueueEntry| entry_view(e)) == top_level_entries(asts@.take(i as int))
                        + decls.take(j as int).map_values(|t: Rc<types::Type>| (**ast, *t)),
                decreases decls.len() - j,
            {
                let top_level_type = &ast.type_decls[j];
                let ghost q0 = queue@;
                let item = TypeQueueEntry {
                    name: top_level_type.name.duplicate(),
                    ast_root: ast.clone(),
                    type_node: top_level_type.clone(),
                    type_member_scope: scope.duplicate(),
                };
                let ghost x = item;
                queue.push(item);
                proof {
                    assert(queue@.map_values(|e: TypeQueueEntry| entry_view(e)) =~= q0.map_values(
                        |e: TypeQueueEntry| entry_view(e),
                    ).push(entry_view(x)));
                    assert(decls.take(j + 1).map_values(|t: Rc<types::Type>| (**ast, *t)) =~= decls.take(
                        j as int,
                    ).map_values(|t: Rc<types::Type>| (**ast, *t)).push((**ast, *decls[j as int])));
                    lemma_queued_pairs_push(q0, x);
                    crate::name_resolution::resolve_types::lemma_type_forest_step(decls, j as int);
                    lemma_tree_pairs_concat(pkg, type_forest(decls.take(j as int)), type_tree(rc_type(&decls[j as int])));
                    assert(before + tree_pairs(pkg, type_forest(decls.take(j as int))) + tree_pairs(
                        pkg,
                        type_tree(rc_type(&decls[j as int])),
                    ) =~= before + tree_pairs(pkg, type_forest(decls.take(j + 1))));
                }
                j = j + 1;
            }
            proof {
                assert(decls.take(j as int) =~= decls);
                assert(asts@.take(i + 1).drop_last() =~= asts@.take(i as int));
                assert(asts@.take(i + 1).last() == asts@[i as int]);
            }
            i = i + 1;
        }
        proof {
            assert(asts@.take(asts@.len() as int) =~= asts@);
            let prs = queued_pairs(queue@);
            // every waiting type is filed
            assert forall|m: int| 0 <= m < prs.len() implies project.locate((#[trigger] prs[m]).0, prs[m].1) is Some by {
                lemma_file_pair_listed(asts@, m);
                let k = choose|k: int| 0 <= k < asts@.len() && (#[trigger] asts@[k]).package_name@ == prs[m].0;
                let p = package_index(project.packages(), asts@[k].package_name@).unwrap();
                crate::name_resolution::resolve_types::lemma_package_index_from(project.packages(), prs[m].0, 0);
                lemma_listed_located(project, p, prs[m].1);
            }
            // every type is waiting
            assert forall|p: int, e: int|
                0 <= p < project.packages().len() && 0 <= e < project.packages()[p].entries().len() && (#[trigger] project.packages()[p].entries()[e]).resolved_node is None
                implies prs.contains((project.packages()[p].package@, entry_key(project.packages()[p].entries()[e]))) by {
                let es = project.packages()[p].entries();
                assert(entry_keys(es)[e] == entry_key(es[e]));
                lemma_listed_file_pair(asts@, project.packages()[p].package@, entry_key(es[e]));
            }
            // no type waits twice
            assert forall|pkg: Seq<Seq<char>>| names_distinct(#[trigger] package_type_names(asts@, pkg)) by {
                let ps = project.packages();
                crate::name_resolution::resolve_types::lemma_package_index_from(ps, pkg, 0);
                match package_index(ps, pkg) {
                    Some(p) => {
                        let ks = entry_keys(ps[p].entries());
                        assert forall|a: int, b: int| 0 <= a < b < ks.len() implies (#[trigger] ks[a]) != (#[trigger] ks[b]) by {
                            assert(ps[p].wf());
                            assert(ks[a] == entry_key(ps[p].entries()[a]));
                            assert(ks[b] == entry_key(ps[p].entries()[b]));
                        }
                    },
                    None => {
                        assert forall|k: int| 0 <= k < asts@.len() implies (#[trigger] asts@[k]).package_name@ != pkg by {
                            crate::name_resolution::resolve_types::lemma_package_index_from(ps, asts@[k].package_name@, 0);
                        }
                        crate::name_resolution::resolve_types::lemma_package_type_names_absent(asts@, asts@.len() as int, pkg);
                    },
                }
            }
            lemma_file_pairs_distinct(asts@);
        }
        Ok(Resolver { queue, project, early_termination_counter: 0 })
    }

    /// Whether one parent of `entry` is resolved (see [`parent_status`]).
    pub fn reftype_is_resolved(&self, entry: &TypeQueueEntry, reftype: &types::RefType) -> (r: Result<bool, NameResolutionErr>)
        requires
            self.project.wf(),
        ensures
            r == parent_status(entry.type_member_scope@, self.project.packages(), *reftype),
    {
        let fqn = entry.type_member_scope.resolve_qualified_name(&reftype.name, &self.project);
        match &fqn.source {
            TypeSource::InProjectType { package } => self.name_is_resolved(&fqn.typename, package),
            TypeSource::Ambiguous => Err(NameResolutionErr::AmbiguousParent),
            TypeSource::PrimitiveType(_) => Err(NameResolutionErr::PrimitiveParent),
            TypeSource::ExternalDependencyType => Ok(true),
            TypeSource::Generic => Ok(true),
        }
    }

    /// Whether the type `name` of package `pkg` is resolved; `MissingType`
    /// if there is no such type.
    pub fn name_is_resolved(&self, name: &QualifiedName, pkg: &QualifiedName) -> (r: Result<bool, NameResolutionErr>)
        ensures
            r == (match package_index(self.project.packages(), pkg@) {
                Some(p) => match entry_index(self.project.packages()[p].entries(), name@) {
                    Some(e) => Ok(self.project.packages()[p].entries()[e].resolved_node is Some),
                    None => Err(NameResolutionErr::MissingType),
                },
                None => Err(NameResolutionErr::MissingType),
            }),
    {
        match self.project.get_package(pkg) {
            None => Err(NameResolutionErr::MissingType),
            Some(p) => match p.get_type(name) {
                None => Err(NameResolutionErr::MissingType),
                Some(e) => Ok(e.resolved_node.is_some()),
            },
        }
    }

    /// Checks the parents of `refs` in order (see [`parents_status`]).
    fn refs_resolved(&self, entry: &TypeQueueEntry, refs: &Vec<types::RefType>) -> (r: Result<bool, NameResolutionErr>)
        requires
            self.project.wf(),
        ensures
            r == parents_status(entry.type_member_scope@, self.project.packages(), refs@),
    {
        let ghost bs = entry.type_member_scope@;
        let ghost ps = self.project.packages();
        let mut i: usize = 0;
        assert(refs@.subrange(0, refs@.len() as int) =~= refs@);
        while i < refs.len()
            invariant
                bs == entry.type_member_scope@,
                ps == self.project.packages(),
                self.project.wf(),
                i <= refs@.len(),
                parents_status(bs, ps, refs@) == parents_status(bs, ps, refs@.subrange(i as int, refs@.len() as int)),
            decreases refs@.len() - i,
        {
            let ghost rest = refs@.subrange(i as int, refs@.len() as int);
            assert(rest[0] == refs@[i as int]);
            assert(rest.drop_first() =~= refs@.subrange(i + 1, refs@.len() as int));
            match self.reftype_is_resolved(entry, &refs[i]) {
                Err(e) => {
                    return Err(e);
                },
                Ok(false) => {
                    return Ok(false);
                },
                Ok(true) => {},
            }
            i = i + 1;
        }
        assert(refs@.subrange(i as int, refs@.len() as int) =~= Seq::<types::RefType>::empty());
        Ok(true)
    }

    /// Whether every parent of the queued type is resolved, checked in
    /// order (see [`parents_status`]).
    pub fn entry_parents_resolved(&self, entry: &TypeQueueEntry) -> (r: Result<bool, NameResolutionErr>)
        requires
            self.project.wf(),
        ensures
            r == parents_status(entry.type_member_scope@, self.project.packages(), parent_refs(&entry.type_node.type_kind)),
    {
        let ghost bs = entry.type_member_scope@;
        let ghost ps = self.project.packages();
        match &entry.type_node.type_kind {
            types::TypeKind::Class { inherit_class, implement_interfaces } => {
                match inherit_class {
                    Some(c) => {
                        let ghost parents = parent_refs(&entry.type_node.type_kind);
                        assert(parents[0] == *c);
                        assert(parents.drop_first() =~= implement_interfaces@);
                        match self.reftype_is_resolved(entry, c) {
                            Err(e) => Err(e),
                            Ok(false) => Ok(false),
                            Ok(true) => self.refs_resolved(entry, implement_interfaces),
                        }
                    },
                    None => self.refs_resolved(entry, implement_interfaces),
                }
            },
            types::TypeKind::Enum { implement_interfaces, .. } => self.refs_resolved(entry, implement_interfaces),
            types::TypeKind::Interface { extend_interfaces } => self.refs_resolved(entry, extend_interfaces),
            types::TypeKind::Annotation { .. } => Ok(true),
        }
    }

    /// Resolves a queued type whose parents are resolved: works out what it
    /// hands down, brings what its parents hand down into its scope,
    /// resolves it, and queues its nested types. `MissingType` if no package
    /// of the project declares it under a prefix of its name.
    pub fn resolve_entry(&mut self, entry: TypeQueueEntry) -> (r: Result<(), NameResolutionErr>)
        requires
            old(self).wf_core(),
            entry.name@ == entry.type_node.name@,
            parents_status(entry.type_member_scope@, old(self).project.packages(), parent_refs(&entry.type_node.type_kind))
                == Ok::<bool, NameResolutionErr>(true),
            pairs_filed(
                tree_pairs(entry.ast_root.package_name@, type_tree(*entry.type_node)) + queued_pairs(old(self).queue@),
                old(self).project,
            ),
            unresolved_among(
                tree_pairs(entry.ast_root.package_name@, type_tree(*entry.type_node)) + queued_pairs(old(self).queue@),
                old(self).project.packages(),
            ),
        ensures
            r is Ok ==> final(self).wf(),
            final(self).early_termination_counter == old(self).early_termination_counter,
            r is Ok ==> queued_pairs(final(self).queue@).len() + 1 == type_tree(*entry.type_node).len() + queued_pairs(
                old(self).queue@,
            ).len(),
            r is Ok ==> forall|pkg: Seq<Seq<char>>, name: Seq<Seq<char>>|
                #[trigger] final(self).project.locate(pkg, name) == old(self).project.locate(pkg, name),
            r is Err ==> final(self).queue@ == old(self).queue@,
            r is Err <==> origin(old(self).project.packages(), entry.type_node.name@) is None,
            r is Ok ==> {
                let n = old(self).queue@.len();
                let subs = entry.type_node.body.subtypes@;
                &&& final(self).queue@.len() == n + subs.len()
                &&& final(self).queue@.subrange(0, n as int) == old(self).queue@
                &&& forall|i: int|
                    0 <= i < subs.len() ==> (#[trigger] final(self).queue@[n + i]).type_node == subs[i]
                        && final(self).queue@[n + i].ast_root == entry.ast_root
            },
            r is Ok ==> resolved_at(final(self).project, entry.ast_root.package_name@, entry.name@),
    {
        let ghost ps0 = self.project.packages();
        let ghost pkgv = entry.ast_root.package_name@;
        let ghost t = rc_type(&entry.type_node);
        let ghost tp = tree_pairs(pkgv, type_tree(t));
        let ghost all = tp + queued_pairs(self.queue@);
        proof {
            lemma_ready_parents_exported(entry.type_member_scope@, ps0, parent_refs(&entry.type_node.type_kind));
            lemma_tree_pairs_tree(pkgv, t);
            assert(all[0] == tp[0]);
        }
        let pkg_name = &entry.ast_root.package_name;
        if self.project.get_origin_package(&entry.type_node.name).is_none() {
            return Err(NameResolutionErr::MissingType);
        }
        let ghost loc = self.project.locate(pkg_name@, entry.name@);
        let ghost p = loc.unwrap().0;
        let ghost e = loc.unwrap().1;
        let mut scope = entry.type_member_scope;
        // Get scope from parent
        let entry_exported_types = ExportedInnerTypes::from_type(entry.type_node.clone(), &scope, &self.project);
        let inheritance_frame = scope.add_exported_types_from_parent(&entry_exported_types, pkg_name);
        let ghost before_exports = self.project;
        self.project.set_export_types(pkg_name, &entry.name, entry_exported_types)?;
        let (resolved_node, children_subtypes) = scope.resolve_type_no_child(
            entry.type_node.clone(),
            &self.project,
            entry.ast_root.clone(),
        );
        scope.pop_frame(&inheritance_frame);
        let ghost before_resolved = self.project;
        proof {
            crate::name_resolution::resolve_types::lemma_locate_after_update(
                before_exports,
                before_resolved,
                p,
                e,
                pkg_name@,
                entry.name@,
            );
        }
        self.project.set_resolved_node(pkg_name, &entry.name, resolved_node)?;
        proof {
            let ps = self.project.packages();
            assert forall|a: int, b: int|
                0 <= a < ps.len() && 0 <= b < ps[a].entries().len() implies ((#[trigger] ps[a].entries()[b]).resolved_node is Some
                ==> ps[a].entries()[b].export_types is Some) by {
                if a != p {
                    assert(ps[a] == before_resolved.packages()[a]);
                    assert(before_resolved.packages()[a] == before_exports.packages()[a]);
                } else if b != e {
                    assert(ps[a].entries()[b] == before_resolved.packages()[a].entries()[b]);
                    assert(before_resolved.packages()[a].entries()[b] == before_exports.packages()[a].entries()[b]);
                }
            }
            assert forall|pkg: Seq<Seq<char>>, name: Seq<Seq<char>>|
                #[trigger] self.project.locate(pkg, name) == before_exports.locate(pkg, name) by {
                crate::name_resolution::resolve_types::lemma_locate_after_update(before_exports, before_resolved, p, e, pkg, name);
                crate::name_resolution::resolve_types::lemma_locate_after_update(before_resolved, self.project, p, e, pkg, name);
            }
        }
        let ghost q0 = self.queue@;
        let ghost kids = children_subtypes@;
        let mut children = children_subtypes;
        self.queue.append(&mut children);
        proof {
            assert(self.queue@ =~= q0 + kids);
            assert(self.queue@.subrange(0, q0.len() as int) =~= q0);
            assert forall|i: int| 0 <= i < self.queue@.len() implies (#[trigger] self.queue@[i]).name@ == self.queue@[i].type_node.name@ by {
                if i >= q0.len() {
                    assert(self.queue@[i] == kids[i - q0.len()]);
                }
            }
            let subs = t.body.subtypes@;
            lemma_queued_pairs_concat(q0, kids);
            lemma_queued_pairs_children(kids, subs, entry.ast_root);
            let rest = tree_pairs(pkgv, type_forest(subs));
            let now = queued_pairs(self.queue@);
            assert(now == queued_pairs(q0) + rest);
            assert(tp == seq![(pkgv, t.name@)] + rest);
            // every waiting type is filed
            assert forall|m: int| 0 <= m < now.len() implies self.project.locate((#[trigger] now[m]).0, now[m].1) is Some by {
                if m < queued_pairs(q0).len() {
                    assert(now[m] == all[tp.len() + m]);
                } else {
                    assert(now[m] == rest[m - queued_pairs(q0).len()]);
                    assert(tp[1 + m - queued_pairs(q0).len()] == rest[m - queued_pairs(q0).len()]);
                    assert(now[m] == all[1 + m - queued_pairs(q0).len()]);
                }
                assert(before_exports.locate(now[m].0, now[m].1) is Some);
            }
            // every type not resolved is waiting
            let ps = self.project.packages();
            assert forall|a: int, b: int|
                0 <= a < ps.len() && 0 <= b < ps[a].entries().len() && (#[trigger] ps[a].entries()[b]).resolved_node is None
                implies now.contains((ps[a].package@, entry_key(ps[a].entries()[b]))) by {
                let x = (ps[a].package@, entry_key(ps[a].entries()[b]));
                assert(!(a == p && b == e));
                if a != p {
                    assert(ps[a] == before_resolved.packages()[a]);
                    assert(before_resolved.packages()[a] == before_exports.packages()[a]);
                } else {
                    assert(ps[a].entries()[b] == before_resolved.packages()[a].entries()[b]);
                    assert(before_resolved.packages()[a].entries()[b] == before_exports.packages()[a].entries()[b]);
                }
                assert(ps0[a].package@ == ps[a].package@);
                assert(ps0[a].entries()[b] == ps[a].entries()[b]);
                assert(all.contains(x));
                let w = choose|w: int| 0 <= w < all.len() && all[w] == x;
                if w == 0 {
                    lemma_locate_unique(before_exports, a, b);
                    assert(x == (pkgv, t.name@));
                    assert(false);
                } else if w < tp.len() {
                    assert(rest[w - 1] == x);
                    assert(now[queued_pairs(q0).len() + w - 1] == x);
                } else {
                    assert(queued_pairs(q0)[w - tp.len()] == x);
                    assert(now[w - tp.len()] == x);
                }
            }
        }
        Ok(())
    }

    /// Takes the next queued type. If it has no queued types, the resolver
    /// is `Finished`; if every queued type has been postponed since the last
    /// one was resolved, the parents form a cycle (`CyclicDependency`).
    /// Otherwise a type whose parents are resolved is resolved, and any
    /// other is put back at the end of the queue.
    pub fn deque_and_resolve(&mut self) -> (r: Result<ResolveStatus, NameResolutionErr>)
        requires
            old(self).wf(),
        ensures
            r is Ok ==> final(self).wf(),
            r == Ok::<ResolveStatus, NameResolutionErr>(ResolveStatus::Finished) <==> old(self).queue@.len() == 0,
            old(self).queue@.len() == 0 ==> *final(self) == *old(self),
            old(self).queue@.len() > 0 && old(self).queue@.len() == old(self).early_termination_counter
                ==> r == Err::<ResolveStatus, NameResolutionErr>(NameResolutionErr::CyclicDependency) && *final(self) == *old(self),
            r == Ok::<ResolveStatus, NameResolutionErr>(ResolveStatus::Unfinished) ==> {
                let (a0, b0) = old(self).progress();
                let (a1, b1) = final(self).progress();
                a1 < a0 || (a1 == a0 && b1 < b0)
            },
            r is Ok ==> forall|pkg: Seq<Seq<char>>, name: Seq<Seq<char>>|
                #[trigger] final(self).project.locate(pkg, name) == old(self).project.locate(pkg, name),
            old(self).queue@.len() > 0 && old(self).queue@.len() != old(self).early_termination_counter ==> {
                let e = old(self).queue@[0];
                let st = parents_status(
                    e.type_member_scope@,
                    old(self).project.packages(),
                    parent_refs(&e.type_node.type_kind),
                );
                &&& (st matches Err(x) ==> r == Err::<ResolveStatus, NameResolutionErr>(x))
                &&& (st == Ok::<bool, NameResolutionErr>(false) ==> {
                    &&& r == Ok::<ResolveStatus, NameResolutionErr>(ResolveStatus::Unfinished)
                    &&& final(self).queue@ == old(self).queue@.drop_first().push(e)
                    &&& final(self).early_termination_counter == old(self).early_termination_counter + 1
                    &&& final(self).project == old(self).project
                })
                &&& (st == Ok::<bool, NameResolutionErr>(true) ==> {
                    &&& (r is Err <==> origin(old(self).project.packages(), e.type_node.name@) is None)
                    &&& (r is Ok ==> r == Ok::<ResolveStatus, NameResolutionErr>(ResolveStatus::Unfinished)
                        && final(self).early_termination_counter == 0)
                    &&& (r is Ok ==> {
                        let n = old(self).queue@.len() - 1;
                        let subs = e.type_node.body.subtypes@;
                        &&& final(self).queue@.len() == n + subs.len()
                        &&& final(self).queue@.subrange(0, n) == old(self).queue@.drop_first()
                        &&& forall|i: int|
                            0 <= i < subs.len() ==> (#[trigger] final(self).queue@[n + i]).type_node == subs[i]
                                && final(self).queue@[n + i].ast_root == e.ast_root
                        &&& resolved_at(final(self).project, e.ast_root.package_name@, e.name@)
                    })
                })
            },
    {
        if self.queue.len() == 0 {
            return Ok(ResolveStatus::Finished);
        }
        if self.queue.len() == self.early_termination_counter {
            return Err(NameResolutionErr::CyclicDependency);
        }
        // resolve parent. If parent is resolved, then resolve it.
        // Else push it back to the queue.
        let ghost q = self.queue@;
        let entry = self.queue.remove(0);
        proof {
            lemma_queued_pairs_first(q);
            assert(self.queue@ =~= q.drop_first());
            assert forall|i: int| 0 <= i < self.queue@.len() implies (#[trigger] self.queue@[i]).name@ == self.queue@[i].type_node.name@ by {
                assert(self.queue@[i] == q[i + 1]);
            }
            assert(entry == q[0]);
        }
        let ready = self.entry_parents_resolved(&entry)?;
        if ready {
            self.early_termination_counter = 0;
            self.resolve_entry(entry)?;
        } else {
            self.early_termination_counter = self.early_termination_counter + 1;
            let ghost rest = self.queue@;
            let ghost x = entry;
            self.queue.push(entry);
            proof {
                lemma_queued_pairs_push(rest, x);
                let tp = tree_pairs(x.ast_root.package_name@, type_tree(rc_type(&x.type_node)));
                let before = tp + queued_pairs(rest);
                let now = queued_pairs(rest) + tp;
                assert(before == queued_pairs(q));
                assert forall|i: int| 0 <= i < self.queue@.len() implies (#[trigger] self.queue@[i]).name@ == self.queue@[i].type_node.name@ by {
                    if i < rest.len() {
                        assert(self.queue@[i] == rest[i]);
                    }
                }
                assert forall|m: int| 0 <= m < now.len() implies self.project.locate((#[trigger] now[m]).0, now[m].1) is Some by {
                    if m < queued_pairs(rest).len() {
                        assert(now[m] == before[tp.len() + m]);
                    } else {
                        assert(now[m] == before[m - queued_pairs(rest).len()]);
                    }
                }
                let ps = self.project.packages();
                assert forall|a: int, b: int|
                    0 <= a < ps.len() && 0 <= b < ps[a].entries().len() && (#[trigger] ps[a].entries()[b]).resolved_node is None
                    implies now.contains((ps[a].package@, entry_key(ps[a].entries()[b]))) by {
                    let y = (ps[a].package@, entry_key(ps[a].entries()[b]));
                    lemma_contains_concat(tp, queued_pairs(rest), y);
                    lemma_contains_concat(queued_pairs(rest), tp, y);
                }
            }
        }
        Ok(ResolveStatus::Unfinished)
    }

    /// Resolves every type of the files: builds the resolver, resolves
    /// until its queue is empty, then puts each file's resolved types back
    /// together, nested types inside the types that declare them.
    pub fn resolve(asts: &[Rc<types::JavaFile>]) -> (r: Result<Vec<Rc<resolved_types::FileTypeTree>>, ResolveError>)
        ensures
            r matches Ok(trees) ==> trees@.len() == asts@.len() && forall|i: int|
                0 <= i < asts@.len() ==> files_same_shape(*asts@[i], *(#[trigger] trees@[i])),
            r matches Err(ResolveError::ReadProject(e)) ==> e is SemanticErr,
            (r matches Err(ResolveError::ReadProject(_))) <==> exists|pkg: Seq<Seq<char>>|
                !names_distinct(#[trigger] package_type_names(asts@, pkg)),
            files_standalone(asts@) && (forall|pkg: Seq<Seq<char>>| names_distinct(
                #[trigger] package_type_names(asts@, pkg),
            )) ==> r is Ok,
    {
        let ghost h = files_standalone(asts@);
        // 1. create a new Resolver.
        let mut resolver = match Self::new(asts) {
            Ok(res) => res,
            Err(e) => {
                return Err(ResolveError::ReadProject(e));
            },
        };
        proof {
            if h {
                lemma_top_level_standalone(asts@, resolver.queue@);
            }
        }
        let ghost p0 = resolver.project;
        let ghost fp = file_pairs(asts@);
        // 2. continuously dequeue and resolve
        assert(forall|pkg: Seq<Seq<char>>| names_distinct(#[trigger] package_type_names(asts@, pkg)));
        loop
            invariant
                resolver.wf(),
                pairs_filed(fp, p0),
                forall|pkg: Seq<Seq<char>>| names_distinct(#[trigger] package_type_names(asts@, pkg)),
                forall|pkg: Seq<Seq<char>>, name: Seq<Seq<char>>|
                    #[trigger] resolver.project.locate(pkg, name) == p0.locate(pkg, name),
                h == files_standalone(asts@),
                h ==> resolver.early_termination_counter == 0,
                h ==> forall|m: int| 0 <= m < resolver.queue@.len() ==> #[trigger] entry_standalone(resolver.queue@[m]),
            ensures
                resolver.wf(),
                resolver.queue@.len() == 0,
                forall|pkg: Seq<Seq<char>>, name: Seq<Seq<char>>|
                    #[trigger] resolver.project.locate(pkg, name) == p0.locate(pkg, name),
            decreases
                queued_pairs(resolver.queue@).len(),
                (resolver.queue@.len() - resolver.early_termination_counter) as nat,
        {
            let ghost q = resolver.queue@;
            proof {
                if h && q.len() > 0 {
                    let e = q[0];
                    let t = rc_type(&e.type_node);
                    assert(entry_standalone(e));
                    assert(type_tree(t)[0] == t);
                    assert(standalone_type(e.ast_root.package_name@, t));
                    assert(parent_refs(&e.type_node.type_kind) =~= Seq::<types::RefType>::empty());
                    lemma_queued_pairs_first(q);
                    assert(queued_pairs(q)[0] == tree_pairs(e.ast_root.package_name@, type_tree(t))[0]);
                    assert(resolver.project.locate(e.ast_root.package_name@, t.name@) is Some);
                    lemma_standalone_origin(resolver.project, e.ast_root.package_name@, t);
                }
            }
            let status = match resolver.deque_and_resolve() {
                Ok(status) => status,
                Err(e) => {
                    return Err(ResolveError::NameResolution(e));
                },
            };
            proof {
                if h && q.len() > 0 {
                    let e = q[0];
                    let n = q.len() - 1;
                    let subs = e.type_node.body.subtypes@;
                    assert forall|m: int| 0 <= m < resolver.queue@.len() implies #[trigger] entry_standalone(
                        resolver.queue@[m],
                    ) by {
                        if m < n {
                            assert(resolver.queue@.subrange(0, n)[m] == q.drop_first()[m]);
                            assert(resolver.queue@[m] == q[m + 1]);
                        } else {
                            lemma_children_standalone(e, resolver.queue@[n + (m - n)], m - n);
                        }
                    }
                }
            }
            if status == ResolveStatus::Finished {
                break;
            }
        }
        // 3. construct the trees from the ground up.
        proof {
            let ps = resolver.project.packages();
            assert(queued_pairs(resolver.queue@) =~= Seq::<(Seq<Seq<char>>, Seq<Seq<char>>)>::empty()) by {
                assert(resolver.queue@ =~= Seq::<TypeQueueEntry>::empty());
            }
            assert forall|m: int| 0 <= m < fp.len() implies resolved_at(resolver.project, (#[trigger] fp[m]).0, fp[m].1) by {
                assert(p0.locate(fp[m].0, fp[m].1) is Some);
                lemma_locate_found(resolver.project, fp[m].0, fp[m].1);
                let (a, b) = resolver.project.locate(fp[m].0, fp[m].1).unwrap();
                if ps[a].entries()[b].resolved_node is None {
                    assert(Seq::<(Seq<Seq<char>>, Seq<Seq<char>>)>::empty().contains(
                        (ps[a].package@, entry_key(ps[a].entries()[b])),
                    ));
                }
            }
            assert(asts@.take(0) =~= Seq::<Rc<types::JavaFile>>::empty());
        }
        let mut trees: Vec<Rc<resolved_types::FileTypeTree>> = Vec::new();
        let mut i: usize = 0;
        while i < asts.len()
            invariant
                resolver.project.wf(),
                i <= asts@.len(),
                fp == file_pairs(asts@),
                pairs_distinct(fp),
                file_pairs(asts@.take(i as int)).len() <= fp.len(),
                forall|m: int|
                    file_pairs(asts@.take(i as int)).len() <= m < fp.len() ==> resolved_at(
                        resolver.project,
                        (#[trigger] fp[m]).0,
                        fp[m].1,
                    ),
                trees@.len() == i,
                forall|k: int| 0 <= k < i ==> files_same_shape(*asts@[k], *(#[trigger] trees@[k])),
            decreases asts@.len() - i,
        {
            let ghost before = resolver.project;
            let ghost pkgv = asts@[i as int].package_name@;
            let ghost forest = type_forest(asts@[i as int].type_decls@);
            let ghost start = file_pairs(asts@.take(i as int)).len();
            proof {
                lemma_file_pairs_slot(asts@, i as int);
                let tps = tree_pairs(pkgv, forest);
                assert forall|k: int| 0 <= k < forest.len() implies resolved_at(before, pkgv, (#[trigger] forest[k]).name@) by {
                    lemma_tree_pairs_index(pkgv, forest, k);
                    assert(fp[start + k] == tps[k]);
                }
                assert forall|a: int, b: int| 0 <= a < b < tps.len() implies (#[trigger] tps[a]) != (#[trigger] tps[b]) by {
                    assert(fp[start + a] == tps[a]);
                    assert(fp[start + b] == tps[b]);
                }
            }
            let tree = resolver.construct_tree(asts[i].clone());
            trees.push(tree);
            proof {
                lemma_file_pairs_slot(asts@, i as int);
                let tps = tree_pairs(pkgv, forest);
                assert forall|m: int|
                    file_pairs(asts@.take(i + 1)).len() <= m < fp.len() implies resolved_at(
                    resolver.project,
                    (#[trigger] fp[m]).0,
                    fp[m].1,
                ) by {
                    assert(resolved_at(before, fp[m].0, fp[m].1));
                    if tps.contains(fp[m]) {
                        let w = choose|w: int| 0 <= w < tps.len() && tps[w] == fp[m];
                        assert(fp[start + w] == tps[w]);
                    }
                }
            }
            i = i + 1;
        }
        Ok(trees)
    }

    /// Puts the resolved types of one file together, nested types inside
    /// the types that declare them, taking each resolved type out of the
    /// project. Every type of the file, nested ones included, must be
    /// resolved, each under its own name.
    pub fn construct_tree(&mut self, node: Rc<types::JavaFile>) -> (r: Rc<resolved_types::FileTypeTree>)
        requires
            old(self).project.wf(),
            forall|k: int|
                0 <= k < type_forest(node.type_decls@).len() ==> resolved_at(
                    old(self).project,
                    node.package_name@,
                    (#[trigger] type_forest(node.type_decls@)[k]).name@,
                ),
            pairs_distinct(tree_pairs(node.package_name@, type_forest(node.type_decls@))),
        ensures
            final(self).project.wf(),
            final(self).queue == old(self).queue,
            files_same_shape(*node, *r),
            forall|pkg: Seq<Seq<char>>, name: Seq<Seq<char>>|
                #[trigger] final(self).project.locate(pkg, name) == old(self).project.locate(pkg, name),
            forall|pkg: Seq<Seq<char>>, name: Seq<Seq<char>>|
                !tree_pairs(node.package_name@, type_forest(node.type_decls@)).contains((pkg, name)) ==> #[trigger] resolved_at(
                    final(self).project,
                    pkg,
                    name,
                ) == resolved_at(old(self).project, pkg, name),
    {
        let ghost p0 = self.project;
        let ghost pkgv = node.package_name@;
        let ghost decls = node.type_decls@;
        let ghost all = tree_pairs(pkgv, type_forest(decls));
        let mut types: Vec<Rc<resolved_types::Type>> = Vec::new();
        let mut i: usize = 0;
        proof {
            assert(decls.take(0) =~= Seq::<Rc<types::Type>>::empty());
        }
        while i < node.type_decls.len()
            invariant
                self.project.wf(),
                self.queue == old(self).queue,
                i <= decls.len(),
                decls == node.type_decls@,
                pkgv == node.package_name@,
                all == tree_pairs(pkgv, type_forest(decls)),
                pairs_distinct(all),
                types@.len() == i,
                forall|k: int| 0 <= k < i ==> same_shape(*decls[k], *(#[trigger] types@[k])),
                forall|pkg: Seq<Seq<char>>, name: Seq<Seq<char>>|
                    #[trigger] self.project.locate(pkg, name) == p0.locate(pkg, name),
                forall|pkg: Seq<Seq<char>>, name: Seq<Seq<char>>|
                    !all.contains((pkg, name)) ==> #[trigger] resolved_at(self.project, pkg, name) == resolved_at(p0, pkg, name),
                type_forest(decls.take(i as int)).len() <= type_forest(decls).len(),
                forall|k: int|
                    type_forest(decls.take(i as int)).len() <= k < type_forest(decls).len() ==> resolved_at(
                        self.project,
                        pkgv,
                        (#[trigger] type_forest(decls)[k]).name@,
                    ),
            decreases decls.len() - i,
        {
            let ghost before = self.project;
            let ghost start = type_forest(decls.take(i as int)).len();
            let ghost sub = type_tree(rc_type(&decls[i as int]));
            proof {
                assert forall|k: int| 0 <= k < sub.len() implies resolved_at(before, pkgv, (#[trigger] sub[k]).name@) by {
                    lemma_forest_slot(decls, i as int, k);
                }
                let sp = tree_pairs(pkgv, sub);
                assert forall|a: int, b: int| 0 <= a < b < sp.len() implies (#[trigger] sp[a]) != (#[trigger] sp[b]) by {
                    lemma_forest_slot(decls, i as int, a);
                    lemma_forest_slot(decls, i as int, b);
                    assert(all[start + a] == sp[a]);
                    assert(all[start + b] == sp[b]);
                }
            }
            let t = Self::construct_tree_recursive(node.type_decls[i].clone(), &node.package_name, &mut self.project);
            types.push(t);
            proof {
                let sp = tree_pairs(pkgv, sub);
                lemma_forest_slot(decls, i as int, 0);
                crate::name_resolution::resolve_types::lemma_type_forest_step(decls, i as int);
                lemma_forest_prefix(decls, i + 1, decls.len() as int);
                assert(decls.take(decls.len() as int) =~= decls);
                assert forall|k: int|
                    type_forest(decls.take(i + 1)).len() <= k < type_forest(decls).len() implies resolved_at(
                    self.project,
                    pkgv,
                    (#[trigger] type_forest(decls)[k]).name@,
                ) by {
                    let y = (pkgv, type_forest(decls)[k].name@);
                    lemma_tree_pairs_index(pkgv, type_forest(decls), k);
                    if sp.contains(y) {
                        let w = choose|w: int| 0 <= w < sp.len() && sp[w] == y;
                        lemma_forest_slot(decls, i as int, w);
                        assert(all[start + w] == sp[w]);
                        assert(all[k] == y);
                    }
                }
                assert forall|pkg: Seq<Seq<char>>, name: Seq<Seq<char>>|
                    !all.contains((pkg, name)) implies #[trigger] resolved_at(self.project, pkg, name) == resolved_at(p0, pkg, name) by {
                    if sp.contains((pkg, name)) {
                        let w = choose|w: int| 0 <= w < sp.len() && sp[w] == (pkg, name);
                        lemma_forest_slot(decls, i as int, w);
                        assert(all[start + w] == sp[w]);
                    }
                }
            }
            i = i + 1;
        }
        Rc::new(resolved_types::FileTypeTree(types))
    }

    /// Takes the resolved form of `type_node` out of package `pkg` and puts
    /// the resolved forms of its nested types, built the same way, in its
    /// body. Every type of its tree must be resolved, each under its own
    /// name.
    fn construct_tree_recursive(type_node: Rc<types::Type>, pkg: &QualifiedName, project: &mut Project) -> (r: Rc<resolved_types::Type>)
        requires
            old(project).wf(),
            forall|k: int|
                0 <= k < type_tree(*type_node).len() ==> resolved_at(
                    *old(project),
                    pkg@,
                    (#[trigger] type_tree(*type_node)[k]).name@,
                ),
            pairs_distinct(tree_pairs(pkg@, type_tree(*type_node))),
        ensures
            final(project).wf(),
            same_shape(*type_node, *r),
            ({
                let (p, e) = old(project).locate(pkg@, type_node.name@).unwrap();
                let n = old(project).packages()[p].entries()[e].resolved_node.unwrap();
                &&& r.name == n.name
                &&& r.modifiers == n.modifiers
                &&& r.type_kind == n.type_kind
                &&& r.body.members == n.body.members
                &&& r.annotation == n.annotation
                &&& r.type_params == n.type_params
            }),
            forall|pkg2: Seq<Seq<char>>, name2: Seq<Seq<char>>|
                #[trigger] final(project).locate(pkg2, name2) == old(project).locate(pkg2, name2),
            forall|pkg2: Seq<Seq<char>>, name2: Seq<Seq<char>>|
                !tree_pairs(pkg@, type_tree(*type_node)).contains((pkg2, name2)) ==> #[trigger] resolved_at(
                    *final(project),
                    pkg2,
                    name2,
                ) == resolved_at(*old(project), pkg2, name2),
        decreases type_node,
    {
        let ghost p0 = *project;
        let ghost pkgv = pkg@;
        let ghost t = rc_type(&type_node);
        let ghost tp = tree_pairs(pkgv, type_tree(t));
        let ghost subs = t.body.subtypes@;
        let ghost forest = type_forest(subs);
        proof {
            lemma_tree_pairs_tree(pkgv, t);
            assert(type_tree(t)[0] == t);
            assert(resolved_at(p0, pkgv, t.name@));
        }
        let ghost loc = p0.locate(pkgv, t.name@).unwrap();
        let mut resolved_type_node = project.take_resolved_node(pkg, &type_node.name).unwrap().unwrap();
        let ghost p1 = *project;
        proof {
            assert forall|pkg2: Seq<Seq<char>>, name2: Seq<Seq<char>>|
                #[trigger] p1.locate(pkg2, name2) == p0.locate(pkg2, name2) by {
                crate::name_resolution::resolve_types::lemma_locate_after_update(p0, p1, loc.0, loc.1, pkg2, name2);
            }
            assert forall|pkg2: Seq<Seq<char>>, name2: Seq<Seq<char>>|
                (pkg2, name2) != (pkgv, t.name@) implies #[trigger] resolved_at(p1, pkg2, name2) == resolved_at(p0, pkg2, name2) by {
                if p0.locate(pkg2, name2) is Some {
                    if p0.locate(pkg2, name2) == Some(loc) {
                        lemma_locate_found(p0, pkg2, name2);
                        lemma_locate_found(p0, pkgv, t.name@);
                    }
                    lemma_resolved_at_after_update(p0, p1, loc.0, loc.1, pkg2, name2);
                }
            }
            assert(subs.take(0) =~= Seq::<Rc<types::Type>>::empty());
            assert forall|k: int| 0 <= k < forest.len() implies resolved_at(p1, pkgv, (#[trigger] forest[k]).name@) by {
                assert(type_tree(t)[k + 1] == forest[k]);
                lemma_tree_pairs_index(pkgv, type_tree(t), k + 1);
                lemma_tree_pairs_index(pkgv, type_tree(t), 0);
                assert(tp[k + 1] != tp[0]);
            }
        }
        let ghost taken = resolved_type_node;
        let mut subtypes: Vec<Rc<resolved_types::Type>> = Vec::new();
        let mut i: usize = 0;
        while i < type_node.body.subtypes.len()
            invariant
                project.wf(),
                subs == type_node.body.subtypes@,
                forest == type_forest(subs),
                tp == tree_pairs(pkgv, type_tree(t)),
                tp == seq![(pkgv, t.name@)] + tree_pairs(pkgv, forest),
                pairs_distinct(tp),
                pkgv == pkg@,
                i <= subs.len(),
                subtypes@.len() == i,
                forall|k: int| 0 <= k < i ==> same_shape(*subs[k], *(#[trigger] subtypes@[k])),
                forall|pkg2: Seq<Seq<char>>, name2: Seq<Seq<char>>|
                    #[trigger] project.locate(pkg2, name2) == p0.locate(pkg2, name2),
                forall|pkg2: Seq<Seq<char>>, name2: Seq<Seq<char>>|
                    !tp.contains((pkg2, name2)) ==> #[trigger] resolved_at(*project, pkg2, name2) == resolved_at(p0, pkg2, name2),
                type_forest(subs.take(i as int)).len() <= forest.len(),
                forall|k: int|
                    type_forest(subs.take(i as int)).len() <= k < forest.len() ==> resolved_at(
                        *project,
                        pkgv,
                        (#[trigger] forest[k]).name@,
                    ),
            decreases subs.len() - i,
        {
            let ghost before = *project;
            let ghost start = type_forest(subs.take(i as int)).len();
            let ghost sub = type_tree(rc_type(&subs[i as int]));
            let ghost sp = tree_pairs(pkgv, sub);
            proof {
                assert forall|k: int| 0 <= k < sub.len() implies resolved_at(before, pkgv, (#[trigger] sub[k]).name@) by {
                    lemma_forest_slot(subs, i as int, k);
                }
                assert forall|a: int, b: int| 0 <= a < b < sp.len() implies (#[trigger] sp[a]) != (#[trigger] sp[b]) by {
                    lemma_forest_slot(subs, i as int, a);
                    lemma_forest_slot(subs, i as int, b);
                    lemma_tree_pairs_index(pkgv, forest, start + a);
                    lemma_tree_pairs_index(pkgv, forest, start + b);
                    assert(tp[1 + start + a] == sp[a]);
                    assert(tp[1 + start + b] == sp[b]);
                }
            }
            let sub_node = Self::construct_tree_recursive(type_node.body.subtypes[i].clone(), pkg, project);
            subtypes.push(sub_node);
            proof {
                lemma_forest_slot(subs, i as int, 0);
                crate::name_resolution::resolve_types::lemma_type_forest_step(subs, i as int);
                assert forall|k: int|
                    type_forest(subs.take(i + 1)).len() <= k < forest.len() implies resolved_at(
                    *project,
                    pkgv,
                    (#[trigger] forest[k]).name@,
                ) by {
                    let y = (pkgv, forest[k].name@);
                    lemma_tree_pairs_index(pkgv, forest, k);
                    assert(tp[1 + k] == y);
                    if sp.contains(y) {
                        let w = choose|w: int| 0 <= w < sp.len() && sp[w] == y;
                        lemma_forest_slot(subs, i as int, w);
                        lemma_tree_pairs_index(pkgv, forest, start + w);
                        assert(tp[1 + start + w] == sp[w]);
                    }
                }
                assert forall|pkg2: Seq<Seq<char>>, name2: Seq<Seq<char>>|
                    !tp.contains((pkg2, name2)) implies #[trigger] resolved_at(*project, pkg2, name2) == resolved_at(p0, pkg2, name2) by {
                    if sp.contains((pkg2, name2)) {
                        let w = choose|w: int| 0 <= w < sp.len() && sp[w] == (pkg2, name2);
                        lemma_forest_slot(subs, i as int, w);
                        lemma_tree_pairs_index(pkgv, forest, start + w);
                        assert(tp[1 + start + w] == sp[w]);
                    }
                }
            }
            i = i + 1;
        }
        resolved_type_node.body.subtypes = subtypes;
        let r = Rc::new(resolved_type_node);
        proof {
            assert(subs.take(subs.len() as int) =~= subs);
            assert forall|pkg2: Seq<Seq<char>>, name2: Seq<Seq<char>>|
                !tp.contains((pkg2, name2)) implies #[trigger] resolved_at(*project, pkg2, name2) == resolved_at(p0, pkg2, name2) by {
            }
        }
        assert(same_shape(*type_node, *r));
        r
    }
}

} // verus!
