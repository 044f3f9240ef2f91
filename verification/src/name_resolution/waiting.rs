use vstd::prelude::*;

use std::rc::Rc;

use crate::name_resolution::resolve::TypeQueueEntry;
use crate::name_resolution::resolve_types::{
    entry_index, entry_key, entry_keys, lemma_entry_index_from, lemma_package_index_from, package_index,
    package_type_names, rc_type, tree_names, type_forest, type_tree, Package, Project,
};
use crate::types;

verus! {

/// Each type of the list paired with the package `pkg`.
pub open spec fn tree_pairs(pkg: Seq<Seq<char>>, ts: Seq<types::Type>) -> Seq<(Seq<Seq<char>>, Seq<Seq<char>>)> {
    ts.map_values(|t: types::Type| (pkg, t.name@))
}

/// Every type waiting in the queue, nested ones included, with the package
/// of its file: queued type after queued type, each before the types it
/// declares.
pub open spec fn queued_pairs(q: Seq<TypeQueueEntry>) -> Seq<(Seq<Seq<char>>, Seq<Seq<char>>)>
    decreases q.len(),
{
    if q.len() == 0 {
        Seq::empty()
    } else {
        queued_pairs(q.drop_last()) + tree_pairs(q.last().ast_root.package_name@, type_tree(*q.last().type_node))
    }
}

/// Every type of the files, nested ones included, with the package of its
/// file: file after file.
pub open spec fn file_pairs(asts: Seq<Rc<types::JavaFile>>) -> Seq<(Seq<Seq<char>>, Seq<Seq<char>>)>
    decreases asts.len(),
{
    if asts.len() == 0 {
        Seq::empty()
    } else {
        file_pairs(asts.drop_last()) + tree_pairs(asts.last().package_name@, type_forest(asts.last().type_decls@))
    }
}

/// The type of package `pkg` filed under `name` has been resolved.
pub open spec fn resolved_at(project: Project, pkg: Seq<Seq<char>>, name: Seq<Seq<char>>) -> bool {
    project.locate(pkg, name) matches Some((p, e)) && project.packages()[p].entries()[e].resolved_node is Some
}

/// Every pair names a type filed in the project.
pub open spec fn pairs_filed(prs: Seq<(Seq<Seq<char>>, Seq<Seq<char>>)>, project: Project) -> bool {
    forall|i: int| 0 <= i < prs.len() ==> project.locate((#[trigger] prs[i]).0, prs[i].1) is Some
}

/// Every type of the project that is not resolved is among the pairs.
pub open spec fn unresolved_among(prs: Seq<(Seq<Seq<char>>, Seq<Seq<char>>)>, ps: Seq<Package>) -> bool {
    forall|p: int, e: int|
        0 <= p < ps.len() && 0 <= e < ps[p].entries().len() && (#[trigger] ps[p].entries()[e]).resolved_node is None
            ==> prs.contains((ps[p].package@, entry_key(ps[p].entries()[e])))
}

/// No pair occurs twice.
pub open spec fn pairs_distinct(prs: Seq<(Seq<Seq<char>>, Seq<Seq<char>>)>) -> bool {
    forall|i: int, j: int| 0 <= i < j < prs.len() ==> (#[trigger] prs[i]) != (#[trigger] prs[j])
}

/// Pairing a concatenation pairs each part.
pub proof fn lemma_tree_pairs_concat(pkg: Seq<Seq<char>>, a: Seq<types::Type>, b: Seq<types::Type>)
    ensures
        tree_pairs(pkg, a + b) == tree_pairs(pkg, a) + tree_pairs(pkg, b),
{
    assert(tree_pairs(pkg, a + b) =~= tree_pairs(pkg, a) + tree_pairs(pkg, b));
}

/// A type's tree is the type, then the trees of the types it declares.
pub proof fn lemma_tree_pairs_tree(pkg: Seq<Seq<char>>, t: types::Type)
    ensures
        tree_pairs(pkg, type_tree(t)) == seq![(pkg, t.name@)] + tree_pairs(pkg, type_forest(t.body.subtypes@)),
        tree_pairs(pkg, type_tree(t))[0] == (pkg, t.name@),
{
    lemma_tree_pairs_concat(pkg, seq![t], type_forest(t.body.subtypes@));
    assert(tree_pairs(pkg, seq![t]) =~= seq![(pkg, t.name@)]);
}

/// The waiting types of a queue are those of its first entry, then those of
/// the rest.
pub proof fn lemma_queued_pairs_first(q: Seq<TypeQueueEntry>)
    requires
        q.len() > 0,
    ensures
        queued_pairs(q) == tree_pairs(q[0].ast_root.package_name@, type_tree(*q[0].type_node)) + queued_pairs(
            q.drop_first(),
        ),
    decreases q.len(),
{
    if q.len() == 1 {
        assert(q.drop_last() =~= Seq::<TypeQueueEntry>::empty());
        assert(q.drop_first() =~= Seq::<TypeQueueEntry>::empty());
        assert(queued_pairs(Seq::<TypeQueueEntry>::empty()) == Seq::<(Seq<Seq<char>>, Seq<Seq<char>>)>::empty());
        assert(q.last() == q[0]);
        assert(Seq::<(Seq<Seq<char>>, Seq<Seq<char>>)>::empty() + tree_pairs(
            q[0].ast_root.package_name@,
            type_tree(*q[0].type_node),
        ) =~= tree_pairs(q[0].ast_root.package_name@, type_tree(*q[0].type_node)) + Seq::<
            (Seq<Seq<char>>, Seq<Seq<char>>),
        >::empty());
    } else {
        lemma_queued_pairs_first(q.drop_last());
        assert(q.drop_last()[0] == q[0]);
        assert(q.drop_last().drop_first() =~= q.drop_first().drop_last());
        assert(q.drop_first().last() == q.last());
        let a = tree_pairs(q[0].ast_root.package_name@, type_tree(rc_type(&q[0].type_node)));
        let b = queued_pairs(q.drop_first().drop_last());
        let c = tree_pairs(q.last().ast_root.package_name@, type_tree(rc_type(&q.last().type_node)));
        assert((a + b) + c =~= a + (b + c));
    }
}

/// The waiting types of `a + b` are those of `a`, then those of `b`.
pub proof fn lemma_queued_pairs_concat(a: Seq<TypeQueueEntry>, b: Seq<TypeQueueEntry>)
    ensures
        queued_pairs(a + b) == queued_pairs(a) + queued_pairs(b),
    decreases b.len(),
{
    if b.len() == 0 {
        assert(a + b =~= a);
        assert(queued_pairs(a) + queued_pairs(b) =~= queued_pairs(a));
    } else {
        assert((a + b).drop_last() =~= a + b.drop_last());
        assert((a + b).last() == b.last());
        lemma_queued_pairs_concat(a, b.drop_last());
        let x = tree_pairs(b.last().ast_root.package_name@, type_tree(rc_type(&b.last().type_node)));
        assert((queued_pairs(a) + queued_pairs(b.drop_last())) + x =~= queued_pairs(a) + (queued_pairs(b.drop_last())
            + x));
    }
}

/// The waiting types of a queue with one more entry at the end.
pub proof fn lemma_queued_pairs_push(q: Seq<TypeQueueEntry>, x: TypeQueueEntry)
    ensures
        queued_pairs(q.push(x)) == queued_pairs(q) + tree_pairs(x.ast_root.package_name@, type_tree(*x.type_node)),
{
    assert(q.push(x).drop_last() =~= q);
    assert(q.push(x).last() == x);
}

/// Entries made for the nested types of a type of a file wait with exactly
/// the nested types' trees.
pub proof fn lemma_queued_pairs_children(children: Seq<TypeQueueEntry>, subs: Seq<Rc<types::Type>>, ast_root: Rc<types::JavaFile>)
    requires
        children.len() == subs.len(),
        forall|i: int|
            0 <= i < children.len() ==> (#[trigger] children[i]).type_node == subs[i] && children[i].ast_root == ast_root,
    ensures
        queued_pairs(children) == tree_pairs(ast_root.package_name@, type_forest(subs)),
    decreases children.len(),
{
    let pkg = ast_root.package_name@;
    if children.len() == 0 {
        assert(tree_pairs(pkg, type_forest(subs)) =~= Seq::<(Seq<Seq<char>>, Seq<Seq<char>>)>::empty());
    } else {
        lemma_queued_pairs_children(children.drop_last(), subs.drop_last(), ast_root);
        assert(children.last() == children[children.len() - 1]);
        assert(subs.last() == subs[subs.len() - 1]);
        lemma_tree_pairs_concat(pkg, type_forest(subs.drop_last()), type_tree(rc_type(&subs.last())));
    }
}

/// The pair at a position of the pairs of a list of types.
pub proof fn lemma_tree_pairs_index(pkg: Seq<Seq<char>>, ts: Seq<types::Type>, k: int)
    requires
        0 <= k < ts.len(),
    ensures
        tree_pairs(pkg, ts)[k] == (pkg, ts[k].name@),
        tree_names(ts)[k] == ts[k].name@,
{
}

/// Whether `x` occurs in `a + b`.
pub proof fn lemma_contains_concat<A>(a: Seq<A>, b: Seq<A>, x: A)
    ensures
        (a + b).contains(x) <==> (a.contains(x) || b.contains(x)),
{
    if (a + b).contains(x) {
        let k = choose|k: int| 0 <= k < (a + b).len() && (a + b)[k] == x;
        if k < a.len() {
            assert(a[k] == x);
        } else {
            assert(b[k - a.len()] == x);
        }
    }
    if a.contains(x) {
        let k = choose|k: int| 0 <= k < a.len() && a[k] == x;
        assert((a + b)[k] == x);
    }
    if b.contains(x) {
        let k = choose|k: int| 0 <= k < b.len() && b[k] == x;
        assert((a + b)[a.len() + k] == x);
    }
}

/// A pair of the files' types names a type of one of the files, whose
/// package lists that name.
pub proof fn lemma_file_pair_listed(asts: Seq<Rc<types::JavaFile>>, m: int)
    requires
        0 <= m < file_pairs(asts).len(),
    ensures
        package_type_names(asts, file_pairs(asts)[m].0).contains(file_pairs(asts)[m].1),
        exists|i: int| 0 <= i < asts.len() && (#[trigger] asts[i]).package_name@ == file_pairs(asts)[m].0,
    decreases asts.len(),
{
    let a = file_pairs(asts.drop_last());
    let last = asts.last();
    let b = tree_pairs(last.package_name@, type_forest(last.type_decls@));
    let x = file_pairs(asts)[m];
    if m < a.len() {
        assert(x == a[m]);
        lemma_file_pair_listed(asts.drop_last(), m);
        let i = choose|i: int| 0 <= i < asts.drop_last().len() && (#[trigger] asts.drop_last()[i]).package_name@ == x.0;
        assert(asts[i] == asts.drop_last()[i]);
        let names = package_type_names(asts.drop_last(), x.0);
        let extra: Seq<Seq<Seq<char>>> = if last.package_name@ == x.0 {
            tree_names(type_forest(last.type_decls@))
        } else {
            Seq::empty()
        };
        lemma_contains_concat(names, extra, x.1);
    } else {
        let k = m - a.len();
        assert(x == b[k]);
        lemma_tree_pairs_index(last.package_name@, type_forest(last.type_decls@), k);
        assert(asts[asts.len() - 1] == last);
        let names = package_type_names(asts.drop_last(), x.0);
        let extra = tree_names(type_forest(last.type_decls@));
        assert(extra[k] == x.1);
        lemma_contains_concat(names, extra, x.1);
    }
}

/// A name a package lists is paired with that package among the files'
/// types.
pub proof fn lemma_listed_file_pair(asts: Seq<Rc<types::JavaFile>>, pkg: Seq<Seq<char>>, name: Seq<Seq<char>>)
    requires
        package_type_names(asts, pkg).contains(name),
    ensures
        file_pairs(asts).contains((pkg, name)),
    decreases asts.len(),
{
    if asts.len() > 0 {
        let last = asts.last();
        let names = package_type_names(asts.drop_last(), pkg);
        let extra: Seq<Seq<Seq<char>>> = if last.package_name@ == pkg {
            tree_names(type_forest(last.type_decls@))
        } else {
            Seq::empty()
        };
        lemma_contains_concat(names, extra, name);
        let a = file_pairs(asts.drop_last());
        let b = tree_pairs(last.package_name@, type_forest(last.type_decls@));
        if names.contains(name) {
            lemma_listed_file_pair(asts.drop_last(), pkg, name);
        } else {
            let k = choose|k: int| 0 <= k < extra.len() && extra[k] == name;
            lemma_tree_pairs_index(last.package_name@, type_forest(last.type_decls@), k);
            assert(b[k] == (pkg, name));
        }
        lemma_contains_concat(a, b, (pkg, name));
    }
}

/// In a well-formed project, a type filed under a package's name and a key
/// is the one `locate` finds.
pub proof fn lemma_locate_unique(project: Project, p: int, e: int)
    requires
        project.wf(),
        0 <= p < project.packages().len(),
        0 <= e < project.packages()[p].entries().len(),
    ensures
        project.locate(project.packages()[p].package@, entry_key(project.packages()[p].entries()[e])) == Some((p, e)),
{
    let ps = project.packages();
    let pkg = ps[p].package@;
    let key = entry_key(ps[p].entries()[e]);
    lemma_package_index_from(ps, pkg, 0);
    let q = package_index(ps, pkg).unwrap();
    if q < p {
        assert(ps[q].package@ != ps[p].package@);
    }
    assert(q == p);
    lemma_entry_index_from(ps[p].entries(), key, 0);
    let f = entry_index(ps[p].entries(), key).unwrap();
    if f < e {
        assert(ps[p].wf());
        assert(entry_key(ps[p].entries()[f]) != entry_key(ps[p].entries()[e]));
    }
    assert(f == e);
}

/// Names a well-formed project holds are found by `locate`.
pub proof fn lemma_listed_located(project: Project, p: int, name: Seq<Seq<char>>)
    requires
        project.wf(),
        0 <= p < project.packages().len(),
        entry_keys(project.packages()[p].entries()).contains(name),
    ensures
        project.locate(project.packages()[p].package@, name) is Some,
{
    let es = project.packages()[p].entries();
    let e = choose|e: int| 0 <= e < entry_keys(es).len() && entry_keys(es)[e] == name;
    assert(entry_key(es[e]) == name);
    lemma_locate_unique(project, p, e);
}

/// No name occurs twice.
pub open spec fn names_distinct(ns: Seq<Seq<Seq<char>>>) -> bool {
    forall|i: int, j: int| 0 <= i < j < ns.len() ==> (#[trigger] ns[i]) != (#[trigger] ns[j])
}

/// The types of the first `j` declared types come first among those of the
/// first `n`.
pub proof fn lemma_forest_prefix(s: Seq<Rc<types::Type>>, j: int, n: int)
    requires
        0 <= j <= n <= s.len(),
    ensures
        type_forest(s.take(j)).len() <= type_forest(s.take(n)).len(),
        forall|k: int| 0 <= k < type_forest(s.take(j)).len() ==> #[trigger] type_forest(s.take(n))[k] == type_forest(s.take(j))[k],
    decreases n - j,
{
    if j < n {
        lemma_forest_prefix(s, j, n - 1);
        crate::name_resolution::resolve_types::lemma_type_forest_step(s, n - 1);
    }
}

/// Where the types of the `i`-th declared type sit among the types of all
/// of them: right after those of the types declared before it.
pub proof fn lemma_forest_slot(s: Seq<Rc<types::Type>>, i: int, k: int)
    requires
        0 <= i < s.len(),
        0 <= k < type_tree(rc_type(&s[i])).len(),
    ensures
        type_forest(s.take(i)).len() + type_tree(rc_type(&s[i])).len() == type_forest(s.take(i + 1)).len(),
        type_forest(s.take(i + 1)).len() <= type_forest(s).len(),
        type_forest(s)[type_forest(s.take(i)).len() + k] == type_tree(rc_type(&s[i]))[k],
{
    crate::name_resolution::resolve_types::lemma_type_forest_step(s, i);
    lemma_forest_prefix(s, i + 1, s.len() as int);
    assert(s.take(s.len() as int) =~= s);
    let a = type_forest(s.take(i));
    let b = type_tree(rc_type(&s[i]));
    assert((a + b)[a.len() + k] == b[k]);
}

/// After one entry of the project was changed, every other name is as
/// resolved as it was.
pub proof fn lemma_resolved_at_after_update(prev: Project, next: Project, p: int, e: int, pkg: Seq<Seq<char>>, name: Seq<Seq<char>>)
    requires
        prev.wf(),
        next.updated_from(prev, p, e),
        prev.locate(pkg, name) is Some,
        prev.locate(pkg, name) != Some((p, e)),
    ensures
        resolved_at(next, pkg, name) == resolved_at(prev, pkg, name),
{
    crate::name_resolution::resolve_types::lemma_locate_after_update(prev, next, p, e, pkg, name);
    lemma_locate_found(prev, pkg, name);
    let (p2, e2) = prev.locate(pkg, name).unwrap();
    if p2 != p {
        assert(next.packages()[p2] == prev.packages()[p2]);
    } else {
        assert(next.packages()[p].entries()[e2] == prev.packages()[p].entries()[e2]);
    }
}

/// `locate` finds a name only in the package and under the key of the entry
/// it gives.
pub proof fn lemma_locate_found(project: Project, pkg: Seq<Seq<char>>, name: Seq<Seq<char>>)
    requires
        project.locate(pkg, name) is Some,
    ensures
        ({
            let (p, e) = project.locate(pkg, name).unwrap();
            &&& 0 <= p < project.packages().len()
            &&& 0 <= e < project.packages()[p].entries().len()
            &&& project.packages()[p].package@ == pkg
            &&& entry_key(project.packages()[p].entries()[e]) == name
        }),
{
    lemma_package_index_from(project.packages(), pkg, 0);
    let p = package_index(project.packages(), pkg).unwrap();
    lemma_entry_index_from(project.packages()[p].entries(), name, 0);
}

/// When no package lists a name twice, no type of the files is paired with
/// its package twice.
pub proof fn lemma_file_pairs_distinct(asts: Seq<Rc<types::JavaFile>>)
    requires
        forall|pkg: Seq<Seq<char>>| names_distinct(#[trigger] package_type_names(asts, pkg)),
    ensures
        pairs_distinct(file_pairs(asts)),
    decreases asts.len(),
{
    if asts.len() > 0 {
        let d = asts.drop_last();
        let last = asts.last();
        let pl = last.package_name@;
        let names_l = tree_names(type_forest(last.type_decls@));
        assert forall|pkg: Seq<Seq<char>>| names_distinct(#[trigger] package_type_names(d, pkg)) by {
            let full = package_type_names(asts, pkg);
            assert(names_distinct(full));
            let pre = package_type_names(d, pkg);
            assert forall|i: int, j: int| 0 <= i < j < pre.len() implies (#[trigger] pre[i]) != (#[trigger] pre[j]) by {
                assert(full[i] == pre[i]);
                assert(full[j] == pre[j]);
            }
        }
        lemma_file_pairs_distinct(d);
        let a = file_pairs(d);
        let b = tree_pairs(pl, type_forest(last.type_decls@));
        let full = package_type_names(asts, pl);
        let pre = package_type_names(d, pl);
        assert(full == pre + names_l);
        assert(names_distinct(full));
        assert forall|i: int, j: int| 0 <= i < j < (a + b).len() implies (#[trigger] (a + b)[i]) != (#[trigger] (a
            + b)[j]) by {
            if j < a.len() {
                assert((a + b)[i] == a[i]);
                assert((a + b)[j] == a[j]);
            } else if i >= a.len() {
                lemma_tree_pairs_index(pl, type_forest(last.type_decls@), i - a.len());
                lemma_tree_pairs_index(pl, type_forest(last.type_decls@), j - a.len());
                assert(full[pre.len() + i - a.len()] == names_l[i - a.len()]);
                assert(full[pre.len() + j - a.len()] == names_l[j - a.len()]);
            } else {
                lemma_tree_pairs_index(pl, type_forest(last.type_decls@), j - a.len());
                if (a + b)[i] == (a + b)[j] {
                    assert(a[i] == (pl, names_l[j - a.len()]));
                    lemma_file_pair_listed(d, i);
                    let w = choose|w: int| 0 <= w < pre.len() && pre[w] == names_l[j - a.len()];
                    assert(full[w] == pre[w]);
                    assert(full[pre.len() + j - a.len()] == names_l[j - a.len()]);
                }
            }
        }
    }
}

/// The types of the first `j` files come first among those of the first
/// `n`.
pub proof fn lemma_file_pairs_prefix(asts: Seq<Rc<types::JavaFile>>, j: int, n: int)
    requires
        0 <= j <= n <= asts.len(),
    ensures
        file_pairs(asts.take(j)).len() <= file_pairs(asts.take(n)).len(),
        forall|k: int| 0 <= k < file_pairs(asts.take(j)).len() ==> #[trigger] file_pairs(asts.take(n))[k] == file_pairs(asts.take(j))[k],
    decreases n - j,
{
    if j < n {
        lemma_file_pairs_prefix(asts, j, n - 1);
        assert(asts.take(n).drop_last() =~= asts.take(n - 1));
    }
}

/// Where the types of the `i`-th file sit among the types of all files:
/// right after those of the files before it.
pub proof fn lemma_file_pairs_slot(asts: Seq<Rc<types::JavaFile>>, i: int)
    requires
        0 <= i < asts.len(),
    ensures
        file_pairs(asts.take(i)).len() + tree_pairs(asts[i].package_name@, type_forest(asts[i].type_decls@)).len()
            == file_pairs(asts.take(i + 1)).len(),
        file_pairs(asts.take(i + 1)).len() <= file_pairs(asts).len(),
        forall|k: int|
            0 <= k < tree_pairs(asts[i].package_name@, type_forest(asts[i].type_decls@)).len() ==> file_pairs(asts)[file_pairs(
                asts.take(i),
            ).len() + k] == #[trigger] tree_pairs(asts[i].package_name@, type_forest(asts[i].type_decls@))[k],
{
    assert(asts.take(i + 1).drop_last() =~= asts.take(i));
    assert(asts.take(i + 1).last() == asts[i]);
    lemma_file_pairs_prefix(asts, i + 1, asts.len() as int);
    assert(asts.take(asts.len() as int) =~= asts);
    let a = file_pairs(asts.take(i));
    let b = tree_pairs(asts[i].package_name@, type_forest(asts[i].type_decls@));
    assert forall|k: int| 0 <= k < b.len() implies file_pairs(asts)[a.len() + k] == #[trigger] b[k] by {
        assert((a + b)[a.len() + k] == b[k]);
    }
}

} // verus!
