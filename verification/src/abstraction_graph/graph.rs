use vstd::prelude::*;

use crate::abstraction_graph::graph_types::{edges_view, variant_of, Edge, EdgeVariant, Node, NodeView, TypeVariant};
use crate::resolved_types::{fqn_key, FileTypeTree, FqnView, FullyQualifiedName, Member, MemberKind, RefType, Type, TypeKind, TypeParam, VoidableType};
use crate::types::QualifiedName;
use std::rc::Rc;

verus! {

broadcast use vstd::std_specs::vec::axiom_vec_index_decreases;

/// A type, then the types it declares, each followed by the types it
/// declares in turn.
pub open spec fn preorder(t: Type) -> Seq<Type>
    decreases t, 1nat,
{
    seq![t] + preorder_all(t.body.subtypes@)
}

/// The types of the list in order, each followed by the types it declares.
pub open spec fn preorder_all(s: Seq<Rc<Type>>) -> Seq<Type>
    decreases s, 0nat,
{
    if s.len() == 0 {
        Seq::empty()
    } else {
        preorder_all(s.drop_last()) + preorder(*s.last())
    }
}

/// The type an `Rc` holds.
pub open spec fn type_at(r: &Rc<Type>) -> Type {
    **r
}

/// Every type of the trees, tree after tree, each type before the types it
/// declares.
pub open spec fn forest(trees: Seq<Rc<FileTypeTree>>) -> Seq<Type>
    decreases trees.len(),
{
    if trees.len() == 0 {
        Seq::empty()
    } else {
        forest(trees.drop_last()) + preorder_all(trees.last().0@)
    }
}

/// Every type has a name that a node can be filed under.
pub open spec fn all_keyed(ts: Seq<Type>) -> bool {
    forall|i: int| 0 <= i < ts.len() ==> (fqn_key((#[trigger] ts[i]).name@) is Some)
}

/// The name a type's node is filed under.
pub open spec fn type_key(t: Type) -> Seq<Seq<char>> {
    fqn_key(t.name@).unwrap()
}

/// The names the nodes of `g` are filed under, in order.
pub open spec fn keys_of(g: Seq<(Seq<Seq<char>>, NodeView)>) -> Seq<Seq<Seq<char>>> {
    g.map_values(|p: (Seq<Seq<char>>, NodeView)| p.0)
}

/// No two nodes are filed under the same name.
pub open spec fn keys_distinct(g: Seq<(Seq<Seq<char>>, NodeView)>) -> bool {
    forall|i: int, j: int| 0 <= i < j < g.len() ==> (#[trigger] g[i]).0 != (#[trigger] g[j]).0
}

/// The node drawn for a type, before any edge is added.
pub open spec fn fresh_node(t: Type) -> NodeView {
    NodeView {
        name: t.name@,
        type_variant: variant_of(t.type_kind),
        members: t.body.members@,
        out_edges: Seq::empty(),
        in_edges: Seq::empty(),
    }
}

/// `g` with a node for `t` at the end, unless a node is filed under its
/// name already.
pub open spec fn add_node(g: Seq<(Seq<Seq<char>>, NodeView)>, t: Type) -> Seq<(Seq<Seq<char>>, NodeView)> {
    if keys_of(g).contains(type_key(t)) {
        g
    } else {
        g.push((type_key(t), fresh_node(t)))
    }
}

/// `g` with a node added for each type, in order.
pub open spec fn add_nodes(g: Seq<(Seq<Seq<char>>, NodeView)>, ts: Seq<Type>) -> Seq<(Seq<Seq<char>>, NodeView)>
    decreases ts.len(),
{
    if ts.len() == 0 {
        g
    } else {
        add_node(add_nodes(g, ts.drop_last()), ts.last())
    }
}

/// One relationship for each of the types named: from `from`, to each
/// type, of the given variant.
pub open spec fn refs_rels(from: FqnView, refs: Seq<RefType>, v: EdgeVariant) -> Seq<(FqnView, FqnView, EdgeVariant)> {
    refs.map_values(|r: RefType| (from, r.name@, v))
}

/// One relationship for each of the type parameters named.
pub open spec fn params_rels(from: FqnView, params: Seq<TypeParam>, v: EdgeVariant) -> Seq<(FqnView, FqnView, EdgeVariant)> {
    params.map_values(|p: TypeParam| (from, p.name@, v))
}

/// What a type extends and implements: its parent class, then the
/// interfaces it implements (or, for an interface, extends).
pub open spec fn inheritance_rels(t: Type) -> Seq<(FqnView, FqnView, EdgeVariant)> {
    match t.type_kind {
        TypeKind::Class { inherit_class, implement_interfaces } => (match inherit_class {
            Some(p) => seq![(t.name@, p.name@, EdgeVariant::Extends)],
            None => Seq::empty(),
        }) + refs_rels(t.name@, implement_interfaces@, EdgeVariant::Implements),
        TypeKind::Enum { implement_interfaces, .. } => refs_rels(t.name@, implement_interfaces@, EdgeVariant::Implements),
        TypeKind::Interface { extend_interfaces } => refs_rels(t.name@, extend_interfaces@, EdgeVariant::Implements),
        TypeKind::Annotation { .. } => Seq::empty(),
    }
}

/// The types a member refers to, each as an association carrying the
/// member: for a method, its type parameters, inputs, output and thrown
/// types; for a constructor, its type parameters, inputs and thrown types;
/// for a property, its type.
pub open spec fn member_rels(from: FqnView, m: Rc<Member>) -> Seq<(FqnView, FqnView, EdgeVariant)> {
    let v = EdgeVariant::Association(m);
    match m.member_kind {
        MemberKind::Method { type_param_list, input, output, throws } => params_rels(from, type_param_list.0@, v)
            + refs_rels(from, input@, v) + (match output {
            VoidableType::RefType(r) => seq![(from, r.name@, v)],
            VoidableType::Void => Seq::empty(),
        }) + refs_rels(from, throws@, v),
        MemberKind::Constructor { type_param_list, input, throws } => params_rels(from, type_param_list.0@, v)
            + refs_rels(from, input@, v) + refs_rels(from, throws@, v),
        MemberKind::Property { reftype, .. } => seq![(from, reftype.name@, v)],
    }
}

/// The associations of the members, member after member.
pub open spec fn members_rels(from: FqnView, ms: Seq<Rc<Member>>) -> Seq<(FqnView, FqnView, EdgeVariant)>
    decreases ms.len(),
{
    if ms.len() == 0 {
        Seq::empty()
    } else {
        members_rels(from, ms.drop_last()) + member_rels(from, ms.last())
    }
}

/// Everything one type is related to: inheritance first, then its members'
/// associations.
pub open spec fn type_rels(t: Type) -> Seq<(FqnView, FqnView, EdgeVariant)> {
    inheritance_rels(t) + members_rels(t.name@, t.body.members@)
}

/// The relationships of the types, type after type.
pub open spec fn all_rels(ts: Seq<Type>) -> Seq<(FqnView, FqnView, EdgeVariant)>
    decreases ts.len(),
{
    if ts.len() == 0 {
        Seq::empty()
    } else {
        all_rels(ts.drop_last()) + type_rels(ts.last())
    }
}

/// `n` with `e` added to its outgoing edges.
pub open spec fn with_out(n: NodeView, e: (FqnView, EdgeVariant)) -> NodeView {
    NodeView {
        name: n.name,
        type_variant: n.type_variant,
        members: n.members,
        out_edges: n.out_edges.push(e),
        in_edges: n.in_edges,
    }
}

/// `n` with `e` added to its incoming edges.
pub open spec fn with_in(n: NodeView, e: (FqnView, EdgeVariant)) -> NodeView {
    NodeView {
        name: n.name,
        type_variant: n.type_variant,
        members: n.members,
        out_edges: n.out_edges,
        in_edges: n.in_edges.push(e),
    }
}

/// Whether a relationship is drawn in `g`: both its ends name nodes.
pub open spec fn drawn(g: Seq<(Seq<Seq<char>>, NodeView)>, r: (FqnView, FqnView, EdgeVariant)) -> bool {
    &&& fqn_key(r.0) matches Some(fk) && keys_of(g).contains(fk)
    &&& fqn_key(r.1) matches Some(tk) && keys_of(g).contains(tk)
}

/// `g` with the relationship `r` drawn, if both its ends name nodes: an
/// edge leaves the node of its source, and the same edge reaches the node
/// of its target.
pub open spec fn add_rel(g: Seq<(Seq<Seq<char>>, NodeView)>, r: (FqnView, FqnView, EdgeVariant)) -> Seq<
    (Seq<Seq<char>>, NodeView),
> {
    if drawn(g, r) {
        let fk = fqn_key(r.0).unwrap();
        let tk = fqn_key(r.1).unwrap();
        g.map_values(
            |p: (Seq<Seq<char>>, NodeView)|
                {
                    let n1 = if p.0 == fk {
                        with_out(p.1, (r.1, r.2))
                    } else {
                        p.1
                    };
                    let n2 = if p.0 == tk {
                        with_in(n1, (r.0, r.2))
                    } else {
                        n1
                    };
                    (p.0, n2)
                },
        )
    } else {
        g
    }
}

/// `g` with the relationships drawn, in order.
pub open spec fn add_rels(g: Seq<(Seq<Seq<char>>, NodeView)>, rs: Seq<(FqnView, FqnView, EdgeVariant)>) -> Seq<
    (Seq<Seq<char>>, NodeView),
>
    decreases rs.len(),
{
    if rs.len() == 0 {
        g
    } else {
        add_rel(add_rels(g, rs.drop_last()), rs.last())
    }
}

/// The graph drawn from a list of types: a node for each name, from the
/// first type of that name, then every relationship between two nodes.
pub open spec fn graph_of(ts: Seq<Type>) -> Seq<(Seq<Seq<char>>, NodeView)> {
    add_rels(add_nodes(Seq::empty(), ts), all_rels(ts))
}

/// The graph of the project's types: each node is filed under the single
/// name of its type.
#[derive(Debug)]
pub struct Graph(pub Vec<(QualifiedName, Node)>);

impl View for Graph {
    type V = Seq<(Seq<Seq<char>>, NodeView)>;

    open spec fn view(&self) -> Seq<(Seq<Seq<char>>, NodeView)> {
        self.0@.map_values(|p: (QualifiedName, Node)| (p.0@, p.1@))
    }
}

impl Graph {
    /// No two nodes are filed under the same name.
    pub open spec fn wf(&self) -> bool {
        keys_distinct(self@)
    }

    /// The graph of the types of the trees: a node for every type, nested
    /// ones included, then an edge for every inheritance and association
    /// between two types of the project. Relationships that leave the
    /// project are not drawn.
    pub fn from_trees(trees: &[Rc<FileTypeTree>]) -> (r: Self)
        requires
            all_keyed(forest(trees@)),
        ensures
            r.wf(),
            r@ == graph_of(forest(trees@)),
    {
        let mut res = Graph(Vec::new());
        let mut i: usize = 0;
        while i < trees.len()
            invariant
                i <= trees@.len(),
                all_keyed(forest(trees@)),
                res.wf(),
                res@ == add_nodes(Seq::empty(), forest(trees@.take(i as int))),
            decreases trees@.len() - i,
        {
            proof {
                lemma_forest_step(trees@, i as int);
                lemma_forest_prefix_keyed(trees@, i as int);
                lemma_forest_prefix_keyed(trees@, i as int + 1);
            }
            res.build_from_tree_no_relationship(&trees[i]);
            proof {
                lemma_add_nodes_concat(Seq::empty(), forest(trees@.take(i as int)), preorder_all(trees@[i as int].0@));
            }
            i = i + 1;
        }
        assert(trees@.take(trees@.len() as int) =~= trees@);
        let ghost g0 = res@;
        let mut i: usize = 0;
        while i < trees.len()
            invariant
                i <= trees@.len(),
                res.wf(),
                keys_of(res@) == keys_of(g0),
                res@ == add_rels(g0, all_rels(forest(trees@.take(i as int)))),
            decreases trees@.len() - i,
        {
            proof {
                lemma_forest_step(trees@, i as int);
            }
            res.build_relationships_from_tree(&trees[i]);
            proof {
                lemma_all_rels_concat(forest(trees@.take(i as int)), preorder_all(trees@[i as int].0@));
                lemma_add_rels_concat(
                    g0,
                    all_rels(forest(trees@.take(i as int))),
                    all_rels(preorder_all(trees@[i as int].0@)),
                );
            }
            i = i + 1;
        }
        res
    }

    /// Whether every type of the trees, nested ones included, has a name
    /// a node can be filed under (what [`Graph::from_trees`] needs).
    pub fn all_named(trees: &[Rc<FileTypeTree>]) -> (r: bool)
        ensures
            r == all_keyed(forest(trees@)),
    {
        let mut i: usize = 0;
        while i < trees.len()
            invariant
                i <= trees@.len(),
                all_keyed(forest(trees@.take(i as int))),
            decreases trees@.len() - i,
        {
            proof {
                lemma_forest_step(trees@, i as int);
                lemma_all_keyed_concat(forest(trees@.take(i as int)), preorder_all(trees@[i as int].0@));
            }
            if !Self::list_named(&trees[i].0) {
                proof {
                    lemma_forest_keyed_prefix_of(trees@, i as int + 1);
                }
                return false;
            }
            i = i + 1;
        }
        assert(trees@.take(trees@.len() as int) =~= trees@);
        true
    }

    /// Whether every type of the list, nested ones included, has a name.
    fn list_named(ts: &Vec<Rc<Type>>) -> (r: bool)
        ensures
            r == all_keyed(preorder_all(ts@)),
        decreases ts@, 0nat,
    {
        let mut i: usize = 0;
        while i < ts.len()
            invariant
                i <= ts@.len(),
                all_keyed(preorder_all(ts@.take(i as int))),
            decreases ts@.len() - i,
        {
            proof {
                assert(ts@.take(i + 1).drop_last() =~= ts@.take(i as int));
                assert(ts@.take(i + 1).last() == ts@[i as int]);
                lemma_all_keyed_concat(preorder_all(ts@.take(i as int)), preorder(type_at(&ts@[i as int])));
            }
            if !Self::node_named(&ts[i]) {
                proof {
                    if all_keyed(preorder_all(ts@)) {
                        lemma_preorder_all_prefix_keyed(ts@, i as int + 1);
                    }
                }
                return false;
            }
            i = i + 1;
        }
        assert(ts@.take(ts@.len() as int) =~= ts@);
        true
    }

    /// Whether a type and every type it declares have names.
    fn node_named(t: &Rc<Type>) -> (r: bool)
        ensures
            r == all_keyed(preorder(**t)),
        decreases *t, 1nat,
    {
        proof {
            lemma_all_keyed_concat(seq![type_at(t)], preorder_all(t.body.subtypes@));
        }
        if t.name.into_fqn().is_none() {
            assert(preorder(type_at(t))[0] == type_at(t));
            return false;
        }
        Self::list_named(&t.body.subtypes)
    }

    /// The position of the node filed under `key`, if any.
    fn find(&self, key: &QualifiedName) -> (r: Option<usize>)
        ensures
            r matches Some(i) ==> i < self@.len() && self@[i as int].0 == key@,
            r is None ==> !keys_of(self@).contains(key@),
    {
        let mut i: usize = 0;
        while i < self.0.len()
            invariant
                i <= self.0@.len(),
                forall|k: int| 0 <= k < i ==> (#[trigger] self@[k]).0 != key@,
            decreases self.0@.len() - i,
        {
            if self.0[i].0.same_as(key) {
                return Some(i);
            }
            i = i + 1;
        }
        proof {
            if keys_of(self@).contains(key@) {
                let k = choose|k: int| 0 <= k < keys_of(self@).len() && keys_of(self@)[k] == key@;
                assert(self@[k].0 == key@);
            }
        }
        None
    }

    fn build_relationships_from_tree(&mut self, tree: &FileTypeTree)
        requires
            old(self).wf(),
        ensures
            final(self).wf(),
            keys_of(final(self)@) == keys_of(old(self)@),
            final(self)@ == add_rels(old(self)@, all_rels(preorder_all(tree.0@))),
    {
        let mut i: usize = 0;
        while i < tree.0.len()
            invariant
                i <= tree.0@.len(),
                self.wf(),
                keys_of(self@) == keys_of(old(self)@),
                self@ == add_rels(old(self)@, all_rels(preorder_all(tree.0@.take(i as int)))),
            decreases tree.0@.len() - i,
        {
            proof {
                assert(tree.0@.take(i + 1).drop_last() =~= tree.0@.take(i as int));
                assert(tree.0@.take(i + 1).last() == tree.0@[i as int]);
            }
            self.build_relationships_from_node(tree.0[i].clone());
            proof {
                lemma_all_rels_concat(preorder_all(tree.0@.take(i as int)), preorder(type_at(&tree.0@[i as int])));
                lemma_add_rels_concat(
                    old(self)@,
                    all_rels(preorder_all(tree.0@.take(i as int))),
                    all_rels(preorder(type_at(&tree.0@[i as int]))),
                );
            }
            i = i + 1;
        }
        assert(tree.0@.take(tree.0@.len() as int) =~= tree.0@);
    }

    #[verifier::spinoff_prover]
    #[verifier::rlimit(40)]
    fn build_relationships_from_node(&mut self, tree_node: Rc<Type>)
        requires
            old(self).wf(),
        ensures
            final(self).wf(),
            keys_of(final(self)@) == keys_of(old(self)@),
            final(self)@ == add_rels(old(self)@, all_rels(preorder(*tree_node))),
        decreases tree_node,
    {
        self.build_inheritance_relationship_from_node(tree_node.clone());
        self.build_associative_relationshup_from_node(tree_node.clone());
        proof {
            lemma_add_rels_concat(old(self)@, inheritance_rels(type_at(&tree_node)), members_rels(tree_node.name@, tree_node.body.members@));
            lemma_all_rels_single(type_at(&tree_node));
        }
        let ghost mid = self@;
        let ghost subs = tree_node.body.subtypes@;
        let mut i: usize = 0;
        while i < tree_node.body.subtypes.len()
            invariant
                i <= subs.len(),
                subs == tree_node.body.subtypes@,
                self.wf(),
                keys_of(self@) == keys_of(old(self)@),
                self@ == add_rels(mid, all_rels(preorder_all(subs.take(i as int)))),
                mid == add_rels(old(self)@, all_rels(seq![*tree_node])),
            decreases subs.len() - i,
        {
            proof {
                assert(subs.take(i + 1).drop_last() =~= subs.take(i as int));
                assert(subs.take(i + 1).last() == subs[i as int]);
            }
            self.build_relationships_from_node(tree_node.body.subtypes[i].clone());
            proof {
                lemma_all_rels_concat(preorder_all(subs.take(i as int)), preorder(type_at(&subs[i as int])));
                lemma_add_rels_concat(mid, all_rels(preorder_all(subs.take(i as int))), all_rels(preorder(type_at(&subs[i as int]))));
            }
            i = i + 1;
        }
        proof {
            assert(subs.take(subs.len() as int) =~= subs);
            lemma_all_rels_concat(seq![type_at(&tree_node)], preorder_all(subs));
            lemma_add_rels_concat(old(self)@, all_rels(seq![type_at(&tree_node)]), all_rels(preorder_all(subs)));
        }
    }

    /// Draws an association from the node of `from` for each type named
    /// in `refs`, carrying `member`.
    fn build_edges_to_refs(&mut self, from: &FullyQualifiedName, refs: &Vec<RefType>, variant: &EdgeVariant)
        requires
            old(self).wf(),
        ensures
            final(self).wf(),
            keys_of(final(self)@) == keys_of(old(self)@),
            final(self)@ == add_rels(old(self)@, refs_rels(from@, refs@, *variant)),
    {
        let mut i: usize = 0;
        while i < refs.len()
            invariant
                i <= refs@.len(),
                self.wf(),
                keys_of(self@) == keys_of(old(self)@),
                self@ == add_rels(old(self)@, refs_rels(from@, refs@.take(i as int), *variant)),
            decreases refs@.len() - i,
        {
            self.build_edge(from, &refs[i].name, variant.duplicate());
            proof {
                lemma_add_rels_push(old(self)@, refs_rels(from@, refs@.take(i as int), *variant), (from@, refs@[i as int].name@, *variant));
                assert(refs_rels(from@, refs@.take(i + 1), *variant) =~= refs_rels(from@, refs@.take(i as int), *variant).push(
                    (from@, refs@[i as int].name@, *variant),
                ));
            }
            i = i + 1;
        }
        assert(refs@.take(refs@.len() as int) =~= refs@);
    }

    /// Draws an edge from the node of `from` for each type parameter in
    /// `params`.
    fn build_edges_to_params(&mut self, from: &FullyQualifiedName, params: &Vec<TypeParam>, variant: &EdgeVariant)
        requires
            old(self).wf(),
        ensures
            final(self).wf(),
            keys_of(final(self)@) == keys_of(old(self)@),
            final(self)@ == add_rels(old(self)@, params_rels(from@, params@, *variant)),
    {
        let mut i: usize = 0;
        while i < params.len()
            invariant
                i <= params@.len(),
                self.wf(),
                keys_of(self@) == keys_of(old(self)@),
                self@ == add_rels(old(self)@, params_rels(from@, params@.take(i as int), *variant)),
            decreases params@.len() - i,
        {
            self.build_edge(from, &params[i].name, variant.duplicate());
            proof {
                lemma_add_rels_push(old(self)@, params_rels(from@, params@.take(i as int), *variant), (from@, params@[i as int].name@, *variant));
                assert(params_rels(from@, params@.take(i + 1), *variant) =~= params_rels(from@, params@.take(i as int), *variant).push(
                    (from@, params@[i as int].name@, *variant),
                ));
            }
            i = i + 1;
        }
        assert(params@.take(params@.len() as int) =~= params@);
    }

    fn build_associative_relationshup_from_node(&mut self, tree_node: Rc<Type>)
        requires
            old(self).wf(),
        ensures
            final(self).wf(),
            keys_of(final(self)@) == keys_of(old(self)@),
            final(self)@ == add_rels(old(self)@, members_rels(tree_node.name@, tree_node.body.members@)),
    {
        let ghost from = tree_node.name@;
        let ghost ms = tree_node.body.members@;
        let mut i: usize = 0;
        while i < tree_node.body.members.len()
            invariant
                i <= ms.len(),
                ms == tree_node.body.members@,
                from == tree_node.name@,
                self.wf(),
                keys_of(self@) == keys_of(old(self)@),
                self@ == add_rels(old(self)@, members_rels(from, ms.take(i as int))),
            decreases ms.len() - i,
        {
            let member = &tree_node.body.members[i];
            let ghost before = self@;
            let variant = EdgeVariant::Association(member.clone());
            match &member.member_kind {
                MemberKind::Method { type_param_list, input, output, throws } => {
                    self.build_edges_to_params(&tree_node.name, &type_param_list.0, &variant);
                    let ghost a = self@;
                    self.build_edges_to_refs(&tree_node.name, input, &variant);
                    let ghost b = self@;
                    match output {
                        VoidableType::RefType(reftype) => {
                            self.build_edge(&tree_node.name, &reftype.name, variant.duplicate());
                        },
                        VoidableType::Void => {},
                    }
                    let ghost c = self@;
                    self.build_edges_to_refs(&tree_node.name, throws, &variant);
                    proof {
                        let v = variant;
                        let p1 = params_rels(from, type_param_list.0@, v);
                        let p2 = refs_rels(from, input@, v);
                        let p3: Seq<(FqnView, FqnView, EdgeVariant)> = match output {
                            VoidableType::RefType(r) => seq![(from, r.name@, v)],
                            VoidableType::Void => Seq::empty(),
                        };
                        let p4 = refs_rels(from, throws@, v);
                        lemma_add_rels_concat(before, p1, p2);
                        assert(c == add_rels(b, p3)) by {
                            match output {
                                VoidableType::RefType(r) => {
                                    lemma_add_rels_push(b, Seq::empty(), (from, r.name@, v));
                                },
                                VoidableType::Void => {},
                            }
                        }
                        lemma_add_rels_concat(before, p1 + p2, p3);
                        lemma_add_rels_concat(before, p1 + p2 + p3, p4);
                    }
                },
                MemberKind::Constructor { type_param_list, input, throws } => {
                    self.build_edges_to_params(&tree_node.name, &type_param_list.0, &variant);
                    self.build_edges_to_refs(&tree_node.name, input, &variant);
                    let ghost b = self@;
                    self.build_edges_to_refs(&tree_node.name, throws, &variant);
                    proof {
                        let v = variant;
                        let p1 = params_rels(from, type_param_list.0@, v);
                        let p2 = refs_rels(from, input@, v);
                        let p4 = refs_rels(from, throws@, v);
                        lemma_add_rels_concat(before, p1, p2);
                        lemma_add_rels_concat(before, p1 + p2, p4);
                    }
                },
                MemberKind::Property { reftype, .. } => {
                    self.build_edge(&tree_node.name, &reftype.name, variant.duplicate());
                    proof {
                        lemma_add_rels_push(before, Seq::empty(), (from, reftype.name@, variant));
                    }
                },
            }
            proof {
                assert(ms.take(i + 1).drop_last() =~= ms.take(i as int));
                assert(ms.take(i + 1).last() == ms[i as int]);
                lemma_add_rels_concat(old(self)@, members_rels(from, ms.take(i as int)), member_rels(from, ms[i as int]));
            }
            i = i + 1;
        }
        assert(ms.take(ms.len() as int) =~= ms);
    }

    fn build_inheritance_relationship_from_node(&mut self, node: Rc<Type>)
        requires
            old(self).wf(),
        ensures
            final(self).wf(),
            keys_of(final(self)@) == keys_of(old(self)@),
            final(self)@ == add_rels(old(self)@, inheritance_rels(*node)),
    {
        // Build inheritance / implements edge
        match &node.type_kind {
            TypeKind::Class { inherit_class, implement_interfaces } => {
                let ghost first: Seq<(FqnView, FqnView, EdgeVariant)> = match inherit_class {
                    Some(p) => seq![(node.name@, p.name@, EdgeVariant::Extends)],
                    None => Seq::empty(),
                };
                match inherit_class {
                    Some(parent) => {
                        self.build_edge(&node.name, &parent.name, EdgeVariant::Extends);
                        proof {
                            lemma_add_rels_push(old(self)@, Seq::empty(), (node.name@, parent.name@, EdgeVariant::Extends));
                        }
                    },
                    None => {},
                }
                let ghost mid = self@;
                self.build_edges_to_refs(&node.name, implement_interfaces, &EdgeVariant::Implements);
                proof {
                    lemma_add_rels_concat(
                        old(self)@,
                        first,
                        refs_rels(node.name@, implement_interfaces@, EdgeVariant::Implements),
                    );
                }
            },
            TypeKind::Enum { implement_interfaces, .. } => {
                self.build_edges_to_refs(&node.name, implement_interfaces, &EdgeVariant::Implements);
            },
            TypeKind::Interface { extend_interfaces } => {
                self.build_edges_to_refs(&node.name, extend_interfaces, &EdgeVariant::Implements);
            },
            TypeKind::Annotation { .. } => {},
        }
    }

    fn build_from_tree_no_relationship(&mut self, tree: &FileTypeTree)
        requires
            old(self).wf(),
            all_keyed(preorder_all(tree.0@)),
        ensures
            final(self).wf(),
            final(self)@ == add_nodes(old(self)@, preorder_all(tree.0@)),
    {
        let mut i: usize = 0;
        while i < tree.0.len()
            invariant
                i <= tree.0@.len(),
                all_keyed(preorder_all(tree.0@)),
                self.wf(),
                self@ == add_nodes(old(self)@, preorder_all(tree.0@.take(i as int))),
            decreases tree.0@.len() - i,
        {
            proof {
                assert(tree.0@.take(i + 1).drop_last() =~= tree.0@.take(i as int));
                assert(tree.0@.take(i + 1).last() == tree.0@[i as int]);
                lemma_preorder_all_prefix_keyed(tree.0@, i as int + 1);
            }
            self.build_node_no_relationship(tree.0[i].clone());
            proof {
                lemma_add_nodes_concat(old(self)@, preorder_all(tree.0@.take(i as int)), preorder(type_at(&tree.0@[i as int])));
            }
            i = i + 1;
        }
        assert(tree.0@.take(tree.0@.len() as int) =~= tree.0@);
    }

    /// Draws the relationship from `from` to `to`, if both name nodes of
    /// the graph: the edge leaves the node of `from` and reaches the node
    /// of `to`.
    fn build_edge(&mut self, from: &FullyQualifiedName, to: &FullyQualifiedName, edge_variant: EdgeVariant)
        requires
            old(self).wf(),
        ensures
            final(self).wf(),
            keys_of(final(self)@) == keys_of(old(self)@),
            final(self)@ == add_rel(old(self)@, (from@, to@, edge_variant)),
    {
        let ghost r = (from@, to@, edge_variant);
        let from_key = match from.into_fqn() {
            Some(k) => k,
            None => {
                return;
            },
        };
        let to_key = match to.into_fqn() {
            Some(k) => k,
            None => {
                return;
            },
        };
        let fi = match self.find(&from_key) {
            Some(i) => i,
            None => {
                return;
            },
        };
        let ti = match self.find(&to_key) {
            Some(i) => i,
            None => {
                return;
            },
        };
        proof {
            assert(keys_of(self@)[fi as int] == from_key@);
            assert(keys_of(self@)[ti as int] == to_key@);
        }
        let ghost g = self@;
        let (k, mut node) = self.0.remove(fi);
        node.out_edges.push(Edge { typename: to.duplicate(), variant: edge_variant.duplicate() });
        self.0.insert(fi, (k, node));
        let (k, mut node) = self.0.remove(ti);
        node.in_edges.push(Edge { typename: from.duplicate(), variant: edge_variant });
        self.0.insert(ti, (k, node));
        proof {
            let expected = add_rel(g, r);
            assert(self@.len() == g.len());
            assert forall|j: int| 0 <= j < g.len() implies self@[j] == expected[j] by {
                if j != fi as int {
                    assert(g[j].0 != from_key@);
                }
                if j != ti as int {
                    assert(g[j].0 != to_key@);
                }
                assert(edges_view(self.0@[j].1.out_edges@) =~= (if j == fi as int {
                    g[j].1.out_edges.push((to@, edge_variant))
                } else {
                    g[j].1.out_edges
                }));
                assert(edges_view(self.0@[j].1.in_edges@) =~= (if j == ti as int {
                    g[j].1.in_edges.push((from@, edge_variant))
                } else {
                    g[j].1.in_edges
                }));
            }
            assert(self@ =~= expected);
            assert(keys_of(self@) =~= keys_of(g));
        }
    }

    fn build_node_no_relationship(&mut self, tree_node: Rc<Type>)
        requires
            old(self).wf(),
            all_keyed(preorder(*tree_node)),
        ensures
            final(self).wf(),
            final(self)@ == add_nodes(old(self)@, preorder(*tree_node)),
        decreases tree_node,
    {
        assert(preorder(*tree_node)[0] == *tree_node);
        let key = match tree_node.name.into_fqn() {
            Some(k) => k,
            None => {
                return;
            },
        };
        let found = self.find(&key);
        if let Some(i) = found {
            proof {
                assert(keys_of(self@)[i as int] == key@);
            }
        } else {
            let mut members: Vec<Rc<Member>> = Vec::new();
            let mut j: usize = 0;
            while j < tree_node.body.members.len()
                invariant
                    j <= tree_node.body.members@.len(),
                    members@ == tree_node.body.members@.take(j as int),
                decreases tree_node.body.members@.len() - j,
            {
                members.push(tree_node.body.members[j].clone());
                assert(members@ =~= tree_node.body.members@.take(j + 1));
                j = j + 1;
            }
            assert(members@ =~= tree_node.body.members@);
            let ghost g = self@;
            self.0.push(
                (
                    key,
                    Node {
                        name: tree_node.name.duplicate(),
                        type_variant: TypeVariant::from_typekind(&tree_node.type_kind),
                        members,
                        out_edges: Vec::new(),
                        in_edges: Vec::new(),
                    },
                ),
            );
            proof {
                assert(self@ =~= g.push((type_key(*tree_node), fresh_node(*tree_node)))) by {
                    assert(edges_view(Seq::<Edge>::empty()) =~= Seq::empty());
                }
                assert forall|a: int, b: int| 0 <= a < b < self@.len() implies (#[trigger] self@[a]).0 != (#[trigger] self@[b]).0 by {
                    if b == g.len() {
                        assert(keys_of(g)[a] == g[a].0);
                    }
                }
            }
        }
        proof {
            lemma_add_nodes_push(old(self)@, Seq::empty(), type_at(&tree_node));
            assert(self@ == add_node(old(self)@, type_at(&tree_node)));
        }
        let ghost mid = self@;
        let ghost subs = tree_node.body.subtypes@;
        let mut i: usize = 0;
        while i < tree_node.body.subtypes.len()
            invariant
                i <= subs.len(),
                subs == tree_node.body.subtypes@,
                all_keyed(preorder(*tree_node)),
                self.wf(),
                self@ == add_nodes(mid, preorder_all(subs.take(i as int))),
                mid == add_nodes(old(self)@, seq![*tree_node]),
            decreases subs.len() - i,
        {
            proof {
                assert(subs.take(i + 1).drop_last() =~= subs.take(i as int));
                assert(subs.take(i + 1).last() == subs[i as int]);
                assert forall|k: int| 0 <= k < preorder_all(subs).len() implies fqn_key((#[trigger] preorder_all(subs)[k]).name@) is Some by {
                    assert(preorder(*tree_node)[k + 1] == preorder_all(subs)[k]);
                }
                lemma_preorder_all_prefix_keyed(subs, i as int + 1);
            }
            self.build_node_no_relationship(tree_node.body.subtypes[i].clone());
            proof {
                lemma_add_nodes_concat(mid, preorder_all(subs.take(i as int)), preorder(type_at(&subs[i as int])));
            }
            i = i + 1;
        }
        proof {
            assert(subs.take(subs.len() as int) =~= subs);
            lemma_add_nodes_concat(old(self)@, seq![type_at(&tree_node)], preorder_all(subs));
        }
    }
}

/// The types of `a + b` all have names exactly when those of `a` and those
/// of `b` do.
pub proof fn lemma_all_keyed_concat(a: Seq<Type>, b: Seq<Type>)
    ensures
        all_keyed(a + b) == (all_keyed(a) && all_keyed(b)),
{
    if all_keyed(a) && all_keyed(b) {
        assert forall|k: int| 0 <= k < (a + b).len() implies fqn_key((#[trigger] (a + b)[k]).name@) is Some by {
            if k < a.len() {
                assert((a + b)[k] == a[k]);
            } else {
                assert((a + b)[k] == b[k - a.len()]);
            }
        }
    }
    if all_keyed(a + b) {
        assert forall|k: int| 0 <= k < a.len() implies fqn_key((#[trigger] a[k]).name@) is Some by {
            assert((a + b)[k] == a[k]);
        }
        assert forall|k: int| 0 <= k < b.len() implies fqn_key((#[trigger] b[k]).name@) is Some by {
            assert((a + b)[a.len() + k] == b[k]);
        }
    }
}

/// When the types of the first `n` trees do not all have names, neither do
/// those of all trees.
proof fn lemma_forest_keyed_prefix_of(trees: Seq<Rc<FileTypeTree>>, n: int)
    requires
        0 <= n <= trees.len(),
        !all_keyed(forest(trees.take(n))),
    ensures
        !all_keyed(forest(trees)),
{
    if all_keyed(forest(trees)) {
        lemma_forest_prefix_keyed(trees, n);
    }
}

/// Adding one more type adds its node after the others.
pub proof fn lemma_add_nodes_push(g: Seq<(Seq<Seq<char>>, NodeView)>, ts: Seq<Type>, t: Type)
    ensures
        add_nodes(g, ts.push(t)) == add_node(add_nodes(g, ts), t),
        add_nodes(g, seq![t]) == add_node(g, t),
{
    assert(ts.push(t).drop_last() =~= ts);
    assert(ts.push(t).last() == t);
    assert(seq![t].drop_last() =~= Seq::<Type>::empty());
    assert(seq![t].last() == t);
    assert(add_nodes(g, Seq::<Type>::empty()) == g);
}

/// Drawing one more relationship draws it after the others.
pub proof fn lemma_add_rels_push(g: Seq<(Seq<Seq<char>>, NodeView)>, rs: Seq<(FqnView, FqnView, EdgeVariant)>, r: (FqnView, FqnView, EdgeVariant))
    ensures
        add_rels(g, rs.push(r)) == add_rel(add_rels(g, rs), r),
        add_rels(g, seq![r]) == add_rel(g, r),
{
    assert(rs.push(r).drop_last() =~= rs);
    assert(rs.push(r).last() == r);
    assert(seq![r].drop_last() =~= Seq::<(FqnView, FqnView, EdgeVariant)>::empty());
    assert(seq![r].last() == r);
    assert(add_rels(g, Seq::<(FqnView, FqnView, EdgeVariant)>::empty()) == g);
}

/// The relationships of a single type are its own.
pub proof fn lemma_all_rels_single(t: Type)
    ensures
        all_rels(seq![t]) == type_rels(t),
{
    assert(seq![t].drop_last() =~= Seq::<Type>::empty());
    assert(seq![t].last() == t);
    assert(all_rels(Seq::<Type>::empty()) == Seq::<(FqnView, FqnView, EdgeVariant)>::empty());
    assert(Seq::<(FqnView, FqnView, EdgeVariant)>::empty() + type_rels(t) =~= type_rels(t));
}

/// Adding the types of `a + b` adds those of `a`, then those of `b`.
pub proof fn lemma_add_nodes_concat(g: Seq<(Seq<Seq<char>>, NodeView)>, a: Seq<Type>, b: Seq<Type>)
    ensures
        add_nodes(g, a + b) == add_nodes(add_nodes(g, a), b),
    decreases b.len(),
{
    if b.len() == 0 {
        assert(a + b =~= a);
    } else {
        assert((a + b).drop_last() =~= a + b.drop_last());
        lemma_add_nodes_concat(g, a, b.drop_last());
    }
}

/// Drawing the relationships of `a + b` draws those of `a`, then those of
/// `b`.
pub proof fn lemma_add_rels_concat(
    g: Seq<(Seq<Seq<char>>, NodeView)>,
    a: Seq<(FqnView, FqnView, EdgeVariant)>,
    b: Seq<(FqnView, FqnView, EdgeVariant)>,
)
    ensures
        add_rels(g, a + b) == add_rels(add_rels(g, a), b),
    decreases b.len(),
{
    if b.len() == 0 {
        assert(a + b =~= a);
    } else {
        assert((a + b).drop_last() =~= a + b.drop_last());
        lemma_add_rels_concat(g, a, b.drop_last());
    }
}

/// The relationships of `a + b` are those of `a`, then those of `b`.
pub proof fn lemma_all_rels_concat(a: Seq<Type>, b: Seq<Type>)
    ensures
        all_rels(a + b) == all_rels(a) + all_rels(b),
    decreases b.len(),
{
    if b.len() == 0 {
        assert(a + b =~= a);
        assert(all_rels(a) + all_rels(b) =~= all_rels(a));
    } else {
        assert((a + b).drop_last() =~= a + b.drop_last());
        lemma_all_rels_concat(a, b.drop_last());
        assert(all_rels(a + b) =~= all_rels(a) + all_rels(b));
    }
}

/// The types of the first `i + 1` trees are those of the first `i`, then
/// those of tree `i`.
pub proof fn lemma_forest_step(trees: Seq<Rc<FileTypeTree>>, i: int)
    requires
        0 <= i < trees.len(),
    ensures
        forest(trees.take(i + 1)) == forest(trees.take(i)) + preorder_all(trees[i].0@),
{
    assert(trees.take(i + 1).drop_last() =~= trees.take(i));
    assert(trees.take(i + 1).last() == trees[i]);
}

/// The types of some first trees all have names when those of all trees do.
pub proof fn lemma_forest_prefix_keyed(trees: Seq<Rc<FileTypeTree>>, n: int)
    requires
        0 <= n <= trees.len(),
        all_keyed(forest(trees)),
    ensures
        all_keyed(forest(trees.take(n))),
        n < trees.len() ==> all_keyed(preorder_all(trees[n].0@)),
    decreases trees.len() - n,
{
    if n == trees.len() {
        assert(trees.take(n) =~= trees);
    } else {
        lemma_forest_prefix_keyed(trees, n + 1);
        lemma_forest_step(trees, n);
        let a = forest(trees.take(n));
        let b = preorder_all(trees[n].0@);
        assert forall|k: int| 0 <= k < a.len() implies fqn_key((#[trigger] a[k]).name@) is Some by {
            assert((a + b)[k] == a[k]);
        }
        assert forall|k: int| 0 <= k < b.len() implies fqn_key((#[trigger] b[k]).name@) is Some by {
            assert((a + b)[a.len() + k] == b[k]);
        }
    }
}

/// The types of the first types of a list, with those they declare, all
/// have names when those of the whole list do; so do those of each type.
pub proof fn lemma_preorder_all_prefix_keyed(s: Seq<Rc<Type>>, n: int)
    requires
        0 <= n <= s.len(),
        all_keyed(preorder_all(s)),
    ensures
        all_keyed(preorder_all(s.take(n))),
        0 < n ==> all_keyed(preorder(*s[n - 1])),
    decreases s.len() - n,
{
    if n == s.len() {
        assert(s.take(n) =~= s);
        if 0 < n {
            assert(s.drop_last() =~= s.take(n - 1));
            let a = preorder_all(s.drop_last());
            let b = preorder(type_at(&s.last()));
            assert forall|k: int| 0 <= k < b.len() implies fqn_key((#[trigger] b[k]).name@) is Some by {
                assert((a + b)[a.len() + k] == b[k]);
            }
        }
    } else {
        lemma_preorder_all_prefix_keyed(s, n + 1);
        let t = s.take(n + 1);
        assert(t.drop_last() =~= s.take(n));
        assert(t.last() == s[n]);
        let a = preorder_all(s.take(n));
        let b = preorder(type_at(&s[n]));
        assert forall|k: int| 0 <= k < a.len() implies fqn_key((#[trigger] a[k]).name@) is Some by {
            assert((a + b)[k] == a[k]);
        }
        if 0 < n {
            lemma_preorder_all_prefix_keyed(s.take(n), n);
            assert(s.take(n).take(n) =~= s.take(n));
            assert(s.take(n)[n - 1] == s[n - 1]);
        }
    }
}

/// The variants of the edges of `es` whose other end is filed under `k`,
/// in order.
pub open spec fn edges_with(es: Seq<(FqnView, EdgeVariant)>, k: Seq<Seq<char>>) -> Seq<EdgeVariant>
    decreases es.len(),
{
    if es.len() == 0 {
        Seq::empty()
    } else if fqn_key(es.last().0) == Some(k) {
        edges_with(es.drop_last(), k).push(es.last().1)
    } else {
        edges_with(es.drop_last(), k)
    }
}

/// Every edge of every node has, at its other end, a type filed in `g`.
pub open spec fn edges_join_nodes(g: Seq<(Seq<Seq<char>>, NodeView)>) -> bool {
    &&& forall|i: int, k: int|
        0 <= i < g.len() && 0 <= k < g[i].1.out_edges.len() ==> (fqn_key((#[trigger] g[i].1.out_edges[k]).0) matches Some(x)
            && keys_of(g).contains(x))
    &&& forall|i: int, k: int|
        0 <= i < g.len() && 0 <= k < g[i].1.in_edges.len() ==> (fqn_key((#[trigger] g[i].1.in_edges[k]).0) matches Some(x)
            && keys_of(g).contains(x))
}

/// Every edge from one node to another is recorded at both ends: the
/// variants of the edges leaving node `i` for node `j` are, in order, those
/// of the edges reaching node `j` from node `i`.
pub open spec fn edges_symmetric(g: Seq<(Seq<Seq<char>>, NodeView)>) -> bool {
    forall|i: int, j: int|
        0 <= i < g.len() && 0 <= j < g.len() ==> edges_with((#[trigger] g[i]).1.out_edges, g[j].0) == edges_with(
            (#[trigger] g[j]).1.in_edges,
            g[i].0,
        )
}

/// Adding one edge at the end of a list.
proof fn lemma_edges_with_push(es: Seq<(FqnView, EdgeVariant)>, e: (FqnView, EdgeVariant), k: Seq<Seq<char>>)
    ensures
        edges_with(es.push(e), k) == if fqn_key(e.0) == Some(k) {
            edges_with(es, k).push(e.1)
        } else {
            edges_with(es, k)
        },
{
    assert(es.push(e).drop_last() =~= es);
    assert(es.push(e).last() == e);
}

/// What drawing one relationship does to each node: it keeps its name,
/// variant and members, and gains the edge at the end that concerns it.
proof fn lemma_add_rel_at(g: Seq<(Seq<Seq<char>>, NodeView)>, r: (FqnView, FqnView, EdgeVariant), i: int)
    requires
        0 <= i < g.len(),
    ensures
        add_rel(g, r).len() == g.len(),
        keys_of(add_rel(g, r)) == keys_of(g),
        add_rel(g, r)[i].0 == g[i].0,
        add_rel(g, r)[i].1.name == g[i].1.name,
        add_rel(g, r)[i].1.type_variant == g[i].1.type_variant,
        add_rel(g, r)[i].1.members == g[i].1.members,
        add_rel(g, r)[i].1.out_edges == if drawn(g, r) && fqn_key(r.0) == Some(g[i].0) {
            g[i].1.out_edges.push((r.1, r.2))
        } else {
            g[i].1.out_edges
        },
        add_rel(g, r)[i].1.in_edges == if drawn(g, r) && fqn_key(r.1) == Some(g[i].0) {
            g[i].1.in_edges.push((r.0, r.2))
        } else {
            g[i].1.in_edges
        },
{
    assert(keys_of(add_rel(g, r)) =~= keys_of(g));
}

/// Drawing relationships keeps every node's place, name, variant and
/// members; it keeps every edge joining two nodes, and every edge recorded
/// at both ends.
pub proof fn lemma_add_rels_keeps(g: Seq<(Seq<Seq<char>>, NodeView)>, rs: Seq<(FqnView, FqnView, EdgeVariant)>)
    ensures
        add_rels(g, rs).len() == g.len(),
        keys_of(add_rels(g, rs)) == keys_of(g),
        forall|i: int|
            0 <= i < g.len() ==> (#[trigger] add_rels(g, rs)[i]).0 == g[i].0 && add_rels(g, rs)[i].1.name == g[i].1.name
                && add_rels(g, rs)[i].1.type_variant == g[i].1.type_variant && add_rels(g, rs)[i].1.members
                == g[i].1.members,
        edges_join_nodes(g) ==> edges_join_nodes(add_rels(g, rs)),
        keys_distinct(g) && edges_symmetric(g) ==> edges_symmetric(add_rels(g, rs)),
    decreases rs.len(),
{
    if rs.len() > 0 {
        let h = add_rels(g, rs.drop_last());
        let r = rs.last();
        lemma_add_rels_keeps(g, rs.drop_last());
        let n = add_rel(h, r);
        assert forall|i: int| 0 <= i < h.len() implies (#[trigger] n[i]).0 == h[i].0 && n[i].1.name == h[i].1.name
            && n[i].1.type_variant == h[i].1.type_variant && n[i].1.members == h[i].1.members by {
            lemma_add_rel_at(h, r, i);
        }
        assert(keys_of(n) =~= keys_of(h));
        if edges_join_nodes(g) {
            assert forall|i: int, k: int| 0 <= i < n.len() && 0 <= k < n[i].1.out_edges.len() implies (fqn_key(
                (#[trigger] n[i].1.out_edges[k]).0,
            ) matches Some(x) && keys_of(n).contains(x)) by {
                lemma_add_rel_at(h, r, i);
                if k < h[i].1.out_edges.len() {
                    assert(n[i].1.out_edges[k] == h[i].1.out_edges[k]);
                }
            }
            assert forall|i: int, k: int| 0 <= i < n.len() && 0 <= k < n[i].1.in_edges.len() implies (fqn_key(
                (#[trigger] n[i].1.in_edges[k]).0,
            ) matches Some(x) && keys_of(n).contains(x)) by {
                lemma_add_rel_at(h, r, i);
                if k < h[i].1.in_edges.len() {
                    assert(n[i].1.in_edges[k] == h[i].1.in_edges[k]);
                }
            }
        }
        if keys_distinct(g) && edges_symmetric(g) {
            assert forall|i: int, j: int| 0 <= i < n.len() && 0 <= j < n.len() implies edges_with(
                (#[trigger] n[i]).1.out_edges,
                n[j].0,
            ) == edges_with((#[trigger] n[j]).1.in_edges, n[i].0) by {
                lemma_add_rel_at(h, r, i);
                lemma_add_rel_at(h, r, j);
                assert(edges_with(h[i].1.out_edges, h[j].0) == edges_with(h[j].1.in_edges, h[i].0));
                lemma_edges_with_push(h[i].1.out_edges, (r.1, r.2), h[j].0);
                lemma_edges_with_push(h[j].1.in_edges, (r.0, r.2), h[i].0);
            }
        }
    }
}

/// Adding nodes keeps the nodes already there and gives every type a node
/// under its name, each node coming from the first type of that name;
/// no edge is added.
pub proof fn lemma_add_nodes(g: Seq<(Seq<Seq<char>>, NodeView)>, ts: Seq<Type>)
    requires
        keys_distinct(g),
    ensures
        keys_distinct(add_nodes(g, ts)),
        add_nodes(g, ts).len() >= g.len(),
        forall|i: int| 0 <= i < g.len() ==> #[trigger] add_nodes(g, ts)[i] == g[i],
        forall|k: int| 0 <= k < ts.len() ==> keys_of(add_nodes(g, ts)).contains(type_key(#[trigger] ts[k])),
        forall|i: int|
            g.len() <= i < add_nodes(g, ts).len() ==> exists|k: int|
                0 <= k < ts.len() && (#[trigger] add_nodes(g, ts)[i]) == (type_key(ts[k]), fresh_node(#[trigger] ts[k]))
                    && !keys_of(g).contains(type_key(ts[k])) && forall|m: int|
                    0 <= m < k ==> type_key(#[trigger] ts[m]) != type_key(ts[k]),
    decreases ts.len(),
{
    if ts.len() > 0 {
        let h = add_nodes(g, ts.drop_last());
        let t = ts.last();
        lemma_add_nodes(g, ts.drop_last());
        let n = add_node(h, t);
        assert(n == add_nodes(g, ts));
        if !keys_of(h).contains(type_key(t)) {
            assert forall|a: int, b: int| 0 <= a < b < n.len() implies (#[trigger] n[a]).0 != (#[trigger] n[b]).0 by {
                if b == h.len() {
                    assert(keys_of(h)[a] == h[a].0);
                }
            }
            assert(keys_of(n)[h.len() as int] == type_key(t));
        }
        assert forall|k: int| 0 <= k < ts.len() implies keys_of(n).contains(type_key(#[trigger] ts[k])) by {
            if k < ts.len() - 1 {
                assert(ts.drop_last()[k] == ts[k]);
                assert(keys_of(h).contains(type_key(ts.drop_last()[k])));
                let w = choose|w: int| 0 <= w < keys_of(h).len() && keys_of(h)[w] == type_key(ts[k]);
                assert(keys_of(n)[w] == type_key(ts[k]));
            } else if keys_of(h).contains(type_key(t)) {
            } else {
                assert(keys_of(n)[h.len() as int] == type_key(t));
            }
        }
        assert forall|i: int| g.len() <= i < n.len() implies exists|k: int|
            0 <= k < ts.len() && (#[trigger] n[i]) == (type_key(ts[k]), fresh_node(#[trigger] ts[k]))
                && !keys_of(g).contains(type_key(ts[k])) && forall|m: int|
                0 <= m < k ==> type_key(#[trigger] ts[m]) != type_key(ts[k]) by {
            if i < h.len() {
                let k = choose|k: int|
                    0 <= k < ts.drop_last().len() && (#[trigger] h[i]) == (type_key(ts.drop_last()[k]), fresh_node(
                        #[trigger] ts.drop_last()[k],
                    )) && !keys_of(g).contains(type_key(ts.drop_last()[k])) && forall|m: int|
                        0 <= m < k ==> type_key(#[trigger] ts.drop_last()[m]) != type_key(ts.drop_last()[k]);
                assert(ts.drop_last()[k] == ts[k]);
                assert forall|m: int| 0 <= m < k implies type_key(#[trigger] ts[m]) != type_key(ts[k]) by {
                    assert(ts.drop_last()[m] == ts[m]);
                }
            } else {
                let k = ts.len() - 1;
                assert(ts[k] == t);
                assert(!keys_of(g).contains(type_key(t))) by {
                    if keys_of(g).contains(type_key(t)) {
                        let w = choose|w: int| 0 <= w < keys_of(g).len() && keys_of(g)[w] == type_key(t);
                        assert(keys_of(h)[w] == type_key(t));
                    }
                }
                assert forall|m: int| 0 <= m < k implies type_key(#[trigger] ts[m]) != type_key(ts[k]) by {
                    assert(ts.drop_last()[m] == ts[m]);
                    assert(keys_of(h).contains(type_key(ts.drop_last()[m])));
                }
            }
        }
    }
}

/// The nodes of the graph of a list of types: one node for every type's
/// name and no other; no two nodes share a name; each node holds the
/// name, variant and members of the first type of its name.
pub proof fn law_one_node_per_type(ts: Seq<Type>)
    requires
        all_keyed(ts),
    ensures
        keys_distinct(graph_of(ts)),
        forall|k: int| 0 <= k < ts.len() ==> keys_of(graph_of(ts)).contains(type_key(#[trigger] ts[k])),
        forall|i: int|
            0 <= i < graph_of(ts).len() ==> exists|k: int|
                0 <= k < ts.len() && (#[trigger] graph_of(ts)[i]).0 == type_key(#[trigger] ts[k])
                    && graph_of(ts)[i].1.name == ts[k].name@ && graph_of(ts)[i].1.type_variant == variant_of(ts[k].type_kind)
                    && graph_of(ts)[i].1.members == ts[k].body.members@ && forall|m: int|
                    0 <= m < k ==> type_key(#[trigger] ts[m]) != type_key(ts[k]),
{
    let g0 = add_nodes(Seq::empty(), ts);
    lemma_add_nodes(Seq::empty(), ts);
    lemma_add_rels_keeps(g0, all_rels(ts));
    let g = graph_of(ts);
    assert(keys_of(g) == keys_of(g0));
    assert forall|a: int, b: int| 0 <= a < b < g.len() implies (#[trigger] g[a]).0 != (#[trigger] g[b]).0 by {
        assert(g[a].0 == g0[a].0);
        assert(g[b].0 == g0[b].0);
    }
    assert forall|i: int| 0 <= i < g.len() implies exists|k: int|
        0 <= k < ts.len() && (#[trigger] g[i]).0 == type_key(#[trigger] ts[k]) && g[i].1.name == ts[k].name@
            && g[i].1.type_variant == variant_of(ts[k].type_kind) && g[i].1.members == ts[k].body.members@
            && forall|m: int| 0 <= m < k ==> type_key(#[trigger] ts[m]) != type_key(ts[k]) by {
        assert(g[i].0 == g0[i].0);
        let k = choose|k: int|
            0 <= k < ts.len() && (#[trigger] g0[i]) == (type_key(ts[k]), fresh_node(#[trigger] ts[k]))
                && !keys_of(Seq::<(Seq<Seq<char>>, NodeView)>::empty()).contains(type_key(ts[k])) && forall|m: int|
                0 <= m < k ==> type_key(#[trigger] ts[m]) != type_key(ts[k]);
        assert(g[i].0 == type_key(ts[k]));
    }
}

/// Every edge of the graph of a list of types joins two of its nodes: the
/// type at the other end of an edge is filed in the graph.
pub proof fn law_edges_join_nodes(ts: Seq<Type>)
    requires
        all_keyed(ts),
    ensures
        edges_join_nodes(graph_of(ts)),
{
    let g0 = add_nodes(Seq::empty(), ts);
    lemma_add_nodes(Seq::empty(), ts);
    lemma_add_nodes_no_edges(Seq::empty(), ts);
    lemma_add_rels_keeps(g0, all_rels(ts));
}

/// In the graph of a list of types every edge is recorded at both ends:
/// what leaves node `i` for node `j` is, variant for variant and in the
/// same order, what reaches node `j` from node `i`.
pub proof fn law_edges_symmetric(ts: Seq<Type>)
    requires
        all_keyed(ts),
    ensures
        edges_symmetric(graph_of(ts)),
{
    let g0 = add_nodes(Seq::empty(), ts);
    lemma_add_nodes(Seq::empty(), ts);
    lemma_add_nodes_no_edges(Seq::empty(), ts);
    lemma_add_rels_keeps(g0, all_rels(ts));
}

/// The relationship from `from` to `to` of variant `v` is drawn in `g`:
/// the node filed under the name of `from` has an edge leaving it for
/// `to`, and the node filed under the name of `to` has the same edge
/// reaching it from `from`.
pub open spec fn joined(g: Seq<(Seq<Seq<char>>, NodeView)>, from: FqnView, to: FqnView, v: EdgeVariant) -> bool {
    &&& exists|a: int| 0 <= a < g.len() && Some((#[trigger] g[a]).0) == fqn_key(from) && g[a].1.out_edges.contains((to, v))
    &&& exists|b: int| 0 <= b < g.len() && Some((#[trigger] g[b]).0) == fqn_key(to) && g[b].1.in_edges.contains((from, v))
}

/// Drawing relationships draws each one whose two ends are filed in the
/// graph, and what is drawn stays drawn.
proof fn lemma_rel_drawn(g: Seq<(Seq<Seq<char>>, NodeView)>, rs: Seq<(FqnView, FqnView, EdgeVariant)>, m: int)
    requires
        0 <= m < rs.len(),
        fqn_key(rs[m].0) matches Some(fk) && keys_of(g).contains(fk),
        fqn_key(rs[m].1) matches Some(tk) && keys_of(g).contains(tk),
    ensures
        joined(add_rels(g, rs), rs[m].0, rs[m].1, rs[m].2),
    decreases rs.len(),
{
    let h = add_rels(g, rs.drop_last());
    let r = rs.last();
    let n = add_rels(g, rs);
    lemma_add_rels_keeps(g, rs.drop_last());
    assert(n == add_rel(h, r));
    let x = rs[m];
    if m == rs.len() - 1 {
        let fk = fqn_key(r.0).unwrap();
        let tk = fqn_key(r.1).unwrap();
        assert(keys_of(h).contains(fk));
        assert(keys_of(h).contains(tk));
        assert(drawn(h, r));
        let a = choose|a: int| 0 <= a < keys_of(h).len() && keys_of(h)[a] == fk;
        let b = choose|b: int| 0 <= b < keys_of(h).len() && keys_of(h)[b] == tk;
        lemma_add_rel_at(h, r, a);
        lemma_add_rel_at(h, r, b);
        assert(n[a].1.out_edges[n[a].1.out_edges.len() - 1] == (r.1, r.2));
        assert(n[b].1.in_edges[n[b].1.in_edges.len() - 1] == (r.0, r.2));
        assert(n[a].0 == fk && n[b].0 == tk);
    } else {
        assert(rs.drop_last()[m] == x);
        lemma_rel_drawn(g, rs.drop_last(), m);
        let a = choose|a: int| 0 <= a < h.len() && Some((#[trigger] h[a]).0) == fqn_key(x.0) && h[a].1.out_edges.contains((x.1, x.2));
        let b = choose|b: int| 0 <= b < h.len() && Some((#[trigger] h[b]).0) == fqn_key(x.1) && h[b].1.in_edges.contains((x.0, x.2));
        lemma_add_rel_at(h, r, a);
        lemma_add_rel_at(h, r, b);
        let wa = choose|w: int| 0 <= w < h[a].1.out_edges.len() && h[a].1.out_edges[w] == (x.1, x.2);
        let wb = choose|w: int| 0 <= w < h[b].1.in_edges.len() && h[b].1.in_edges[w] == (x.0, x.2);
        assert(n[a].1.out_edges[wa] == (x.1, x.2));
        assert(n[b].1.in_edges[wb] == (x.0, x.2));
    }
}

/// A relationship of one of the types is among the relationships of all.
proof fn lemma_type_rel_in_all(ts: Seq<Type>, k: int, m: int)
    requires
        0 <= k < ts.len(),
        0 <= m < type_rels(ts[k]).len(),
    ensures
        all_rels(ts).contains(type_rels(ts[k])[m]),
    decreases ts.len(),
{
    let n = ts.len() - 1;
    let pre = all_rels(ts.drop_last());
    assert(all_rels(ts) == pre + type_rels(ts.last()));
    if k == n {
        assert(all_rels(ts)[pre.len() + m] == type_rels(ts[k])[m]);
    } else {
        assert(ts.drop_last()[k] == ts[k]);
        lemma_type_rel_in_all(ts.drop_last(), k, m);
        let w = choose|w: int| 0 <= w < pre.len() && pre[w] == type_rels(ts[k])[m];
        assert(all_rels(ts)[w] == pre[w]);
    }
}

/// The inheritance relationship at position `m` of a type is drawn in the
/// graph of the types whenever the type it reaches is filed there.
proof fn lemma_inheritance_drawn(ts: Seq<Type>, k: int, m: int)
    requires
        all_keyed(ts),
        0 <= k < ts.len(),
        0 <= m < inheritance_rels(ts[k]).len(),
        inheritance_rels(ts[k])[m].0 == ts[k].name@,
        fqn_key(inheritance_rels(ts[k])[m].1) matches Some(pk) && keys_of(graph_of(ts)).contains(pk),
    ensures
        joined(graph_of(ts), ts[k].name@, inheritance_rels(ts[k])[m].1, inheritance_rels(ts[k])[m].2),
{
    let t = ts[k];
    let g0 = add_nodes(Seq::empty(), ts);
    lemma_add_nodes(Seq::empty(), ts);
    lemma_add_rels_keeps(g0, all_rels(ts));
    assert(type_rels(t)[m] == inheritance_rels(t)[m]);
    lemma_type_rel_in_all(ts, k, m);
    let rs = all_rels(ts);
    let i = choose|i: int| 0 <= i < rs.len() && rs[i] == inheritance_rels(t)[m];
    assert(fqn_key(t.name@) is Some);
    assert(keys_of(g0).contains(type_key(t)));
    lemma_rel_drawn(g0, rs, i);
}

/// In the graph of a list of types, every type is joined to what it
/// inherits from, whenever that type is filed in the graph: a class to its
/// parent class by an `Extends` edge and to each interface it implements by
/// an `Implements` edge, an enum to each interface it implements and an
/// interface to each interface it extends by an `Implements` edge; each
/// edge leaves the node of the type and reaches the node of the parent.
pub proof fn law_inheritance_edges(ts: Seq<Type>, k: int)
    requires
        all_keyed(ts),
        0 <= k < ts.len(),
    ensures
        ts[k].type_kind matches TypeKind::Class { inherit_class: Some(p), .. } ==> (fqn_key(p.name@) matches Some(pk)
            && keys_of(graph_of(ts)).contains(pk) ==> joined(graph_of(ts), ts[k].name@, p.name@, EdgeVariant::Extends)),
        ts[k].type_kind matches TypeKind::Class { implement_interfaces: is, .. } ==> forall|j: int|
            0 <= j < is@.len() && (fqn_key((#[trigger] is@[j]).name@) matches Some(ik) && keys_of(graph_of(ts)).contains(ik))
                ==> joined(graph_of(ts), ts[k].name@, is@[j].name@, EdgeVariant::Implements),
        ts[k].type_kind matches TypeKind::Enum { implement_interfaces: is, .. } ==> forall|j: int|
            0 <= j < is@.len() && (fqn_key((#[trigger] is@[j]).name@) matches Some(ik) && keys_of(graph_of(ts)).contains(ik))
                ==> joined(graph_of(ts), ts[k].name@, is@[j].name@, EdgeVariant::Implements),
        ts[k].type_kind matches TypeKind::Interface { extend_interfaces: is } ==> forall|j: int|
            0 <= j < is@.len() && (fqn_key((#[trigger] is@[j]).name@) matches Some(ik) && keys_of(graph_of(ts)).contains(ik))
                ==> joined(graph_of(ts), ts[k].name@, is@[j].name@, EdgeVariant::Implements),
{
    let t = ts[k];
    match t.type_kind {
        TypeKind::Class { inherit_class, implement_interfaces } => {
            let ext: Seq<(FqnView, FqnView, EdgeVariant)> = match inherit_class {
                Some(p) => seq![(t.name@, p.name@, EdgeVariant::Extends)],
                None => Seq::empty(),
            };
            let is = implement_interfaces@;
            assert(inheritance_rels(t) == ext + refs_rels(t.name@, is, EdgeVariant::Implements));
            match inherit_class {
                Some(p) => {
                    if fqn_key(p.name@) matches Some(pk) && keys_of(graph_of(ts)).contains(pk) {
                        assert(inheritance_rels(t)[0] == (t.name@, p.name@, EdgeVariant::Extends));
                        lemma_inheritance_drawn(ts, k, 0);
                    }
                },
                None => {},
            }
            assert forall|j: int|
                0 <= j < is.len() && (fqn_key((#[trigger] is[j]).name@) matches Some(ik) && keys_of(graph_of(ts)).contains(ik))
                    implies joined(graph_of(ts), t.name@, is[j].name@, EdgeVariant::Implements) by {
                assert(inheritance_rels(t)[ext.len() + j] == (t.name@, is[j].name@, EdgeVariant::Implements));
                lemma_inheritance_drawn(ts, k, ext.len() + j);
            }
        },
        TypeKind::Enum { implement_interfaces, .. } => {
            let is = implement_interfaces@;
            assert forall|j: int|
                0 <= j < is.len() && (fqn_key((#[trigger] is[j]).name@) matches Some(ik) && keys_of(graph_of(ts)).contains(ik))
                    implies joined(graph_of(ts), t.name@, is[j].name@, EdgeVariant::Implements) by {
                assert(inheritance_rels(t)[j] == (t.name@, is[j].name@, EdgeVariant::Implements));
                lemma_inheritance_drawn(ts, k, j);
            }
        },
        TypeKind::Interface { extend_interfaces } => {
            let is = extend_interfaces@;
            assert forall|j: int|
                0 <= j < is.len() && (fqn_key((#[trigger] is[j]).name@) matches Some(ik) && keys_of(graph_of(ts)).contains(ik))
                    implies joined(graph_of(ts), t.name@, is[j].name@, EdgeVariant::Implements) by {
                assert(inheritance_rels(t)[j] == (t.name@, is[j].name@, EdgeVariant::Implements));
                lemma_inheritance_drawn(ts, k, j);
            }
        },
        TypeKind::Annotation { .. } => {},
    }
}

/// Nodes added to a graph without edges have no edges.
proof fn lemma_add_nodes_no_edges(g: Seq<(Seq<Seq<char>>, NodeView)>, ts: Seq<Type>)
    requires
        forall|i: int| 0 <= i < g.len() ==> (#[trigger] g[i]).1.out_edges.len() == 0 && g[i].1.in_edges.len() == 0,
    ensures
        forall|i: int|
            0 <= i < add_nodes(g, ts).len() ==> (#[trigger] add_nodes(g, ts)[i]).1.out_edges.len() == 0
                && add_nodes(g, ts)[i].1.in_edges.len() == 0,
        edges_join_nodes(add_nodes(g, ts)),
        edges_symmetric(add_nodes(g, ts)),
    decreases ts.len(),
{
    if ts.len() > 0 {
        lemma_add_nodes_no_edges(g, ts.drop_last());
    }
    let n = add_nodes(g, ts);
    assert forall|i: int, j: int| 0 <= i < n.len() && 0 <= j < n.len() implies edges_with(
        (#[trigger] n[i]).1.out_edges,
        n[j].0,
    ) == edges_with((#[trigger] n[j]).1.in_edges, n[i].0) by {
        assert(edges_with(n[i].1.out_edges, n[j].0) == Seq::<EdgeVariant>::empty());
        assert(edges_with(n[j].1.in_edges, n[i].0) == Seq::<EdgeVariant>::empty());
    }
}

} // verus!
