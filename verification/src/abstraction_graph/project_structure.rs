use vstd::prelude::*;

use std::rc::Rc;

use crate::types::{
    access_min_spec, access_rank, same_kind, AccessModifier, ImportObject, JavaFile, Member, Modifiers, ParseErr,
    QualifiedName, Type, TypeKind,
};

verus! {

broadcast use vstd::std_specs::vec::axiom_vec_index_decreases;

/// Why a project could not be read: a file could not be read (with the
/// reason), or a file could not be parsed.
#[derive(Debug)]
pub enum ProjErr {
    IoErr(String),
    ParseErr(ParseErr),
}

/// One type of a file, its nested types taken out of it, with the imports
/// of its file.
#[derive(Debug)]
pub struct FlattenType {
    pub name: QualifiedName,
    pub modifiers: Modifiers,
    pub members: Vec<Rc<Member>>,
    pub type_kind: TypeKind,
    pub import_objs: Rc<Vec<ImportObject>>,
}

/// A type, then the types it declares, each followed by the types it
/// declares in turn; with each, how visible it is once no type is more
/// visible than the types enclosing it, starting from `min`.
pub open spec fn flat_types(t: Type, min: AccessModifier) -> Seq<(Type, AccessModifier)>
    decreases t, 1nat,
{
    let access = access_min_spec(t.modifiers.access_modifier, min);
    seq![(t, access)] + flat_types_all(t.body.subtypes@, access)
}

/// The types of the list, each followed by the types it declares (see
/// [`flat_types`]).
pub open spec fn flat_types_all(s: Seq<Rc<Type>>, min: AccessModifier) -> Seq<(Type, AccessModifier)>
    decreases s, 0nat,
{
    if s.len() == 0 {
        Seq::empty()
    } else {
        flat_types_all(s.drop_last(), min) + flat_types(*s.last(), min)
    }
}

/// The type an `Rc` holds.
pub open spec fn rc_type(r: &Rc<Type>) -> Type {
    **r
}

/// `f` is the flattened form of `t`, seen with visibility `access`, with
/// the imports `imports`: same name, modifiers (but the visibility), members
/// and kind.
pub open spec fn flattens(f: FlattenType, t: Type, access: AccessModifier, imports: Rc<Vec<ImportObject>>) -> bool {
    &&& f.name@ == t.name@
    &&& f.modifiers.modifiers@ == t.modifiers.modifiers@
    &&& f.modifiers.access_modifier == access
    &&& f.members@ == t.body.members@
    &&& same_kind(f.type_kind, t.type_kind)
    &&& f.import_objs == imports
}

/// `fs` are the flattened forms of the types `ts`, in order.
pub open spec fn flattens_all(fs: Seq<FlattenType>, ts: Seq<(Type, AccessModifier)>, imports: Rc<Vec<ImportObject>>) -> bool {
    &&& fs.len() == ts.len()
    &&& forall|k: int| 0 <= k < ts.len() ==> flattens(#[trigger] fs[k], ts[k].0, ts[k].1, imports)
}

/// The types of the files' top-level types, in order, each followed by the
/// types it declares.
pub open spec fn file_types(decls: Seq<Rc<Type>>) -> Seq<(Type, AccessModifier)> {
    flat_types_all(decls, AccessModifier::Public)
}

/// Every visibility of the list is at most `min`.
pub open spec fn all_within(ts: Seq<(Type, AccessModifier)>, min: AccessModifier) -> bool {
    forall|k: int| 0 <= k < ts.len() ==> access_rank((#[trigger] ts[k]).1) <= access_rank(min)
}

/// A nested type is never more visible than the types enclosing it: every
/// visibility in the flattened list of a type is at most that of the type
/// itself, which is at most `min`.
pub proof fn law_flatten_visibility_clamped(t: Type, min: AccessModifier)
    ensures
        flat_types(t, min)[0].1 == access_min_spec(t.modifiers.access_modifier, min),
        all_within(flat_types(t, min), flat_types(t, min)[0].1),
        all_within(flat_types(t, min), min),
        access_rank(flat_types(t, min)[0].1) <= access_rank(t.modifiers.access_modifier),
    decreases t, 1nat,
{
    let access = access_min_spec(t.modifiers.access_modifier, min);
    lemma_all_clamped(t.body.subtypes@, access);
    let a: Seq<(Type, AccessModifier)> = seq![(t, access)];
    let b = flat_types_all(t.body.subtypes@, access);
    assert forall|k: int| 0 <= k < (a + b).len() implies access_rank((#[trigger] (a + b)[k]).1) <= access_rank(access) by {
        if k > 0 {
            assert((a + b)[k] == b[k - 1]);
        }
    }
}

/// Every visibility in the flattened list of a list of types is at most
/// `min`.
pub proof fn lemma_all_clamped(s: Seq<Rc<Type>>, min: AccessModifier)
    ensures
        all_within(flat_types_all(s, min), min),
    decreases s, 0nat,
{
    if s.len() > 0 {
        lemma_all_clamped(s.drop_last(), min);
        law_flatten_visibility_clamped(rc_type(&s.last()), min);
        let a = flat_types_all(s.drop_last(), min);
        let b = flat_types(rc_type(&s.last()), min);
        assert forall|k: int| 0 <= k < (a + b).len() implies access_rank((#[trigger] (a + b)[k]).1) <= access_rank(min) by {
            if k >= a.len() {
                assert((a + b)[k] == b[k - a.len()]);
            } else {
                assert((a + b)[k] == a[k]);
            }
        }
    }
}

impl FlattenType {
    /// The flattened types of a file, top-level type after top-level type,
    /// each sharing the file's imports.
    pub fn from_file(file: JavaFile) -> (r: Vec<Self>)
        ensures
            exists|imports: Rc<Vec<ImportObject>>|
                (*imports)@ == file.imported_objects@ && flattens_all(r@, file_types(file.type_decls@), imports),
    {
        let import_objs: Rc<Vec<ImportObject>> = Rc::new(file.imported_objects);
        let mut res: Vec<Self> = Vec::new();
        let mut i: usize = 0;
        while i < file.type_decls.len()
            invariant
                i <= file.type_decls@.len(),
                flattens_all(res@, flat_types_all(file.type_decls@.take(i as int), AccessModifier::Public), import_objs),
            decreases file.type_decls@.len() - i,
        {
            let mut more = Self::from_type(file.type_decls[i].clone(), import_objs.clone());
            let ghost before = res@;
            res.append(&mut more);
            proof {
                let s = file.type_decls@;
                assert(s.take(i + 1).drop_last() =~= s.take(i as int));
                assert(s.take(i + 1).last() == s[i as int]);
                let a = flat_types_all(s.take(i as int), AccessModifier::Public);
                let b = flat_types(rc_type(&s[i as int]), AccessModifier::Public);
                assert forall|k: int| 0 <= k < (a + b).len() implies flattens(
                    #[trigger] res@[k],
                    (a + b)[k].0,
                    (a + b)[k].1,
                    import_objs,
                ) by {
                    if k < a.len() {
                        assert(res@[k] == before[k]);
                        assert((a + b)[k] == a[k]);
                    } else {
                        assert((a + b)[k] == b[k - a.len()]);
                    }
                }
            }
            i = i + 1;
        }
        assert(file.type_decls@.take(file.type_decls@.len() as int) =~= file.type_decls@);
        assert((*import_objs)@ == file.imported_objects@ && flattens_all(res@, file_types(file.type_decls@), import_objs));
        res
    }

    /// Flattens a type into a vector of types
    /// The type comes first, followed by the types it declares; none is
    /// more visible than the types enclosing it.
    pub fn from_type(typeclass: Rc<Type>, import_objs: Rc<Vec<ImportObject>>) -> (r: Vec<Self>)
        ensures
            flattens_all(r@, flat_types(*typeclass, AccessModifier::Public), import_objs),
    {
        Self::recursive_from_type(typeclass, import_objs, AccessModifier::Public)
    }

    fn recursive_from_type(typeclass: Rc<Type>, import_objs: Rc<Vec<ImportObject>>, min_visibility: AccessModifier) -> (r: Vec<
        Self,
    >)
        ensures
            flattens_all(r@, flat_types(*typeclass, min_visibility), import_objs),
        decreases typeclass,
    {
        let access = typeclass.modifiers.access_modifier.narrower(min_visibility);
        let mut members: Vec<Rc<Member>> = Vec::new();
        let mut j: usize = 0;
        while j < typeclass.body.members.len()
            invariant
                j <= typeclass.body.members@.len(),
                members@ == typeclass.body.members@.take(j as int),
            decreases typeclass.body.members@.len() - j,
        {
            members.push(typeclass.body.members[j].clone());
            assert(members@ =~= typeclass.body.members@.take(j + 1));
            j = j + 1;
        }
        assert(members@ =~= typeclass.body.members@);
        let flatten_type = Self {
            name: typeclass.name.duplicate(),
            modifiers: Modifiers {
                modifiers: crate::types::copy_strings(&typeclass.modifiers.modifiers),
                access_modifier: access,
            },
            members,
            type_kind: typeclass.type_kind.duplicate(),
            import_objs: import_objs.clone(),
        };
        let mut res: Vec<Self> = Vec::new();
        res.push(flatten_type);
        let ghost subs = typeclass.body.subtypes@;
        let ghost first: Seq<(Type, AccessModifier)> = seq![(rc_type(&typeclass), access)];
        let mut i: usize = 0;
        while i < typeclass.body.subtypes.len()
            invariant
                i <= subs.len(),
                subs == typeclass.body.subtypes@,
                access == access_min_spec(typeclass.modifiers.access_modifier, min_visibility),
                first == seq![(*typeclass, access)],
                flattens_all(res@, first + flat_types_all(subs.take(i as int), access), import_objs),
            decreases subs.len() - i,
        {
            let mut more = Self::recursive_from_type(typeclass.body.subtypes[i].clone(), import_objs.clone(), access);
            let ghost before = res@;
            res.append(&mut more);
            proof {
                assert(subs.take(i + 1).drop_last() =~= subs.take(i as int));
                assert(subs.take(i + 1).last() == subs[i as int]);
                let a = first + flat_types_all(subs.take(i as int), access);
                let b = flat_types(rc_type(&subs[i as int]), access);
                assert(first + flat_types_all(subs.take(i + 1), access) =~= a + b);
                assert forall|k: int| 0 <= k < (a + b).len() implies flattens(
                    #[trigger] res@[k],
                    (a + b)[k].0,
                    (a + b)[k].1,
                    import_objs,
                ) by {
                    if k < a.len() {
                        assert(res@[k] == before[k]);
                        assert((a + b)[k] == a[k]);
                    } else {
                        assert((a + b)[k] == b[k - a.len()]);
                    }
                }
            }
            i = i + 1;
        }
        assert(subs.take(subs.len() as int) =~= subs);
        res
    }
}

/// The groups of a list of files: one per package, in the order packages
/// are first seen, each with the flattened types of its files in order.
pub open spec fn group_index(groups: Seq<(Seq<Seq<char>>, Seq<(Type, AccessModifier)>)>, pkg: Seq<Seq<char>>) -> Option<int>
    decreases groups.len(),
{
    if groups.len() == 0 {
        None
    } else if groups.last().0 == pkg {
        Some(groups.len() - 1)
    } else {
        group_index(groups.drop_last(), pkg)
    }
}

/// A group found for a package is a group of that package.
pub proof fn lemma_group_index(groups: Seq<(Seq<Seq<char>>, Seq<(Type, AccessModifier)>)>, pkg: Seq<Seq<char>>)
    ensures
        group_index(groups, pkg) matches Some(i) ==> 0 <= i < groups.len() && groups[i].0 == pkg,
    decreases groups.len(),
{
    if groups.len() > 0 {
        lemma_group_index(groups.drop_last(), pkg);
    }
}

/// `groups` with the types `ts` of a file of package `pkg` added: after
/// the types of that package, or as a new group at the end.
pub open spec fn add_group(
    groups: Seq<(Seq<Seq<char>>, Seq<(Type, AccessModifier)>)>,
    pkg: Seq<Seq<char>>,
    ts: Seq<(Type, AccessModifier)>,
) -> Seq<(Seq<Seq<char>>, Seq<(Type, AccessModifier)>)> {
    match group_index(groups, pkg) {
        Some(i) => groups.update(i, (pkg, groups[i].1 + ts)),
        None => groups.push((pkg, ts)),
    }
}

/// The groups of the files, file after file.
pub open spec fn project_groups(files: Seq<JavaFile>) -> Seq<(Seq<Seq<char>>, Seq<(Type, AccessModifier)>)>
    decreases files.len(),
{
    if files.len() == 0 {
        Seq::empty()
    } else {
        add_group(project_groups(files.drop_last()), files.last().package_name@, file_types(files.last().type_decls@))
    }
}

/// A Project is an wrapper for a hashmap
/// ```
/// f: QualifiedName -> Rc<[FlattenType]>
/// ```
/// where semantically it maps a package name to all of its declared types.
/// Here each package is kept with its types, in the order the packages
/// were first seen.
pub struct Project(pub Vec<(QualifiedName, Vec<FlattenType>)>);

/// `f` is the flattened form of `t` with visibility `access`, with the
/// imports of some file.
pub open spec fn flattens_some(f: FlattenType, t: Type, access: AccessModifier) -> bool {
    exists|imports: Rc<Vec<ImportObject>>| #[trigger] flattens(f, t, access, imports)
}

impl Project {
    /// The project's groups hold the flattened forms of `groups`: the same
    /// packages in the same order, each type flattened with the imports of
    /// its own file.
    pub open spec fn holds(&self, groups: Seq<(Seq<Seq<char>>, Seq<(Type, AccessModifier)>)>) -> bool {
        &&& self.0@.len() == groups.len()
        &&& forall|i: int|
            0 <= i < groups.len() ==> (#[trigger] self.0@[i]).0@ == groups[i].0 && self.0@[i].1@.len()
                == groups[i].1.len()
        &&& forall|i: int, k: int|
            0 <= i < groups.len() && 0 <= k < groups[i].1.len() ==> #[trigger] flattens_some(
                self.0@[i].1@[k],
                groups[i].1[k].0,
                groups[i].1[k].1,
            )
    }

    /// Groups the types of the parsed files by package: each package's
    /// types are those of its files, file after file, nested types after
    /// the types that declare them.
    pub fn from_files(files: Vec<JavaFile>) -> (r: Self)
        ensures
            r.holds(project_groups(files@)),
    {
        let mut groups: Vec<(QualifiedName, Vec<FlattenType>)> = Vec::new();
        let ghost all = files@;
        let mut files = files;
        let len = files.len();
        assert(all.len() == len);
        let mut n: usize = 0;
        while files.len() > 0
            invariant
                all.len() <= usize::MAX,
                n + files@.len() == all.len(),
                files@ == all.subrange(n as int, all.len() as int),
                Project(groups).holds(project_groups(all.take(n as int))),
            decreases files@.len(),
        {
            let ghost gs = project_groups(all.take(n as int));
            let file = files.remove(0);
            proof {
                assert(file == all[n as int]);
                assert(all.take(n + 1).drop_last() =~= all.take(n as int));
                assert(all.take(n + 1).last() == all[n as int]);
                assert(files@ =~= all.subrange(n + 1, all.len() as int));
            }
            let pkg = file.package_name.duplicate();
            let ghost ts = file_types(file.type_decls@);
            let mut flat = FlattenType::from_file(file);
            let ghost fl = flat@;
            let mut found: Option<usize> = None;
            let mut k: usize = groups.len();
            proof {
                assert(gs.take(gs.len() as int) =~= gs);
            }
            while k > 0 && found.is_none()
                invariant
                    k <= groups@.len(),
                    Project(groups).holds(gs),
                    found matches Some(idx) ==> idx < gs.len() && group_index(gs, pkg@) == Some(idx as int),
                    found is None ==> group_index(gs, pkg@) == group_index(gs.take(k as int), pkg@),
                decreases k,
            {
                assert(gs.take(k as int).drop_last() =~= gs.take(k - 1));
                assert(gs.take(k as int).last() == gs[k - 1]);
                if groups[k - 1].0.same_as(&pkg) {
                    found = Some(k - 1);
                }
                k = k - 1;
            }
            proof {
                if found is None {
                    assert(gs.take(0) =~= Seq::<(Seq<Seq<char>>, Seq<(Type, AccessModifier)>)>::empty());
                }
            }
            let ghost g0 = groups@;
            match found {
                Some(idx) => {
                    proof {
                        lemma_group_index(gs, pkg@);
                        let w = choose|imports: Rc<Vec<ImportObject>>| flattens_all(fl, ts, imports);
                        assert(fl.len() == ts.len());
                    }
                    let (q, mut v) = groups.remove(idx);
                    let ghost v0 = v@;
                    v.append(&mut flat);
                    groups.insert(idx, (q, v));
                    proof {
                        let ng = add_group(gs, pkg@, ts);
                        assert(ng == gs.update(idx as int, (pkg@, gs[idx as int].1 + ts)));
                        assert forall|i: int, k2: int| 0 <= i < ng.len() && 0 <= k2 < ng[i].1.len() implies #[trigger] flattens_some(
                            groups@[i].1@[k2],
                            ng[i].1[k2].0,
                            ng[i].1[k2].1,
                        ) by {
                            if i != idx as int {
                                assert(groups@[i] == g0[i]);
                                assert(flattens_some(g0[i].1@[k2], gs[i].1[k2].0, gs[i].1[k2].1));
                            } else if k2 < v0.len() {
                                assert(groups@[i].1@[k2] == v0[k2]);
                                assert(v0 == g0[i].1@);
                                assert(ng[i].1[k2] == gs[i].1[k2]);
                                assert(flattens_some(g0[i].1@[k2], gs[i].1[k2].0, gs[i].1[k2].1));
                            } else {
                                assert(groups@[i].1@[k2] == fl[k2 - v0.len()]);
                                assert(ng[i].1[k2] == ts[k2 - v0.len()]);
                                let w = choose|imports: Rc<Vec<ImportObject>>| flattens_all(fl, ts, imports);
                                assert(flattens(fl[k2 - v0.len()], ts[k2 - v0.len()].0, ts[k2 - v0.len()].1, w));
                            }
                        }
                        assert forall|i: int| 0 <= i < ng.len() implies (#[trigger] groups@[i]).0@ == ng[i].0 && groups@[i].1@.len()
                            == ng[i].1.len() by {
                            if i != idx as int {
                                assert(groups@[i] == g0[i]);
                            }
                        }
                    }
                },
                None => {
                    groups.push((pkg, flat));
                    proof {
                        let ng = add_group(gs, pkg@, ts);
                        assert(ng == gs.push((pkg@, ts)));
                        assert forall|i: int, k2: int| 0 <= i < ng.len() && 0 <= k2 < ng[i].1.len() implies #[trigger] flattens_some(
                            groups@[i].1@[k2],
                            ng[i].1[k2].0,
                            ng[i].1[k2].1,
                        ) by {
                            if i < g0.len() {
                                assert(groups@[i] == g0[i]);
                                assert(flattens_some(g0[i].1@[k2], gs[i].1[k2].0, gs[i].1[k2].1));
                            } else {
                                let w = choose|imports: Rc<Vec<ImportObject>>| flattens_all(fl, ts, imports);
                                assert(flattens(fl[k2], ts[k2].0, ts[k2].1, w));
                            }
                        }
                        assert forall|i: int| 0 <= i < ng.len() implies (#[trigger] groups@[i]).0@ == ng[i].0 && groups@[i].1@.len()
                            == ng[i].1.len() by {
                            if i < g0.len() {
                                assert(groups@[i] == g0[i]);
                            }
                        }
                    }
                },
            }
            n = n + 1;
        }
        assert(all.take(all.len() as int) =~= all);
        Project(groups)
    }
}

} // verus!
