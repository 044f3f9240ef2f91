use std::rc::Rc;

use visualize_java::name_resolution::export_types::ExportedTypeEntryName;
use visualize_java::name_resolution::resolve::{ResolveError, ResolveStatus, Resolver};
use visualize_java::name_resolution::resolve_types::NameResolutionErr;
use visualize_java::parser::parser::Parser;
use visualize_java::resolved_types::{self, FullyQualifiedName, TypeSource};
use visualize_java::types::{JavaFile, QualifiedName};

/// The files of the name resolution fixture project, by path.
const NRES_FIXTURE: &[(&str, &str)] = &[
    // import shadowing: a wildcard import, a single-type import and the
    // file's own declaration all bind `Token`.
    ("nres/wildcard/Token.java", "package nres.wildcard;\npublic class Token {}\n"),
    ("nres/other/Token.java", "package nres.other;\npublic class Token {}\n"),
    (
        "nres/consumer/Token.java",
        "package nres.consumer;\nimport nres.wildcard.*;\nimport nres.other.Token;\npublic class Token {\n    Token self;\n}\n",
    ),
    // wildcard import reaching nested types
    (
        "nres/wildcard/Gadget.java",
        "package nres.wildcard;\npublic class Gadget {\n    public static class Part {\n        public static class SubPart {}\n    }\n}\n",
    ),
    (
        "nres/consumer/GadgetConsumer.java",
        "package nres.consumer;\nimport nres.wildcard.*;\npublic class GadgetConsumer {\n    Gadget gadget;\n    Gadget.Part part;\n    Gadget.Part.SubPart subPart;\n}\n",
    ),
    // static wildcard import
    (
        "nres/staticimport/Palette.java",
        "package nres.staticimport;\npublic class Palette {\n    public static enum Color { RED, GREEN }\n}\n",
    ),
    (
        "nres/consumer/ThemeConsumer.java",
        "package nres.consumer;\nimport static nres.staticimport.Palette.*;\npublic class ThemeConsumer {\n    Color color;\n}\n",
    ),
    // generics
    (
        "nres/generics/SelfComparable.java",
        "package nres.generics;\npublic interface SelfComparable<T extends SelfComparable<T>> {\n    int compareTo(T other);\n}\n",
    ),
    ("nres/generics/Identifiable2.java", "package nres.generics;\npublic interface Identifiable2<ID> {\n    ID id();\n}\n"),
    (
        "nres/generics/Store.java",
        "package nres.generics;\npublic class Store<T extends Identifiable2<ID>, ID> {\n    T item;\n}\n",
    ),
    (
        "nres/generics/Repo.java",
        "package nres.generics;\npublic class Repo<T, ID> implements Identifiable2<ID> {\n    T value;\n}\n",
    ),
    // two-hop inheritance
    ("nres/store/Widget.java", "package nres.store;\npublic class Widget {}\n"),
    (
        "nres/store/WidgetStore.java",
        "package nres.store;\nimport nres.generics.Repo;\npublic class WidgetStore extends Repo<Widget, String> {}\n",
    ),
    // diamond
    ("nres/diamond/IfaceA.java", "package nres.diamond;\npublic interface IfaceA {\n    public static class Shared {}\n}\n"),
    ("nres/diamond/IfaceB.java", "package nres.diamond;\npublic interface IfaceB {\n    public static class Shared {}\n}\n"),
    ("nres/diamond/DiamondImpl.java", "package nres.diamond;\npublic class DiamondImpl implements IfaceA, IfaceB {}\n"),
    (
        "nres/diamond/ShadowsShared.java",
        "package nres.diamond;\npublic class ShadowsShared implements IfaceA {\n    public static class Shared {}\n}\n",
    ),
    // interfaces and enums
    ("nres/animals/Animal.java", "package nres.animals;\npublic interface Animal {}\n"),
    ("nres/animals/Pet.java", "package nres.animals;\npublic interface Pet extends Animal {}\n"),
    ("nres/common/Describable.java", "package nres.common;\npublic interface Describable {\n    String describe();\n}\n"),
    (
        "nres/status/Priority.java",
        "package nres.status;\nimport nres.common.Describable;\npublic enum Priority implements Describable {\n    LOW, MEDIUM, HIGH;\n    public String describe() { return name(); }\n}\n",
    ),
    // fully qualified reference
    ("nres/app/Main.java", "package nres.app;\npublic class Main {\n    nres.diamond.DiamondImpl marker;\n}\n"),
];

fn load_asts(files: &[(&str, &str)]) -> Vec<Rc<JavaFile>> {
    files.iter().map(|(path, src)| Rc::new(Parser::parse(src, path).unwrap())).collect()
}

fn qn(parts: &[&str]) -> QualifiedName {
    QualifiedName(parts.iter().map(|s| s.to_string()).collect())
}

fn fqn_in_project(package: &[&str], typename: &[&str]) -> FullyQualifiedName {
    FullyQualifiedName { source: TypeSource::InProjectType { package: qn(package) }, typename: qn(typename) }
}

/// Parses the fixture and drives the Resolver to completion.
fn resolve_fixture() -> (Vec<Rc<JavaFile>>, Resolver) {
    let asts = load_asts(NRES_FIXTURE);
    let mut resolver = Resolver::new(&asts).unwrap();
    while resolver.deque_and_resolve().unwrap() == ResolveStatus::Unfinished {}
    (asts, resolver)
}

fn find_ast(asts: &[Rc<JavaFile>], package: &[&str], file_name: &str) -> Rc<JavaFile> {
    asts.iter()
        .find(|ast| ast.package_name == qn(package) && ast.file.rsplit('/').next() == Some(file_name))
        .unwrap_or_else(|| panic!("fixture file {file_name} not found in package {package:?}"))
        .clone()
}

fn resolved<'a>(resolver: &'a Resolver, pkg: &[&str], name: &[&str]) -> &'a resolved_types::Type {
    resolver.project.get_package(&qn(pkg)).unwrap().get_type(&qn(name)).unwrap().resolved_node.as_ref().unwrap()
}

fn member<'a>(t: &'a resolved_types::Type, name: &str) -> &'a resolved_types::Member {
    t.body.members.iter().find(|m| m.name == name).unwrap_or_else(|| panic!("member {name} not found"))
}

fn property_type(m: &resolved_types::Member) -> &resolved_types::FullyQualifiedName {
    match &m.member_kind {
        resolved_types::MemberKind::Property { reftype, .. } => &reftype.name,
        _ => panic!("expected a property member"),
    }
}

#[test]
fn import_shadowing_prefers_same_file() {
    let (_asts, resolver) = resolve_fixture();
    let token = resolved(&resolver, &["nres", "consumer"], &["nres", "consumer", "Token"]);
    assert_eq!(token.name, fqn_in_project(&["nres", "consumer"], &["nres", "consumer", "Token"]));
}

#[test]
fn same_file_declaration_wins_for_members_too() {
    let (_asts, resolver) = resolve_fixture();
    let token = resolved(&resolver, &["nres", "consumer"], &["nres", "consumer", "Token"]);
    assert_eq!(
        property_type(member(token, "self")),
        &fqn_in_project(&["nres", "consumer"], &["nres", "consumer", "Token"])
    );
}

#[test]
fn wildcard_import_reaches_nested_types() {
    let (_asts, resolver) = resolve_fixture();
    let consumer = resolved(&resolver, &["nres", "consumer"], &["nres", "consumer", "GadgetConsumer"]);
    assert_eq!(
        property_type(member(consumer, "gadget")),
        &fqn_in_project(&["nres", "wildcard"], &["nres", "wildcard", "Gadget"])
    );
    assert_eq!(
        property_type(member(consumer, "part")),
        &fqn_in_project(&["nres", "wildcard"], &["nres", "wildcard", "Gadget", "Part"])
    );
    assert_eq!(
        property_type(member(consumer, "subPart")),
        &fqn_in_project(&["nres", "wildcard"], &["nres", "wildcard", "Gadget", "Part", "SubPart"])
    );
}

#[test]
fn static_wildcard_import_binds_nested_type_bare() {
    let (_asts, resolver) = resolve_fixture();
    let consumer = resolved(&resolver, &["nres", "consumer"], &["nres", "consumer", "ThemeConsumer"]);
    assert_eq!(
        property_type(member(consumer, "color")),
        &fqn_in_project(&["nres", "staticimport"], &["nres", "staticimport", "Palette", "Color"])
    );
}

#[test]
fn self_referencing_generic_bound_resolves() {
    let (_asts, resolver) = resolve_fixture();
    let iface = resolved(&resolver, &["nres", "generics"], &["nres", "generics", "SelfComparable"]);
    let bound = &iface.type_params.0[0].extends_from[0];
    assert_eq!(bound.name, fqn_in_project(&["nres", "generics"], &["nres", "generics", "SelfComparable"]));
    assert_eq!(
        bound.type_arg_list.0[0],
        resolved_types::TypeArg::Is(resolved_types::RefType {
            name: resolved_types::FullyQualifiedName { source: TypeSource::Generic, typename: qn(&["T"]) },
            type_arg_list: resolved_types::TypeArgList(vec![]),
            arr_dim: 0,
        })
    );
}

#[test]
fn mutually_referencing_generic_bounds_resolve() {
    let (_asts, resolver) = resolve_fixture();
    let store = resolved(&resolver, &["nres", "generics"], &["nres", "generics", "Store"]);
    assert_eq!(store.type_params.0.len(), 2);

    let t_bound = &store.type_params.0[0].extends_from[0];
    assert_eq!(t_bound.name, fqn_in_project(&["nres", "generics"], &["nres", "generics", "Identifiable2"]));
    assert_eq!(
        t_bound.type_arg_list.0[0],
        resolved_types::TypeArg::Is(resolved_types::RefType {
            name: resolved_types::FullyQualifiedName { source: TypeSource::Generic, typename: qn(&["ID"]) },
            type_arg_list: resolved_types::TypeArgList(vec![]),
            arr_dim: 0,
        })
    );
    assert!(store.type_params.0[1].extends_from.is_empty());
}

#[test]
fn two_hop_inheritance_resolves_instantiated_parent() {
    let (_asts, resolver) = resolve_fixture();
    let widget_store = resolved(&resolver, &["nres", "store"], &["nres", "store", "WidgetStore"]);
    let resolved_types::TypeKind::Class { inherit_class, .. } = &widget_store.type_kind else {
        panic!("expected a class");
    };
    let parent = inherit_class.as_ref().unwrap();
    assert_eq!(parent.name, fqn_in_project(&["nres", "generics"], &["nres", "generics", "Repo"]));
    assert_eq!(
        parent.type_arg_list.0[0],
        resolved_types::TypeArg::Is(resolved_types::RefType {
            name: fqn_in_project(&["nres", "store"], &["nres", "store", "Widget"]),
            type_arg_list: resolved_types::TypeArgList(vec![]),
            arr_dim: 0,
        })
    );
    assert_eq!(
        parent.type_arg_list.0[1],
        resolved_types::TypeArg::Is(resolved_types::RefType {
            name: resolved_types::FullyQualifiedName {
                source: TypeSource::ExternalDependencyType,
                typename: qn(&["String"]),
            },
            type_arg_list: resolved_types::TypeArgList(vec![]),
            arr_dim: 0,
        })
    );
}

#[test]
fn diamond_implements_produces_ambiguous_export() {
    let (_asts, resolver) = resolve_fixture();
    let entry = resolver
        .project
        .get_package(&qn(&["nres", "diamond"]))
        .unwrap()
        .get_type(&qn(&["nres", "diamond", "DiamondImpl"]))
        .unwrap();
    let exported = entry.export_types.as_ref().unwrap();
    let shared = &exported.get(&qn(&["Shared"])).unwrap().name;
    assert!(matches!(shared, ExportedTypeEntryName::Ambiguous));
}

#[test]
fn own_nested_type_shadows_inherited_export() {
    let (_asts, resolver) = resolve_fixture();
    let entry = resolver
        .project
        .get_package(&qn(&["nres", "diamond"]))
        .unwrap()
        .get_type(&qn(&["nres", "diamond", "ShadowsShared"]))
        .unwrap();
    let exported = entry.export_types.as_ref().unwrap();
    let shared = &exported.get(&qn(&["Shared"])).unwrap().name;
    assert!(matches!(
        shared,
        ExportedTypeEntryName::Own(f) if *f == fqn_in_project(
            &["nres", "diamond"],
            &["nres", "diamond", "ShadowsShared", "Shared"]
        )
    ));
}

#[test]
fn interface_extending_interface_resolves() {
    let (_asts, resolver) = resolve_fixture();
    let pet = resolved(&resolver, &["nres", "animals"], &["nres", "animals", "Pet"]);
    let resolved_types::TypeKind::Interface { extend_interfaces } = &pet.type_kind else {
        panic!("expected an interface");
    };
    assert_eq!(extend_interfaces[0].name, fqn_in_project(&["nres", "animals"], &["nres", "animals", "Animal"]));
}

#[test]
fn enum_implementing_interface_resolves() {
    let (_asts, resolver) = resolve_fixture();
    let priority = resolved(&resolver, &["nres", "status"], &["nres", "status", "Priority"]);
    let resolved_types::TypeKind::Enum { implement_interfaces, enum_vals } = &priority.type_kind else {
        panic!("expected an enum");
    };
    assert_eq!(implement_interfaces[0].name, fqn_in_project(&["nres", "common"], &["nres", "common", "Describable"]));
    assert_eq!(enum_vals, &vec!["LOW".to_string(), "MEDIUM".to_string(), "HIGH".to_string()]);
}

#[test]
fn fully_qualified_reference_without_import_resolves() {
    let (_asts, resolver) = resolve_fixture();
    let main = resolved(&resolver, &["nres", "app"], &["nres", "app", "Main"]);
    assert_eq!(
        property_type(member(main, "marker")),
        &fqn_in_project(&["nres", "diamond"], &["nres", "diamond", "DiamondImpl"])
    );
}

#[test]
fn nested_subtypes_reconstructed_bottom_up() {
    let (asts, mut resolver) = resolve_fixture();
    let ast = find_ast(&asts, &["nres", "wildcard"], "Gadget.java");
    let tree = resolver.construct_tree(ast);

    let gadget = &tree.0[0];
    assert_eq!(gadget.name, fqn_in_project(&["nres", "wildcard"], &["nres", "wildcard", "Gadget"]));

    let part = &gadget.body.subtypes[0];
    assert_eq!(part.name, fqn_in_project(&["nres", "wildcard"], &["nres", "wildcard", "Gadget", "Part"]));

    let sub_part = &part.body.subtypes[0];
    assert_eq!(sub_part.name, fqn_in_project(&["nres", "wildcard"], &["nres", "wildcard", "Gadget", "Part", "SubPart"]));
}

#[test]
fn resolve_builds_one_tree_per_file() {
    let asts = load_asts(NRES_FIXTURE);
    let trees = Resolver::resolve(&asts).unwrap();
    assert_eq!(trees.len(), asts.len());
    for (ast, tree) in asts.iter().zip(trees.iter()) {
        assert_eq!(ast.type_decls.len(), tree.0.len());
    }
}

#[test]
fn cyclic_inheritance_is_an_error() {
    let asts = load_asts(&[
        ("cyc/A.java", "package cyc;\npublic class A extends B {}\n"),
        ("cyc/B.java", "package cyc;\npublic class B extends A {}\n"),
    ]);
    let r = Resolver::resolve(&asts);
    assert!(matches!(r, Err(ResolveError::NameResolution(NameResolutionErr::CyclicDependency))));
}

#[test]
fn primitive_parent_is_an_error() {
    let asts = load_asts(&[("prim/A.java", "package prim;\npublic class A extends int {}\n")]);
    let r = Resolver::resolve(&asts);
    assert!(matches!(r, Err(ResolveError::NameResolution(NameResolutionErr::PrimitiveParent))));
}

#[test]
fn duplicate_types_stop_the_resolver() {
    let asts = load_asts(&[("dup/A.java", "package dup;\nclass A {}\n"), ("dup/A2.java", "package dup;\nclass A {}\n")]);
    assert!(matches!(Resolver::resolve(&asts), Err(ResolveError::ReadProject(_))));
}

#[test]
fn empty_queue_is_finished() {
    let asts: Vec<Rc<JavaFile>> = vec![];
    let mut resolver = Resolver::new(&asts).unwrap();
    assert_eq!(resolver.deque_and_resolve(), Ok(ResolveStatus::Finished));
}

#[test]
fn standalone_types_in_packages_resolve() {
    let asts = load_asts(&[
        ("p/A.java", "package p;\npublic class A { int x; }\n"),
        ("p/B.java", "package p;\nclass B { }\n"),
        ("q/C.java", "package q;\npublic enum C { X, Y }\n"),
    ]);
    let trees = Resolver::resolve(&asts).unwrap();
    assert_eq!(trees.len(), 3);
    for (ast, tree) in asts.iter().zip(trees.iter()) {
        assert_eq!(ast.type_decls.len(), tree.0.len());
    }
}
