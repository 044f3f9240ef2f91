use std::rc::Rc;

use visualize_java::abstraction_graph::graph::Graph;
use visualize_java::abstraction_graph::graph_types::{EdgeVariant, Node, TypeVariant};
use visualize_java::abstraction_graph::project_structure::{FlattenType, Project};
use visualize_java::name_resolution::resolve::Resolver;
use visualize_java::parser::parser::Parser;
use visualize_java::text::ends_with;
use visualize_java::types::{AccessModifier, ImportObject, JavaFile, QualifiedName};
use visualize_java::path_rules::{valid_components, ComponentKind};
use visualize_java::wasm_api::{is_java_source, BuildErr, ProjectBuilder};

const SMALL: &[(&str, &str)] = &[
    (
        "library/model/Book.java",
        "package library.model;\npublic class Book implements Comparable<Book> {\n    private String title;\n    public int compareTo(Book other) { return 0; }\n    public static class Builder {\n        Book build() { return null; }\n    }\n}\n",
    ),
    ("library/model/Member.java", "package library.model;\npublic class Member {\n    private String name;\n}\n"),
    (
        "library/model/Loan.java",
        "package library.model;\npublic class Loan {\n    private Book book;\n    private Member member;\n}\n",
    ),
    (
        "library/repo/AbstractRepository.java",
        "package library.repo;\npublic abstract class AbstractRepository<T, ID> {\n    public T find(ID id) { return null; }\n}\n",
    ),
    (
        "library/repo/BookRepository.java",
        "package library.repo;\nimport library.model.Book;\npublic class BookRepository extends AbstractRepository<Book, String> {\n    public Book first() throws IllegalStateException { return null; }\n}\n",
    ),
    (
        "library/model/Kind.java",
        "package library.model;\npublic enum Kind implements Labelled { FICTION, SCIENCE }\n",
    ),
    ("library/model/Labelled.java", "package library.model;\npublic interface Labelled {}\n"),
];

fn load_asts(files: &[(&str, &str)]) -> Vec<Rc<JavaFile>> {
    files.iter().map(|(path, src)| Rc::new(Parser::parse(src, path).unwrap())).collect()
}

fn build_graph(files: &[(&str, &str)]) -> Graph {
    let asts = load_asts(files);
    let trees = Resolver::resolve(&asts).unwrap();
    assert!(Graph::all_named(&trees));
    Graph::from_trees(&trees)
}

fn node_named<'a>(graph: &'a Graph, name: &str) -> &'a Node {
    &graph
        .0
        .iter()
        .find(|(k, _)| k.0.last().map(String::as_str) == Some(name))
        .unwrap_or_else(|| panic!("{name} node should exist"))
        .1
}

#[test]
fn builds_graph_for_small_project_without_panicking() {
    let graph = build_graph(SMALL);

    let book = node_named(&graph, "Book");
    assert!(
        !book.out_edges.iter().any(|e| e.typename.typename.0.last().map(String::as_str) == Some("Comparable")),
        "edges to types outside the project should be dropped"
    );

    let book_repository = node_named(&graph, "BookRepository");
    assert!(book_repository.out_edges.iter().any(|e| {
        e.variant == EdgeVariant::Extends
            && e.typename.typename.0.last().map(String::as_str) == Some("AbstractRepository")
    }));
}

#[test]
fn builds_association_edges_from_members() {
    let graph = build_graph(SMALL);

    let loan = node_named(&graph, "Loan");

    assert!(loan.out_edges.iter().any(|e| {
        e.typename.typename.0.last().map(String::as_str) == Some("Book")
            && matches!(&e.variant, EdgeVariant::Association(m) if m.name == "book")
    }));
    assert!(loan.out_edges.iter().any(|e| {
        e.typename.typename.0.last().map(String::as_str) == Some("Member")
            && matches!(&e.variant, EdgeVariant::Association(m) if m.name == "member")
    }));

    // build_edge is symmetric: the referenced type records the same edge on
    // its in_edges side.
    let book = node_named(&graph, "Book");
    assert!(book.in_edges.iter().any(|e| {
        e.typename.typename.0.last().map(String::as_str) == Some("Loan")
            && matches!(&e.variant, EdgeVariant::Association(m) if m.name == "book")
    }));
}

#[test]
fn graph_has_one_node_per_type_nested_included() {
    let graph = build_graph(SMALL);
    assert_eq!(graph.0.len(), 8);
    let builder = node_named(&graph, "Builder");
    assert_eq!(builder.type_variant, TypeVariant::Class);
    let kind = node_named(&graph, "Kind");
    assert_eq!(kind.type_variant, TypeVariant::Enum(vec!["FICTION".to_string(), "SCIENCE".to_string()]));
    let labelled = node_named(&graph, "Labelled");
    assert_eq!(labelled.type_variant, TypeVariant::Interface);
}

#[test]
fn every_edge_is_recorded_at_both_ends() {
    let graph = build_graph(SMALL);
    let total_out: usize = graph.0.iter().map(|(_, n)| n.out_edges.len()).sum();
    let total_in: usize = graph.0.iter().map(|(_, n)| n.in_edges.len()).sum();
    assert_eq!(total_out, total_in);
    // Kind implements Labelled; a method returning and taking Book gives
    // associations to Book.
    let kind = node_named(&graph, "Kind");
    assert!(kind.out_edges.iter().any(|e| e.variant == EdgeVariant::Implements));
    let labelled = node_named(&graph, "Labelled");
    assert!(labelled.in_edges.iter().any(|e| e.variant == EdgeVariant::Implements));
    let builder = node_named(&graph, "Builder");
    assert!(builder.out_edges.iter().any(|e| e.typename.typename.0.last().map(String::as_str) == Some("Book")));
}

#[test]
fn edges_to_generic_parameters_are_dropped() {
    let graph = build_graph(SMALL);
    let repo = node_named(&graph, "AbstractRepository");
    assert!(repo.out_edges.is_empty());
}

// --------------------------- flattening ---------------------------

#[test]
fn test_type_flattening() {
    let file = Parser::parse(
        "
            package com.example;
            public class BinaryTree {
                public static class Node {
                    public String id;
                    public Node left = Null, right = Null;
                }
                public Node root;
            }
            class Graph {
                public static class Node {
                    public String id;
                    public Vector<Node> to_nodes;
                }
                public HashMap<String, Node> nodes;
            }
            ",
        "",
    )
    .unwrap();
    let mut res: Vec<FlattenType> = vec![];
    let import_objs: Rc<Vec<ImportObject>> = Rc::new(file.imported_objects);
    for typeclass in file.type_decls {
        res.append(&mut FlattenType::from_type(typeclass, import_objs.clone()));
    }
    assert_eq!(res[0].name, QualifiedName(vec!["com".to_owned(), "example".to_owned(), "BinaryTree".to_owned()]));
    assert_eq!(
        res[1].name,
        QualifiedName(vec!["com".to_owned(), "example".to_owned(), "BinaryTree".to_owned(), "Node".to_owned()])
    );
    assert_eq!(res[2].name, QualifiedName(vec!["com".to_owned(), "example".to_owned(), "Graph".to_owned(),]));
    assert_eq!(
        res[3].name,
        QualifiedName(vec!["com".to_owned(), "example".to_owned(), "Graph".to_owned(), "Node".to_owned(),])
    );
    assert_eq!(res[0].members[0].name, "root");
    assert_eq!(res[1].members[0].name, "id");
    assert_eq!(res[1].members[1].name, "left");
    assert_eq!(res[1].members[2].name, "right");
}

#[test]
fn flattening_clamps_nested_visibility() {
    let file = Parser::parse("class Outer { public static class Inner {} }", "").unwrap();
    let res = FlattenType::from_file(file);
    assert_eq!(res.len(), 2);
    assert_eq!(res[0].modifiers.access_modifier, AccessModifier::Default);
    assert_eq!(res[1].modifiers.access_modifier, AccessModifier::Default);
}

#[test]
fn project_groups_types_by_package() {
    let files = vec![
        Parser::parse("package a;\nclass X {}", "X.java").unwrap(),
        Parser::parse("package b;\nclass Y { class Z {} }", "Y.java").unwrap(),
        Parser::parse("package a;\nclass W {}", "W.java").unwrap(),
    ];
    let project = Project::from_files(files);
    assert_eq!(project.0.len(), 2);
    assert_eq!(project.0[0].0, QualifiedName(vec!["a".to_owned()]));
    let names: Vec<String> = project.0[0].1.iter().map(|f| f.name.0.join(".")).collect();
    assert_eq!(names, vec!["a.X".to_string(), "a.W".to_string()]);
    let names: Vec<String> = project.0[1].1.iter().map(|f| f.name.0.join(".")).collect();
    assert_eq!(names, vec!["b.Y".to_string(), "b.Y.Z".to_string()]);
}

// ---------------------------- builder -----------------------------

#[test]
fn builder_skips_non_sources_and_builds() {
    let mut b = ProjectBuilder::new();
    assert!(b.add_file("README.md", "not java").is_ok());
    assert!(b.add_file("a/module-info.java", "module a {}").is_ok());
    assert!(b.add_file("a/package-info.java", "package a;").is_ok());
    assert_eq!(b.file_count(), 0);
    for (path, src) in SMALL {
        b.add_file(path, src).unwrap();
    }
    assert_eq!(b.file_count(), SMALL.len());
    let g = b.build_graph().unwrap();
    assert_eq!(g.0.len(), 8);
    b.clear();
    assert_eq!(b.file_count(), 0);
}

#[test]
fn builder_reports_parse_errors_and_keeps_its_files() {
    let mut b = ProjectBuilder::new();
    b.add_file("A.java", "class A {}").unwrap();
    assert!(b.add_file("B.java", "class B {").is_err());
    assert_eq!(b.file_count(), 1);
}

#[test]
fn builder_reports_resolution_errors() {
    let mut b = ProjectBuilder::new();
    b.add_file("A.java", "package p; class A extends B {}").unwrap();
    b.add_file("B.java", "package p; class B extends A {}").unwrap();
    assert!(matches!(b.build_graph(), Err(BuildErr::Resolve(_))));
}

#[test]
fn source_path_filter() {
    assert!(is_java_source("src/Foo.java"));
    assert!(!is_java_source("src/Foo.jav"));
    assert!(!is_java_source("module-info.java"));
    assert!(!is_java_source("x/package-info.java"));
    assert!(ends_with("abc", ""));
    assert!(!ends_with("a", "ab"));
}

#[test]
fn same_type_name_in_two_packages_builds() {
    let mut builder = ProjectBuilder::new();
    builder.add_file("a/A.java", "package a;\npublic class A {}\n").unwrap();
    builder.add_file("b/A.java", "package b;\npublic class A {}\n").unwrap();
    assert!(builder.build_graph().is_ok());
}

#[test]
fn repeated_nested_type_name_is_a_semantic_error() {
    let mut builder = ProjectBuilder::new();
    builder.add_file("p/Outer.java", "package p;\npublic class Outer {\n    class X {}\n    class X {}\n}\n").unwrap();
    let err = builder.build_graph().unwrap_err();
    assert!(matches!(
        err,
        BuildErr::Resolve(visualize_java::name_resolution::resolve::ResolveError::ReadProject(
            visualize_java::name_resolution::err::ReadProjectErr::SemanticErr(_)
        ))
    ));
}

#[test]
fn builder_accepts_one_public_and_one_package_private_type() {
    let mut b = ProjectBuilder::new();
    b.add_file("q/A.java", "package q; public class A { } class B { }").unwrap();
    assert_eq!(b.file_count(), 1);
    b.add_file("p/C.java", "package p; public class C { } class D { }").unwrap();
    assert_eq!(b.file_count(), 2);
    let g = b.build_graph().unwrap();
    assert_eq!(g.0.len(), 4);
}

#[test]
fn upload_paths_must_be_relative_plain_names() {
    assert!(valid_components(false, &vec![ComponentKind::Normal, ComponentKind::Normal]));
    assert!(valid_components(false, &vec![]));
    assert!(!valid_components(true, &vec![ComponentKind::Normal]));
    assert!(!valid_components(false, &vec![ComponentKind::Normal, ComponentKind::Other]));
}
