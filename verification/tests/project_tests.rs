use std::rc::Rc;

use visualize_java::name_resolution::err::ReadProjectErr;
use visualize_java::name_resolution::export_types::{ExportedInnerTypes, ExportedTypeEntry, ExportedTypeEntryName};
use visualize_java::name_resolution::file_util::Stack;
use visualize_java::name_resolution::resolve_types::{NameResolutionErr, Project};
use visualize_java::name_resolution::scope::Scope;
use visualize_java::parser::parser::Parser;
use visualize_java::resolved_types::{FullyQualifiedName, TypeSource};
use visualize_java::types::{AccessModifier, JavaFile, QualifiedName, Type};

fn qn(parts: &[&str]) -> QualifiedName {
    QualifiedName(parts.iter().map(|s| s.to_string()).collect())
}

fn parse_src(src: &str) -> JavaFile {
    Parser::parse(src, "").unwrap()
}

fn load_project(files: &[(&str, &str)]) -> (Vec<Rc<JavaFile>>, Project) {
    let asts: Vec<Rc<JavaFile>> = files.iter().map(|(path, src)| Rc::new(Parser::parse(src, path).unwrap())).collect();
    let project = Project::from_ast_lst(&asts).unwrap();
    (asts, project)
}

/// Builds the expected FullyQualifiedName for an in-project type, where
/// `suffix` is relative to `package`.
fn fqn(package: &[&str], suffix: &[&str]) -> FullyQualifiedName {
    let mut typename: Vec<String> = package.iter().map(|s| s.to_string()).collect();
    typename.extend(suffix.iter().map(|s| s.to_string()));
    FullyQualifiedName { source: TypeSource::InProjectType { package: qn(package) }, typename: QualifiedName(typename) }
}

fn type_node(project: &Project, pkg: &[&str], full_name: &[&str]) -> Rc<Type> {
    project.get_package(&qn(pkg)).unwrap().get_type(&qn(full_name)).unwrap().unresolved_node.clone()
}

/// Populates a type's `export_types` with what it declares itself, as the
/// resolver does once a parent is visited.
fn resolve_export_types(project: &mut Project, pkg: &[&str], full_name: &[&str]) {
    let node = type_node(project, pkg, full_name);
    let exported = {
        let package = project.get_package(&qn(pkg)).unwrap();
        ExportedInnerTypes::from_type_pre_inheritance(node, package)
    };
    project.set_export_types(&qn(pkg), &qn(full_name), exported).unwrap();
}

fn name_of<'a>(exported: &'a ExportedInnerTypes, key: &str) -> &'a ExportedTypeEntryName {
    &exported.get(&qn(&[key])).unwrap().name
}

/// The scope a type's own file starts with.
fn scope_of(asts: &[Rc<JavaFile>], project: &Project, pkg: &[&str], file: &str) -> Scope {
    let ast = asts.iter().find(|a| a.package_name == qn(pkg) && a.file.ends_with(file)).unwrap();
    Scope::construct_baseline_scope(ast, project)
}

const SCOPE_PKG: &[(&str, &str)] = &[(
    "scope/pkg/Outer.java",
    "package scope.pkg;\npublic class Outer {\n    public static class Inner {\n        public static class Deep {}\n    }\n    private static class Hidden {}\n}\n",
)];

const EXPORT_FIXTURE: &[(&str, &str)] = &[
    (
        "export/diamond/IfaceA.java",
        "package export.diamond;\npublic interface IfaceA {\n    public static class Shared {}\n}\n",
    ),
    (
        "export/diamond/IfaceB.java",
        "package export.diamond;\npublic interface IfaceB {\n    public static class Shared {}\n}\n",
    ),
    (
        "export/diamond/OnlyA.java",
        "package export.diamond;\npublic class OnlyA implements export.diamond.IfaceA {}\n",
    ),
    (
        "export/diamond/ShadowsA.java",
        "package export.diamond;\npublic class ShadowsA implements export.diamond.IfaceA {\n    public static class Shared {}\n}\n",
    ),
    (
        "export/diamond/Impl.java",
        "package export.diamond;\npublic class Impl implements export.diamond.IfaceA, export.diamond.IfaceB {\n    public static class Own {}\n}\n",
    ),
];

// ------------------------- from_type_pre_inheritance -------------------------

#[test]
fn pre_inheritance_lists_all_nested_descendants_regardless_of_visibility() {
    let (_asts, project) = load_project(SCOPE_PKG);
    let pkg = project.get_package(&qn(&["scope", "pkg"])).unwrap();
    let outer = type_node(&project, &["scope", "pkg"], &["scope", "pkg", "Outer"]);

    let exported = ExportedInnerTypes::from_type_pre_inheritance(outer, pkg);

    let inner = exported.get(&qn(&["Inner"])).unwrap();
    assert!(matches!(&inner.name, ExportedTypeEntryName::Own(f) if *f == fqn(&["scope", "pkg"], &["Outer", "Inner"])));
    assert_eq!(inner.visibility, AccessModifier::Public);

    let deep = exported.get(&qn(&["Inner", "Deep"])).unwrap();
    assert!(
        matches!(&deep.name, ExportedTypeEntryName::Own(f) if *f == fqn(&["scope", "pkg"], &["Outer", "Inner", "Deep"]))
    );

    let hidden = exported.get(&qn(&["Hidden"])).unwrap();
    assert_eq!(hidden.visibility, AccessModifier::Private);

    // the type itself is not counted as its own descendant.
    assert!(exported.get(&qn(&["Outer"])).is_none());
}

// ---------------------------- import_inheritance ------------------------------

fn dummy_root() -> Rc<QualifiedName> {
    Rc::new(qn(&["dummy"]))
}

fn id(label: &str) -> FullyQualifiedName {
    FullyQualifiedName { source: TypeSource::Generic, typename: qn(&[label]) }
}

fn single_entry(key: &str, name: ExportedTypeEntryName) -> ExportedInnerTypes {
    let mut m = ExportedInnerTypes::new();
    m.insert(qn(&[key]), ExportedTypeEntry { name, visibility: AccessModifier::Public, root_package: dummy_root() });
    m
}

#[test]
fn import_inheritance_own_beats_inherited_and_ambiguous() {
    let mut own = single_entry("Shared", ExportedTypeEntryName::Own(id("self")));
    let inherited = single_entry("Shared", ExportedTypeEntryName::Inherited(id("parent")));
    let ambiguous = single_entry("Shared", ExportedTypeEntryName::Ambiguous);

    own.import_inheritance(&[&inherited, &ambiguous]);

    assert!(matches!(name_of(&own, "Shared"), ExportedTypeEntryName::Own(f) if *f == id("self")));
}

#[test]
fn import_inheritance_new_name_is_adopted_as_inherited() {
    let mut own = ExportedInnerTypes::new();
    let parent = single_entry("Shared", ExportedTypeEntryName::Own(id("parent")));

    own.import_inheritance(&[&parent]);

    assert!(matches!(name_of(&own, "Shared"), ExportedTypeEntryName::Inherited(f) if *f == id("parent")));
}

#[test]
fn import_inheritance_same_origin_via_two_paths_is_not_ambiguous() {
    let mut own = single_entry("Shared", ExportedTypeEntryName::Inherited(id("common")));
    let via_other_path = single_entry("Shared", ExportedTypeEntryName::Inherited(id("common")));

    own.import_inheritance(&[&via_other_path]);

    assert!(matches!(name_of(&own, "Shared"), ExportedTypeEntryName::Inherited(f) if *f == id("common")));
}

#[test]
fn import_inheritance_conflicting_origins_become_ambiguous() {
    let mut own = single_entry("Shared", ExportedTypeEntryName::Inherited(id("via_a")));
    let via_b = single_entry("Shared", ExportedTypeEntryName::Inherited(id("via_b")));

    own.import_inheritance(&[&via_b]);

    assert!(matches!(name_of(&own, "Shared"), ExportedTypeEntryName::Ambiguous));
}

#[test]
fn import_inheritance_ambiguity_is_contagious_and_sticky() {
    let mut inherited = single_entry("Shared", ExportedTypeEntryName::Inherited(id("via_a")));
    let incoming_ambiguous = single_entry("Shared", ExportedTypeEntryName::Ambiguous);
    inherited.import_inheritance(&[&incoming_ambiguous]);
    assert!(matches!(name_of(&inherited, "Shared"), ExportedTypeEntryName::Ambiguous));

    let mut already_ambiguous = single_entry("Shared", ExportedTypeEntryName::Ambiguous);
    let unrelated = single_entry("Shared", ExportedTypeEntryName::Inherited(id("via_b")));
    already_ambiguous.import_inheritance(&[&unrelated]);
    assert!(matches!(name_of(&already_ambiguous, "Shared"), ExportedTypeEntryName::Ambiguous));
}

#[test]
fn import_inheritance_keeps_unrelated_names() {
    let mut own = single_entry("Mine", ExportedTypeEntryName::Own(id("self")));
    let parent = single_entry("Theirs", ExportedTypeEntryName::Own(id("parent")));
    own.import_inheritance(&[&parent]);
    assert!(matches!(name_of(&own, "Mine"), ExportedTypeEntryName::Own(f) if *f == id("self")));
    assert!(matches!(name_of(&own, "Theirs"), ExportedTypeEntryName::Inherited(f) if *f == id("parent")));
}

// -------------------------------- from_type ------------------------------------

#[test]
fn from_type_inherits_cleanly_through_one_interface() {
    let (asts, mut project) = load_project(EXPORT_FIXTURE);
    resolve_export_types(&mut project, &["export", "diamond"], &["export", "diamond", "IfaceA"]);

    let only_a = type_node(&project, &["export", "diamond"], &["export", "diamond", "OnlyA"]);
    let scope = scope_of(&asts, &project, &["export", "diamond"], "OnlyA.java");
    let exported = ExportedInnerTypes::from_type(only_a, &scope, &project);

    assert!(matches!(
        name_of(&exported, "Shared"),
        ExportedTypeEntryName::Inherited(f) if *f == fqn(&["export", "diamond"], &["IfaceA", "Shared"])
    ));
}

#[test]
fn from_type_own_nested_type_shadows_inherited() {
    let (asts, mut project) = load_project(EXPORT_FIXTURE);
    resolve_export_types(&mut project, &["export", "diamond"], &["export", "diamond", "IfaceA"]);

    let shadows_a = type_node(&project, &["export", "diamond"], &["export", "diamond", "ShadowsA"]);
    let scope = scope_of(&asts, &project, &["export", "diamond"], "ShadowsA.java");
    let exported = ExportedInnerTypes::from_type(shadows_a, &scope, &project);

    assert!(matches!(
        name_of(&exported, "Shared"),
        ExportedTypeEntryName::Own(f) if *f == fqn(&["export", "diamond"], &["ShadowsA", "Shared"])
    ));
}

#[test]
fn from_type_diamond_from_two_interfaces_is_ambiguous() {
    let (asts, mut project) = load_project(EXPORT_FIXTURE);
    resolve_export_types(&mut project, &["export", "diamond"], &["export", "diamond", "IfaceA"]);
    resolve_export_types(&mut project, &["export", "diamond"], &["export", "diamond", "IfaceB"]);

    let impl_node = type_node(&project, &["export", "diamond"], &["export", "diamond", "Impl"]);
    let scope = scope_of(&asts, &project, &["export", "diamond"], "Impl.java");
    let exported = ExportedInnerTypes::from_type(impl_node, &scope, &project);

    assert!(matches!(name_of(&exported, "Shared"), ExportedTypeEntryName::Ambiguous));
    assert!(matches!(
        name_of(&exported, "Own"),
        ExportedTypeEntryName::Own(f) if *f == fqn(&["export", "diamond"], &["Impl", "Own"])
    ));
}

// ------------------------------- project index ---------------------------------

#[test]
fn test_duplicate_type_name_errors() {
    let src = "package dup.pkg;\npublic class Foo {\n}\n";
    let ast1 = parse_src(src);
    let ast2 = parse_src(src);
    let result = Project::from_ast_lst(&vec![Rc::new(ast1), Rc::new(ast2)]);
    assert!(matches!(result, Err(ReadProjectErr::SemanticErr(_))));
}

#[test]
fn test_nested_type_visibility_clamps_to_parent() {
    let src = "package vis.pkg;\npublic class Outer {\n    class Inner {\n    }\n}\n";
    let ast = parse_src(src);
    let project = Project::from_ast_lst(&vec![Rc::new(ast)]).unwrap();
    let pkg = project.get_package(&QualifiedName(vec!["vis".into(), "pkg".into()])).unwrap();
    let inner = pkg
        .get_type(&QualifiedName(vec!["vis".into(), "pkg".into(), "Outer".into(), "Inner".into()]))
        .unwrap();
    assert_eq!(inner.visibility, AccessModifier::Default);
}

#[test]
fn nested_public_type_inside_private_type_is_private() {
    let src = "package vis.pkg;\npublic class Outer {\n    private static class Mid {\n        public static class Leaf {}\n    }\n}\n";
    let project = Project::from_ast_lst(&vec![Rc::new(parse_src(src))]).unwrap();
    let pkg = project.get_package(&qn(&["vis", "pkg"])).unwrap();
    let leaf = pkg.get_type(&qn(&["vis", "pkg", "Outer", "Mid", "Leaf"])).unwrap();
    assert_eq!(leaf.visibility, AccessModifier::Private);
}

#[test]
fn origin_package_and_fqn_candidates() {
    let (_asts, project) = load_project(SCOPE_PKG);
    let (origin, entry) = project.get_origin_package(&qn(&["scope", "pkg", "Outer", "Inner"])).unwrap();
    assert_eq!(origin.package, qn(&["scope", "pkg"]));
    assert_eq!(entry.name, fqn(&["scope", "pkg"], &["Outer", "Inner"]));
    assert!(project.get_origin_package(&qn(&["java", "util", "List"])).is_none());
    let candidates = project.to_fqn(&qn(&["scope", "pkg", "Outer"]));
    assert_eq!(candidates, vec![fqn(&["scope", "pkg"], &["Outer"])]);
}

#[test]
fn set_export_types_of_missing_type_is_an_error() {
    let (_asts, mut project) = load_project(SCOPE_PKG);
    let r = project.set_export_types(&qn(&["scope", "pkg"]), &qn(&["scope", "pkg", "Nope"]), ExportedInnerTypes::new());
    assert_eq!(r, Err(NameResolutionErr::MissingType));
}

// ---------------------------------- stack ---------------------------------------

#[test]
fn stack_push_then_pop_gives_back_the_value() {
    let mut s: Stack<u32> = Stack::new();
    assert!(s.is_empty());
    s.push(1);
    s.push(2);
    assert_eq!(s.peek(), Some(&2));
    assert_eq!(s.pop(), Some(2));
    assert_eq!(s.pop(), Some(1));
    assert_eq!(s.pop(), None);
    assert!(s.is_empty());
}

#[test]
fn parse_error_converts_to_read_project_error() {
    let err = Parser::parse("class {", "").unwrap_err();
    let e: ReadProjectErr = ReadProjectErr::from(err);
    assert!(matches!(e, ReadProjectErr::ParseErr(_)));
}

/// A small library project: seven packages, one of them with a nested type.
const SMALL_PROJECT: &[(&str, &str)] = &[
    (
        "library/model/Book.java",
        "package library.model;\nimport java.util.List;\npublic class Book {\n    private String title;\n    public static class Builder {\n        Book build() { return null; }\n    }\n}\n",
    ),
    ("library/model/Member.java", "package library.model;\npublic class Member {}\n"),
    (
        "library/repo/BookRepository.java",
        "package library.repo;\nimport library.model.Book;\npublic class BookRepository {\n    public Book first() { return null; }\n}\n",
    ),
    (
        "library/service/LoanService.java",
        "package library.service;\nimport library.model.*;\npublic class LoanService {\n    Member borrower;\n}\n",
    ),
    ("library/util/Dates.java", "package library.util;\npublic final class Dates {}\n"),
    ("library/web/Controller.java", "package library.web;\npublic interface Controller {}\n"),
    ("library/config/Settings.java", "package library.config;\npublic enum Settings { DEFAULT }\n"),
    ("library/app/Main.java", "package library.app;\npublic class Main {}\n"),
];

#[test]
fn test_package_count() {
    let (_asts, project) = load_project(SMALL_PROJECT);
    assert_eq!(project.iter().len(), 7);
}

#[test]
fn test_flatten_recurses_into_nested_types() {
    let (_asts, project) = load_project(SMALL_PROJECT);
    let pkg = project.get_package(&QualifiedName(vec!["library".into(), "model".into()])).unwrap();
    let builder_name =
        QualifiedName(vec!["library".into(), "model".into(), "Book".into(), "Builder".into()]);
    assert!(pkg.get_type(&builder_name).is_some());
}

#[test]
fn test_get_origin_package() {
    let (_asts, project) = load_project(SMALL_PROJECT);
    let book = QualifiedName(vec!["library".into(), "model".into(), "Book".into()]);
    let (origin, _) = project.get_origin_package(&book).unwrap();
    assert_eq!(origin.package, QualifiedName(vec!["library".into(), "model".into()]));

    let list = QualifiedName(vec!["java".into(), "util".into(), "List".into()]);
    assert!(project.get_origin_package(&list).is_none());
}

#[test]
fn import_inheritance_order_does_not_change_names() {
    let a = single_entry("X", ExportedTypeEntryName::Own(id("a")));
    let b = single_entry("X", ExportedTypeEntryName::Inherited(id("b")));
    let same = single_entry("Y", ExportedTypeEntryName::Own(id("y")));
    let mut first = ExportedInnerTypes::new();
    first.import_inheritance(&[&a, &b, &same]);
    let mut second = ExportedInnerTypes::new();
    second.import_inheritance(&[&same, &b, &a]);
    assert!(matches!(name_of(&first, "X"), ExportedTypeEntryName::Ambiguous));
    assert!(matches!(name_of(&second, "X"), ExportedTypeEntryName::Ambiguous));
    assert!(matches!(name_of(&first, "Y"), ExportedTypeEntryName::Inherited(f) if *f == id("y")));
    assert!(matches!(name_of(&second, "Y"), ExportedTypeEntryName::Inherited(f) if *f == id("y")));
}
