use std::rc::Rc;

use visualize_java::name_resolution::resolve_types::Project;
use visualize_java::name_resolution::scope::{Scope, ScopeFrame};
use visualize_java::parser::parser::Parser;
use visualize_java::resolved_types::{FullyQualifiedName, PrimitiveType, TypeSource};
use visualize_java::types::{JavaFile, QualifiedName};

/// The files of the scope fixture project, by path.
const SCOPE_FIXTURE: &[(&str, &str)] = &[
    (
        "scope/wildcard/Widget.java",
        "package scope.wildcard;\npublic class Widget {}\n",
    ),
    (
        "scope/wildcard/Nested.java",
        "package scope.wildcard;\npublic class Nested {\n    public static class Child {}\n}\n",
    ),
    (
        "scope/wildcard/Helper.java",
        "package scope.wildcard;\nclass Helper {}\n",
    ),
    (
        "scope/pkg/Outer.java",
        "package scope.pkg;\npublic class Outer {\n    public static class Inner {\n        public static class Deep {}\n    }\n    private static class Hidden {}\n}\n",
    ),
    (
        "scope/pkg/Sibling.java",
        "package scope.pkg;\npublic class Sibling {}\n",
    ),
    (
        "scope/pkg/PackagePrivate.java",
        "package scope.pkg;\nclass PackagePrivate {}\n",
    ),
    (
        "scope/pkg/SamePkgConsumer.java",
        "package scope.pkg;\npublic class SamePkgConsumer {\n    Sibling sibling;\n}\n",
    ),
    (
        "scope/shadow1/Character.java",
        "package scope.shadow1;\npublic class Character {}\n",
    ),
    (
        "scope/shadow2/Character.java",
        "package scope.shadow2;\npublic class Character {}\n",
    ),
    (
        "scope/consumer/WildcardConsumer.java",
        "package scope.consumer;\nimport scope.wildcard.*;\npublic class WildcardConsumer {\n    Widget widget;\n}\n",
    ),
    (
        "scope/consumer/StaticWildcardConsumer.java",
        "package scope.consumer;\nimport static scope.pkg.Outer.*;\npublic class StaticWildcardConsumer {\n    Inner inner;\n}\n",
    ),
    (
        "scope/consumer/SingleImportOuter.java",
        "package scope.consumer;\nimport scope.pkg.Outer;\npublic class SingleImportOuter {\n    Outer outer;\n}\n",
    ),
    (
        "scope/consumer/SingleImportNested.java",
        "package scope.consumer;\nimport scope.pkg.Outer.Inner;\npublic class SingleImportNested {\n    Inner inner;\n}\n",
    ),
    (
        "scope/consumer/Character.java",
        "package scope.consumer;\nimport scope.shadow1.*;\nimport scope.shadow2.Character;\npublic class Character {}\n",
    ),
    (
        "scope/consumer/FullyQualifiedConsumer.java",
        "package scope.consumer;\npublic class FullyQualifiedConsumer {\n    scope.pkg.Outer.Inner inner;\n}\n",
    ),
];

fn load_project(files: &[(&str, &str)]) -> (Vec<Rc<JavaFile>>, Project) {
    let asts: Vec<Rc<JavaFile>> = files.iter().map(|(path, src)| Rc::new(Parser::parse(src, path).unwrap())).collect();
    let project = Project::from_ast_lst(&asts).unwrap();
    (asts, project)
}

/// Finds the AST for a specific fixture file by package + file name.
fn find_ast(asts: &[Rc<JavaFile>], package: &[&str], file_name: &str) -> Rc<JavaFile> {
    asts.iter()
        .find(|ast| {
            ast.package_name.0 == package.iter().map(|s| s.to_string()).collect::<Vec<String>>()
                && ast.file.rsplit('/').next() == Some(file_name)
        })
        .unwrap_or_else(|| panic!("fixture file {file_name} not found in package {package:?}"))
        .clone()
}

fn qn(parts: &[&str]) -> QualifiedName {
    QualifiedName(parts.iter().map(|s| s.to_string()).collect())
}

/// Builds the expected FullyQualifiedName for an in-project type,
/// where `typename_suffix` is relative to `package`.
fn fqn_in_project(package: &[&str], typename_suffix: &[&str]) -> FullyQualifiedName {
    let mut typename: Vec<String> = package.iter().map(|s| s.to_string()).collect();
    typename.extend(typename_suffix.iter().map(|s| s.to_string()));
    FullyQualifiedName { source: TypeSource::InProjectType { package: qn(package) }, typename: QualifiedName(typename) }
}

#[test]
fn wildcard_import_public() {
    let (asts, project) = load_project(SCOPE_FIXTURE);
    let ast = find_ast(&asts, &["scope", "consumer"], "WildcardConsumer.java");

    let mut scope = Scope::new();
    scope.add_wildcard_import(&ast, &project);

    assert_eq!(scope.get_fqn(&qn(&["Widget"])), Some(&fqn_in_project(&["scope", "wildcard"], &["Widget"])));
    assert_eq!(scope.get_fqn(&qn(&["Nested"])), Some(&fqn_in_project(&["scope", "wildcard"], &["Nested"])));
    assert_eq!(
        scope.get_fqn(&qn(&["Nested", "Child"])),
        Some(&fqn_in_project(&["scope", "wildcard"], &["Nested", "Child"]))
    );
    // package-private types are not brought in by `import P.*;`
    assert!(scope.get_fqn(&qn(&["Helper"])).is_none());
}

#[test]
fn wildcard_import_static() {
    let (asts, project) = load_project(SCOPE_FIXTURE);
    let ast = find_ast(&asts, &["scope", "consumer"], "StaticWildcardConsumer.java");

    let mut scope = Scope::new();
    scope.add_wildcard_import(&ast, &project);

    assert_eq!(scope.get_fqn(&qn(&["Inner"])), Some(&fqn_in_project(&["scope", "pkg"], &["Outer", "Inner"])));
    assert_eq!(
        scope.get_fqn(&qn(&["Inner", "Deep"])),
        Some(&fqn_in_project(&["scope", "pkg"], &["Outer", "Inner", "Deep"]))
    );
    // Outer itself is not a member of Outer.
    assert!(scope.get_fqn(&qn(&["Outer"])).is_none());
    // private nested types are excluded even under a static wildcard import.
    assert!(scope.get_fqn(&qn(&["Hidden"])).is_none());
}

#[test]
fn same_pkg_scope() {
    let (asts, project) = load_project(SCOPE_FIXTURE);
    let ast = find_ast(&asts, &["scope", "pkg"], "SamePkgConsumer.java");

    let mut scope = Scope::new();
    scope.add_same_pkg(&ast, &project);

    assert_eq!(scope.get_fqn(&qn(&["Sibling"])), Some(&fqn_in_project(&["scope", "pkg"], &["Sibling"])));
    // default (package-private) access is visible within the same package.
    assert_eq!(
        scope.get_fqn(&qn(&["PackagePrivate"])),
        Some(&fqn_in_project(&["scope", "pkg"], &["PackagePrivate"]))
    );
    assert_eq!(
        scope.get_fqn(&qn(&["Outer", "Inner", "Deep"])),
        Some(&fqn_in_project(&["scope", "pkg"], &["Outer", "Inner", "Deep"]))
    );
    // private nested types are excluded even from the declaring type's own package.
    assert!(scope.get_fqn(&qn(&["Outer", "Hidden"])).is_none());
}

#[test]
fn single_import_top_level() {
    let (asts, project) = load_project(SCOPE_FIXTURE);
    let ast = find_ast(&asts, &["scope", "consumer"], "SingleImportOuter.java");

    let mut scope = Scope::new();
    scope.add_single_type_import(&ast, &project);

    assert_eq!(scope.get_fqn(&qn(&["Outer"])), Some(&fqn_in_project(&["scope", "pkg"], &["Outer"])));
    assert_eq!(
        scope.get_fqn(&qn(&["Outer", "Inner"])),
        Some(&fqn_in_project(&["scope", "pkg"], &["Outer", "Inner"]))
    );
    assert_eq!(
        scope.get_fqn(&qn(&["Outer", "Inner", "Deep"])),
        Some(&fqn_in_project(&["scope", "pkg"], &["Outer", "Inner", "Deep"]))
    );
    assert!(scope.get_fqn(&qn(&["Outer", "Hidden"])).is_none());
}

#[test]
fn single_import_nested() {
    let (asts, project) = load_project(SCOPE_FIXTURE);
    let ast = find_ast(&asts, &["scope", "consumer"], "SingleImportNested.java");

    let mut scope = Scope::new();
    scope.add_single_type_import(&ast, &project);

    assert_eq!(scope.get_fqn(&qn(&["Inner"])), Some(&fqn_in_project(&["scope", "pkg"], &["Outer", "Inner"])));
    assert_eq!(
        scope.get_fqn(&qn(&["Inner", "Deep"])),
        Some(&fqn_in_project(&["scope", "pkg"], &["Outer", "Inner", "Deep"]))
    );
    assert!(scope.get_fqn(&qn(&["Outer"])).is_none());
    assert!(scope.get_fqn(&qn(&["Outer", "Inner"])).is_none());
}

#[test]
fn same_file_scope() {
    let (asts, project) = load_project(SCOPE_FIXTURE);
    let ast = find_ast(&asts, &["scope", "consumer"], "Character.java");

    let mut scope = Scope::new();
    scope.add_same_file(&ast, &project);

    assert_eq!(scope.get_fqn(&qn(&["Character"])), Some(&fqn_in_project(&["scope", "consumer"], &["Character"])));
}

#[test]
fn import_precedence() {
    let (asts, project) = load_project(SCOPE_FIXTURE);
    let ast = find_ast(&asts, &["scope", "consumer"], "Character.java");

    let mut scope = Scope::new();
    scope.add_wildcard_import(&ast, &project);
    assert_eq!(scope.get_fqn(&qn(&["Character"])), Some(&fqn_in_project(&["scope", "shadow1"], &["Character"])));

    scope.add_single_type_import(&ast, &project);
    assert_eq!(scope.get_fqn(&qn(&["Character"])), Some(&fqn_in_project(&["scope", "shadow2"], &["Character"])));
}

#[test]
fn shadowing_example() {
    let (asts, project) = load_project(SCOPE_FIXTURE);
    let ast = find_ast(&asts, &["scope", "consumer"], "Character.java");

    let scope = Scope::construct_baseline_scope(&ast, &project);

    assert_eq!(scope.get_fqn(&qn(&["Character"])), Some(&fqn_in_project(&["scope", "consumer"], &["Character"])));
}

#[test]
fn resolve_primitive() {
    let (asts, project) = load_project(SCOPE_FIXTURE);
    let ast = find_ast(&asts, &["scope", "consumer"], "FullyQualifiedConsumer.java");
    let scope = Scope::construct_baseline_scope(&ast, &project);

    let resolved = scope.resolve_qualified_name(&qn(&["int"]), &project);
    assert_eq!(resolved.source, TypeSource::PrimitiveType(PrimitiveType::Int));
}

#[test]
fn resolve_external() {
    let (asts, project) = load_project(SCOPE_FIXTURE);
    let ast = find_ast(&asts, &["scope", "consumer"], "FullyQualifiedConsumer.java");
    let scope = Scope::construct_baseline_scope(&ast, &project);

    let resolved = scope.resolve_qualified_name(&qn(&["java", "util", "List"]), &project);
    assert_eq!(resolved.source, TypeSource::ExternalDependencyType);
}

#[test]
fn resolve_scope_hit() {
    let (asts, project) = load_project(SCOPE_FIXTURE);
    let ast = find_ast(&asts, &["scope", "consumer"], "SingleImportNested.java");
    let scope = Scope::construct_baseline_scope(&ast, &project);

    let resolved = scope.resolve_qualified_name(&qn(&["Inner"]), &project);
    assert_eq!(resolved, fqn_in_project(&["scope", "pkg"], &["Outer", "Inner"]));
}

#[test]
fn resolve_fqn_fallback() {
    let (asts, project) = load_project(SCOPE_FIXTURE);
    let ast = find_ast(&asts, &["scope", "consumer"], "FullyQualifiedConsumer.java");
    let scope = Scope::construct_baseline_scope(&ast, &project);

    let resolved = scope.resolve_qualified_name(&qn(&["scope", "pkg", "Outer", "Inner"]), &project);
    assert_eq!(resolved, fqn_in_project(&["scope", "pkg"], &["Outer", "Inner"]));
}

#[test]
fn scope_push_pop_and_frames() {
    let mut scope = Scope::new();
    scope.push(qn(&["A"]), fqn_in_project(&["p"], &["A"]));
    scope.push(qn(&["A"]), fqn_in_project(&["q"], &["A"]));
    assert_eq!(scope.get_fqn(&qn(&["A"])), Some(&fqn_in_project(&["q"], &["A"])));
    scope.pop(&qn(&["A"]));
    assert_eq!(scope.get_fqn(&qn(&["A"])), Some(&fqn_in_project(&["p"], &["A"])));
    scope.pop(&qn(&["A"]));
    assert!(scope.get_fqn(&qn(&["A"])).is_none());
}

#[test]
fn resolve_generic_in_scope() {
    let mut scope = Scope::new();
    let (_asts, project) = load_project(SCOPE_FIXTURE);
    scope.push(qn(&["T"]), FullyQualifiedName { source: TypeSource::Generic, typename: qn(&["T"]) });
    let resolved = scope.resolve_qualified_name(&qn(&["T"]), &project);
    assert_eq!(resolved.source, TypeSource::Generic);
}

#[test]
fn with_frame_runs_then_pops_the_frame() {
    let mut scope = Scope::new();
    scope.push(qn(&["A"]), fqn_in_project(&["p"], &["A"]));
    scope.push(qn(&["A"]), fqn_in_project(&["q"], &["A"]));
    scope.push(qn(&["B"]), fqn_in_project(&["q"], &["B"]));
    let frame = ScopeFrame(vec![qn(&["A"]), qn(&["B"])]);
    let seen = scope.with_frame(frame, |s: &mut Scope| s.get_fqn(&qn(&["A"])).map(|f| f.duplicate()));
    assert_eq!(seen, Some(fqn_in_project(&["q"], &["A"])));
    assert_eq!(scope.get_fqn(&qn(&["A"])), Some(&fqn_in_project(&["p"], &["A"])));
    assert!(scope.get_fqn(&qn(&["B"])).is_none());
}

#[test]
fn get_mut_package_and_type_change_in_place() {
    let (_asts, mut project) = load_project(SCOPE_FIXTURE);
    assert!(project.get_mut_package(&qn(&["no", "such"])).is_none());
    let pkg = project.get_mut_package(&qn(&["scope", "pkg"])).unwrap();
    assert!(pkg.get_mut_type(&qn(&["Missing"])).is_none());
    let entry = pkg.get_mut_type(&qn(&["scope", "pkg", "Outer", "Inner"])).unwrap();
    entry.modifiers.push("marked".to_string());
    let pkg = project.get_package(&qn(&["scope", "pkg"])).unwrap();
    let entry = pkg.get_type(&qn(&["scope", "pkg", "Outer", "Inner"])).unwrap();
    assert_eq!(entry.modifiers.last().map(|s| s.as_str()), Some("marked"));
}
