use visualize_java::parser::lexer::Lexer;
use visualize_java::parser::parser::Parser;
use visualize_java::parser::token::{OwnedToken, Token};
use visualize_java::types::{
    AccessModifier, Annotation, MemberKind, Modifiers, ParseErrType, QualifiedName, RefType, Type, TypeArg,
    TypeArgList, TypeKind, TypeParam, TypeParamList,
};

fn qn(parts: &[&str]) -> QualifiedName {
    QualifiedName(parts.iter().map(|s| s.to_string()).collect())
}

fn plain(parts: &[&str], arr_dim: u8) -> RefType {
    RefType { name: qn(parts), type_arg_list: TypeArgList(vec![]), arr_dim }
}

// ----------------------------- lexer -----------------------------

fn test_lexer(lexer: &mut Lexer, token: Token) {
    assert_eq!(lexer.get_next_token().unwrap(), token);
}

#[test]
fn test_str_lit() {
    let mut lexer = Lexer::new("\"a\\n\\r\\\\a\"");
    lexer.get_next_char();
    let s = lexer.get_string_literal();
    assert!(s.unwrap() == Token::Literal("\"a\\n\\r\\\\a\""));
}

#[test]
fn test_char_lit() {
    let mut lexer = Lexer::new("'\\r'");
    lexer.get_next_char();
    let s = lexer.get_char_literal();
    assert!(s.unwrap() == Token::Literal("'\\r'"))
}

#[test]
fn test_long_stuff() {
    let mut lexer = Lexer::new("String s = \"Hello World!\";");
    assert!(lexer.get_next_token().unwrap() == Token::Identifier("String"));
    assert!(lexer.get_next_token().unwrap() == Token::Identifier("s"));
    assert!(lexer.get_next_token().unwrap() == Token::Assignment("="));
    assert!(lexer.get_next_token().unwrap() == Token::Literal("\"Hello World!\""));
    assert!(lexer.get_next_token().unwrap() == Token::Semicolon);
    assert!(lexer.get_next_token().unwrap() == Token::EOF);
}

#[test]
fn test_keyword_and_identifier() {
    let mut lexer = Lexer::new("public class Integer { private int i; }");
    let mut lex = |token: Token| test_lexer(&mut lexer, token);
    lex(Token::Keyword("public"));
    lex(Token::Keyword("class"));
    lex(Token::Identifier("Integer"));
    lex(Token::LBrace);
    lex(Token::Keyword("private"));
    lex(Token::Identifier("int"));
    lex(Token::Identifier("i"));
    lex(Token::Semicolon);
    lex(Token::RBrace);
}

#[test]
fn lexer_operators_and_assignments() {
    let mut lexer = Lexer::new("a >>>= b <= c && d;");
    assert_eq!(lexer.get_next_token().unwrap(), Token::Identifier("a"));
    assert_eq!(lexer.get_next_token().unwrap(), Token::Assignment(">>>="));
    assert_eq!(lexer.get_next_token().unwrap(), Token::Identifier("b"));
    assert_eq!(lexer.get_next_token().unwrap(), Token::Op("<="));
    assert_eq!(lexer.get_next_token().unwrap(), Token::Identifier("c"));
    assert_eq!(lexer.get_next_token().unwrap(), Token::Op("&&"));
    assert_eq!(lexer.get_next_token().unwrap(), Token::Identifier("d"));
    assert_eq!(lexer.get_next_token().unwrap(), Token::Semicolon);
    assert_eq!(lexer.get_next_token().unwrap(), Token::EOF);
}

#[test]
fn lexer_skips_comments() {
    let mut lexer = Lexer::new("// line\n/* block */ x");
    assert_eq!(lexer.get_next_token().unwrap(), Token::Identifier("x"));
    assert_eq!(lexer.get_next_token().unwrap(), Token::EOF);
}

#[test]
fn lexer_unterminated_string_is_an_error() {
    let mut lexer = Lexer::new("\"abc");
    assert!(lexer.get_next_token().is_none());
}

// --------------------------- nonterminals ---------------------------

#[test]
fn annotations_test_annotation() {
    let mut parser = Parser::new(
        "@Retention(RetentionPolicy.RUNTIME)
           @Target({ElementType.METHOD, ElementType.TYPE})
           public @interface MyAnnotation {
               String value();
               int count() default 1;
               String[] tags() default {};
               int MAX = 100;
               enum Scope { CLASS, METHOD }
               Scope scope() default Scope.CLASS;
           }",
    )
    .unwrap();
    let res: Type = parser.type_decl(QualifiedName(vec![])).unwrap();

    assert_eq!(res.name, qn(&["MyAnnotation"]));
    assert_eq!(res.modifiers.access_modifier, AccessModifier::Public);

    let TypeKind::Annotation { annotation_properties } = &res.type_kind else {
        panic!("expected Annotation");
    };

    // elements: (name, type)
    assert_eq!(annotation_properties[0].0, "value");
    assert_eq!(annotation_properties[1].0, "count");
    assert_eq!(annotation_properties[2].0, "tags");
    assert_eq!(annotation_properties[3].0, "scope");

    // constant
    assert_eq!(res.body.members[0].name, "MAX");
    assert!(matches!(res.body.members[0].member_kind, MemberKind::Property { .. }));

    // nested enum
    assert_eq!(res.body.subtypes[0].name, qn(&["MyAnnotation", "Scope"]));
    assert!(matches!(res.body.subtypes[0].type_kind, TypeKind::Enum { .. }));
}

#[test]
fn test_class_decl() {
    let mut parser = Parser::new(
        "class MyClass<T extends Comparable<T>> extends MyParentClass<T> implements Printable, GetTAble {
                @NotNull @JsonIgnore
                java.util.HashMap<String, Integer> a,
                    b = new HashMap<String, Integer>(),
                    c;

                @Nullable
                float fa = 1.0f, fb = math.PI / 6, fc = fb * 7;

                @NotNull
                float fe, fh = fa;

                @NotNull
                float fg;

                @Getter
                public Integer fromA(@NotNull String key) {
                    return this.a.get(key);
                }

                public MyClass() {}
                public <T1, T2> MyClass(T1 foo, T2 bar) { ... }
                

                public <T> T getT(String key, java.util.HashMap<Integer, T> hashmap) {
                    return hashmap.get(this.a.get(key));
                }

                abstract public int joinAbc();

                @annotation1(val1, val2)
                public static enum MyEnum { MyEnum1, MyEnum2(v1, v2){}; public String printEnum() {} }
                public static interface MyInterface { public String hash(); public int base64(); }

            }",
    )
    .unwrap();
    let res: Type = parser.class_decl(QualifiedName(vec![])).unwrap();
    assert_eq!(res.name, qn(&["MyClass"]));
}

#[test]
fn class_decl_members_and_parents() {
    let mut parser = Parser::new(
        "class MyClass<T> extends MyParentClass<T> implements Printable, GetTAble {
            java.util.HashMap<String, Integer> a, b = new HashMap<String, Integer>(), c;
            int[] xs[];
            public MyClass() {}
            public <T> T getT(String key) { return null; }
            public static enum MyEnum { A, B }
        }",
    )
    .unwrap();
    let res: Type = parser.class_decl(QualifiedName(vec![])).unwrap();
    let TypeKind::Class { inherit_class, implement_interfaces } = &res.type_kind else {
        panic!("expected a class");
    };
    assert_eq!(inherit_class.as_ref().unwrap().name, qn(&["MyParentClass"]));
    assert_eq!(implement_interfaces.len(), 2);
    assert_eq!(implement_interfaces[1].name, qn(&["GetTAble"]));
    let names: Vec<&str> = res.body.members.iter().map(|m| m.name.as_str()).collect();
    assert_eq!(names, vec!["a", "b", "c", "xs", "MyClass", "getT"]);
    assert!(matches!(res.body.members[3].member_kind, MemberKind::Property { arr_dim: 2, .. }));
    assert!(matches!(res.body.members[4].member_kind, MemberKind::Constructor { .. }));
    assert!(matches!(res.body.members[5].member_kind, MemberKind::Method { .. }));
    assert_eq!(res.body.subtypes[0].name, qn(&["MyClass", "MyEnum"]));
}

#[test]
fn test_interface() {
    let mut parser = Parser::new(
        "
            // Can be used for different types of vector or representations
            // maybe a (r, theta) or (x, y) or spherical plane geometry.
            public interface MetricSpaceTwoValueVector {
                public static class Point {
                    float p1 = 0, p2 = 0;
                    public void setPoint(float p1, float p2) {
                        this.p1 = p1;
                        this.p2 = p2;
                    }
                    public float[] getPoint() {
                        return {p1, p2};
                    }
                }
                
                public float getDistance(Point x, Point y);
                public float getNorm(Point x);
            }
        ",
    )
    .unwrap();
    let res = parser.type_decl(QualifiedName(vec![])).unwrap();
    assert_eq!(res.name, qn(&["MetricSpaceTwoValueVector"]));
    assert_eq!(res.body.subtypes[0].name, qn(&["MetricSpaceTwoValueVector", "Point"]));
    assert_eq!(res.body.members.len(), 2);
}

#[test]
fn interface_with_constructor_is_rejected() {
    let mut parser = Parser::new("interface Foo { Foo() {} }").unwrap();
    let err = parser.type_decl(QualifiedName(vec![])).unwrap_err();
    assert!(matches!(err.err, ParseErrType::SemanticError(_)));
}

#[test]
fn util_test_annotation() {
    let mut parser =
        Parser::new("@annotation1 @com.annotation2(val1, val2) @annotation3{key1: val1, key2: val2}").unwrap();

    assert_eq!(
        parser.annotation().unwrap(),
        Annotation { name: QualifiedName(vec!["annotation1".to_owned()]), s: "@annotation1".to_owned() }
    );
    assert_eq!(
        parser.annotation().unwrap(),
        Annotation {
            name: QualifiedName(vec!["com".to_owned(), "annotation2".to_owned()]),
            s: "@com.annotation2(val1, val2)".to_owned()
        },
    );
    assert_eq!(
        parser.annotation().unwrap(),
        Annotation {
            name: QualifiedName(vec!["annotation3".to_owned()]),
            s: "@annotation3{key1: val1, key2: val2}".to_owned()
        }
    )
}

#[test]
fn test_modifiers() {
    let mut parser = Parser::new("public static abstract").unwrap();

    assert_eq!(
        parser.modifiers().unwrap(),
        Modifiers {
            modifiers: vec!["public".to_owned(), "static".to_owned(), "abstract".to_owned()],
            access_modifier: AccessModifier::Public
        }
    );
}

#[test]
fn modifiers_default_access() {
    let mut parser = Parser::new("static final int").unwrap();
    let m = parser.modifiers().unwrap();
    assert_eq!(m.modifiers, vec!["static".to_owned(), "final".to_owned()]);
    assert_eq!(m.access_modifier, AccessModifier::Default);
}

#[test]
fn test_ref_type() {
    fn test_ref_type_str(s: &str, r: RefType) {
        let mut parser = Parser::new(s).unwrap();
        assert_eq!(parser.ref_type().unwrap(), r);
    }

    test_ref_type_str(
        "util.Map<@NotNull String, @NotNull ? extends @NotNull int[][], ? super @NotNull Array<Integer>>[][][]",
        RefType {
            name: QualifiedName(vec!["util".to_owned(), "Map".to_owned()]),
            type_arg_list: TypeArgList(vec![
                TypeArg::Is(RefType {
                    name: QualifiedName(vec!["String".to_owned()]),
                    type_arg_list: TypeArgList(vec![]),
                    arr_dim: 0,
                }),
                TypeArg::Extends(RefType {
                    name: QualifiedName(vec!["int".to_owned()]),
                    type_arg_list: TypeArgList(vec![]),
                    arr_dim: 2,
                }),
                TypeArg::Super(RefType {
                    name: QualifiedName(vec!["Array".to_owned()]),
                    type_arg_list: TypeArgList(vec![TypeArg::Is(RefType {
                        name: QualifiedName(vec!["Integer".to_owned()]),
                        type_arg_list: TypeArgList(vec![]),
                        arr_dim: 0,
                    })]),
                    arr_dim: 0,
                }),
            ]),
            arr_dim: 3,
        },
    );
}

#[test]
fn ref_type_wildcard_argument() {
    let mut parser = Parser::new("List<?>").unwrap();
    assert_eq!(
        parser.ref_type().unwrap(),
        RefType { name: qn(&["List"]), type_arg_list: TypeArgList(vec![TypeArg::Wildcard]), arr_dim: 0 }
    );
}

#[test]
fn test_type_param_list() {
    let mut parser =
        Parser::new("<@NotNull @Anno K extends Comparable<K> & com.util.Node, V extends Vector<Token>>").unwrap();
    assert_eq!(
        parser.type_param_list().unwrap(),
        TypeParamList(vec![
            TypeParam {
                name: "K".to_owned(),
                extends_from: vec![
                    RefType {
                        name: QualifiedName(vec!["Comparable".to_owned()]),
                        type_arg_list: TypeArgList(vec![TypeArg::Is(RefType {
                            name: QualifiedName(vec!["K".to_owned()]),
                            type_arg_list: TypeArgList(vec![]),
                            arr_dim: 0
                        })]),
                        arr_dim: 0,
                    },
                    RefType {
                        name: QualifiedName(vec!["com".to_owned(), "util".to_owned(), "Node".to_owned()]),
                        type_arg_list: TypeArgList(vec![]),
                        arr_dim: 0,
                    }
                ]
            },
            TypeParam {
                name: "V".to_owned(),
                extends_from: vec![RefType {
                    name: QualifiedName(vec!["Vector".to_owned()]),
                    type_arg_list: TypeArgList(vec![TypeArg::Is(RefType {
                        name: QualifiedName(vec!["Token".to_owned()]),
                        type_arg_list: TypeArgList(vec![]),
                        arr_dim: 0
                    })]),
                    arr_dim: 0,
                }],
            }
        ])
    );
}

#[test]
fn test_arg_list() {
    let mut parser = Parser::new("(final ArrayList<Integer> lst, final Integer... b)").unwrap();
    assert_eq!(
        parser.arg_list().unwrap(),
        vec![
            RefType {
                name: QualifiedName(vec!["ArrayList".to_owned()]),
                type_arg_list: TypeArgList(vec![TypeArg::Is(RefType {
                    name: QualifiedName(vec!["Integer".to_owned()]),
                    type_arg_list: TypeArgList(vec![]),
                    arr_dim: 0
                })]),
                arr_dim: 0,
            },
            RefType {
                name: QualifiedName(vec!["Integer".to_owned()]),
                type_arg_list: TypeArgList(vec![]),
                arr_dim: 0,
            }
        ]
    );
    parser = Parser::new("(String... val)").unwrap();
    assert_eq!(
        parser.arg_list().unwrap(),
        vec![RefType { name: QualifiedName(vec!["String".to_owned()]), type_arg_list: TypeArgList(vec![]), arr_dim: 0 }]
    );
    parser = Parser::new("(int a, char b)").unwrap();
    assert_eq!(parser.arg_list().unwrap(), vec![plain(&["int"], 0), plain(&["char"], 0)]);
}

#[test]
fn test_comma_end_property() {
    let mut parser = Parser::new(
        ", @annotation1 val1, @annotation2(v1, v2) val2, @annotation3{v1 = a1, v2 = a2} val3 = true;",
    )
    .unwrap();
    assert!(parser.check_end_assignment_comma().unwrap());

    parser = Parser::new(", @annotation1 val1, @annotation2(v1, v2) val2, @annotation3{v1 = a1, v2 = a2} val3, val4;")
        .unwrap();
    assert!(parser.check_end_assignment_comma().unwrap());

    parser = Parser::new("<v1.v2, @annotation1 val1, @annotation2(v1, v2) val2, @annotation3{v1 = a1, v2 = a2} val3>")
        .unwrap();
    parser.get_next_token();
    parser.qualified_name().unwrap();
    assert!(!parser.check_end_assignment_comma().unwrap());
}

// ------------------------------ files ------------------------------

#[test]
fn parse_file_with_package_and_imports() {
    let f = Parser::parse(
        "package com.example;\nimport java.util.List;\nimport static com.example.Util.*;\npublic class A { List<String> xs; }\nclass B {}",
        "A.java",
    )
    .unwrap();
    assert_eq!(f.package_name, qn(&["com", "example"]));
    assert_eq!(f.imported_objects.len(), 2);
    assert_eq!(f.imported_objects[0].name, qn(&["java", "util", "List"]));
    assert!(!f.imported_objects[0].is_static && !f.imported_objects[0].is_wildcard);
    assert_eq!(f.imported_objects[1].name, qn(&["com", "example", "Util"]));
    assert!(f.imported_objects[1].is_static && f.imported_objects[1].is_wildcard);
    assert_eq!(f.type_decls.len(), 2);
    assert_eq!(f.type_decls[0].name, qn(&["com", "example", "A"]));
    assert_eq!(f.type_decls[1].name, qn(&["com", "example", "B"]));
    assert_eq!(f.file, "A.java");
}

#[test]
fn parse_rejects_two_public_types() {
    let err = Parser::parse("public class A {} public class B {}", "A.java").unwrap_err();
    assert!(matches!(err.err, ParseErrType::MultiplePublicTypesError));
}

#[test]
fn parse_reports_unexpected_eof() {
    let err = Parser::parse("class A {", "A.java").unwrap_err();
    assert!(matches!(err.err, ParseErrType::UnexpectedEOF));
}

#[test]
fn parse_reports_unexpected_token() {
    let err = Parser::parse("class { }", "A.java").unwrap_err();
    assert!(matches!(err.err, ParseErrType::UnexpectedToken { .. }));
}

#[test]
fn too_many_array_dimensions_is_an_error() {
    let dims = "[]".repeat(256);
    let src = format!("class A {{ int x{dims}; }}");
    let err = Parser::parse(&src, "A.java").unwrap_err();
    assert!(matches!(err.err, ParseErrType::SemanticError(_)));
}

#[test]
fn arg_list_without_parameters_is_empty() {
    let mut parser = Parser::new("() next").unwrap();
    assert!(parser.arg_list().unwrap().is_empty());
    assert_eq!(parser.get_next_token().token, Token::Identifier("next"));
}

#[test]
fn enum_without_constants_has_no_values() {
    let f = Parser::parse("enum E { ; int x; }", "E.java").unwrap();
    match &f.type_decls[0].type_kind {
        TypeKind::Enum { enum_vals, .. } => assert!(enum_vals.is_empty()),
        _ => panic!("expected an enum"),
    }
    assert_eq!(f.type_decls[0].body.members.len(), 1);
}

#[test]
fn enum_constants_in_order() {
    let f = Parser::parse("enum E { RED, GREEN(1), BLUE {} }", "E.java").unwrap();
    match &f.type_decls[0].type_kind {
        TypeKind::Enum { enum_vals, .. } => {
            assert_eq!(enum_vals, &vec!["RED".to_string(), "GREEN".to_string(), "BLUE".to_string()])
        }
        _ => panic!("expected an enum"),
    }
}

#[test]
fn annotation_type_elements_are_public() {
    let f = Parser::parse("@interface Tag { String value(); int LIMIT = 3; class Inner {} }", "Tag.java").unwrap();
    let t = &f.type_decls[0];
    match &t.type_kind {
        TypeKind::Annotation { annotation_properties } => {
            assert_eq!(annotation_properties.len(), 1);
            assert_eq!(annotation_properties[0].0, "value");
        }
        _ => panic!("expected an annotation type"),
    }
    assert_eq!(t.body.members.len(), 1);
    assert!(t.body.members.iter().all(|m| matches!(m.modifiers.access_modifier, AccessModifier::Public)));
    assert_eq!(t.body.subtypes.len(), 1);
    assert!(matches!(t.body.subtypes[0].modifiers.access_modifier, AccessModifier::Public));
}

#[test]
fn empty_annotation_type_has_no_elements() {
    let f = Parser::parse("@interface Marker {}", "Marker.java").unwrap();
    let t = &f.type_decls[0];
    assert!(t.body.members.is_empty() && t.body.subtypes.is_empty());
    assert!(matches!(&t.type_kind, TypeKind::Annotation { annotation_properties } if annotation_properties.is_empty()));
}

#[test]
fn constructors_carry_the_class_name() {
    let f = Parser::parse("class Box { Box() {} <T> Box(T t) {} int size() { return 0; } }", "Box.java").unwrap();
    let members = &f.type_decls[0].body.members;
    assert_eq!(members.len(), 3);
    assert!(matches!(members[0].member_kind, MemberKind::Constructor { .. }));
    assert_eq!(members[0].name, "Box");
    assert!(matches!(members[1].member_kind, MemberKind::Constructor { .. }));
    assert_eq!(members[1].name, "Box");
    assert!(matches!(members[2].member_kind, MemberKind::Method { .. }));
    assert_eq!(members[2].name, "size");
}

#[test]
fn type_param_bounds_follow_extends() {
    let mut parser = Parser::new("K extends Comparable<K> & Cloneable,").unwrap();
    let tp = parser.type_param().unwrap();
    assert_eq!(tp.name, "K");
    assert_eq!(tp.extends_from.len(), 2);
    assert_eq!(tp.extends_from[0].name, qn(&["Comparable"]));
    assert_eq!(tp.extends_from[1].name, qn(&["Cloneable"]));
    let mut parser = Parser::new("V>").unwrap();
    let tp = parser.type_param().unwrap();
    assert_eq!(tp.name, "V");
    assert!(tp.extends_from.is_empty());
}

#[test]
fn type_arg_variants() {
    let mut parser = Parser::new("? super Number>").unwrap();
    assert_eq!(parser.type_arg().unwrap(), TypeArg::Super(plain(&["Number"], 0)));
    let mut parser = Parser::new("? extends java.util.List>").unwrap();
    assert_eq!(parser.type_arg().unwrap(), TypeArg::Extends(plain(&["java", "util", "List"], 0)));
    let mut parser = Parser::new("?>").unwrap();
    assert_eq!(parser.type_arg().unwrap(), TypeArg::Wildcard);
    let mut parser = Parser::new("String>").unwrap();
    assert_eq!(parser.type_arg().unwrap(), TypeArg::Is(plain(&["String"], 0)));
}

#[test]
fn plain_reference_type_with_dimensions() {
    let mut parser = Parser::new("java.util.List[][] xs").unwrap();
    let t = parser.ref_type().unwrap();
    assert_eq!(t, plain(&["java", "util", "List"], 2));
    assert_eq!(parser.get_next_token().token, Token::Identifier("xs"));
}

#[test]
fn empty_source_is_an_empty_file() {
    let f = Parser::parse("", "Empty.java").unwrap();
    assert!(f.package_name.0.is_empty());
    assert!(f.imported_objects.is_empty());
    assert!(f.type_decls.is_empty());
}

#[test]
fn file_with_one_empty_class() {
    let f = Parser::parse("class A {}", "A.java").unwrap();
    assert_eq!(f.type_decls.len(), 1);
    assert!(f.type_decls[0].body.members.is_empty());
}

#[test]
fn comma_after_a_declarator_ends_the_assignment() {
    let parser = Parser::new(", x;").unwrap();
    assert!(parser.check_end_assignment_comma().unwrap());
    let parser = Parser::new(", x = 1;").unwrap();
    assert!(parser.check_end_assignment_comma().unwrap());
    let parser = Parser::new(", x)").unwrap();
    assert!(!parser.check_end_assignment_comma().unwrap());
    let parser = Parser::new(", 1").unwrap();
    assert!(!parser.check_end_assignment_comma().unwrap());
}

#[test]
fn package_line_and_imports() {
    let mut parser = Parser::new("package a.b; import c.D; import static e.F.*; class G {}").unwrap();
    assert_eq!(parser.package_decl().unwrap(), qn(&["a", "b"]));
    let imports = parser.import().unwrap();
    assert_eq!(imports.len(), 2);
    assert_eq!(imports[0].name, qn(&["c", "D"]));
    assert!(!imports[0].is_static && !imports[0].is_wildcard);
    assert_eq!(imports[1].name, qn(&["e", "F"]));
    assert!(imports[1].is_static && imports[1].is_wildcard);
}

// ------------------------- literals, tokens, modifiers -------------------------

#[test]
fn lexer_true_false_and_numbers_are_literals() {
    let mut lexer = Lexer::new("true false 42 0x1F x1");
    let mut lex = |token: Token| test_lexer(&mut lexer, token);
    lex(Token::Literal("true"));
    lex(Token::Literal("false"));
    lex(Token::Literal("42"));
    lex(Token::Literal("0x1F"));
    lex(Token::Identifier("x1"));
    lex(Token::EOF);
}

#[test]
fn lexer_strictfp_is_a_keyword() {
    let mut lexer = Lexer::new("strictfp sealed");
    let mut lex = |token: Token| test_lexer(&mut lexer, token);
    lex(Token::Keyword("strictfp"));
    lex(Token::Keyword("sealed"));
    lex(Token::EOF);
}

#[test]
fn owned_token_keeps_the_variant() {
    assert_eq!(Token::Assignment("+=").to_owned_token(), OwnedToken::Assignment("+=".to_owned()));
    assert_eq!(Token::Identifier("a").to_owned_token(), OwnedToken::Identifier("a".to_owned()));
    assert_eq!(Token::LBrace.to_owned_token(), OwnedToken::LBrace);
}

#[test]
fn modifiers_sealed_strictfp_non_sealed() {
    let mut parser = Parser::new("sealed strictfp non-sealed final class").unwrap();
    let m = parser.modifiers().unwrap();
    assert_eq!(
        m.modifiers,
        vec!["sealed".to_owned(), "strictfp".to_owned(), "non-sealed".to_owned(), "final".to_owned()]
    );
    assert_eq!(m.access_modifier, AccessModifier::Default);
    assert_eq!(parser.peek_next_token().token, Token::Keyword("class"));
}

#[test]
fn modifiers_second_access_is_an_error() {
    let mut parser = Parser::new("public static private int").unwrap();
    let e = parser.modifiers().unwrap_err();
    assert!(matches!(e.err, ParseErrType::UnexpectedToken { expected: "non-access modifier", .. }));
}

#[test]
fn modifiers_stop_at_non_without_sealed() {
    let mut parser = Parser::new("final non - x").unwrap();
    let m = parser.modifiers().unwrap();
    assert_eq!(m.modifiers, vec!["final".to_owned()]);
    assert_eq!(parser.peek_next_token().token, Token::Identifier("non"));
}

// ------------------------------ members ------------------------------

#[test]
fn members_plain_fields() {
    let mut parser = Parser::new("int a; String[] b; java.util.List c; }").unwrap();
    let body = parser.members(qn(&[]), "Foo".to_owned()).unwrap();
    assert!(body.subtypes.is_empty());
    let names: Vec<&str> = body.members.iter().map(|m| m.name.as_str()).collect();
    assert_eq!(names, vec!["a", "b", "c"]);
    assert!(matches!(&body.members[0].member_kind, MemberKind::Property { reftype, arr_dim: 0 } if *reftype == plain(&["int"], 0)));
    assert!(matches!(&body.members[1].member_kind, MemberKind::Property { reftype, arr_dim: 1 } if reftype.name == qn(&["String"])));
    assert!(matches!(&body.members[2].member_kind, MemberKind::Property { reftype, arr_dim: 0 } if *reftype == plain(&["java", "util", "List"], 0)));
    assert_eq!(parser.peek_next_token().token, Token::RBrace);
}

#[test]
fn members_declarators_share_a_type() {
    let mut parser =
        Parser::new("HashMap<String, Integer> a, b = new HashMap<String, Integer>(), c; }").unwrap();
    let body = parser.members(qn(&[]), "Foo".to_owned()).unwrap();
    assert!(body.subtypes.is_empty());
    let names: Vec<&str> = body.members.iter().map(|m| m.name.as_str()).collect();
    assert_eq!(names, vec!["a", "b", "c"]);
    let expected = RefType {
        name: qn(&["HashMap"]),
        type_arg_list: TypeArgList(vec![TypeArg::Is(plain(&["String"], 0)), TypeArg::Is(plain(&["Integer"], 0))]),
        arr_dim: 0,
    };
    for m in body.members.iter() {
        assert!(matches!(&m.member_kind, MemberKind::Property { reftype, arr_dim: 0 } if *reftype == expected));
        assert!(m.annotations.is_empty());
        assert_eq!(m.modifiers, Modifiers { modifiers: vec![], access_modifier: AccessModifier::Default });
    }
    assert_eq!(parser.peek_next_token().token, Token::RBrace);
}

#[test]
fn members_initializer_and_constructor() {
    let mut parser = Parser::new("static { init(); } ; Foo(int x) throws E { } }").unwrap();
    let body = parser.members(qn(&[]), "Foo".to_owned()).unwrap();
    assert!(body.subtypes.is_empty());
    assert_eq!(body.members.len(), 1);
    assert_eq!(body.members[0].name, "Foo");
    assert!(matches!(
        &body.members[0].member_kind,
        MemberKind::Constructor { type_param_list, input, throws }
            if type_param_list.0.is_empty() && *input == vec![plain(&["int"], 0)] && *throws == vec![plain(&["E"], 0)]
    ));
}

#[test]
fn interface_body_rejects_a_constructor() {
    let mut parser = Parser::new("{ I() { } }").unwrap();
    let e = parser.interface_body(qn(&["I"]), "I".to_owned()).unwrap_err();
    assert!(matches!(e.err, ParseErrType::SemanticError("Constructor in interface")));
}

// --------------------------- smaller pieces ---------------------------

#[test]
fn consume_gt_leaves_the_rest_of_the_operator() {
    let mut parser = Parser::new(">>= x").unwrap();
    parser.consume_gt().unwrap();
    let t = parser.peek_next_token();
    assert_eq!(t.token, Token::Op(">="));
    assert_eq!(t.addr, 1);
    assert_eq!(t.len, 2);
}

#[test]
fn end_assignment_comma_after_annotated_declarator() {
    let parser = Parser::new(", @A x ;").unwrap();
    assert_eq!(parser.check_end_assignment_comma().unwrap(), true);
    let parser = Parser::new(", @A x + 1").unwrap();
    assert_eq!(parser.check_end_assignment_comma().unwrap(), false);
}

#[test]
fn parse_empty_and_single_declaration() {
    let f = Parser::parse("", "A.java").unwrap();
    assert!(f.type_decls.is_empty() && f.imported_objects.is_empty() && f.package_name.0.is_empty());
    let f = Parser::parse("enum E { }", "E.java").unwrap();
    assert_eq!(f.type_decls.len(), 1);
    assert!(f.type_decls[0].body.members.is_empty());
}

#[test]
fn parse_two_public_types_is_an_error() {
    let e = Parser::parse("public class A { } public class B { }", "A.java").unwrap_err();
    assert!(matches!(e.err, ParseErrType::MultiplePublicTypesError));
}

#[test]
fn arg_list_plain_parameters() {
    let mut parser = Parser::new("(int a, char b, java.lang.String[] c)").unwrap();
    assert_eq!(
        parser.arg_list().unwrap(),
        vec![plain(&["int"], 0), plain(&["char"], 0), plain(&["java", "lang", "String"], 1)]
    );
    assert_eq!(parser.peek_next_token().token, Token::EOF);
    let mut parser = Parser::new("(String... val)").unwrap();
    assert_eq!(parser.arg_list().unwrap(), vec![plain(&["String"], 0)]);
}

#[test]
fn enum_body_constants() {
    let mut parser = Parser::new("{ RED, GREEN, BLUE } x").unwrap();
    let (vals, body) = parser.enum_body(qn(&["Color"]), "Color".to_owned()).unwrap();
    assert_eq!(vals, vec!["RED".to_owned(), "GREEN".to_owned(), "BLUE".to_owned()]);
    assert!(body.members.is_empty() && body.subtypes.is_empty());
    assert_eq!(parser.peek_next_token().token, Token::Identifier("x"));
}

#[test]
fn enum_body_constants_with_arguments_bodies_and_members() {
    let mut parser = Parser::new("{ RED(1), GREEN { int f() { return 1; } }, BLUE; int x; }").unwrap();
    let (vals, body) = parser.enum_body(qn(&["Color"]), "Color".to_owned()).unwrap();
    assert_eq!(vals, vec!["RED".to_owned(), "GREEN".to_owned(), "BLUE".to_owned()]);
    assert_eq!(body.members.len(), 1);
    assert_eq!(body.members[0].name, "x");
    assert!(matches!(&body.members[0].member_kind, MemberKind::Property { reftype, arr_dim: 0 } if *reftype == plain(&["int"], 0)));
    assert!(body.subtypes.is_empty());
    assert_eq!(parser.peek_next_token().token, Token::EOF);
}

#[test]
fn class_decl_with_plain_fields() {
    let mut parser = Parser::new("class Foo { int x; String[][] y; }").unwrap();
    let t = parser.class_decl(qn(&["Out"])).unwrap();
    assert_eq!(t.name, qn(&["Out", "Foo"]));
    assert!(matches!(&t.type_kind, TypeKind::Class { inherit_class: None, implement_interfaces } if implement_interfaces.is_empty()));
    let names: Vec<&str> = t.body.members.iter().map(|m| m.name.as_str()).collect();
    assert_eq!(names, vec!["x", "y"]);
    assert!(matches!(&t.body.members[1].member_kind, MemberKind::Property { reftype, arr_dim: 2 } if reftype.name == qn(&["String"])));
    assert_eq!(parser.peek_next_token().token, Token::EOF);
}

#[test]
fn class_decl_type_params_and_parents() {
    let mut parser = Parser::new("class Foo<T> extends Bar<T> implements A, B { int x; }").unwrap();
    let t = parser.class_decl(qn(&["Out"])).unwrap();
    assert_eq!(t.name, qn(&["Out", "Foo"]));
    let bar = RefType {
        name: qn(&["Bar"]),
        type_arg_list: TypeArgList(vec![TypeArg::Is(plain(&["T"], 0))]),
        arr_dim: 0,
    };
    assert!(matches!(&t.type_kind, TypeKind::Class { inherit_class: Some(c), implement_interfaces }
        if *c == bar && *implement_interfaces == vec![plain(&["A"], 0), plain(&["B"], 0)]));
    assert_eq!(t.body.members.len(), 1);
    assert_eq!(t.body.members[0].name, "x");
    assert!(t.body.subtypes.is_empty());
    assert_eq!(t.modifiers, Modifiers { modifiers: vec![], access_modifier: AccessModifier::Default });
    assert!(t.annotation.is_empty());
    assert_eq!(parser.peek_next_token().token, Token::EOF);
}

#[test]
fn annotation_body_plain_elements() {
    let mut parser = Parser::new("{ String value(); int[] counts(); } x").unwrap();
    let (kind, body) = parser.annotation_body(qn(&["A"])).unwrap();
    match kind {
        TypeKind::Annotation { annotation_properties } => {
            assert_eq!(
                annotation_properties,
                vec![("value".to_owned(), plain(&["String"], 0)), ("counts".to_owned(), plain(&["int"], 1))]
            );
        },
        _ => panic!("not an annotation"),
    }
    assert!(body.members.is_empty() && body.subtypes.is_empty());
    assert_eq!(parser.peek_next_token().token, Token::Identifier("x"));
}

#[test]
fn annotation_body_elements_constants_and_nested_types() {
    let mut parser = Parser::new("{ String value(); int MAX = 100; enum Scope { CLASS } }").unwrap();
    let (kind, body) = parser.annotation_body(qn(&["A"])).unwrap();
    assert!(matches!(kind, TypeKind::Annotation { annotation_properties }
        if annotation_properties == vec![("value".to_owned(), plain(&["String"], 0))]));
    let public_static_final = Modifiers {
        modifiers: vec!["static".to_owned(), "final".to_owned()],
        access_modifier: AccessModifier::Public,
    };
    assert_eq!(body.members.len(), 1);
    assert_eq!(body.members[0].name, "MAX");
    assert!(matches!(&body.members[0].member_kind, MemberKind::Property { reftype, arr_dim: 0 } if *reftype == plain(&["int"], 0)));
    assert_eq!(body.members[0].modifiers, public_static_final);
    assert_eq!(body.subtypes.len(), 1);
    assert_eq!(body.subtypes[0].name, qn(&["A", "Scope"]));
    assert!(matches!(&body.subtypes[0].type_kind, TypeKind::Enum { enum_vals, .. } if *enum_vals == vec!["CLASS".to_owned()]));
    assert_eq!(body.subtypes[0].modifiers, public_static_final);
}

#[test]
fn type_decl_public_class() {
    let mut parser = Parser::new("public class A { } x").unwrap();
    let t = parser.type_decl(qn(&["p"])).unwrap();
    assert_eq!(t.name, qn(&["p", "A"]));
    assert_eq!(t.modifiers, Modifiers { modifiers: vec!["public".to_owned()], access_modifier: AccessModifier::Public });
    assert_eq!(parser.peek_next_token().token, Token::Identifier("x"));
}

#[test]
fn interface_body_without_constructor_is_accepted() {
    let mut parser = Parser::new("{ int x; }").unwrap();
    let body = parser.interface_body(qn(&["I"]), "I".to_owned()).unwrap();
    assert_eq!(body.members.len(), 1);
}

#[test]
fn ref_type_with_one_plain_argument() {
    let mut parser = Parser::new("java.util.List<String[]>[] x").unwrap();
    assert_eq!(
        parser.ref_type().unwrap(),
        RefType {
            name: qn(&["java", "util", "List"]),
            type_arg_list: TypeArgList(vec![TypeArg::Is(plain(&["String"], 1))]),
            arr_dim: 1,
        }
    );
    assert_eq!(parser.peek_next_token().token, Token::Identifier("x"));
}

#[test]
fn type_param_list_with_one_bound() {
    let mut parser = Parser::new("<T extends java.lang.Number> x").unwrap();
    let l = parser.type_param_list().unwrap();
    assert_eq!(l.0.len(), 1);
    assert_eq!(l.0[0].name, "T");
    assert_eq!(l.0[0].extends_from, vec![plain(&["java", "lang", "Number"], 0)]);
    assert_eq!(parser.peek_next_token().token, Token::Identifier("x"));
}

#[test]
fn members_static_block_stray_semicolon_and_field() {
    let mut parser = Parser::new("static { init(); } ; int x; }").unwrap();
    let body = parser.members(qn(&[]), "Foo".to_owned()).unwrap();
    assert!(body.subtypes.is_empty());
    assert_eq!(body.members.len(), 1);
    assert_eq!(body.members[0].name, "x");
    assert!(matches!(&body.members[0].member_kind, MemberKind::Property { reftype, arr_dim: 0 } if *reftype == plain(&["int"], 0)));
    assert_eq!(parser.peek_next_token().token, Token::RBrace);
}

#[test]
fn members_empty_nested_class_is_one_subtype() {
    let mut parser = Parser::new("class Inner { } }").unwrap();
    let body = parser.members(qn(&["Out"]), "Out".to_owned()).unwrap();
    assert!(body.members.is_empty());
    assert_eq!(body.subtypes.len(), 1);
    assert_eq!(body.subtypes[0].name, qn(&["Out", "Inner"]));
    assert_eq!(parser.peek_next_token().token, Token::RBrace);
}

#[test]
fn parse_public_class_then_package_private_class() {
    let f = Parser::parse("public class A { } class B { }", "A.java").unwrap();
    assert_eq!(f.type_decls.len(), 2);
    assert_eq!(f.type_decls[0].name, qn(&["A"]));
    assert_eq!(f.type_decls[0].modifiers.access_modifier, AccessModifier::Public);
    assert_eq!(f.type_decls[1].name, qn(&["B"]));
    assert_eq!(f.type_decls[1].modifiers.access_modifier, AccessModifier::Default);
}

#[test]
fn class_decl_implements_two_plain_interfaces() {
    let mut parser = Parser::new("class Foo implements A, b.B { }").unwrap();
    let t = parser.class_decl(qn(&[])).unwrap();
    assert!(matches!(&t.type_kind, TypeKind::Class { inherit_class: None, implement_interfaces }
        if *implement_interfaces == vec![plain(&["A"], 0), plain(&["b", "B"], 0)]));
    assert!(t.body.members.is_empty());
}

#[test]
fn type_param_list_of_bare_names() {
    let mut parser = Parser::new("<A, B, C> x").unwrap();
    let l = parser.type_param_list().unwrap();
    let names: Vec<&str> = l.0.iter().map(|p| p.name.as_str()).collect();
    assert_eq!(names, vec!["A", "B", "C"]);
    assert!(l.0.iter().all(|p| p.extends_from.is_empty()));
    assert_eq!(parser.peek_next_token().token, Token::Identifier("x"));
}

#[test]
fn end_assignment_comma_after_several_declarators() {
    let parser = Parser::new(", @A x, y, @B z ;").unwrap();
    assert_eq!(parser.check_end_assignment_comma().unwrap(), true);
    let parser = Parser::new(", x, @A y = 1").unwrap();
    assert_eq!(parser.check_end_assignment_comma().unwrap(), true);
    let parser = Parser::new(", x, @A y + 1").unwrap();
    assert_eq!(parser.check_end_assignment_comma().unwrap(), false);
}

#[test]
fn ref_type_with_several_plain_arguments() {
    let mut parser = Parser::new("Map<String, java.util.List[]>[] x").unwrap();
    assert_eq!(
        parser.ref_type().unwrap(),
        RefType {
            name: qn(&["Map"]),
            type_arg_list: TypeArgList(vec![
                TypeArg::Is(plain(&["String"], 0)),
                TypeArg::Is(plain(&["java", "util", "List"], 1)),
            ]),
            arr_dim: 1,
        }
    );
    assert_eq!(parser.peek_next_token().token, Token::Identifier("x"));
}

#[test]
fn type_arg_list_of_plain_types() {
    let mut parser = Parser::new("<A, B[], c.D> x").unwrap();
    let l = parser.type_arg_list().unwrap();
    assert_eq!(
        l,
        TypeArgList(vec![
            TypeArg::Is(plain(&["A"], 0)),
            TypeArg::Is(plain(&["B"], 1)),
            TypeArg::Is(plain(&["c", "D"], 0)),
        ])
    );
    assert_eq!(parser.peek_next_token().token, Token::Identifier("x"));
}

#[test]
fn arg_list_final_and_varargs_parameters() {
    let mut parser = Parser::new("(final int a, char[] b, final String... c) x").unwrap();
    assert_eq!(parser.arg_list().unwrap(), vec![plain(&["int"], 0), plain(&["char"], 1), plain(&["String"], 0)]);
    assert_eq!(parser.peek_next_token().token, Token::Identifier("x"));
}

#[test]
fn members_fields_blocks_and_empty_nested_types() {
    let mut parser =
        Parser::new("int a; class Inner { } static { x(); } ; String b; interface Other { } enum Kind { } }").unwrap();
    let body = parser.members(qn(&["Out"]), "Out".to_owned()).unwrap();
    let names: Vec<&str> = body.members.iter().map(|m| m.name.as_str()).collect();
    assert_eq!(names, vec!["a", "b"]);
    let subs: Vec<QualifiedName> = body.subtypes.iter().map(|t| t.name.clone()).collect();
    assert_eq!(subs, vec![qn(&["Out", "Inner"]), qn(&["Out", "Other"]), qn(&["Out", "Kind"])]);
    assert_eq!(parser.peek_next_token().token, Token::RBrace);
}
