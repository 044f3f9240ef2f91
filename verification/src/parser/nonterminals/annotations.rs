use vstd::prelude::*;

use std::rc::Rc;

use crate::parser::parser::{lemma_plain_run_unique, plain_run_to_semicolon};
use crate::parser::parser::{empty_annotation_decl_at, lemma_shifted_trans, Parser};
use crate::parser::nonterminals::util::{
    lemma_plain_ref_type_shift, lemma_plain_ref_type_starts, lemma_plain_ref_type_unique, plain_ref_type_at,
    plain_ref_type_len,
};
use crate::parser::token::{Token, TokenView};
use crate::types::{
    is_child_name, lemma_child_name, AccessModifier, GenericParseResult, Member, MemberKind,
    Modifiers, ParseErrType, ParseResult, QualifiedName, RefType, Type, TypeBody, TypeKind,
    TypeParamList,
};

verus! {

/// The modifiers that every element of an annotation type has.
pub fn annotation_element_modifiers() -> (r: Modifiers)
    ensures
        r.modifiers@.len() == 2,
        r.modifiers@[0]@ == "static"@,
        r.modifiers@[1]@ == "final"@,
        r.access_modifier == AccessModifier::Public,
{
    let mut v: Vec<String> = Vec::new();
    v.push("static".to_owned());
    v.push("final".to_owned());
    Modifiers { modifiers: v, access_modifier: AccessModifier::Public }
}

/// An annotation element written with plain tokens: its type's name, its
/// array dimensions and the element's name.
pub type PlainElement = (Seq<Seq<char>>, int, Seq<char>);

/// From position `at` on, the tokens are `T name ( ) ;` with the plain
/// type `T` (name `e.0`, `e.1` dimensions) and the element name `e.2`.
pub open spec fn plain_element_at(p: Parser, at: int, e: PlainElement) -> bool {
    let l = plain_ref_type_len(e.0, e.1);
    &&& plain_ref_type_at(p, at, e.0, e.1)
    &&& p.ahead(at + l).token@ == TokenView::Identifier(e.2)
    &&& p.ahead(at + l + 1).token@ == TokenView::LParen
    &&& p.ahead(at + l + 2).token@ == TokenView::RParen
    &&& p.ahead(at + l + 3).token@ == TokenView::Semicolon
}

/// How many tokens the plain elements `es` take.
pub open spec fn plain_elements_len(es: Seq<PlainElement>) -> int
    decreases es.len(),
{
    if es.len() == 0 {
        0
    } else {
        plain_elements_len(es.drop_last()) + plain_ref_type_len(es.last().0, es.last().1) + 4
    }
}

/// From position `at` on, the tokens are the plain elements `es`, one after
/// another.
pub open spec fn plain_elements_at(p: Parser, at: int, es: Seq<PlainElement>) -> bool
    decreases es.len(),
{
    if es.len() == 0 {
        true
    } else {
        plain_elements_at(p, at, es.drop_last()) && plain_element_at(
            p,
            at + plain_elements_len(es.drop_last()),
            es.last(),
        )
    }
}

/// Every prefix of a run of plain elements is one too.
pub proof fn lemma_plain_elements_take(p: Parser, at: int, es: Seq<PlainElement>, k: int)
    requires
        plain_elements_at(p, at, es),
        0 <= k <= es.len(),
    ensures
        plain_elements_at(p, at, es.take(k)),
        plain_elements_len(es.take(k)) >= 0,
        k < es.len() ==> plain_element_at(p, at + plain_elements_len(es.take(k)), es[k]),
        k < es.len() ==> plain_elements_len(es.take(k + 1)) == plain_elements_len(es.take(k))
            + plain_ref_type_len(es[k].0, es[k].1) + 4,
    decreases es.len(),
{
    if k == es.len() {
        assert(es.take(k) =~= es);
        if es.len() > 0 {
            lemma_plain_elements_take(p, at, es.drop_last(), k - 1);
            assert(es.drop_last().take(k - 1) =~= es.drop_last());
            let f = es.last();
            assert(f.0.len() >= 1 && 0 <= f.1);
        }
    } else {
        lemma_plain_elements_take(p, at, es.drop_last(), k);
        assert(es.take(k) =~= es.drop_last().take(k));
        if k + 1 < es.len() {
            lemma_plain_elements_take(p, at, es.drop_last(), k + 1);
            assert(es.take(k + 1) =~= es.drop_last().take(k + 1));
        } else {
            assert(es.take(k + 1) =~= es);
            assert(es.drop_last() =~= es.take(k));
        }
    }
}

/// Two runs of plain elements read from the same place agree on their
/// common length.
pub proof fn lemma_plain_elements_prefix(p: Parser, at: int, a: Seq<PlainElement>, b: Seq<PlainElement>)
    requires
        plain_elements_at(p, at, a),
        plain_elements_at(p, at, b),
        a.len() <= b.len(),
    ensures
        a == b.take(a.len() as int),
    decreases a.len(),
{
    if a.len() == 0 {
        assert(a =~= b.take(0));
    } else {
        let n = a.len() - 1;
        lemma_plain_elements_prefix(p, at, a.drop_last(), b);
        lemma_plain_elements_take(p, at, b, n);
        let off = at + plain_elements_len(a.drop_last());
        let f = a.last();
        let g = b[n];
        lemma_plain_ref_type_unique(p, off, f.0, f.1, g.0, g.1);
        assert(a =~= b.take(a.len() as int));
    }
}

/// A run of plain elements that ends before `}` is determined by the
/// tokens.
pub proof fn lemma_plain_elements_unique(p: Parser, at: int, a: Seq<PlainElement>, b: Seq<PlainElement>)
    requires
        plain_elements_at(p, at, a),
        plain_elements_at(p, at, b),
        p.ahead(at + plain_elements_len(a)).token@ == TokenView::RBrace,
        p.ahead(at + plain_elements_len(b)).token@ == TokenView::RBrace,
    ensures
        a == b,
{
    if a.len() < b.len() {
        lemma_plain_elements_prefix(p, at, a, b);
        lemma_plain_elements_take(p, at, b, a.len() as int);
        let g = b[a.len() as int];
        lemma_plain_ref_type_starts(p, at + plain_elements_len(a), g.0, g.1);
    } else if b.len() < a.len() {
        lemma_plain_elements_prefix(p, at, b, a);
        lemma_plain_elements_take(p, at, a, b.len() as int);
        let g = a[b.len() as int];
        lemma_plain_ref_type_starts(p, at + plain_elements_len(b), g.0, g.1);
    } else {
        lemma_plain_elements_prefix(p, at, a, b);
        assert(b.take(a.len() as int) =~= b);
    }
}

impl<'a> Parser<'a> {
    /// `<annotation_decl> ::= "@" "interface" IDENTIFIER <annotation_body>`
    /// The annotation type is named `prefix` followed by its identifier,
    /// with default access and no annotations; the caller fills those in.
    pub fn annotation_decl(&mut self, prefix: QualifiedName) -> (r: ParseResult<Type>)
        requires
            old(self).wf(),
        ensures
            final(self).follows(*old(self)),
            r matches Ok(t) ==> {
                &&& old(self).ahead(0).token@ == TokenView::At
                &&& old(self).ahead(1).token@ == TokenView::Keyword("interface"@)
                &&& old(self).ahead(2).token@ == TokenView::Identifier(t.name@.last())
                &&& is_child_name(prefix@, t.name@)
                &&& t.type_kind is Annotation
                &&& t.modifiers.modifiers@.len() == 0
                &&& t.modifiers.access_modifier == AccessModifier::Default
                &&& t.annotation@.len() == 0
                &&& forall|i: int|
                    0 <= i < t.body.subtypes@.len() ==> is_child_name(
                        t.name@,
                        (#[trigger] t.body.subtypes@[i]).name@,
                    )
                &&& final(self).remaining() < old(self).remaining()
            },
            old(self).ahead(0).token@ != TokenView::At ==> r is Err,
            empty_annotation_decl_at(*old(self)) ==> (r matches Ok(t) && t.body.members@.len() == 0
                && t.body.subtypes@.len() == 0 && t.type_kind->annotation_properties@.len() == 0
                && final(self).shifted(*old(self), 5)),
        decreases old(self).remaining(), 1nat,
    {
        let ctx = ("annotation_decl", self.peek_next_token().addr);
        // verify @interface
        self.consume_token(Token::At, "@", ctx)?;
        let ghost s1 = *self;
        self.consume_token(Token::Keyword("interface"), "interface", ctx)?;
        let ghost s2 = *self;
        proof {
            assert(s1.ahead(0) == old(self).ahead(0int + 1));
            lemma_shifted_trans(*old(self), s1, s2, 1, 1);
            assert(s2.ahead(0) == old(self).ahead(0int + 2));
        }
        let t = self.get_next_token();
        let ghost s3 = *self;
        proof {
            lemma_shifted_trans(*old(self), s2, s3, 2, 1);
            assert(s3.ahead(0) == old(self).ahead(0int + 3));
            assert(s3.ahead(1) == old(self).ahead(1int + 3));
        }
        let id = match t.token {
            Token::Identifier(s) => s,
            _ => {
                let cur = self.get_current_token();
                return Err(
                    ParseErrType::UnexpectedToken {
                        expected: "IDENTIFIER",
                        got: vec![cur.token.to_owned_token()],
                    }.to_stack_parse_err(cur.addr, ctx),
                );
            },
        };
        let name = prefix.child(id);
        proof {
            lemma_child_name(prefix@, id@);
        }
        let (type_kind, body) = self.annotation_body(name.duplicate()).push_context(ctx)?;
        proof {
            if empty_annotation_decl_at(*old(self)) {
                lemma_shifted_trans(*old(self), s3, *self, 3, 2);
            }
        }
        Ok(
            Type {
                name,
                type_kind,
                body,
                annotation: Vec::new(),
                modifiers: Modifiers::default_access(),
                type_params: TypeParamList(Vec::new()),
            },
        )
    }

    /// Skips what is left of an element declaration up to its `;`, passing
    /// over bracketed groups whole. The `;` is not read.
    pub fn skip_to_semicolon(&mut self, ctx: (&'static str, usize)) -> (r: ParseResult<()>)
        requires
            old(self).wf(),
        ensures
            final(self).follows(*old(self)),
            r is Ok ==> final(self).ahead(0).token@ == TokenView::Semicolon,
            forall|n: int|
                #[trigger] plain_run_to_semicolon(*old(self), n, false) ==> (r is Ok && final(self).shifted(*old(self), n)),
    {
        let ghost pre = *self;
        let ghost h = exists|n: int| plain_run_to_semicolon(*old(self), n, false);
        let ghost gn = choose|n: int| plain_run_to_semicolon(*old(self), n, false);
        let ghost mut k: int = 0;
        assert(self.shifted(pre, 0)) by {
            assert forall|x: int| 0 <= x implies #[trigger] self.ahead(x) == pre.ahead(x + 0) by {}
        }
        loop
            invariant
                pre == *old(self),
                self.follows(pre),
                h == exists|n: int| plain_run_to_semicolon(*old(self), n, false),
                h ==> plain_run_to_semicolon(*old(self), gn, false) && 0 <= k <= gn && self.shifted(pre, k),
            ensures
                self.ahead(0).token@ == TokenView::Semicolon,
                h ==> self.shifted(pre, gn),
            decreases self.remaining(),
        {
            if self.next_is(Token::LParen) {
                self.skip_brace(Token::LParen, Token::RParen).push_context(ctx)?;
            } else if self.next_is(Token::LBrace) {
                self.skip_brace(Token::LBrace, Token::RBrace).push_context(ctx)?;
            } else if self.next_is(Token::LBracket) {
                self.skip_brace(Token::LBracket, Token::RBracket).push_context(ctx)?;
            } else if self.next_is(Token::Semicolon) {
                proof {
                    if h {
                        assert(self.ahead(0) == pre.ahead(0 + k));
                        if k < gn {
                            assert(pre.ahead(k).token@ != TokenView::Semicolon);
                        }
                    }
                }
                break ;
            } else if self.next_is(Token::EOF) {
                return Err(
                    ParseErrType::UnexpectedEOF.to_stack_parse_err(
                        self.peek_next_token().addr,
                        ctx,
                    ),
                );
            } else {
                let ghost b = *self;
                self.get_next_token();
                proof {
                    if h {
                        assert(b.ahead(0) == pre.ahead(0 + k));
                        if k == gn {
                            assert(pre.ahead(gn).token@ == TokenView::Semicolon);
                        }
                        lemma_shifted_trans(pre, b, *self, k, 1);
                        k = k + 1;
                    }
                }
            }
        }
        proof {
            if h {
                assert forall|n: int| #[trigger] plain_run_to_semicolon(*old(self), n, false) implies n == gn by {
                    lemma_plain_run_unique(*old(self), n, gn, false, false);
                }
            }
        }
        Ok(())
    }

    /// The body of an annotation type: its elements (`T name() [default ...];`),
    /// its constants (`T NAME = ...;`) and its nested types, up to the closing
    /// brace.
    #[verifier::rlimit(80)]
    #[verifier::spinoff_prover]
    pub fn annotation_body(&mut self, prefix: QualifiedName) -> (r: ParseResult<(TypeKind, TypeBody)>)
        requires
            old(self).wf(),
        ensures
            final(self).follows(*old(self)),
            r is Ok ==> final(self).remaining() < old(self).remaining(),
            r matches Ok(p) ==> p.0 is Annotation,
            r matches Ok(p) ==> forall|i: int|
                0 <= i < p.1.subtypes@.len() ==> is_child_name(
                    prefix@,
                    (#[trigger] p.1.subtypes@[i]).name@,
                ),
            r matches Ok(p) ==> forall|i: int|
                0 <= i < p.1.subtypes@.len() ==> (#[trigger] p.1.subtypes@[i]).modifiers.access_modifier
                    == AccessModifier::Public,
            r matches Ok(p) ==> forall|i: int|
                0 <= i < p.1.members@.len() ==> (#[trigger] p.1.members@[i]).modifiers.access_modifier
                    == AccessModifier::Public,
            old(self).ahead(0).token@ == TokenView::LBrace && old(self).ahead(1).token@ == TokenView::RBrace
                ==> (r matches Ok(p) && p.0->annotation_properties@.len() == 0 && p.1.members@.len() == 0
                && p.1.subtypes@.len() == 0 && final(self).shifted(*old(self), 2)),
            old(self).ahead(0).token@ != TokenView::LBrace ==> r is Err,
            forall|es: Seq<PlainElement>|
                #[trigger] plain_elements_at(*old(self), 1, es) && old(self).ahead(0).token@ == TokenView::LBrace
                    && old(self).ahead(1 + plain_elements_len(es)).token@ == TokenView::RBrace ==> {
                    &&& r matches Ok(p)
                    &&& p.1.members@.len() == 0
                    &&& p.1.subtypes@.len() == 0
                    &&& p.0->annotation_properties@.len() == es.len()
                    &&& forall|i: int|
                        0 <= i < es.len() ==> {
                            &&& (#[trigger] p.0->annotation_properties@[i]).0@ == es[i].2
                            &&& p.0->annotation_properties@[i].1.name@ == es[i].0
                            &&& p.0->annotation_properties@[i].1.arr_dim == es[i].1
                        }
                    &&& final(self).shifted(*old(self), plain_elements_len(es) + 2)
                },
        decreases old(self).remaining(), 2nat,
    {
        let ghost h = exists|es: Seq<PlainElement>|
            #[trigger] plain_elements_at(*old(self), 1, es) && old(self).ahead(0).token@ == TokenView::LBrace
                && old(self).ahead(1 + plain_elements_len(es)).token@ == TokenView::RBrace;
        let ghost ges = choose|es: Seq<PlainElement>|
            #[trigger] plain_elements_at(*old(self), 1, es) && old(self).ahead(0).token@ == TokenView::LBrace
                && old(self).ahead(1 + plain_elements_len(es)).token@ == TokenView::RBrace;
        let ctx = ("annotation_body", self.peek_next_token().addr);
        let mut annotation_elements: Vec<(String, RefType)> = Vec::new();
        let mut members: Vec<Rc<Member>> = Vec::new();
        let mut subtypes: Vec<Rc<Type>> = Vec::new();
        self.consume_token(Token::LBrace, "LBrace", ctx)?;
        let ghost after_open = *self;
        assert(after_open.ahead(0) == old(self).ahead(0int + 1));
        proof {
            if h {
                lemma_plain_elements_take(*old(self), 1, ges, 0);
                assert(ges.take(0) =~= Seq::<PlainElement>::empty());
            }
        }
        loop
            invariant_except_break
                old(self).ahead(1).token@ == TokenView::RBrace ==> *self == after_open
                    && annotation_elements@.len() == 0 && members@.len() == 0 && subtypes@.len() == 0,
                h ==> self.shifted(*old(self), 1 + plain_elements_len(ges.take(annotation_elements@.len() as int))),
            invariant
                h == exists|es: Seq<PlainElement>|
                    #[trigger] plain_elements_at(*old(self), 1, es) && old(self).ahead(0).token@ == TokenView::LBrace
                        && old(self).ahead(1 + plain_elements_len(es)).token@ == TokenView::RBrace,
                h ==> plain_elements_at(*old(self), 1, ges) && old(self).ahead(1 + plain_elements_len(ges)).token@
                    == TokenView::RBrace,
                h ==> members@.len() == 0 && subtypes@.len() == 0 && annotation_elements@.len() <= ges.len(),
                h ==> forall|i: int|
                    0 <= i < annotation_elements@.len() ==> {
                        &&& (#[trigger] annotation_elements@[i]).0@ == ges[i].2
                        &&& annotation_elements@[i].1.name@ == ges[i].0
                        &&& annotation_elements@[i].1.arr_dim == ges[i].1
                    },
                old(self).wf(),
                after_open.ahead(0) == old(self).ahead(1),
                after_open.follows(*old(self)),
                after_open.remaining() < old(self).remaining(),
                self.follows(after_open),
                forall|i: int|
                    0 <= i < subtypes@.len() ==> is_child_name(
                        prefix@,
                        (#[trigger] subtypes@[i]).name@,
                    ),
                forall|i: int|
                    0 <= i < subtypes@.len() ==> (#[trigger] subtypes@[i]).modifiers.access_modifier
                        == AccessModifier::Public,
                forall|i: int|
                    0 <= i < members@.len() ==> (#[trigger] members@[i]).modifiers.access_modifier
                        == AccessModifier::Public,
            ensures
                old(self).ahead(1).token@ == TokenView::RBrace ==> self.shifted(after_open, 1)
                    && annotation_elements@.len() == 0 && members@.len() == 0 && subtypes@.len() == 0,
                h ==> annotation_elements@.len() == ges.len() && self.shifted(
                    *old(self),
                    plain_elements_len(ges) + 2,
                ),
            decreases self.remaining(),
        {
            let ghost start = *self;
            let ghost k = annotation_elements@.len() as int;
            let ghost eb = annotation_elements@;
            proof {
                if h {
                    lemma_plain_elements_take(*old(self), 1, ges, k);
                    let off = 1 + plain_elements_len(ges.take(k));
                    if k == ges.len() {
                        assert(ges.take(k) =~= ges);
                        assert(self.ahead(0) == old(self).ahead(0 + off));
                    } else {
                        let e = ges[k];
                        let l = plain_ref_type_len(e.0, e.1);
                        lemma_plain_ref_type_shift(*old(self), *self, off, 0, e.0, e.1);
                        lemma_plain_ref_type_starts(*self, 0, e.0, e.1);
                        assert(self.ahead(l) == old(self).ahead(l + off));
                        assert(self.ahead(l + 1) == old(self).ahead(l + 1 + off));
                        assert(self.ahead(l + 2) == old(self).ahead(l + 2 + off));
                        assert(self.ahead(l + 3) == old(self).ahead(l + 3 + off));
                        if e.0.len() > 1 {
                            assert(self.ahead(0int + 2 * 0int + 1).token@ == TokenView::Dot);
                        } else if e.1 > 0 {
                            assert(self.ahead(0 + 2 * e.0.len() - 1 + 2 * 0).token@ == TokenView::LBracket);
                        }
                        assert(self.ahead(1).token@ != TokenView::Op("-"@));
                    }
                }
            }
            let t = self.peek_next_token();
            let starts_member = match t.token {
                Token::At => true,
                Token::Keyword(_) => true,
                Token::Identifier(_) => true,
                _ => false,
            };
            if crate::parser::token::token_eq(&t.token, &Token::RBrace) {
                self.get_next_token();
                proof {
                    if h {
                        let off = 1 + plain_elements_len(ges.take(k));
                        lemma_shifted_trans(*old(self), start, *self, off, 1);
                        assert(ges.take(k) =~= ges);
                    }
                }
                break ;
            } else if starts_member {
                let annotations = self.annotations().push_context(ctx)?;
                // modifiers are read but not kept: elements are always public static final
                self.modifiers().push_context(ctx)?;
                if self.next_is(Token::Keyword("enum")) {
                    let mut subtype = self.enum_decl(prefix.duplicate()).push_context(ctx)?;
                    subtype.annotation = annotations;
                    subtype.modifiers = annotation_element_modifiers();
                    subtypes.push(Rc::new(subtype));
                } else if self.next_is(Token::Keyword("class")) {
                    let mut subtype = self.class_decl(prefix.duplicate()).push_context(ctx)?;
                    subtype.annotation = annotations;
                    subtype.modifiers = annotation_element_modifiers();
                    subtypes.push(Rc::new(subtype));
                } else if self.next_is(Token::Keyword("interface")) {
                    let mut subtype = self.interface_decl(prefix.duplicate()).push_context(ctx)?;
                    subtype.annotation = annotations;
                    subtype.modifiers = annotation_element_modifiers();
                    subtypes.push(Rc::new(subtype));
                } else if self.next_is(Token::At) && self.offset_is(1, Token::Keyword("interface")) {
                    let mut subtype = self.annotation_decl(prefix.duplicate()).push_context(ctx)?;
                    subtype.annotation = annotations;
                    subtype.modifiers = annotation_element_modifiers();
                    subtypes.push(Rc::new(subtype));
                } else if self.peek_next_token().token.is_identifier() {
                    let ghost c1 = *self;
                    let typeclass = self.ref_type().push_context(ctx)?;
                    let ghost c2 = *self;
                    proof {
                        if h {
                            assert(c1 == start);
                            let e = ges[k];
                            let l = plain_ref_type_len(e.0, e.1);
                            assert(c2.ahead(0) == start.ahead(0 + l));
                            assert(c2.ahead(1) == start.ahead(1 + l));
                        }
                    }
                    let t = self.get_next_token();
                    let ghost c3 = *self;
                    proof {
                        if h {
                            let e = ges[k];
                            let l = plain_ref_type_len(e.0, e.1);
                            assert(c3.ahead(0) == c2.ahead(0int + 1));
                        }
                    }
                    let name = match t.token {
                        Token::Identifier(s) => s,
                        _ => {
                            let cur = self.get_current_token();
                            return Err(
                                ParseErrType::UnexpectedToken {
                                    expected: "IDENTIFIER",
                                    got: vec![cur.token.to_owned_token()],
                                }.to_stack_parse_err(cur.addr, ctx),
                            );
                        },
                    };
                    let t = self.get_next_token();
                    if crate::parser::token::token_eq(&t.token, &Token::Assignment("=")) {
                        // a constant: skip its value up to ";"
                        self.skip_to_semicolon(ctx)?;
                        self.consume_token(Token::Semicolon, "Semicolon", ctx)?;
                        let arr_dim = typeclass.arr_dim;
                        members.push(
                            Rc::new(
                                Member {
                                    name: name.to_owned(),
                                    member_kind: MemberKind::Property { reftype: typeclass, arr_dim },
                                    annotations,
                                    modifiers: annotation_element_modifiers(),
                                },
                            ),
                        );
                    } else if crate::parser::token::token_eq(&t.token, &Token::LParen) {
                        // an element: `()` then an optional default value
                        let ghost c4 = *self;
                        self.consume_token(Token::RParen, "RParen", ctx)?;
                        let ghost c5 = *self;
                        if self.next_is(Token::Keyword("default")) {
                            self.skip_to_semicolon(ctx)?;
                        }
                        self.consume_token(Token::Semicolon, "Semicolon", ctx)?;
                        annotation_elements.push((name.to_owned(), typeclass));
                        proof {
                            if h {
                                let off = 1 + plain_elements_len(ges.take(k));
                                let e = ges[k];
                                let l = plain_ref_type_len(e.0, e.1);
                                lemma_shifted_trans(*old(self), start, c4, off, l + 2);
                                lemma_shifted_trans(*old(self), c4, c5, off + l + 2, 1);
                                lemma_shifted_trans(*old(self), c5, *self, off + l + 3, 1);
                                assert forall|i: int| 0 <= i < annotation_elements@.len() implies {
                                    &&& (#[trigger] annotation_elements@[i]).0@ == ges[i].2
                                    &&& annotation_elements@[i].1.name@ == ges[i].0
                                    &&& annotation_elements@[i].1.arr_dim == ges[i].1
                                } by {
                                    if i < k {
                                        assert(annotation_elements@[i] == eb[i]);
                                    }
                                }
                            }
                        }
                    } else {
                        let cur = self.get_current_token();
                        return Err(
                            ParseErrType::UnexpectedToken {
                                expected: "LParen | =",
                                got: vec![t.token.to_owned_token()],
                            }.to_stack_parse_err(cur.addr, ctx),
                        );
                    }
                } else {
                    let t1 = self.peek_token_offset(0);
                    let t2 = self.peek_token_offset(1);
                    return Err(
                        ParseErrType::UnexpectedToken {
                            expected: "type_decl | IDENTIFIER",
                            got: vec![t1.token.to_owned_token(), t2.token.to_owned_token()],
                        }.to_stack_parse_err(t1.addr, ctx),
                    );
                }
            } else {
                return Err(
                    ParseErrType::UnexpectedToken {
                        expected: "@ | IDENTIFIER | RBrace",
                        got: vec![t.token.to_owned_token()],
                    }.to_stack_parse_err(t.addr, ctx),
                );
            }
            assert(self.remaining() < start.remaining());
        }
        proof {
            if old(self).ahead(1).token@ == TokenView::RBrace {
                lemma_shifted_trans(*old(self), after_open, *self, 1, 1);
            }
            if h {
                assert forall|es: Seq<PlainElement>|
                    #[trigger] plain_elements_at(*old(self), 1, es) && old(self).ahead(0).token@ == TokenView::LBrace
                        && old(self).ahead(1 + plain_elements_len(es)).token@ == TokenView::RBrace implies es
                    == ges by {
                    lemma_plain_elements_unique(*old(self), 1, es, ges);
                }
            }
        }
        Ok(
            (
                TypeKind::Annotation { annotation_properties: annotation_elements },
                TypeBody { members, subtypes },
            ),
        )
    }
}

} // verus!
