use vstd::prelude::*;

use crate::parser::parser::{
    balanced_group, empty_decl_at, lemma_balanced_group_shift, lemma_balanced_group_unique, lemma_balanced_not_unclosed,
    lemma_shifted_trans, lemma_spells_name_shift, spells_name, unclosed_group, Parser,
};
use crate::parser::nonterminals::type_body::{
    item_nested, item_fields, items_from, items_len, lemma_items_shift, lemma_items_unique, BodyItem,
};
use crate::parser::token::{token_eq, Token, TokenView};
use crate::types::{
    is_child_name, lemma_child_name, names_view, GenericParseResult, Modifiers, ParseErrType, ParseResult,
    QualifiedName, Type, TypeBody, TypeKind, TypeParamList,
};

verus! {

/// An enum constant written out: its name, then how many tokens its
/// argument list in parentheses takes and how many its body in braces
/// takes (0 for none).
pub type EnumConst = (Seq<char>, int, int);

/// How many tokens the constant takes, with the `,` or `}` after it.
pub open spec fn const_len(c: EnumConst) -> int {
    c.1 + c.2 + 2
}

/// How many tokens the constants `cs` take, each with the `,` or `}` after
/// it.
pub open spec fn consts_len(cs: Seq<EnumConst>) -> int
    decreases cs.len(),
{
    if cs.len() == 0 {
        0
    } else {
        consts_len(cs.drop_last()) + const_len(cs.last())
    }
}

/// From position `at` on, the tokens are what follows a constant's name:
/// an argument group of `a` tokens in parentheses (if `a > 0`), a body
/// group of `b` tokens in braces (if `b > 0`), then `,`, `;` or `}`.
pub open spec fn const_rest_at(p: Parser, at: int, a: int, b: int) -> bool {
    &&& 0 <= a
    &&& 0 <= b
    &&& (a > 0 ==> balanced_group(p, TokenView::LParen, TokenView::RParen, at, a))
    &&& (b > 0 ==> balanced_group(p, TokenView::LBrace, TokenView::RBrace, at + a, b))
    &&& (p.ahead(at + a + b).token@ == TokenView::Comma || p.ahead(at + a + b).token@ == TokenView::RBrace
        || p.ahead(at + a + b).token@ == TokenView::Semicolon)
}

/// After the `{`, the tokens give each constant of `cs`: its name and the
/// rest of it; the separators are not looked at.
pub open spec fn consts_spelled(p: Parser, cs: Seq<EnumConst>) -> bool
    decreases cs.len(),
{
    if cs.len() == 0 {
        true
    } else {
        let at = 1 + consts_len(cs.drop_last());
        &&& consts_spelled(p, cs.drop_last())
        &&& p.ahead(at).token@ == TokenView::Identifier(cs.last().0)
        &&& const_rest_at(p, at + 1, cs.last().1, cs.last().2)
    }
}

/// The tokens open an enum body with the constants `cs` (at least one):
/// `{`, then the constants separated by `,`, with no `,` after the last.
pub open spec fn enum_consts_run(p: Parser, cs: Seq<EnumConst>) -> bool {
    &&& cs.len() >= 1
    &&& p.ahead(0).token@ == TokenView::LBrace
    &&& consts_spelled(p, cs)
    &&& forall|i: int| 1 <= i < cs.len() ==> p.ahead(#[trigger] consts_len(cs.take(i))).token@ == TokenView::Comma
    &&& p.ahead(consts_len(cs)).token@ != TokenView::Comma
}

/// The tokens are an enum body holding only the constants `cs` (at least
/// one): `{`, the constants separated by `,`, then `}`.
pub open spec fn enum_consts_at(p: Parser, cs: Seq<EnumConst>) -> bool {
    &&& enum_consts_run(p, cs)
    &&& p.ahead(consts_len(cs)).token@ == TokenView::RBrace
}

/// The tokens are an enum body with the constants `cs` (at least one),
/// then `;`, the body pieces `its` and `}`.
pub open spec fn enum_consts_members_at(p: Parser, cs: Seq<EnumConst>, its: Seq<BodyItem>) -> bool {
    &&& enum_consts_run(p, cs)
    &&& p.ahead(consts_len(cs)).token@ == TokenView::Semicolon
    &&& items_from(p, consts_len(cs) + 1, its)
    &&& p.ahead(consts_len(cs) + 1 + items_len(its)).token@ == TokenView::RBrace
}

/// The names of the constants, in order.
pub open spec fn const_names(cs: Seq<EnumConst>) -> Seq<Seq<char>> {
    cs.map_values(|c: EnumConst| c.0)
}

/// Every prefix of spelled constants is spelled, and the next constant
/// comes right after it.
pub proof fn lemma_consts_take(p: Parser, cs: Seq<EnumConst>, k: int)
    requires
        consts_spelled(p, cs),
        0 <= k <= cs.len(),
    ensures
        consts_spelled(p, cs.take(k)),
        consts_len(cs.take(k)) >= 0,
        k < cs.len() ==> p.ahead(1 + consts_len(cs.take(k))).token@ == TokenView::Identifier(cs[k].0),
        k < cs.len() ==> const_rest_at(p, 2 + consts_len(cs.take(k)), cs[k].1, cs[k].2),
        k < cs.len() ==> consts_len(cs.take(k + 1)) == consts_len(cs.take(k)) + const_len(cs[k]),
    decreases cs.len(),
{
    if k == cs.len() {
        assert(cs.take(k) =~= cs);
        if cs.len() > 0 {
            lemma_consts_take(p, cs.drop_last(), k - 1);
            assert(cs.drop_last().take(k - 1) =~= cs.drop_last());
        }
    } else {
        lemma_consts_take(p, cs.drop_last(), k);
        assert(cs.take(k) =~= cs.drop_last().take(k));
        if k + 1 < cs.len() {
            lemma_consts_take(p, cs.drop_last(), k + 1);
            assert(cs.take(k + 1) =~= cs.drop_last().take(k + 1));
        } else {
            assert(cs.take(k + 1) =~= cs);
            assert(cs.drop_last() =~= cs.take(k));
        }
    }
}

/// What follows a constant's name is determined by the tokens.
pub proof fn lemma_const_rest_unique(p: Parser, at: int, a1: int, b1: int, a2: int, b2: int)
    requires
        const_rest_at(p, at, a1, b1),
        const_rest_at(p, at, a2, b2),
    ensures
        a1 == a2 && b1 == b2,
{
    if a1 > 0 && a2 > 0 {
        lemma_balanced_group_unique(p, TokenView::LParen, TokenView::RParen, at, a1, a2);
    }
    if a1 == a2 && b1 > 0 && b2 > 0 {
        lemma_balanced_group_unique(p, TokenView::LBrace, TokenView::RBrace, at + a1, b1, b2);
    }
}

/// What follows a constant's name reads the same `off` tokens later.
pub proof fn lemma_const_rest_shift(p: Parser, s: Parser, off: int, at: int, a: int, b: int)
    requires
        0 <= off,
        0 <= at,
        s.shifted(p, off),
        const_rest_at(p, at + off, a, b),
    ensures
        const_rest_at(s, at, a, b),
{
    if a > 0 {
        lemma_balanced_group_shift(p, s, off, at, TokenView::LParen, TokenView::RParen, a);
    }
    if b > 0 {
        lemma_balanced_group_shift(p, s, off, at + a, TokenView::LBrace, TokenView::RBrace, b);
    }
    assert(s.ahead(at + a + b) == p.ahead(at + a + b + off));
}

/// Two runs of spelled constants agree on their common length.
pub proof fn lemma_consts_prefix(p: Parser, a: Seq<EnumConst>, b: Seq<EnumConst>)
    requires
        consts_spelled(p, a),
        consts_spelled(p, b),
        a.len() <= b.len(),
    ensures
        a == b.take(a.len() as int),
    decreases a.len(),
{
    if a.len() == 0 {
        assert(a =~= b.take(0));
    } else {
        let n = a.len() - 1;
        lemma_consts_prefix(p, a.drop_last(), b);
        lemma_consts_take(p, b, n);
        let x = a.last();
        let y = b[n];
        lemma_const_rest_unique(p, 2 + consts_len(a.drop_last()), x.1, x.2, y.1, y.2);
        assert(a =~= b.take(a.len() as int));
    }
}

/// The constants of an enum body of constants only are determined by its
/// tokens.
pub proof fn lemma_enum_consts_unique(p: Parser, a: Seq<EnumConst>, b: Seq<EnumConst>)
    requires
        enum_consts_run(p, a),
        enum_consts_run(p, b),
    ensures
        a == b,
{
    if a.len() < b.len() {
        lemma_consts_prefix(p, a, b);
        assert(p.ahead(consts_len(b.take(a.len() as int))).token@ == TokenView::Comma);
    } else if b.len() < a.len() {
        lemma_consts_prefix(p, b, a);
        assert(p.ahead(consts_len(a.take(b.len() as int))).token@ == TokenView::Comma);
    } else {
        lemma_consts_prefix(p, a, b);
        assert(b.take(a.len() as int) =~= b);
    }
}

impl<'a> Parser<'a> {
    /// `<enum_decl> ::= "enum" IDENTIFIER ["implements" <ref_type> {"," <ref_type>}] <enum_body>`
    /// The enum is named `prefix` followed by its identifier, with default
    /// access and no annotations; the caller fills those in.
    pub fn enum_decl(&mut self, prefix: QualifiedName) -> (r: ParseResult<Type>)
        requires
            old(self).wf(),
        ensures
            final(self).follows(*old(self)),
            r matches Ok(t) ==> {
                &&& old(self).ahead(0).token@ == TokenView::Keyword("enum"@)
                &&& old(self).ahead(1).token@ == TokenView::Identifier(t.name@.last())
                &&& is_child_name(prefix@, t.name@)
                &&& t.type_kind is Enum
                &&& t.modifiers.modifiers@.len() == 0
                &&& t.modifiers.access_modifier == crate::types::AccessModifier::Default
                &&& t.annotation@.len() == 0
                &&& forall|i: int|
                    0 <= i < t.body.subtypes@.len() ==> is_child_name(
                        t.name@,
                        (#[trigger] t.body.subtypes@[i]).name@,
                    )
                &&& final(self).remaining() < old(self).remaining()
                &&& (t.type_kind->Enum_implement_interfaces@.len() > 0 <==> old(self).ahead(2).token@
                    == TokenView::Keyword("implements"@))
                &&& (t.type_kind->Enum_implement_interfaces@.len() > 0 && old(self).ahead(3).token@
                    != TokenView::At ==> spells_name(*old(self), 3, t.type_kind->Enum_implement_interfaces@[0].name@))
            },
            old(self).ahead(0).token@ != TokenView::Keyword("enum"@) ==> r is Err,
            empty_decl_at(*old(self), "enum"@) ==> (r matches Ok(t) && t.body.members@.len() == 0
                && t.body.subtypes@.len() == 0 && t.type_kind->enum_vals@.len() == 0
                && t.type_kind->Enum_implement_interfaces@.len() == 0 && final(self).shifted(*old(self), 4)),
        decreases old(self).remaining(), 1nat,
    {
        let ctx = ("enum_decl", self.peek_next_token().addr);
        let kw = self.get_next_token();
        if !token_eq(&kw.token, &Token::Keyword("enum")) {
            let cur = self.get_current_token();
            return Err(
                ParseErrType::UnexpectedToken {
                    expected: "enum",
                    got: vec![cur.token.to_owned_token()],
                }.to_stack_parse_err(cur.addr, ctx),
            );
        }
        let ghost s1 = *self;
        let id = self.consume_identifier("IDENTIFIER", ctx)?;
        let name = prefix.child(id);
        proof {
            lemma_child_name(prefix@, id@);
            lemma_shifted_trans(*old(self), s1, *self, 1, 1);
        }
        let ghost s2 = *self;
        let implement_interfaces = self.ref_type_list_after(Token::Keyword("implements"), ctx)?;
        proof {
            assert(s2.ahead(0) == old(self).ahead(0int + 2));
            assert(s2.ahead(1) == old(self).ahead(1int + 2));
            if implement_interfaces@.len() > 0 && old(self).ahead(3).token@ != TokenView::At {
                lemma_spells_name_shift(*old(self), s2, 2, 1, implement_interfaces@[0].name@);
            }
        }
        let ghost s3 = *self;
        let (enum_vals, body) = self.enum_body(name.duplicate(), id.to_owned()).push_context(ctx)?;
        proof {
            if empty_decl_at(*old(self), "enum"@) {
                assert(s3 == s2);
                lemma_shifted_trans(*old(self), s3, *self, 2, 2);
            }
        }
        Ok(
            Type {
                name,
                modifiers: Modifiers::default_access(),
                type_kind: TypeKind::Enum { implement_interfaces, enum_vals },
                body,
                annotation: Vec::new(),
                type_params: TypeParamList(Vec::new()),
            },
        )
    }

    /// `[<skip_paren>] [<skip_brace>]` after an enum constant.
    fn skip_enum_val_rest(&mut self, ctx: (&'static str, usize)) -> (r: ParseResult<()>)
        requires
            old(self).wf(),
        ensures
            final(self).follows(*old(self)),
            old(self).ahead(0).token@ != TokenView::LParen && old(self).ahead(0).token@ != TokenView::LBrace ==> (
            r is Ok && *final(self) == *old(self)),
            old(self).ahead(0).token@ == TokenView::LParen && old(self).ahead(1).token@ == TokenView::RParen && old(
                self,
            ).ahead(2).token@ != TokenView::LBrace ==> (r is Ok && final(self).shifted(*old(self), 2)),
            old(self).ahead(0).token@ == TokenView::LBrace && old(self).ahead(1).token@ == TokenView::RBrace ==> (
            r is Ok && final(self).shifted(*old(self), 2)),
            forall|a: int, b: int| #[trigger] const_rest_at(*old(self), 0, a, b) ==> r is Ok && final(self).shifted(*old(self), a + b),
    {
        let ghost hr = exists|a: int, b: int| #[trigger] const_rest_at(*old(self), 0, a, b);
        let ghost g = choose|a: int, b: int| #[trigger] const_rest_at(*old(self), 0, a, b);
        let ghost s0 = *self;
        proof {
            assert forall|k: int| 0 <= k implies #[trigger] self.ahead(k) == old(self).ahead(k + 0) by {}
        }
        if self.next_is(Token::LParen) {
            let rr = self.skip_brace(Token::LParen, Token::RParen);
            proof {
                if hr {
                    assert(g.0 > 0);
                    if rr is Err {
                        assert forall|m: int| !#[trigger] unclosed_group(s0, TokenView::LParen, TokenView::RParen, 0, m) by {
                            lemma_balanced_not_unclosed(s0, TokenView::LParen, TokenView::RParen, 0, g.0, m);
                        }
                    } else {
                        let n2 = choose|x: int|
                            balanced_group(s0, TokenView::LParen, TokenView::RParen, 0, x) && #[trigger] self.shifted(s0, x);
                        lemma_balanced_group_unique(s0, TokenView::LParen, TokenView::RParen, 0, n2, g.0);
                    }
                }
            }
            rr.push_context(ctx)?;
            proof {
                if old(self).ahead(1).token@ == TokenView::RParen {
                    assert(self.ahead(0) == old(self).ahead(0int + 2));
                }
            }
        } else {
            proof {
                if hr {
                    assert(g.0 == 0);
                }
            }
        }
        let ghost s1 = *self;
        proof {
            if hr {
                assert(s1.shifted(*old(self), g.0));
                assert(s1.ahead(0) == old(self).ahead(0 + g.0));
            }
        }
        if self.next_is(Token::LBrace) {
            let rr = self.skip_brace(Token::LBrace, Token::RBrace);
            proof {
                if hr {
                    assert(g.1 > 0);
                    lemma_balanced_group_shift(*old(self), s1, g.0, 0, TokenView::LBrace, TokenView::RBrace, g.1);
                    if rr is Err {
                        assert forall|m: int| !#[trigger] unclosed_group(s1, TokenView::LBrace, TokenView::RBrace, 0, m) by {
                            lemma_balanced_not_unclosed(s1, TokenView::LBrace, TokenView::RBrace, 0, g.1, m);
                        }
                    } else {
                        let n2 = choose|x: int|
                            balanced_group(s1, TokenView::LBrace, TokenView::RBrace, 0, x) && #[trigger] self.shifted(s1, x);
                        lemma_balanced_group_unique(s1, TokenView::LBrace, TokenView::RBrace, 0, n2, g.1);
                        lemma_shifted_trans(*old(self), s1, *self, g.0, g.1);
                    }
                }
            }
            rr.push_context(ctx)?;
        } else {
            proof {
                if hr {
                    assert(g.1 == 0);
                }
            }
        }
        proof {
            if hr {
                assert forall|a: int, b: int| #[trigger] const_rest_at(*old(self), 0, a, b) implies a == g.0 && b == g.1 by {
                    lemma_const_rest_unique(*old(self), 0, a, b, g.0, g.1);
                }
            }
        }
        Ok(())
    }

    /// ```
    /// <enum_body> ::= "{" [<enum_val> {"," <enum_val>}] [";" <members>] "}"
    /// <enum_val> ::= IDENTIFIER [<skip_paren>] [<skip_brace>]
    /// ```
    /// Gives the names of the enum constants and the members that follow them.
    #[verifier::spinoff_prover]
    pub fn enum_body(&mut self, prefix: QualifiedName, classname: String) -> (r: ParseResult<(Vec<String>, TypeBody)>)
        requires
            old(self).wf(),
        ensures
            final(self).follows(*old(self)),
            r is Ok ==> final(self).remaining() < old(self).remaining(),
            r matches Ok(p) ==> forall|i: int|
                0 <= i < p.1.subtypes@.len() ==> is_child_name(
                    prefix@,
                    (#[trigger] p.1.subtypes@[i]).name@,
                ),
            r matches Ok(p) ==> (p.0@.len() == 0 <==> !(old(self).ahead(1).token@ is Identifier)),
            r matches Ok(p) ==> (p.0@.len() > 0 ==> old(self).ahead(1).token@ == TokenView::Identifier(
                p.0@[0]@,
            )),
            old(self).ahead(0).token@ != TokenView::LBrace ==> r is Err,
            old(self).ahead(0).token@ == TokenView::LBrace && old(self).ahead(1).token@ == TokenView::RBrace ==> (
            r matches Ok(p) && p.0@.len() == 0 && p.1.members@.len() == 0 && p.1.subtypes@.len() == 0
                && final(self).shifted(*old(self), 2)),
            old(self).ahead(0).token@ == TokenView::LBrace && old(self).ahead(1).token@ is Identifier && old(
                self,
            ).ahead(2).token@ == TokenView::RBrace ==> (r matches Ok(p) && p.0@.len() == 1 && old(self).ahead(
                1,
            ).token@ == TokenView::Identifier(p.0@[0]@) && p.1.members@.len() == 0 && p.1.subtypes@.len() == 0
                && final(self).shifted(*old(self), 3)),
            forall|cs: Seq<EnumConst>|
                #[trigger] enum_consts_at(*old(self), cs) ==> {
                    &&& r matches Ok(p)
                    &&& names_view(p.0@) == const_names(cs)
                    &&& p.1.members@.len() == 0
                    &&& p.1.subtypes@.len() == 0
                    &&& final(self).shifted(*old(self), consts_len(cs) + 1)
                },
            forall|cs: Seq<EnumConst>, its: Seq<BodyItem>|
                #[trigger] enum_consts_members_at(*old(self), cs, its) ==> {
                    &&& r matches Ok(p)
                    &&& names_view(p.0@) == const_names(cs)
                    &&& p.1.subtypes@.len() == item_nested(its).len()
                    &&& p.1.members@.len() == item_fields(its).len()
                    &&& forall|i: int|
                        0 <= i < item_fields(its).len() ==> {
                            &&& (#[trigger] p.1.members@[i]).name@ == item_fields(its)[i].2
                            &&& p.1.members@[i].member_kind->Property_reftype.name@ == item_fields(its)[i].0
                            &&& p.1.members@[i].member_kind->Property_arr_dim == item_fields(its)[i].1
                        }
                    &&& final(self).shifted(*old(self), consts_len(cs) + items_len(its) + 2)
                },
        decreases old(self).remaining(), 2nat,
    {
        let ghost h = exists|cs: Seq<EnumConst>| #[trigger] enum_consts_run(*old(self), cs);
        let ghost gc = choose|cs: Seq<EnumConst>| #[trigger] enum_consts_run(*old(self), cs);
        let ghost hm = exists|cs: Seq<EnumConst>, its: Seq<BodyItem>| #[trigger] enum_consts_members_at(*old(self), cs, its);
        let ghost gm: (Seq<EnumConst>, Seq<BodyItem>) = choose|cs: Seq<EnumConst>, its: Seq<BodyItem>|
            #[trigger] enum_consts_members_at(*old(self), cs, its);
        proof {
            if hm {
                assert(enum_consts_run(*old(self), gm.0));
                lemma_enum_consts_unique(*old(self), gm.0, gc);
            }
        }
        proof {
            if h {
                lemma_consts_take(*old(self), gc, 0);
                assert(gc.take(0) =~= Seq::<EnumConst>::empty());
            }
        }
        let ctx = ("enum_body", self.peek_next_token().addr);
        let open = self.get_next_token();
        if !token_eq(&open.token, &Token::LBrace) {
            let cur = self.get_current_token();
            return Err(
                ParseErrType::UnexpectedToken {
                    expected: "LBrace",
                    got: vec![cur.token.to_owned_token()],
                }.to_stack_parse_err(cur.addr, ctx),
            );
        }
        let ghost after_open = *self;
        assert(after_open.ahead(0) == old(self).ahead(0int + 1));
        let mut enum_vals: Vec<String> = Vec::new();
        let first = self.peek_next_token();
        match first.token {
            Token::Identifier(s) => {
                self.get_next_token();
                enum_vals.push(s.to_owned());
                assert(old(self).ahead(1).token@ == TokenView::Identifier(enum_vals@[0]@));
                let ghost s2 = *self;
                proof {
                    lemma_shifted_trans(*old(self), after_open, s2, 1, 1);
                    assert(s2.ahead(0) == old(self).ahead(0int + 2));
                }
                proof {
                    if h {
                        lemma_const_rest_shift(*old(self), s2, 2, 0, gc[0].1, gc[0].2);
                    }
                }
                self.skip_enum_val_rest(ctx)?;
                let ghost mid = *self;
                proof {
                    if h {
                        lemma_shifted_trans(*old(self), s2, mid, 2, gc[0].1 + gc[0].2);
                        lemma_consts_take(*old(self), gc, 0);
                        assert(gc.take(0) =~= Seq::<EnumConst>::empty());
                        assert(consts_len(gc.take(1)) == gc[0].1 + gc[0].2 + 2);
                        assert(names_view(enum_vals@) =~= const_names(gc.take(1)));
                        assert(mid.ahead(0) == old(self).ahead(0 + consts_len(gc.take(1))));
                        if gc.len() > 1 {
                            assert(old(self).ahead(consts_len(gc.take(1))).token@ == TokenView::Comma);
                        } else {
                            assert(gc.take(1) =~= gc);
                        }
                    }
                }
                while self.next_is(Token::Comma)
                    invariant
                        old(self).wf(),
                        after_open.follows(*old(self)),
                        after_open.remaining() < old(self).remaining(),
                        mid.follows(after_open),
                        self.follows(mid),
                        enum_vals@.len() >= 1,
                        h == exists|cs: Seq<EnumConst>| #[trigger] enum_consts_run(*old(self), cs),
                        h ==> enum_consts_run(*old(self), gc),
                        h ==> enum_vals@.len() <= gc.len(),
                        h ==> names_view(enum_vals@) == const_names(gc.take(enum_vals@.len() as int)),
                        h ==> self.shifted(*old(self), consts_len(gc.take(enum_vals@.len() as int))),
                        old(self).ahead(1).token@ == TokenView::Identifier(enum_vals@[0]@),
                        old(self).ahead(2).token@ == TokenView::RBrace ==> *self == mid && mid.ahead(0).token@
                            == TokenView::RBrace && enum_vals@.len() == 1 && mid.shifted(*old(self), 2),
                    decreases self.remaining(),
                {
                    let ghost k = enum_vals@.len() as int;
                    let ghost c0 = *self;
                    let ghost lk = consts_len(gc.take(k));
                    proof {
                        if h {
                            lemma_consts_take(*old(self), gc, k);
                            if k == gc.len() {
                                assert(gc.take(k) =~= gc);
                                assert(self.ahead(0) == old(self).ahead(0 + consts_len(gc)));
                            }
                            assert(self.ahead(0) == old(self).ahead(0 + lk));
                            assert(self.ahead(1) == old(self).ahead(1 + lk));
                        }
                    }
                    self.get_next_token();
                    let ghost c1 = *self;
                    let t = self.get_next_token();
                    let ghost before = names_view(enum_vals@);
                    match t.token {
                        Token::Identifier(s) => {
                            enum_vals.push(s.to_owned());
                            proof {
                                if h {
                                    lemma_shifted_trans(*old(self), c0, c1, lk, 1);
                                    lemma_shifted_trans(*old(self), c1, *self, lk + 1, 1);
                                    assert(names_view(enum_vals@) =~= before.push(s@));
                                    assert(names_view(enum_vals@) =~= const_names(gc.take(k + 1)));
                                    lemma_const_rest_shift(*old(self), *self, lk + 2, 0, gc[k].1, gc[k].2);
                                }
                            }
                        },
                        _ => {
                            let cur = self.get_current_token();
                            return Err(
                                ParseErrType::UnexpectedToken {
                                    expected: "IDENTIFIER",
                                    got: vec![cur.token.to_owned_token()],
                                }.to_stack_parse_err(cur.addr, ctx),
                            );
                        },
                    }
                    let ghost c2 = *self;
                    self.skip_enum_val_rest(ctx)?;
                    proof {
                        if h {
                            lemma_shifted_trans(*old(self), c2, *self, lk + 2, gc[k].1 + gc[k].2);
                            assert(self.ahead(0) == old(self).ahead(0 + consts_len(gc.take(k + 1))));
                            if k + 1 < gc.len() {
                                assert(old(self).ahead(consts_len(gc.take(k + 1))).token@ == TokenView::Comma);
                            } else {
                                assert(gc.take(k + 1) =~= gc);
                            }
                        }
                    }
                }
            },
            _ => {},
        }
        let ghost s9 = *self;
        proof {
            if h {
                let n = enum_vals@.len() as int;
                if n < gc.len() {
                    assert(self.ahead(0) == old(self).ahead(0 + consts_len(gc.take(n))));
                    assert(old(self).ahead(consts_len(gc.take(n))).token@ == TokenView::Comma);
                }
                assert(gc.take(gc.len() as int) =~= gc);
                assert(self.ahead(0) == old(self).ahead(0 + consts_len(gc)));
                assert forall|cs: Seq<EnumConst>| #[trigger] enum_consts_at(*old(self), cs) implies cs == gc by {
                    lemma_enum_consts_unique(*old(self), cs, gc);
                }
            }
        }
        let t = self.get_next_token();
        match t.token {
            Token::RBrace => {
                proof {
                    if old(self).ahead(1).token@ == TokenView::RBrace {
                        lemma_shifted_trans(*old(self), after_open, *self, 1, 1);
                    }
                    if old(self).ahead(1).token@ is Identifier && old(self).ahead(2).token@ == TokenView::RBrace {
                        lemma_shifted_trans(*old(self), s9, *self, 2, 1);
                    }
                    if h {
                        lemma_consts_take(*old(self), gc, gc.len() as int);
                        assert(gc.take(gc.len() as int) =~= gc);
                        lemma_shifted_trans(*old(self), s9, *self, consts_len(gc), 1);
                        assert forall|cs: Seq<EnumConst>| #[trigger] enum_consts_at(*old(self), cs) implies cs == gc by {
                            lemma_enum_consts_unique(*old(self), cs, gc);
                        }
                    }
                }
                Ok((enum_vals, TypeBody { members: Vec::new(), subtypes: Vec::new() }))
            },
            Token::Semicolon => {
                let ghost s10 = *self;
                proof {
                    if hm {
                        lemma_consts_take(*old(self), gc, gc.len() as int);
                        assert(gc.take(gc.len() as int) =~= gc);
                        lemma_shifted_trans(*old(self), s9, s10, consts_len(gc), 1);
                        lemma_items_shift(*old(self), s10, consts_len(gc) + 1, gm.1);
                        assert(s10.ahead(items_len(gm.1)) == old(self).ahead(items_len(gm.1) + (consts_len(gc) + 1)));
                    }
                }
                let res = self.members(prefix, classname).push_context(ctx)?;
                let ghost s11 = *self;
                let close = self.get_next_token();
                if !token_eq(&close.token, &Token::RBrace) {
                    let cur = self.get_current_token();
                    return Err(
                        ParseErrType::UnexpectedToken {
                            expected: "LBrace",
                            got: vec![cur.token.to_owned_token()],
                        }.to_stack_parse_err(cur.addr, ctx),
                    );
                }
                proof {
                    if hm {
                        lemma_shifted_trans(*old(self), s10, s11, consts_len(gc) + 1, items_len(gm.1));
                        lemma_shifted_trans(*old(self), s11, *self, consts_len(gc) + 1 + items_len(gm.1), 1);
                        assert forall|cs: Seq<EnumConst>, its: Seq<BodyItem>|
                            #[trigger] enum_consts_members_at(*old(self), cs, its) implies cs == gm.0 && its == gm.1 by {
                            lemma_enum_consts_unique(*old(self), cs, gc);
                            lemma_items_shift(*old(self), s10, consts_len(gc) + 1, its);
                            assert(s10.ahead(items_len(its)) == old(self).ahead(items_len(its) + (consts_len(gc) + 1)));
                            lemma_items_unique(s10, its, gm.1);
                        }
                    }
                }
                Ok((enum_vals, res))
            },
            _ => {
                let cur = self.get_current_token();
                Err(
                    ParseErrType::UnexpectedToken {
                        expected: "RBrace | Semicolon",
                        got: vec![t.token.to_owned_token()],
                    }.to_stack_parse_err(cur.addr, ctx),
                )
            },
        }
    }
}

} // verus!
