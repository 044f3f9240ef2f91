use vstd::prelude::*;

use crate::parser::parser::{empty_decl_at, lemma_shifted_trans, lemma_spells_name_shift, spells_name, Parser};
use crate::parser::token::{token_eq, Token, TokenView};
use crate::parser::nonterminals::type_body::empty_constructor_at;
use crate::types::{
    is_child_name, lemma_child_name, GenericParseResult, MemberKind, Modifiers, ParseErrType,
    ParseResult, QualifiedName, Type, TypeBody, TypeKind,
};

verus! {

impl<'a> Parser<'a> {
    /// ```
    /// <interface_decl> ::= "interface" IDENTIFIER
    ///         <type_param_list>
    ///         ["extends" <ref_type> {"," <ref_type>}]
    ///         ["permits" <ref_type> {"," <ref_type>}]
    ///         <interface_body>
    /// ```
    /// The interface is named `prefix` followed by its identifier, with
    /// default access and no annotations; the caller fills those in.
    pub fn interface_decl(&mut self, prefix: QualifiedName) -> (r: ParseResult<Type>)
        requires
            old(self).wf(),
        ensures
            final(self).follows(*old(self)),
            r matches Ok(t) ==> {
                &&& old(self).ahead(0).token@ == TokenView::Keyword("interface"@)
                &&& old(self).ahead(1).token@ == TokenView::Identifier(t.name@.last())
                &&& is_child_name(prefix@, t.name@)
                &&& t.type_kind is Interface
                &&& t.modifiers.modifiers@.len() == 0
                &&& t.modifiers.access_modifier == crate::types::AccessModifier::Default
                &&& t.annotation@.len() == 0
                &&& forall|i: int|
                    0 <= i < t.body.subtypes@.len() ==> is_child_name(
                        t.name@,
                        (#[trigger] t.body.subtypes@[i]).name@,
                    )
                &&& forall|i: int|
                    0 <= i < t.body.members@.len() ==> !((#[trigger] t.body.members@[i]).member_kind is Constructor)
                &&& final(self).remaining() < old(self).remaining()
            },
            r matches Ok(t) ==> (old(self).ahead(2).token@ != TokenView::LessThan ==> {
                &&& t.type_params.0@.len() == 0
                &&& (t.type_kind->extend_interfaces@.len() > 0 <==> old(self).ahead(2).token@
                    == TokenView::Keyword("extends"@))
                &&& (t.type_kind->extend_interfaces@.len() > 0 && old(self).ahead(3).token@ != TokenView::At
                    ==> spells_name(*old(self), 3, t.type_kind->extend_interfaces@[0].name@))
            }),
            old(self).ahead(0).token@ != TokenView::Keyword("interface"@) ==> r is Err,
            empty_decl_at(*old(self), "interface"@) ==> (r matches Ok(t) && t.body.members@.len() == 0
                && t.body.subtypes@.len() == 0 && t.type_params.0@.len() == 0
                && t.type_kind->extend_interfaces@.len() == 0 && final(self).shifted(*old(self), 4)),
        decreases old(self).remaining(), 1nat,
    {
        let ctx = ("interface_decl", self.peek_next_token().addr);
        // "interface" IDENTIFIER <type_param_list>
        let kw = self.get_next_token();
        if !token_eq(&kw.token, &Token::Keyword("interface")) {
            let cur = self.get_current_token();
            return Err(
                ParseErrType::UnexpectedToken {
                    expected: "interface",
                    got: vec![cur.token.to_owned_token()],
                }.to_stack_parse_err(cur.addr, ctx),
            );
        }
        let ghost s0 = *self;
        let t = self.get_next_token();
        let id = match t.token {
            Token::Identifier(s) => s,
            _ => {
                let cur = self.get_current_token();
                return Err(
                    ParseErrType::UnexpectedToken {
                        expected: "IDENTIFIER",
                        got: vec![cur.token.to_owned_token()],
                    }.to_stack_parse_err(cur.addr, ctx),
                );
            },
        };
        let name = prefix.child(id);
        proof {
            lemma_child_name(prefix@, id@);
        }
        let ghost s2 = *self;
        let type_params = self.type_param_list().push_context(ctx)?;
        let ghost s2b = *self;
        // ["extends" <ref_type> {"," <ref_type>}]
        let extend_interfaces = self.ref_type_list_after(Token::Keyword("extends"), ctx)?;
        proof {
            lemma_shifted_trans(*old(self), s0, s2, 1, 1);
            if old(self).ahead(2).token@ != TokenView::LessThan {
                assert(s2.ahead(0) == old(self).ahead(0int + 2));
                assert(s2.ahead(1) == old(self).ahead(1int + 2));
                if extend_interfaces@.len() > 0 && old(self).ahead(3).token@ != TokenView::At {
                    lemma_spells_name_shift(*old(self), s2b, 2, 1, extend_interfaces@[0].name@);
                }
            }
        }
        // ["permits" <ref_type> {"," <ref_type>}]
        self.ref_type_list_after(Token::Keyword("permits"), ctx)?;
        let ghost s5 = *self;
        proof {
            if empty_decl_at(*old(self), "interface"@) {
                lemma_shifted_trans(*old(self), s0, s2, 1, 1);
                assert(s5 == s2);
                assert(s5.ahead(0) == old(self).ahead(0int + 2));
                assert(s5.ahead(1) == old(self).ahead(1int + 2));
            }
        }
        let body = self.interface_body(name.duplicate(), id.to_owned()).push_context(ctx)?;
        proof {
            if empty_decl_at(*old(self), "interface"@) {
                lemma_shifted_trans(*old(self), s5, *self, 2, 2);
            }
        }
        Ok(
            Type {
                name,
                body,
                type_kind: TypeKind::Interface { extend_interfaces },
                annotation: Vec::new(),
                modifiers: Modifiers::default_access(),
                type_params,
            },
        )
    }

    /// `"{" <members> "}"`, where no member may be a constructor.
    #[verifier::loop_isolation(false)]
    pub fn interface_body(&mut self, prefix: QualifiedName, classname: String) -> (r: ParseResult<TypeBody>)
        requires
            old(self).wf(),
        ensures
            final(self).follows(*old(self)),
            r is Ok ==> final(self).remaining() < old(self).remaining(),
            r matches Ok(b) ==> forall|i: int|
                0 <= i < b.subtypes@.len() ==> is_child_name(
                    prefix@,
                    (#[trigger] b.subtypes@[i]).name@,
                ),
            r matches Ok(b) ==> forall|i: int|
                0 <= i < b.members@.len() ==> !((#[trigger] b.members@[i]).member_kind is Constructor),
            old(self).ahead(0).token@ != TokenView::LBrace ==> r is Err,
            old(self).ahead(0).token@ == TokenView::LBrace && old(self).ahead(1).token@ == TokenView::RBrace ==> (
            r matches Ok(b) && b.members@.len() == 0 && b.subtypes@.len() == 0 && final(self).shifted(*old(self), 2)),
            old(self).ahead(0).token@ == TokenView::LBrace && empty_constructor_at(
                *old(self),
                1,
                classname@,
            ) && old(self).ahead(6).token@ == TokenView::RBrace ==> (r matches Err(e) && e.err
                == ParseErrType::SemanticError("Constructor in interface")),
        decreases old(self).remaining(), 2nat,
    {
        let ctx = ("interface_body", self.peek_next_token().addr);
        // typical "{" <members> "}"
        let open = self.get_next_token();
        if !token_eq(&open.token, &Token::LBrace) {
            let cur = self.get_current_token();
            return Err(
                ParseErrType::UnexpectedToken {
                    expected: "LBrace",
                    got: vec![cur.token.to_owned_token()],
                }.to_stack_parse_err(cur.addr, ctx),
            );
        }
        let ghost s1 = *self;
        assert(s1.ahead(0) == old(self).ahead(0int + 1));
        let ghost hcx = empty_constructor_at(*old(self), 1, classname@) && old(self).ahead(6).token@ == TokenView::RBrace;
        proof {
            if hcx {
                assert(s1.ahead(1) == old(self).ahead(1int + 1));
                assert(s1.ahead(2) == old(self).ahead(2int + 1));
                assert(s1.ahead(3) == old(self).ahead(3int + 1));
                assert(s1.ahead(4) == old(self).ahead(4int + 1));
                assert(s1.ahead(5) == old(self).ahead(5int + 1));
            }
        }
        let body = self.members(prefix, classname).push_context(ctx)?;
        proof {
            if hcx {
                assert(self.ahead(0) == s1.ahead(0int + 5));
            }
        }
        let ghost s2 = *self;
        let close = self.get_next_token();
        proof {
            if old(self).ahead(1).token@ == TokenView::RBrace {
                lemma_shifted_trans(*old(self), s1, *self, 1, 1);
            }
        }
        if !token_eq(&close.token, &Token::RBrace) {
            let cur = self.get_current_token();
            return Err(
                ParseErrType::UnexpectedToken {
                    expected: "RBrace",
                    got: vec![cur.token.to_owned_token()],
                }.to_stack_parse_err(cur.addr, ctx),
            );
        }
        // no constructor in an interface
        let mut i: usize = 0;
        while i < body.members.len()
            invariant
                i <= body.members@.len(),
                forall|k: int| 0 <= k < i ==> !((#[trigger] body.members@[k]).member_kind is Constructor),
            decreases body.members@.len() - i,
        {
            match &body.members[i].member_kind {
                MemberKind::Constructor { .. } => {
                    return Err(
                        ParseErrType::SemanticError("Constructor in interface").to_stack_parse_err(
                            ctx.1,
                            ctx,
                        ),
                    );
                },
                _ => {},
            }
            i = i + 1;
        }
        Ok(body)
    }
}

} // verus!
