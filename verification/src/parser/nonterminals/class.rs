use vstd::prelude::*;

use crate::parser::parser::{empty_decl_at, lemma_shifted_trans, lemma_spells_name_shift, spells_name, Parser};
use crate::parser::nonterminals::util::{
    lemma_plain_ref_type_shift, lemma_plain_ref_type_unique, plain_ref_type_at, plain_ref_type_len,
};
use crate::parser::nonterminals::type_body::{
    item_nested, item_fields, items_at, items_from, items_len, lemma_items_shift, lemma_items_unique,
    lemma_plain_fields_shift, lemma_plain_fields_take, plain_fields_at, plain_fields_len, BodyItem, PlainField,
};
use crate::parser::token::{Token, TokenView};
use crate::types::{
    is_child_name, lemma_child_name, GenericParseResult, Modifiers, ParseResult, QualifiedName,
    RefType, Type, TypeKind,
};

verus! {

/// A reference type written with plain tokens: its name and array
/// dimensions.
pub type PlainType = (Seq<Seq<char>>, int);

/// How many tokens the plain types `ts` take, each with the `,` (or other
/// token) after it.
pub open spec fn plain_types_len(ts: Seq<PlainType>) -> int
    decreases ts.len(),
{
    if ts.len() == 0 {
        0
    } else {
        plain_types_len(ts.drop_last()) + plain_ref_type_len(ts.last().0, ts.last().1) + 1
    }
}

/// From position `at` on, the tokens give the plain types `ts` one after
/// another, one token apart; the separators are not looked at.
pub open spec fn plain_types_spelled(p: Parser, at: int, ts: Seq<PlainType>) -> bool
    decreases ts.len(),
{
    if ts.len() == 0 {
        true
    } else {
        plain_types_spelled(p, at, ts.drop_last()) && plain_ref_type_at(
            p,
            at + plain_types_len(ts.drop_last()),
            ts.last().0,
            ts.last().1,
        )
    }
}

/// From position `at` on, the tokens are the plain types `ts` (at least
/// one) separated by `,`, with no `,` after the last.
pub open spec fn plain_type_list_at(p: Parser, at: int, ts: Seq<PlainType>) -> bool {
    &&& ts.len() >= 1
    &&& plain_types_spelled(p, at, ts)
    &&& forall|i: int| 1 <= i < ts.len() ==> p.ahead(at + #[trigger] plain_types_len(ts.take(i)) - 1).token@ == TokenView::Comma
    &&& p.ahead(at + plain_types_len(ts) - 1).token@ != TokenView::Comma
}

/// Every prefix of spelled plain types is spelled, and the next type comes
/// right after it.
pub proof fn lemma_plain_types_take(p: Parser, at: int, ts: Seq<PlainType>, k: int)
    requires
        plain_types_spelled(p, at, ts),
        0 <= k <= ts.len(),
    ensures
        plain_types_spelled(p, at, ts.take(k)),
        plain_types_len(ts.take(k)) >= 0,
        k < ts.len() ==> plain_ref_type_at(p, at + plain_types_len(ts.take(k)), ts[k].0, ts[k].1),
        k < ts.len() ==> plain_types_len(ts.take(k + 1)) == plain_types_len(ts.take(k)) + plain_ref_type_len(
            ts[k].0,
            ts[k].1,
        ) + 1,
    decreases ts.len(),
{
    if k == ts.len() {
        assert(ts.take(k) =~= ts);
        if ts.len() > 0 {
            lemma_plain_types_take(p, at, ts.drop_last(), k - 1);
            assert(ts.drop_last().take(k - 1) =~= ts.drop_last());
            assert(ts.last().0.len() >= 1 && 0 <= ts.last().1);
        }
    } else {
        lemma_plain_types_take(p, at, ts.drop_last(), k);
        assert(ts.take(k) =~= ts.drop_last().take(k));
        if k + 1 < ts.len() {
            lemma_plain_types_take(p, at, ts.drop_last(), k + 1);
            assert(ts.take(k + 1) =~= ts.drop_last().take(k + 1));
        } else {
            assert(ts.take(k + 1) =~= ts);
            assert(ts.drop_last() =~= ts.take(k));
        }
    }
}

/// Two runs of spelled plain types agree on their common length.
pub proof fn lemma_plain_types_prefix(p: Parser, at: int, a: Seq<PlainType>, b: Seq<PlainType>)
    requires
        plain_types_spelled(p, at, a),
        plain_types_spelled(p, at, b),
        a.len() <= b.len(),
    ensures
        a == b.take(a.len() as int),
    decreases a.len(),
{
    if a.len() == 0 {
        assert(a =~= b.take(0));
    } else {
        let n = a.len() - 1;
        lemma_plain_types_prefix(p, at, a.drop_last(), b);
        lemma_plain_types_take(p, at, b, n);
        let f = a.last();
        let g = b[n];
        lemma_plain_ref_type_unique(p, at + plain_types_len(a.drop_last()), f.0, f.1, g.0, g.1);
        assert(a =~= b.take(a.len() as int));
    }
}

/// A list of plain types is determined by its tokens.
pub proof fn lemma_plain_type_list_unique(p: Parser, at: int, a: Seq<PlainType>, b: Seq<PlainType>)
    requires
        plain_type_list_at(p, at, a),
        plain_type_list_at(p, at, b),
    ensures
        a == b,
{
    if a.len() < b.len() {
        lemma_plain_types_prefix(p, at, a, b);
        assert(p.ahead(at + plain_types_len(b.take(a.len() as int)) - 1).token@ == TokenView::Comma);
    } else if b.len() < a.len() {
        lemma_plain_types_prefix(p, at, b, a);
        assert(p.ahead(at + plain_types_len(a.take(b.len() as int)) - 1).token@ == TokenView::Comma);
    } else {
        lemma_plain_types_prefix(p, at, a, b);
        assert(b.take(a.len() as int) =~= b);
    }
}

/// A list of plain types reads the same `off` tokens later.
pub proof fn lemma_plain_type_list_shift(p: Parser, s: Parser, off: int, at: int, ts: Seq<PlainType>)
    requires
        0 <= off,
        0 <= at,
        s.shifted(p, off),
        plain_type_list_at(p, at + off, ts),
    ensures
        plain_type_list_at(s, at, ts),
{
    lemma_plain_types_spelled_shift(p, s, off, at, ts);
    lemma_plain_types_take(p, at + off, ts, ts.len() as int);
    assert(ts.take(ts.len() as int) =~= ts);
    assert forall|i: int| 1 <= i < ts.len() implies s.ahead(at + #[trigger] plain_types_len(ts.take(i)) - 1).token@
        == TokenView::Comma by {
        lemma_plain_types_take(p, at + off, ts, i - 1);
        assert(s.ahead(at + plain_types_len(ts.take(i)) - 1) == p.ahead(at + plain_types_len(ts.take(i)) - 1 + off));
    }
    lemma_plain_types_take(p, at + off, ts, ts.len() - 1);
    assert(s.ahead(at + plain_types_len(ts) - 1) == p.ahead(at + plain_types_len(ts) - 1 + off));
}

/// Spelled plain types read the same `off` tokens later.
pub proof fn lemma_plain_types_spelled_shift(p: Parser, s: Parser, off: int, at: int, ts: Seq<PlainType>)
    requires
        0 <= off,
        0 <= at,
        s.shifted(p, off),
        plain_types_spelled(p, at + off, ts),
    ensures
        plain_types_spelled(s, at, ts),
    decreases ts.len(),
{
    if ts.len() > 0 {
        lemma_plain_types_spelled_shift(p, s, off, at, ts.drop_last());
        lemma_plain_types_take(p, at + off, ts, ts.len() - 1);
        assert(ts.take(ts.len() - 1) =~= ts.drop_last());
        lemma_plain_ref_type_shift(p, s, off, at + plain_types_len(ts.drop_last()), ts.last().0, ts.last().1);
    }
}

/// The tokens are `class` and a name; then, where `ts` is not empty,
/// `implements` and the plain types `ts`; then `{`, the body pieces `its`
/// and `}`.
pub open spec fn plain_class_at(p: Parser, ts: Seq<PlainType>, its: Seq<BodyItem>) -> bool {
    let b = 2 + plain_types_len(ts);
    &&& p.ahead(0).token@ == TokenView::Keyword("class"@)
    &&& p.ahead(1).token@ is Identifier
    &&& (ts.len() > 0 ==> p.ahead(2).token@ == TokenView::Keyword("implements"@) && plain_type_list_at(p, 3, ts))
    &&& p.ahead(b).token@ == TokenView::LBrace
    &&& items_from(p, b + 1, its)
    &&& p.ahead(b + 1 + items_len(its)).token@ == TokenView::RBrace
}

impl<'a> Parser<'a> {
    /// ```
    /// <class_decl> ::= "class" IDENTIFIER <type_param_list>
    ///     ["extends" <ref_type>]
    ///     ["implements" <ref_type> {"," <ref_type>}]
    ///     ["permits" <ref_type> {"," <ref_type>}]
    ///     <class_body>
    /// ```
    /// The class is named `prefix` followed by its identifier, with default
    /// access and no annotations; the caller fills those in.
    pub fn class_decl(&mut self, prefix: QualifiedName) -> (r: ParseResult<Type>)
        requires
            old(self).wf(),
        ensures
            final(self).follows(*old(self)),
            r matches Ok(t) ==> {
                &&& old(self).ahead(0).token@ == TokenView::Keyword("class"@)
                &&& old(self).ahead(1).token@ == TokenView::Identifier(t.name@.last())
                &&& is_child_name(prefix@, t.name@)
                &&& t.type_kind is Class
                &&& t.modifiers.modifiers@.len() == 0
                &&& t.modifiers.access_modifier == crate::types::AccessModifier::Default
                &&& t.annotation@.len() == 0
                &&& forall|i: int|
                    0 <= i < t.body.subtypes@.len() ==> is_child_name(
                        t.name@,
                        (#[trigger] t.body.subtypes@[i]).name@,
                    )
                &&& final(self).remaining() < old(self).remaining()
            },
            r matches Ok(t) ==> (old(self).ahead(2).token@ != TokenView::LessThan ==> {
                &&& t.type_params.0@.len() == 0
                &&& (t.type_kind->inherit_class is Some <==> old(self).ahead(2).token@ == TokenView::Keyword(
                    "extends"@,
                ))
                &&& (t.type_kind->inherit_class matches Some(c) ==> (old(self).ahead(3).token@ != TokenView::At
                    ==> spells_name(*old(self), 3, c.name@)))
                &&& (t.type_kind->inherit_class is None ==> (t.type_kind->Class_implement_interfaces@.len() > 0
                    <==> old(self).ahead(2).token@ == TokenView::Keyword("implements"@)))
                &&& (t.type_kind->inherit_class is None && t.type_kind->Class_implement_interfaces@.len() > 0
                    && old(self).ahead(3).token@ != TokenView::At ==> spells_name(
                    *old(self),
                    3,
                    t.type_kind->Class_implement_interfaces@[0].name@,
                ))
            }),
            r matches Ok(t) ==> (old(self).ahead(2).token@ == TokenView::LessThan && old(self).ahead(3).token@ is Identifier
                && old(self).ahead(4).token@ == TokenView::GreaterThan ==> {
                &&& t.type_params.0@.len() == 1
                &&& old(self).ahead(3).token@ == TokenView::Identifier(t.type_params.0@[0].name@)
                &&& (t.type_kind->inherit_class is Some <==> old(self).ahead(5).token@ == TokenView::Keyword(
                    "extends"@,
                ))
                &&& (t.type_kind->inherit_class matches Some(c) ==> (old(self).ahead(6).token@ != TokenView::At
                    ==> spells_name(*old(self), 6, c.name@)))
                &&& (t.type_kind->inherit_class is None ==> (t.type_kind->Class_implement_interfaces@.len() > 0
                    <==> old(self).ahead(5).token@ == TokenView::Keyword("implements"@)))
                &&& (t.type_kind->inherit_class is None && t.type_kind->Class_implement_interfaces@.len() > 0
                    && old(self).ahead(6).token@ != TokenView::At ==> spells_name(
                    *old(self),
                    6,
                    t.type_kind->Class_implement_interfaces@[0].name@,
                ))
            }),
            old(self).ahead(0).token@ != TokenView::Keyword("class"@) ==> r is Err,
            empty_decl_at(*old(self), "class"@) ==> (r matches Ok(t) && t.body.members@.len() == 0
                && t.body.subtypes@.len() == 0 && t.type_params.0@.len() == 0 && t.type_kind->inherit_class is None
                && t.type_kind->Class_implement_interfaces@.len() == 0 && final(self).shifted(*old(self), 4)),
            forall|fs: Seq<PlainField>|
                #[trigger] plain_fields_at(*old(self), 3, fs) && old(self).ahead(0).token@ == TokenView::Keyword(
                    "class"@,
                ) && old(self).ahead(1).token@ is Identifier && old(self).ahead(2).token@ == TokenView::LBrace
                    && old(self).ahead(3 + plain_fields_len(fs)).token@ == TokenView::RBrace ==> {
                    &&& r matches Ok(t)
                    &&& t.type_params.0@.len() == 0
                    &&& t.type_kind->inherit_class is None
                    &&& t.type_kind->Class_implement_interfaces@.len() == 0
                    &&& t.body.subtypes@.len() == 0
                    &&& t.body.members@.len() == fs.len()
                    &&& forall|i: int|
                        0 <= i < fs.len() ==> {
                            &&& (#[trigger] t.body.members@[i]).name@ == fs[i].2
                            &&& t.body.members@[i].member_kind->Property_reftype.name@ == fs[i].0
                            &&& t.body.members@[i].member_kind->Property_arr_dim == fs[i].1
                        }
                    &&& final(self).shifted(*old(self), plain_fields_len(fs) + 4)
                },
            forall|ts: Seq<PlainType>, its: Seq<BodyItem>|
                #[trigger] plain_class_at(*old(self), ts, its) ==> {
                    &&& r matches Ok(t)
                    &&& t.type_params.0@.len() == 0
                    &&& t.type_kind->inherit_class is None
                    &&& t.type_kind->Class_implement_interfaces@.len() == ts.len()
                    &&& forall|i: int|
                        0 <= i < ts.len() ==> {
                            &&& (#[trigger] t.type_kind->Class_implement_interfaces@[i]).name@ == ts[i].0
                            &&& t.type_kind->Class_implement_interfaces@[i].arr_dim == ts[i].1
                            &&& t.type_kind->Class_implement_interfaces@[i].type_arg_list.0@.len() == 0
                        }
                    &&& t.body.subtypes@.len() == item_nested(its).len()
                    &&& t.body.members@.len() == item_fields(its).len()
                    &&& forall|i: int|
                        0 <= i < item_fields(its).len() ==> {
                            &&& (#[trigger] t.body.members@[i]).name@ == item_fields(its)[i].2
                            &&& t.body.members@[i].member_kind->Property_reftype.name@ == item_fields(its)[i].0
                            &&& t.body.members@[i].member_kind->Property_arr_dim == item_fields(its)[i].1
                        }
                    &&& final(self).shifted(*old(self), plain_types_len(ts) + items_len(its) + 4)
                },
        decreases old(self).remaining(), 1nat,
    {
        let ghost hc = old(self).ahead(0).token@ == TokenView::Keyword("class"@) && old(self).ahead(1).token@ is Identifier
            && old(self).ahead(2).token@ == TokenView::LBrace;
        let ghost hp = exists|ts: Seq<PlainType>, its: Seq<BodyItem>| #[trigger] plain_class_at(*old(self), ts, its);
        let ghost gp: (Seq<PlainType>, Seq<BodyItem>) = choose|ts: Seq<PlainType>, its: Seq<BodyItem>|
            #[trigger] plain_class_at(*old(self), ts, its);
        let ghost gts = gp.0;
        let ghost gits = gp.1;
        let ghost gb = 2 + plain_types_len(gts);
        proof {
            reveal_strlit("extends");
            reveal_strlit("implements");
            reveal_strlit("permits");
            if hp {
                if gts.len() > 0 {
                    lemma_plain_types_take(*old(self), 3, gts, gts.len() as int);
                    assert(gts.take(gts.len() as int) =~= gts);
                }
                assert(plain_types_len(gts) >= 0);
                assert(old(self).ahead(2).token@ != TokenView::LessThan);
                assert("implements"@.len() != "extends"@.len());
                assert(old(self).ahead(2).token@ != TokenView::Keyword("extends"@));
            }
        }
        let ctx = ("class_decl", self.peek_next_token().addr);
        // "class"
        let kw = self.get_next_token();
        if !crate::parser::token::token_eq(&kw.token, &Token::Keyword("class")) {
            let cur = self.get_current_token();
            return Err(
                crate::types::ParseErrType::UnexpectedToken {
                    expected: "class",
                    got: vec![cur.token.to_owned_token()],
                }.to_stack_parse_err(cur.addr, ctx),
            );
        }
        let ghost s1 = *self;
        // IDENTIFIER
        let id = self.consume_identifier("IDENTIFIER", ctx)?;
        let name = prefix.child(id);
        proof {
            lemma_child_name(prefix@, id@);
            lemma_shifted_trans(*old(self), s1, *self, 1, 1);
        }
        let ghost s2 = *self;
        // <type_param_list>
        let type_params = self.type_param_list().push_context(ctx)?;
        assert(s2.ahead(0) == old(self).ahead(0int + 2));
        let ghost ht = old(self).ahead(2).token@ == TokenView::LessThan && old(self).ahead(3).token@ is Identifier
            && old(self).ahead(4).token@ == TokenView::GreaterThan;
        let ghost s2b = *self;
        proof {
            if ht {
                assert(s2.ahead(1) == old(self).ahead(1int + 2));
                assert(s2.ahead(2) == old(self).ahead(2int + 2));
                lemma_shifted_trans(*old(self), s2, s2b, 2, 3);
                assert(s2b.ahead(0) == old(self).ahead(0int + 5));
                assert(s2b.ahead(1) == old(self).ahead(1int + 5));
            }
        }
        // ["extends" <ref_type>]
        let inherits_from: Option<RefType> = if self.next_is(Token::Keyword("extends")) {
            self.get_next_token();
            let ghost s3 = *self;
            let c = self.ref_type().push_context(ctx)?;
            proof {
                if old(self).ahead(2).token@ != TokenView::LessThan {
                    lemma_shifted_trans(*old(self), s2, s3, 2, 1);
                    assert(s3.ahead(0) == old(self).ahead(0int + 3));
                    if old(self).ahead(3).token@ != TokenView::At {
                        lemma_spells_name_shift(*old(self), s3, 3, 0, c.name@);
                    }
                }
                if ht {
                    lemma_shifted_trans(*old(self), s2b, s3, 5, 1);
                    assert(s3.ahead(0) == old(self).ahead(0int + 6));
                    if old(self).ahead(6).token@ != TokenView::At {
                        lemma_spells_name_shift(*old(self), s3, 6, 0, c.name@);
                    }
                }
            }
            Some(c)
        } else {
            None
        };
        let ghost s4 = *self;
        proof {
            if hp {
                assert(s4 == s2);
                assert(s4.ahead(0) == old(self).ahead(0int + 2));
                if gts.len() > 0 {
                    lemma_plain_type_list_shift(*old(self), s4, 2, 1, gts);
                }
            }
        }
        // ["implements" <ref_type> {"," <ref_type>}]
        let implement_interfaces = self.ref_type_list_after(Token::Keyword("implements"), ctx)?;
        let ghost s4b = *self;
        proof {
            if hp {
                if gts.len() > 0 {
                    lemma_shifted_trans(*old(self), s4, s4b, 2, plain_types_len(gts));
                } else {
                    assert(s4b == s4);
                }
                assert(s4b.shifted(*old(self), gb));
                assert(s4b.ahead(0) == old(self).ahead(0 + gb));
            }
        }
        proof {
            if old(self).ahead(2).token@ != TokenView::LessThan && inherits_from is None {
                assert(s4.ahead(0) == old(self).ahead(0int + 2));
                assert(s4.ahead(1) == old(self).ahead(1int + 2));
                if implement_interfaces@.len() > 0 && old(self).ahead(3).token@ != TokenView::At {
                    lemma_spells_name_shift(*old(self), s4, 2, 1, implement_interfaces@[0].name@);
                }
            }
            if ht && inherits_from is None {
                assert(s4 == s2b);
                assert(s4.ahead(0) == old(self).ahead(0int + 5));
                assert(s4.ahead(1) == old(self).ahead(1int + 5));
                if implement_interfaces@.len() > 0 && old(self).ahead(6).token@ != TokenView::At {
                    lemma_spells_name_shift(*old(self), s4, 5, 1, implement_interfaces@[0].name@);
                }
            }
        }
        // ["permits" <ref_type> {"," <ref_type>}]
        self.ref_type_list_after(Token::Keyword("permits"), ctx)?;
        let type_kind = TypeKind::Class { inherit_class: inherits_from, implement_interfaces };
        // <class_body>
        let ghost s5 = *self;
        proof {
            if hc {
                assert(s5 == s2);
                assert(s5.ahead(0) == old(self).ahead(0int + 2));
            }
        }
        self.consume_token(Token::LBrace, "LBrace", ctx)?;
        let ghost s6 = *self;
        proof {
            if hp {
                assert(s5 == s4b);
                lemma_shifted_trans(*old(self), s5, s6, gb, 1);
                lemma_items_shift(*old(self), s6, gb + 1, gits);
                assert(s6.ahead(items_len(gits)) == old(self).ahead(items_len(gits) + (gb + 1)));
            }
            if hc {
                lemma_shifted_trans(*old(self), s5, s6, 2, 1);
                assert(s6.ahead(0) == old(self).ahead(0int + 3));
                assert forall|fs: Seq<PlainField>|
                    #[trigger] plain_fields_at(*old(self), 3, fs) && old(self).ahead(3 + plain_fields_len(fs)).token@
                        == TokenView::RBrace implies plain_fields_at(s6, 0, fs) && s6.ahead(plain_fields_len(fs)).token@
                        == TokenView::RBrace by {
                    lemma_plain_fields_shift(*old(self), s6, 3, fs);
                    lemma_plain_fields_take(*old(self), 3, fs, fs.len() as int);
                    assert(fs.take(fs.len() as int) =~= fs);
                    assert(s6.ahead(plain_fields_len(fs)) == old(self).ahead(plain_fields_len(fs) + 3));
                }
            }
        }
        let body = self.members(name.duplicate(), id.to_owned()).push_context(ctx)?;
        let ghost s7 = *self;
        self.consume_token(Token::RBrace, "RBrace", ctx)?;
        proof {
            if hp {
                lemma_shifted_trans(*old(self), s6, s7, gb + 1, items_len(gits));
                lemma_shifted_trans(*old(self), s7, *self, gb + 1 + items_len(gits), 1);
                assert forall|ts: Seq<PlainType>, its: Seq<BodyItem>|
                    #[trigger] plain_class_at(*old(self), ts, its) implies ts == gts && its == gits by {
                    if ts.len() > 0 && gts.len() > 0 {
                        lemma_plain_type_list_unique(*old(self), 3, ts, gts);
                    } else if ts.len() == 0 && gts.len() == 0 {
                        assert(ts =~= gts);
                    } else if ts.len() > 0 {
                        assert(old(self).ahead(2).token@ == TokenView::LBrace);
                    } else {
                        assert(old(self).ahead(2).token@ == TokenView::LBrace);
                    }
                    lemma_items_shift(*old(self), s6, gb + 1, its);
                    assert(s6.ahead(items_len(its)) == old(self).ahead(items_len(its) + (gb + 1)));
                    lemma_items_unique(s6, its, gits);
                }
            }
            if empty_decl_at(*old(self), "class"@) {
                lemma_shifted_trans(*old(self), s6, *self, 3, 1);
            }
            if hc {
                assert forall|fs: Seq<PlainField>|
                    #[trigger] plain_fields_at(*old(self), 3, fs) && old(self).ahead(3 + plain_fields_len(fs)).token@
                        == TokenView::RBrace implies self.shifted(*old(self), plain_fields_len(fs) + 4) by {
                    lemma_plain_fields_shift(*old(self), s6, 3, fs);
                    lemma_plain_fields_take(*old(self), 3, fs, fs.len() as int);
                    assert(fs.take(fs.len() as int) =~= fs);
                    assert(s6.ahead(plain_fields_len(fs)) == old(self).ahead(plain_fields_len(fs) + 3));
                    lemma_shifted_trans(*old(self), s6, s7, 3, plain_fields_len(fs));
                    lemma_shifted_trans(*old(self), s7, *self, 3 + plain_fields_len(fs), 1);
                }
            }
        }
        Ok(
            Type {
                name,
                modifiers: Modifiers::default_access(),
                type_kind,
                body,
                annotation: Vec::new(),
                type_params,
            },
        )
    }

    /// `[keyword <ref_type> {"," <ref_type>}]`: the types listed after
    /// `keyword`, or none if `keyword` does not come next.
    pub fn ref_type_list_after(&mut self, keyword: Token, ctx: (&'static str, usize)) -> (r: ParseResult<Vec<RefType>>)
        requires
            old(self).wf(),
        ensures
            final(self).follows(*old(self)),
            r matches Ok(v) ==> (old(self).ahead(0).token@ != keyword@ ==> v@.len() == 0
                && *final(self) == *old(self)),
            r matches Ok(v) ==> (old(self).ahead(0).token@ == keyword@ ==> v@.len() >= 1),
            r matches Ok(v) ==> (old(self).ahead(0).token@ == keyword@ && old(self).ahead(1).token@
                != TokenView::At ==> spells_name(*old(self), 1, v@[0].name@)),
            old(self).ahead(0).token@ != keyword@ ==> (r matches Ok(v) && v@.len() == 0 && *final(self)
                == *old(self)),
            forall|q: Seq<Seq<char>>, d: int|
                old(self).ahead(0).token@ == keyword@ && #[trigger] plain_ref_type_at(*old(self), 1, q, d) && old(
                    self,
                ).ahead(1 + plain_ref_type_len(q, d)).token@ != TokenView::Comma ==> (r matches Ok(v) && v@.len() == 1
                    && v@[0].name@ == q && v@[0].arr_dim == d && final(self).shifted(
                    *old(self),
                    1 + plain_ref_type_len(q, d),
                )),
            forall|ts: Seq<PlainType>|
                old(self).ahead(0).token@ == keyword@ && #[trigger] plain_type_list_at(*old(self), 1, ts) ==> {
                    &&& r matches Ok(v)
                    &&& v@.len() == ts.len()
                    &&& forall|i: int|
                        0 <= i < ts.len() ==> {
                            &&& (#[trigger] v@[i]).name@ == ts[i].0
                            &&& v@[i].arr_dim == ts[i].1
                            &&& v@[i].type_arg_list.0@.len() == 0
                        }
                    &&& final(self).shifted(*old(self), plain_types_len(ts))
                },
    {
        let ghost h = exists|ts: Seq<PlainType>|
            old(self).ahead(0).token@ == keyword@ && #[trigger] plain_type_list_at(*old(self), 1, ts);
        let ghost gt = choose|ts: Seq<PlainType>|
            old(self).ahead(0).token@ == keyword@ && #[trigger] plain_type_list_at(*old(self), 1, ts);
        let mut v: Vec<RefType> = Vec::new();
        if self.next_is(keyword) {
            self.get_next_token();
            let ghost s1 = *self;
            proof {
                assert forall|q: Seq<Seq<char>>, d: int| #[trigger] plain_ref_type_at(*old(self), 1, q, d) implies plain_ref_type_at(
                    s1,
                    0,
                    q,
                    d,
                ) by {
                    lemma_plain_ref_type_shift(*old(self), s1, 1, 0, q, d);
                }
                if h {
                    lemma_plain_types_take(*old(self), 1, gt, 0);
                    assert(gt.take(0) =~= Seq::<PlainType>::empty());
                    assert(plain_ref_type_at(*old(self), 1, gt[0].0, gt[0].1));
                }
            }
            let first = self.ref_type().push_context(ctx)?;
            let ghost s2 = *self;
            proof {
                assert forall|q: Seq<Seq<char>>, d: int| #[trigger] plain_ref_type_at(*old(self), 1, q, d) implies s2.ahead(0)
                    == old(self).ahead(1 + plain_ref_type_len(q, d)) && s2.shifted(*old(self), 1 + plain_ref_type_len(q, d)) by {
                    lemma_plain_ref_type_shift(*old(self), s1, 1, 0, q, d);
                    lemma_shifted_trans(*old(self), s1, s2, 1, plain_ref_type_len(q, d));
                    assert(s2.ahead(0) == old(self).ahead(0 + (1 + plain_ref_type_len(q, d))));
                }
            }
            proof {
                assert(s1.ahead(0) == old(self).ahead(0int + 1));
                if old(self).ahead(1).token@ != TokenView::At {
                    lemma_spells_name_shift(*old(self), s1, 1, 0, first.name@);
                }
                if h {
                    lemma_plain_types_take(*old(self), 1, gt, 0);
                    assert(gt.take(0) =~= Seq::<PlainType>::empty());
                    lemma_plain_types_take(*old(self), 1, gt, 1);
                    if gt.len() > 1 {
                        assert(old(self).ahead(1 + plain_types_len(gt.take(1)) - 1).token@ == TokenView::Comma);
                    } else {
                        assert(gt.take(1) =~= gt);
                    }
                }
            }
            v.push(first);
            let ghost mid = *self;
            while self.next_is(Token::Comma)
                invariant
                    old(self).wf(),
                    mid.follows(*old(self)),
                    self.follows(mid),
                    v@.len() >= 1,
                    old(self).ahead(0).token@ == keyword@,
                    old(self).ahead(0).token@ == keyword@ && old(self).ahead(1).token@ != TokenView::At
                        ==> spells_name(*old(self), 1, v@[0].name@),
                    forall|q: Seq<Seq<char>>, d: int|
                        old(self).ahead(0).token@ == keyword@ && #[trigger] plain_ref_type_at(*old(self), 1, q, d) && old(
                            self,
                        ).ahead(1 + plain_ref_type_len(q, d)).token@ != TokenView::Comma ==> *self == mid && v@.len() == 1
                            && v@[0].name@ == q && v@[0].arr_dim == d && mid.ahead(0).token@ != TokenView::Comma
                            && mid.shifted(*old(self), 1 + plain_ref_type_len(q, d)),
                    h == exists|ts: Seq<PlainType>|
                        old(self).ahead(0).token@ == keyword@ && #[trigger] plain_type_list_at(*old(self), 1, ts),
                    h ==> plain_type_list_at(*old(self), 1, gt),
                    h ==> 1 <= v@.len() <= gt.len(),
                    h ==> self.shifted(*old(self), plain_types_len(gt.take(v@.len() as int))),
                    h ==> forall|i: int|
                        0 <= i < v@.len() ==> {
                            &&& (#[trigger] v@[i]).name@ == gt[i].0
                            &&& v@[i].arr_dim == gt[i].1
                            &&& v@[i].type_arg_list.0@.len() == 0
                        },
                decreases self.remaining(),
            {
                let ghost k = v@.len() as int;
                let ghost c0 = *self;
                let ghost vb = v@;
                let ghost lk = plain_types_len(gt.take(k));
                proof {
                    if h {
                        lemma_plain_types_take(*old(self), 1, gt, k);
                        if k == gt.len() {
                            assert(gt.take(k) =~= gt);
                            assert(self.ahead(0) == old(self).ahead(0 + plain_types_len(gt)));
                        }
                        assert(self.ahead(0) == old(self).ahead(0 + lk));
                    }
                }
                self.get_next_token();
                let ghost c1 = *self;
                proof {
                    if h {
                        lemma_shifted_trans(*old(self), c0, c1, lk, 1);
                        lemma_plain_ref_type_shift(*old(self), c1, lk + 1, 0, gt[k].0, gt[k].1);
                    }
                }
                let t = self.ref_type().push_context(ctx)?;
                v.push(t);
                proof {
                    if h {
                        lemma_shifted_trans(*old(self), c1, *self, lk + 1, plain_ref_type_len(gt[k].0, gt[k].1));
                        lemma_plain_types_take(*old(self), 1, gt, k + 1);
                        assert forall|i: int| 0 <= i < v@.len() implies {
                            &&& (#[trigger] v@[i]).name@ == gt[i].0
                            &&& v@[i].arr_dim == gt[i].1
                            &&& v@[i].type_arg_list.0@.len() == 0
                        } by {
                            if i < k {
                                assert(v@[i] == vb[i]);
                            }
                        }
                        if k + 1 < gt.len() {
                            assert(old(self).ahead(1 + plain_types_len(gt.take(k + 1)) - 1).token@ == TokenView::Comma);
                        } else {
                            assert(gt.take(k + 1) =~= gt);
                        }
                        assert(self.ahead(0) == old(self).ahead(0 + plain_types_len(gt.take(k + 1))));
                    }
                }
            }
            proof {
                if h {
                    let k = v@.len() as int;
                    if k < gt.len() {
                        assert(old(self).ahead(1 + plain_types_len(gt.take(k)) - 1).token@ == TokenView::Comma);
                        assert(self.ahead(0) == old(self).ahead(0 + plain_types_len(gt.take(k))));
                    }
                    assert(gt.take(gt.len() as int) =~= gt);
                    assert forall|ts: Seq<PlainType>|
                        old(self).ahead(0).token@ == keyword@ && #[trigger] plain_type_list_at(*old(self), 1, ts) implies ts
                        == gt by {
                        lemma_plain_type_list_unique(*old(self), 1, ts, gt);
                    }
                }
            }
        }
        Ok(v)
    }
}

} // verus!
