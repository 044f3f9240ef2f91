use vstd::prelude::*;

use std::rc::Rc;

use crate::parser::parser::{lemma_plain_run_unique, plain_run_to_semicolon};
use crate::parser::parser::{
    balanced_group, empty_decl_at, lemma_balanced_group_shift, lemma_balanced_group_unique, lemma_balanced_not_unclosed,
    lemma_decl_keywords_not_modifiers, lemma_shifted_trans, unclosed_group, Parser,
};
use crate::parser::nonterminals::util::{
    access_of, access_word, brackets_at, is_modifier_token, lemma_brackets_unique, lemma_plain_ref_type_shift,
    lemma_plain_ref_type_starts, lemma_plain_ref_type_unique, lemma_single_modifier, modifiers_len, modifiers_spelled,
    plain_ref_type_at, plain_ref_type_len,
};
use crate::parser::token::{token_eq, Token, TokenView};
use crate::types::{
    copy_annotations, is_child_name, names_view, AccessModifier, Annotation, GenericParseResult, Member, MemberKind, Modifiers,
    ParseErrType, ParseResult, QualifiedName, RefType, Type, TypeBody, TypeParamList,
    VoidableType, string_is,
};

verus! {

/// The tokens are a field declaration `T x ;` with a plain type `T`
/// (name `q`, `d` dimensions) and no initializer.
pub open spec fn plain_field_at(p: Parser, q: Seq<Seq<char>>, d: int) -> bool {
    &&& plain_ref_type_at(p, 0, q, d)
    &&& p.ahead(plain_ref_type_len(q, d)).token@ is Identifier
    &&& p.ahead(plain_ref_type_len(q, d) + 1).token@ == TokenView::Semicolon
}

/// A field declaration written with plain tokens: the type's name, its
/// array dimensions and the field's name.
pub type PlainField = (Seq<Seq<char>>, int, Seq<char>);

/// From position `at` on, the tokens are `T x ;` with the plain type `T`
/// (name `f.0`, `f.1` dimensions) and the field name `f.2`.
pub open spec fn plain_field_decl_at(p: Parser, at: int, f: PlainField) -> bool {
    &&& plain_ref_type_at(p, at, f.0, f.1)
    &&& p.ahead(at + plain_ref_type_len(f.0, f.1)).token@ == TokenView::Identifier(f.2)
    &&& p.ahead(at + plain_ref_type_len(f.0, f.1) + 1).token@ == TokenView::Semicolon
}

/// How many tokens the plain field declarations `fs` take.
pub open spec fn plain_fields_len(fs: Seq<PlainField>) -> int
    decreases fs.len(),
{
    if fs.len() == 0 {
        0
    } else {
        plain_fields_len(fs.drop_last()) + plain_ref_type_len(fs.last().0, fs.last().1) + 2
    }
}

/// From position `at` on, the tokens are the plain field declarations
/// `fs`, one after another.
pub open spec fn plain_fields_at(p: Parser, at: int, fs: Seq<PlainField>) -> bool
    decreases fs.len(),
{
    if fs.len() == 0 {
        true
    } else {
        plain_fields_at(p, at, fs.drop_last()) && plain_field_decl_at(
            p,
            at + plain_fields_len(fs.drop_last()),
            fs.last(),
        )
    }
}

/// What a run of plain fields is does not depend on how many tokens were
/// read before it.
pub proof fn lemma_plain_fields_shift(p: Parser, s: Parser, off: int, fs: Seq<PlainField>)
    requires
        0 <= off,
        s.shifted(p, off),
    ensures
        plain_fields_at(s, 0, fs) == plain_fields_at(p, off, fs),
    decreases fs.len(),
{
    if fs.len() > 0 {
        lemma_plain_fields_shift(p, s, off, fs.drop_last());
        let at = plain_fields_len(fs.drop_last());
        let f = fs.last();
        if plain_fields_at(s, 0, fs.drop_last()) || plain_fields_at(p, off, fs.drop_last()) {
            if plain_fields_at(s, 0, fs.drop_last()) {
                lemma_plain_fields_take(s, 0, fs.drop_last(), fs.len() - 1);
            } else {
                lemma_plain_fields_take(p, off, fs.drop_last(), fs.len() - 1);
            }
            assert(fs.drop_last().take(fs.len() - 1) =~= fs.drop_last());
            let l = plain_ref_type_len(f.0, f.1);
            lemma_plain_ref_type_shift(p, s, off, at, f.0, f.1);
            if f.0.len() >= 1 && f.1 >= 0 {
                assert(s.ahead(at + l) == p.ahead(at + l + off));
                assert(s.ahead(at + l + 1) == p.ahead(at + l + 1 + off));
            }
        }
    }
}

/// Every prefix of a run of plain fields is one too, and takes no
/// negative number of tokens.
pub proof fn lemma_plain_fields_take(p: Parser, at: int, fs: Seq<PlainField>, k: int)
    requires
        plain_fields_at(p, at, fs),
        0 <= k <= fs.len(),
    ensures
        plain_fields_at(p, at, fs.take(k)),
        plain_fields_len(fs.take(k)) >= 0,
        k < fs.len() ==> plain_field_decl_at(p, at + plain_fields_len(fs.take(k)), fs[k]),
        k < fs.len() ==> plain_fields_len(fs.take(k + 1)) == plain_fields_len(fs.take(k))
            + plain_ref_type_len(fs[k].0, fs[k].1) + 2,
    decreases fs.len(),
{
    if k == fs.len() {
        assert(fs.take(k) =~= fs);
        if fs.len() > 0 {
            lemma_plain_fields_take(p, at, fs.drop_last(), k - 1);
            assert(fs.drop_last().take(k - 1) =~= fs.drop_last());
            let f = fs.last();
            assert(f.0.len() >= 1 && 0 <= f.1);
        }
    } else {
        lemma_plain_fields_take(p, at, fs.drop_last(), k);
        assert(fs.take(k) =~= fs.drop_last().take(k));
        if k + 1 < fs.len() {
            lemma_plain_fields_take(p, at, fs.drop_last(), k + 1);
            assert(fs.take(k + 1) =~= fs.drop_last().take(k + 1));
        } else {
            assert(fs.take(k + 1) =~= fs);
            assert(fs.drop_last() =~= fs.take(k));
        }
    }
}

/// Two runs of plain fields read from the same place agree on their
/// common length.
pub proof fn lemma_plain_fields_prefix(p: Parser, at: int, a: Seq<PlainField>, b: Seq<PlainField>)
    requires
        plain_fields_at(p, at, a),
        plain_fields_at(p, at, b),
        a.len() <= b.len(),
    ensures
        a == b.take(a.len() as int),
    decreases a.len(),
{
    if a.len() == 0 {
        assert(a =~= b.take(0));
    } else {
        let n = a.len() - 1;
        lemma_plain_fields_prefix(p, at, a.drop_last(), b);
        lemma_plain_fields_take(p, at, b, n);
        assert(a.drop_last() == b.take(n));
        let off = at + plain_fields_len(a.drop_last());
        let f = a.last();
        let g = b[n];
        lemma_plain_ref_type_unique(p, off, f.0, f.1, g.0, g.1);
        assert(f == g);
        assert(a =~= b.take(a.len() as int));
    }
}

/// A run of plain fields that ends before `}` is determined by the tokens.
pub proof fn lemma_plain_fields_unique(p: Parser, at: int, a: Seq<PlainField>, b: Seq<PlainField>)
    requires
        plain_fields_at(p, at, a),
        plain_fields_at(p, at, b),
        p.ahead(at + plain_fields_len(a)).token@ == TokenView::RBrace,
        p.ahead(at + plain_fields_len(b)).token@ == TokenView::RBrace,
    ensures
        a == b,
{
    if a.len() < b.len() {
        lemma_plain_fields_prefix(p, at, a, b);
        lemma_plain_fields_take(p, at, b, a.len() as int);
        let g = b[a.len() as int];
        lemma_plain_ref_type_starts(p, at + plain_fields_len(a), g.0, g.1);
    } else if b.len() < a.len() {
        lemma_plain_fields_prefix(p, at, b, a);
        lemma_plain_fields_take(p, at, a, b.len() as int);
        let g = a[b.len() as int];
        lemma_plain_ref_type_starts(p, at + plain_fields_len(b), g.0, g.1);
    } else {
        lemma_plain_fields_prefix(p, at, a, b);
        assert(b.take(a.len() as int) =~= b);
    }
}

/// One piece of a class body written with plain tokens: a plain field
/// declaration, a stray `;`, an initializer block of `n` tokens (`static`
/// before it when the flag is set), or a nested type with an empty body,
/// given by its keyword (`class`, `interface` or `enum`) and its name.
pub enum BodyItem {
    Field(PlainField),
    Semi,
    Block(int, bool),
    Nested(Seq<char>, Seq<char>),
}

/// How many tokens a body piece takes.
pub open spec fn item_len(it: BodyItem) -> int {
    match it {
        BodyItem::Field(f) => plain_ref_type_len(f.0, f.1) + 2,
        BodyItem::Semi => 1,
        BodyItem::Block(n, st) => n + if st {
            1int
        } else {
            0int
        },
        BodyItem::Nested(_, _) => 4,
    }
}

/// From position `at` on, the tokens are the body piece `it`.
pub open spec fn item_at(p: Parser, at: int, it: BodyItem) -> bool {
    match it {
        BodyItem::Field(f) => plain_field_decl_at(p, at, f),
        BodyItem::Semi => p.ahead(at).token@ == TokenView::Semicolon,
        BodyItem::Block(n, st) => if st {
            p.ahead(at).token@ == TokenView::Keyword("static"@) && balanced_group(
                p,
                TokenView::LBrace,
                TokenView::RBrace,
                at + 1,
                n,
            )
        } else {
            balanced_group(p, TokenView::LBrace, TokenView::RBrace, at, n)
        },
        BodyItem::Nested(kw, name) => {
            &&& (kw == "class"@ || kw == "interface"@ || kw == "enum"@)
            &&& p.ahead(at).token@ == TokenView::Keyword(kw)
            &&& p.ahead(at + 1).token@ == TokenView::Identifier(name)
            &&& p.ahead(at + 2).token@ == TokenView::LBrace
            &&& p.ahead(at + 3).token@ == TokenView::RBrace
        },
    }
}

/// How many tokens the body pieces `its` take.
pub open spec fn items_len(its: Seq<BodyItem>) -> int
    decreases its.len(),
{
    if its.len() == 0 {
        0
    } else {
        items_len(its.drop_last()) + item_len(its.last())
    }
}

/// The tokens are the body pieces `its`, one after another.
pub open spec fn items_at(p: Parser, its: Seq<BodyItem>) -> bool
    decreases its.len(),
{
    if its.len() == 0 {
        true
    } else {
        items_at(p, its.drop_last()) && item_at(p, items_len(its.drop_last()), its.last())
    }
}

/// The fields among the body pieces, in order.
pub open spec fn item_fields(its: Seq<BodyItem>) -> Seq<PlainField>
    decreases its.len(),
{
    if its.len() == 0 {
        Seq::empty()
    } else {
        match its.last() {
            BodyItem::Field(f) => item_fields(its.drop_last()).push(f),
            _ => item_fields(its.drop_last()),
        }
    }
}

/// The names of the nested types among the body pieces, in order.
pub open spec fn item_nested(its: Seq<BodyItem>) -> Seq<Seq<char>>
    decreases its.len(),
{
    if its.len() == 0 {
        Seq::empty()
    } else {
        match its.last() {
            BodyItem::Nested(_, name) => item_nested(its.drop_last()).push(name),
            _ => item_nested(its.drop_last()),
        }
    }
}

/// Every prefix of a run of body pieces is one too, and the next piece
/// comes right after it.
pub proof fn lemma_items_take(p: Parser, its: Seq<BodyItem>, k: int)
    requires
        items_at(p, its),
        0 <= k <= its.len(),
    ensures
        items_at(p, its.take(k)),
        items_len(its.take(k)) >= 0,
        k < its.len() ==> item_at(p, items_len(its.take(k)), its[k]),
        k < its.len() ==> items_len(its.take(k + 1)) == items_len(its.take(k)) + item_len(its[k]),
        k < its.len() ==> item_fields(its.take(k + 1)) == match its[k] {
            BodyItem::Field(f) => item_fields(its.take(k)).push(f),
            _ => item_fields(its.take(k)),
        },
        k < its.len() ==> item_nested(its.take(k + 1)) == match its[k] {
            BodyItem::Nested(_, name) => item_nested(its.take(k)).push(name),
            _ => item_nested(its.take(k)),
        },
    decreases its.len(),
{
    if k == its.len() {
        assert(its.take(k) =~= its);
        if its.len() > 0 {
            lemma_items_take(p, its.drop_last(), k - 1);
            assert(its.drop_last().take(k - 1) =~= its.drop_last());
            match its.last() {
                BodyItem::Field(f) => {
                    assert(f.0.len() >= 1 && 0 <= f.1);
                },
                _ => {},
            }
        }
    } else {
        lemma_items_take(p, its.drop_last(), k);
        assert(its.take(k) =~= its.drop_last().take(k));
        if k + 1 < its.len() {
            lemma_items_take(p, its.drop_last(), k + 1);
            assert(its.take(k + 1) =~= its.drop_last().take(k + 1));
        } else {
            assert(its.take(k + 1) =~= its);
            assert(its.drop_last() =~= its.take(k));
        }
    }
}

/// Two runs of body pieces read from the same place agree on their common
/// length.
pub proof fn lemma_items_prefix(p: Parser, a: Seq<BodyItem>, b: Seq<BodyItem>)
    requires
        items_at(p, a),
        items_at(p, b),
        a.len() <= b.len(),
    ensures
        a == b.take(a.len() as int),
    decreases a.len(),
{
    reveal_strlit("static");
    reveal_strlit("class");
    reveal_strlit("interface");
    reveal_strlit("enum");
    if a.len() == 0 {
        assert(a =~= b.take(0));
    } else {
        let n = a.len() - 1;
        lemma_items_prefix(p, a.drop_last(), b);
        lemma_items_take(p, b, n);
        let off = items_len(a.drop_last());
        let x = a.last();
        let y = b[n];
        match x {
            BodyItem::Field(f) => {
                lemma_plain_ref_type_starts(p, off, f.0, f.1);
                match y {
                    BodyItem::Field(g) => {
                        lemma_plain_ref_type_unique(p, off, f.0, f.1, g.0, g.1);
                    },
                    _ => {},
                }
            },
            BodyItem::Semi => {
                match y {
                    BodyItem::Field(g) => {
                        lemma_plain_ref_type_starts(p, off, g.0, g.1);
                    },
                    _ => {},
                }
            },
            BodyItem::Block(n1, s1) => {
                match y {
                    BodyItem::Field(g) => {
                        lemma_plain_ref_type_starts(p, off, g.0, g.1);
                    },
                    BodyItem::Block(n2, s2) => {
                        if s1 == s2 {
                            if s1 {
                                lemma_balanced_group_unique(p, TokenView::LBrace, TokenView::RBrace, off + 1, n1, n2);
                            } else {
                                lemma_balanced_group_unique(p, TokenView::LBrace, TokenView::RBrace, off, n1, n2);
                            }
                        }
                    },
                    _ => {},
                }
            },
            BodyItem::Nested(_, _) => {
                match y {
                    BodyItem::Field(g) => {
                        lemma_plain_ref_type_starts(p, off, g.0, g.1);
                    },
                    _ => {},
                }
            },
        }
        assert(a =~= b.take(a.len() as int));
    }
}

/// A run of body pieces that ends before `}` is determined by the tokens.
pub proof fn lemma_items_unique(p: Parser, a: Seq<BodyItem>, b: Seq<BodyItem>)
    requires
        items_at(p, a),
        items_at(p, b),
        p.ahead(items_len(a)).token@ == TokenView::RBrace,
        p.ahead(items_len(b)).token@ == TokenView::RBrace,
    ensures
        a == b,
{
    if a.len() < b.len() {
        lemma_items_prefix(p, a, b);
        lemma_items_take(p, b, a.len() as int);
        match b[a.len() as int] {
            BodyItem::Field(g) => {
                lemma_plain_ref_type_starts(p, items_len(a), g.0, g.1);
            },
            _ => {},
        }
    } else if b.len() < a.len() {
        lemma_items_prefix(p, b, a);
        lemma_items_take(p, a, b.len() as int);
        match a[b.len() as int] {
            BodyItem::Field(g) => {
                lemma_plain_ref_type_starts(p, items_len(b), g.0, g.1);
            },
            _ => {},
        }
    } else {
        lemma_items_prefix(p, a, b);
        assert(b.take(a.len() as int) =~= b);
    }
}

/// From position `at` on, the tokens are the body pieces `its`, one after
/// another.
pub open spec fn items_from(p: Parser, at: int, its: Seq<BodyItem>) -> bool
    decreases its.len(),
{
    if its.len() == 0 {
        true
    } else {
        items_from(p, at, its.drop_last()) && item_at(p, at + items_len(its.drop_last()), its.last())
    }
}

/// Body pieces read `off` tokens later are read from the start.
pub proof fn lemma_items_shift(p: Parser, s: Parser, off: int, its: Seq<BodyItem>)
    requires
        0 <= off,
        s.shifted(p, off),
        items_from(p, off, its),
    ensures
        items_at(s, its),
        items_len(its) >= 0,
    decreases its.len(),
{
    reveal_strlit("static");
    if its.len() > 0 {
        lemma_items_shift(p, s, off, its.drop_last());
        let l = items_len(its.drop_last());
        match its.last() {
            BodyItem::Field(f) => {
                let lf = plain_ref_type_len(f.0, f.1);
                lemma_plain_ref_type_shift(p, s, off, l, f.0, f.1);
                assert(f.0.len() >= 1 && f.1 >= 0);
                assert(s.ahead(l + lf) == p.ahead(l + lf + off));
                assert(s.ahead(l + lf + 1) == p.ahead(l + lf + 1 + off));
            },
            BodyItem::Semi => {
                assert(s.ahead(l) == p.ahead(l + off));
            },
            BodyItem::Block(n, st) => {
                if st {
                    assert(s.ahead(l) == p.ahead(l + off));
                    lemma_balanced_group_shift(p, s, off, l + 1, TokenView::LBrace, TokenView::RBrace, n);
                } else {
                    lemma_balanced_group_shift(p, s, off, l, TokenView::LBrace, TokenView::RBrace, n);
                }
            },
            BodyItem::Nested(_, _) => {
                assert(s.ahead(l) == p.ahead(l + off));
                assert(s.ahead(l + 1) == p.ahead(l + 1 + off));
                assert(s.ahead(l + 2) == p.ahead(l + 2 + off));
                assert(s.ahead(l + 3) == p.ahead(l + 3 + off));
            },
        }
    }
}

/// A run of plain fields is a run of body pieces.
pub proof fn lemma_fields_items(p: Parser, fs: Seq<PlainField>)
    requires
        plain_fields_at(p, 0, fs),
    ensures
        items_at(p, fs.map_values(|f: PlainField| BodyItem::Field(f))),
        items_len(fs.map_values(|f: PlainField| BodyItem::Field(f))) == plain_fields_len(fs),
        item_fields(fs.map_values(|f: PlainField| BodyItem::Field(f))) == fs,
        item_nested(fs.map_values(|f: PlainField| BodyItem::Field(f))).len() == 0,
    decreases fs.len(),
{
    let its = fs.map_values(|f: PlainField| BodyItem::Field(f));
    if fs.len() > 0 {
        lemma_fields_items(p, fs.drop_last());
        assert(its.drop_last() =~= fs.drop_last().map_values(|f: PlainField| BodyItem::Field(f)));
        assert(its.last() == BodyItem::Field(fs.last()));
        assert(item_fields(its) =~= fs);
    } else {
        assert(item_fields(its) =~= fs);
    }
}

/// From position `at` on, the tokens are `X ( ) { }` with `X` the
/// identifier `name`: a constructor with no parameters and an empty body.
pub open spec fn empty_constructor_at(p: Parser, at: int, name: Seq<char>) -> bool {
    &&& p.ahead(at).token@ == TokenView::Identifier(name)
    &&& p.ahead(at + 1).token@ == TokenView::LParen
    &&& p.ahead(at + 2).token@ == TokenView::RParen
    &&& p.ahead(at + 3).token@ == TokenView::LBrace
    &&& p.ahead(at + 4).token@ == TokenView::RBrace
}

impl<'a> Parser<'a> {
    /// Skips an initializer after `=`, up to the `;` or to the comma that
    /// starts the next declarator (see `check_end_assignment_comma`); bracketed
    /// groups are passed over whole. The `;` or `,` is not read.
    pub fn skip_assignment(&mut self, ctx: (&'static str, usize)) -> (r: ParseResult<()>)
        requires
            old(self).wf(),
        ensures
            final(self).follows(*old(self)),
            r is Ok ==> final(self).ahead(0).token@ == TokenView::Semicolon || final(self).ahead(
                0,
            ).token@ == TokenView::Comma,
            forall|n: int|
                #[trigger] plain_run_to_semicolon(*old(self), n, true) ==> (r is Ok && final(self).shifted(*old(self), n)),
    {
        let ghost pre = *self;
        let ghost h = exists|n: int| plain_run_to_semicolon(*old(self), n, true);
        let ghost gn = choose|n: int| plain_run_to_semicolon(*old(self), n, true);
        let ghost mut k: int = 0;
        assert(self.shifted(pre, 0)) by {
            assert forall|x: int| 0 <= x implies #[trigger] self.ahead(x) == pre.ahead(x + 0) by {}
        }
        loop
            invariant
                pre == *old(self),
                self.follows(pre),
                h == exists|n: int| plain_run_to_semicolon(*old(self), n, true),
                h ==> plain_run_to_semicolon(*old(self), gn, true) && 0 <= k <= gn && self.shifted(pre, k),
            ensures
                self.ahead(0).token@ == TokenView::Semicolon || self.ahead(0).token@
                    == TokenView::Comma,
                h ==> self.shifted(pre, gn),
            decreases self.remaining(),
        {
            if self.next_is(Token::LBrace) {
                self.skip_brace(Token::LBrace, Token::RBrace).push_context(ctx)?;
            } else if self.next_is(Token::LParen) {
                self.skip_brace(Token::LParen, Token::RParen).push_context(ctx)?;
            } else if self.next_is(Token::LBracket) {
                self.skip_brace(Token::LBracket, Token::RBracket).push_context(ctx)?;
            } else if self.next_is(Token::Semicolon) {
                proof {
                    if h {
                        assert(self.ahead(0) == pre.ahead(0 + k));
                        if k < gn {
                            assert(pre.ahead(k).token@ != TokenView::Semicolon);
                        }
                    }
                }
                break ;
            } else if self.next_is(Token::Comma) && self.check_end_assignment_comma().push_context(
                ctx,
            )? {
                break ;
            } else if self.next_is(Token::EOF) {
                return Err(
                    ParseErrType::UnexpectedEOF.to_stack_parse_err(
                        self.peek_next_token().addr,
                        ctx,
                    ),
                );
            } else {
                let ghost b = *self;
                self.get_next_token();
                proof {
                    if h {
                        assert(b.ahead(0) == pre.ahead(0 + k));
                        if k == gn {
                            assert(pre.ahead(gn).token@ == TokenView::Semicolon);
                        }
                        lemma_shifted_trans(pre, b, *self, k, 1);
                        k = k + 1;
                    }
                }
            }
        }
        proof {
            if h {
                assert forall|n: int| #[trigger] plain_run_to_semicolon(*old(self), n, true) implies n == gn by {
                    lemma_plain_run_unique(*old(self), n, gn, true, true);
                }
            }
        }
        Ok(())
    }

    /// Reads `{"[]"}` and gives `base` plus the number of pairs read.
    fn extra_dimensions(&mut self, base: u8, ctx: (&'static str, usize)) -> (r: ParseResult<u8>)
        requires
            old(self).wf(),
        ensures
            final(self).follows(*old(self)),
            r matches Ok(d) ==> d >= base,
            forall|d: int|
                0 <= d && base + d <= 255 && #[trigger] brackets_at(*old(self), 0, d) ==> (r matches Ok(x) && x == base + d
                    && final(self).shifted(*old(self), 2 * d)),
    {
        let mut x = base;
        let ghost pre = *self;
        let ghost h = exists|d: int| 0 <= d && base + d <= 255 && brackets_at(*old(self), 0, d);
        let ghost gd = choose|d: int| 0 <= d && base + d <= 255 && brackets_at(*old(self), 0, d);
        assert(self.shifted(pre, 0)) by {
            assert forall|k: int| 0 <= k implies #[trigger] self.ahead(k) == pre.ahead(k + 0) by {}
        }
        while self.next_is(Token::LBracket)
            invariant
                pre == *old(self),
                self.follows(pre),
                x >= base,
                h == exists|d: int| 0 <= d && base + d <= 255 && brackets_at(*old(self), 0, d),
                h ==> 0 <= gd && base + gd <= 255 && brackets_at(pre, 0, gd) && base <= x <= base + gd
                    && self.shifted(pre, 2 * (x - base)),
            decreases self.remaining(),
        {
            let ghost a0 = *self;
            proof {
                if h {
                    assert(a0.ahead(0) == pre.ahead(0 + 2 * (x - base)));
                    if x == base + gd {
                        assert(pre.ahead(0 + 2 * gd).token@ != TokenView::LBracket);
                    }
                    assert(pre.ahead(0 + 2 * (x - base) + 1).token@ == TokenView::RBracket);
                    assert(a0.ahead(1) == pre.ahead(1 + 2 * (x - base)));
                }
            }
            self.consume_token(Token::LBracket, "LBracket", ctx)?;
            let ghost a1 = *self;
            proof {
                if h {
                    assert(a1.ahead(0) == a0.ahead(0int + 1));
                }
            }
            self.consume_token(Token::RBracket, "RBracket", ctx)?;
            proof {
                if h {
                    lemma_shifted_trans(pre, a0, a1, 2 * (x - base), 1);
                    lemma_shifted_trans(pre, a1, *self, 2 * (x - base) + 1, 1);
                }
            }
            if x == 255 {
                return Err(
                    ParseErrType::SemanticError("too many array dimensions").to_stack_parse_err(
                        self.get_current_token().addr,
                        ctx,
                    ),
                );
            }
            x = x + 1;
        }
        proof {
            if h {
                if x < base + gd {
                    assert(self.ahead(0) == pre.ahead(0 + 2 * (x - base)));
                }
                assert forall|d: int| 0 <= d && base + d <= 255 && #[trigger] brackets_at(*old(self), 0, d) implies d == gd by {
                    lemma_brackets_unique(*old(self), 0, d, gd);
                }
            }
        }
        Ok(x)
    }

    /// A constructor: `IDENTIFIER <arg_list> ["throws" <ref_type> {"," <ref_type>}] <method_body>`.
    fn constructor_decl(
        &mut self,
        type_param_list: TypeParamList,
        annotations: Vec<Annotation>,
        modifiers: Modifiers,
        ctx: (&'static str, usize),
    ) -> (r: ParseResult<Member>)
        requires
            old(self).wf(),
            old(self).ahead(0).token@ is Identifier,
        ensures
            final(self).follows(*old(self)),
            r is Ok ==> final(self).remaining() < old(self).remaining(),
            r matches Ok(m) ==> m.member_kind is Constructor && old(self).ahead(0).token@
                == TokenView::Identifier(m.name@),
            r matches Ok(m) ==> m.member_kind->Constructor_type_param_list == type_param_list && m.annotations
                == annotations && m.modifiers == modifiers,
            old(self).ahead(1).token@ == TokenView::LParen && old(self).ahead(2).token@ == TokenView::RParen && old(
                self,
            ).ahead(3).token@ == TokenView::LBrace && old(self).ahead(4).token@ == TokenView::RBrace ==> (
            r matches Ok(m) && m.member_kind->Constructor_input@.len() == 0
                && m.member_kind->Constructor_throws@.len() == 0 && final(self).shifted(*old(self), 5)),
    {
        let name = self.consume_identifier("IDENTIFIER", ctx)?;
        let ghost s1 = *self;
        let input = self.arg_list().push_context(ctx)?;
        let ghost s2 = *self;
        let throws = self.ref_type_list_after(Token::Keyword("throws"), ctx)?;
        let ghost h = old(self).ahead(1).token@ == TokenView::LParen && old(self).ahead(2).token@ == TokenView::RParen
            && old(self).ahead(3).token@ == TokenView::LBrace && old(self).ahead(4).token@ == TokenView::RBrace;
        proof {
            if h {
                assert(s1.ahead(0) == old(self).ahead(0int + 1));
                assert(s1.ahead(1) == old(self).ahead(1int + 1));
                lemma_shifted_trans(*old(self), s1, s2, 1, 2);
                assert(s2.ahead(0) == old(self).ahead(0int + 3));
                assert(s2.ahead(1) == old(self).ahead(1int + 3));
            }
        }
        // a constructor must have a body
        self.skip_brace(Token::LBrace, Token::RBrace).push_context(ctx)?;
        proof {
            if h {
                lemma_shifted_trans(*old(self), s2, *self, 3, 2);
            }
        }
        Ok(
            Member {
                name: name.to_owned(),
                member_kind: MemberKind::Constructor { type_param_list, input, throws },
                annotations,
                modifiers,
            },
        )
    }

    /// A method after its result type: `IDENTIFIER <arg_list> ["throws" ...] (";" | <method_body>)`.
    fn method_rest(
        &mut self,
        name: &str,
        type_param_list: TypeParamList,
        output: VoidableType,
        annotations: Vec<Annotation>,
        modifiers: Modifiers,
        ctx: (&'static str, usize),
    ) -> (r: ParseResult<Member>)
        requires
            old(self).wf(),
        ensures
            final(self).follows(*old(self)),
            r is Ok ==> final(self).remaining() < old(self).remaining(),
            r matches Ok(m) ==> m.member_kind is Method && m.name@ == name@,
            r matches Ok(m) ==> m.member_kind->Method_type_param_list == type_param_list
                && m.member_kind->Method_output == output && m.annotations == annotations && m.modifiers == modifiers,
            old(self).ahead(0).token@ == TokenView::LParen && old(self).ahead(1).token@ == TokenView::RParen && old(
                self,
            ).ahead(2).token@ == TokenView::Semicolon ==> (r matches Ok(m) && m.member_kind->Method_input@.len() == 0
                && m.member_kind->Method_throws@.len() == 0 && final(self).shifted(*old(self), 3)),
            old(self).ahead(0).token@ == TokenView::LParen && old(self).ahead(1).token@ == TokenView::RParen && old(
                self,
            ).ahead(2).token@ == TokenView::LBrace && old(self).ahead(3).token@ == TokenView::RBrace ==> (
            r matches Ok(m) && m.member_kind->Method_input@.len() == 0 && m.member_kind->Method_throws@.len() == 0
                && final(self).shifted(*old(self), 4)),
    {
        let input = self.arg_list().push_context(ctx)?;
        let ghost s1 = *self;
        let throws = self.ref_type_list_after(Token::Keyword("throws"), ctx)?;
        proof {
            if old(self).ahead(0).token@ == TokenView::LParen && old(self).ahead(1).token@ == TokenView::RParen {
                assert(s1.ahead(0) == old(self).ahead(0int + 2));
                assert(s1.ahead(1) == old(self).ahead(1int + 2));
            }
        }
        let ghost s2 = *self;
        if self.next_is(Token::Semicolon) {
            self.get_next_token();
            proof {
                if old(self).ahead(0).token@ == TokenView::LParen && old(self).ahead(1).token@ == TokenView::RParen
                    && old(self).ahead(2).token@ == TokenView::Semicolon {
                    lemma_shifted_trans(*old(self), s1, *self, 2, 1);
                }
            }
        } else if self.next_is(Token::LBrace) {
            self.skip_brace(Token::LBrace, Token::RBrace).push_context(ctx)?;
            proof {
                if old(self).ahead(0).token@ == TokenView::LParen && old(self).ahead(1).token@ == TokenView::RParen
                    && old(self).ahead(2).token@ == TokenView::LBrace && old(self).ahead(3).token@ == TokenView::RBrace {
                    lemma_shifted_trans(*old(self), s1, *self, 2, 2);
                }
            }
        } else {
            let t = self.peek_next_token();
            let cur = self.get_current_token();
            return Err(
                ParseErrType::UnexpectedToken {
                    expected: "Semicolon | LBrace",
                    got: vec![t.token.to_owned_token()],
                }.to_stack_parse_err(cur.addr, ctx),
            );
        }
        Ok(
            Member {
                name: name.to_owned(),
                member_kind: MemberKind::Method { type_param_list, input, output, throws },
                annotations,
                modifiers,
            },
        )
    }

    /// `<type_body> ::= "{" {<member_decl>} "}"` without its braces, where
    /// `<member_decl> ::= {<annotation>} <modifiers> ( <method_decl> | <constructor_decl> |
    /// <property_decl> | <type_decl> )`.
    /// Reads members up to (not including) the closing brace. Nested types
    /// are named under `prefix`; a constructor is recognised by `classname`.
    #[verifier::spinoff_prover]
    pub fn members(&mut self, prefix: QualifiedName, classname: String) -> (r: ParseResult<TypeBody>)
        requires
            old(self).wf(),
        ensures
            final(self).follows(*old(self)),
            r is Ok ==> final(self).ahead(0).token@ == TokenView::RBrace,
            r matches Ok(b) ==> forall|i: int|
                0 <= i < b.subtypes@.len() ==> is_child_name(
                    prefix@,
                    (#[trigger] b.subtypes@[i]).name@,
                ),
            old(self).ahead(0).token@ == TokenView::RBrace ==> (r matches Ok(b) && b.members@.len() == 0
                && b.subtypes@.len() == 0 && *final(self) == *old(self)),
            r matches Ok(b) ==> forall|i: int|
                0 <= i < b.members@.len() && (#[trigger] b.members@[i]).member_kind is Constructor
                    ==> b.members@[i].name@ == classname@,
            forall|its: Seq<BodyItem>|
                #[trigger] items_at(*old(self), its) && old(self).ahead(items_len(its)).token@ == TokenView::RBrace
                    ==> {
                    &&& r matches Ok(b)
                    &&& b.subtypes@.len() == item_nested(its).len()
                    &&& forall|i: int|
                        0 <= i < item_nested(its).len() ==> (#[trigger] b.subtypes@[i]).name@ == prefix@.push(
                            item_nested(its)[i],
                        )
                    &&& b.members@.len() == item_fields(its).len()
                    &&& forall|i: int|
                        0 <= i < item_fields(its).len() ==> {
                            &&& (#[trigger] b.members@[i]).name@ == item_fields(its)[i].2
                            &&& b.members@[i].member_kind->Property_reftype.name@ == item_fields(its)[i].0
                            &&& b.members@[i].member_kind->Property_arr_dim == item_fields(its)[i].1
                        }
                    &&& final(self).shifted(*old(self), items_len(its))
                },
            forall|fs: Seq<PlainField>|
                #[trigger] plain_fields_at(*old(self), 0, fs) && old(self).ahead(plain_fields_len(fs)).token@
                    == TokenView::RBrace ==> {
                    &&& r matches Ok(b)
                    &&& b.subtypes@.len() == 0
                    &&& b.members@.len() == fs.len()
                    &&& forall|i: int|
                        0 <= i < fs.len() ==> {
                            &&& (#[trigger] b.members@[i]).name@ == fs[i].2
                            &&& b.members@[i].member_kind->Property_reftype.name@ == fs[i].0
                            &&& b.members@[i].member_kind->Property_arr_dim == fs[i].1
                        }
                    &&& final(self).shifted(*old(self), plain_fields_len(fs))
                },
            (empty_decl_at(*old(self), "class"@) || empty_decl_at(*old(self), "interface"@) || empty_decl_at(
                *old(self),
                "enum"@,
            )) && old(self).ahead(4).token@ == TokenView::RBrace ==> {
                &&& r matches Ok(b)
                &&& b.members@.len() == 0
                &&& b.subtypes@.len() == 1
                &&& old(self).ahead(1).token@ == TokenView::Identifier(b.subtypes@[0].name@.last())
                &&& b.subtypes@[0].body.members@.len() == 0
                &&& final(self).shifted(*old(self), 4)
            },
            empty_constructor_at(*old(self), 0, classname@) && old(self).ahead(5).token@ == TokenView::RBrace ==> {
                &&& r matches Ok(b)
                &&& b.members@.len() == 1
                &&& b.members@[0].member_kind is Constructor
                &&& b.subtypes@.len() == 0
                &&& final(self).shifted(*old(self), 5)
            },
        decreases old(self).remaining(), 2nat,
    {
        let ctx = ("members", self.peek_next_token().addr);
        let ghost pre = *self;
        let ghost hcx = empty_constructor_at(*old(self), 0, classname@) && old(self).ahead(5).token@ == TokenView::RBrace;
        let ghost hn = (empty_decl_at(*old(self), "class"@) || empty_decl_at(*old(self), "interface"@) || empty_decl_at(
            *old(self),
            "enum"@,
        )) && old(self).ahead(4).token@ == TokenView::RBrace;
        proof {
            lemma_decl_keywords_not_modifiers();
        }
        let ghost h = exists|its: Seq<BodyItem>|
            #[trigger] items_at(pre, its) && pre.ahead(items_len(its)).token@ == TokenView::RBrace;
        let ghost gits = choose|its: Seq<BodyItem>|
            #[trigger] items_at(pre, its) && pre.ahead(items_len(its)).token@ == TokenView::RBrace;
        let ghost mut ki: int = 0;
        let mut members: Vec<Rc<Member>> = Vec::new();
        let mut subtypes: Vec<Rc<Type>> = Vec::new();
        proof {
            assert forall|fs: Seq<PlainField>|
                #[trigger] plain_fields_at(pre, 0, fs) && pre.ahead(plain_fields_len(fs)).token@ == TokenView::RBrace
                    implies items_at(pre, fs.map_values(|f: PlainField| BodyItem::Field(f))) && pre.ahead(
                items_len(fs.map_values(|f: PlainField| BodyItem::Field(f))),
            ).token@ == TokenView::RBrace && item_fields(fs.map_values(|f: PlainField| BodyItem::Field(f))) == fs
                && items_len(fs.map_values(|f: PlainField| BodyItem::Field(f))) == plain_fields_len(fs)
                && item_nested(fs.map_values(|f: PlainField| BodyItem::Field(f))).len() == 0 by {
                lemma_fields_items(pre, fs);
            }
            reveal_strlit("static");
            if h {
                lemma_items_take(pre, gits, 0);
                assert(gits.take(0) =~= Seq::<BodyItem>::empty());
                assert(item_fields(gits.take(0)) =~= Seq::<PlainField>::empty());
                assert(item_nested(gits.take(0)) =~= Seq::<Seq<char>>::empty());
                assert forall|k: int| 0 <= k implies #[trigger] self.ahead(k) == pre.ahead(k + 0) by {}
            }
        }
        // {<member_decl>}
        while !self.next_is(Token::RBrace)
            invariant
                pre == *old(self),
                self.follows(pre),
                h == exists|its: Seq<BodyItem>|
                    #[trigger] items_at(pre, its) && pre.ahead(items_len(its)).token@ == TokenView::RBrace,
                h ==> items_at(pre, gits) && pre.ahead(items_len(gits)).token@ == TokenView::RBrace,
                forall|fs: Seq<PlainField>|
                    #[trigger] plain_fields_at(pre, 0, fs) && pre.ahead(plain_fields_len(fs)).token@ == TokenView::RBrace
                        ==> items_at(pre, fs.map_values(|f: PlainField| BodyItem::Field(f))) && pre.ahead(
                    items_len(fs.map_values(|f: PlainField| BodyItem::Field(f))),
                ).token@ == TokenView::RBrace && item_fields(fs.map_values(|f: PlainField| BodyItem::Field(f))) == fs
                    && items_len(fs.map_values(|f: PlainField| BodyItem::Field(f))) == plain_fields_len(fs)
                    && item_nested(fs.map_values(|f: PlainField| BodyItem::Field(f))).len() == 0,
                hcx == (empty_constructor_at(pre, 0, classname@) && pre.ahead(5).token@ == TokenView::RBrace),
                hn == ((empty_decl_at(pre, "class"@) || empty_decl_at(pre, "interface"@) || empty_decl_at(pre, "enum"@))
                    && pre.ahead(4).token@ == TokenView::RBrace),
                hn ==> (members@.len() == 0 && subtypes@.len() == 0 && *self == pre) || (members@.len() == 0
                    && subtypes@.len() == 1 && self.shifted(pre, 4) && pre.ahead(1).token@ == TokenView::Identifier(
                    subtypes@[0].name@.last(),
                ) && subtypes@[0].body.members@.len() == 0),
                !is_modifier_token(TokenView::Keyword("class"@)),
                !is_modifier_token(TokenView::Keyword("interface"@)),
                !is_modifier_token(TokenView::Keyword("enum"@)),
                "class"@ != "interface"@ && "class"@ != "enum"@ && "interface"@ != "enum"@,
                hcx ==> (members@.len() == 0 && subtypes@.len() == 0 && *self == pre) || (members@.len() == 1
                    && members@[0].member_kind is Constructor && subtypes@.len() == 0 && self.shifted(pre, 5)),
                h ==> {
                    &&& 0 <= ki <= gits.len()
                    &&& subtypes@.len() == item_nested(gits.take(ki)).len()
                    &&& forall|i: int|
                        0 <= i < subtypes@.len() ==> (#[trigger] subtypes@[i]).name@ == prefix@.push(
                            item_nested(gits.take(ki))[i],
                        )
                    &&& self.shifted(pre, items_len(gits.take(ki)))
                    &&& members@.len() == item_fields(gits.take(ki)).len()
                    &&& forall|i: int|
                        0 <= i < members@.len() ==> {
                            &&& (#[trigger] members@[i]).name@ == item_fields(gits.take(ki))[i].2
                            &&& members@[i].member_kind->Property_reftype.name@ == item_fields(gits.take(ki))[i].0
                            &&& members@[i].member_kind->Property_arr_dim == item_fields(gits.take(ki))[i].1
                        }
                },
                pre.ahead(0).token@ == TokenView::RBrace ==> *self == pre && members@.len() == 0
                    && subtypes@.len() == 0,
                forall|i: int|
                    0 <= i < members@.len() && (#[trigger] members@[i]).member_kind is Constructor
                        ==> members@[i].name@ == classname@,
                forall|i: int|
                    0 <= i < subtypes@.len() ==> is_child_name(
                        prefix@,
                        (#[trigger] subtypes@[i]).name@,
                    ),
            decreases self.remaining(),
        {
            let ghost start = *self;
            let ghost k = ki;
            let ghost off = items_len(gits.take(k));
            let ghost fb = item_fields(gits.take(k));
            proof {
                if h {
                    lemma_items_take(pre, gits, k);
                    if k == gits.len() {
                        assert(gits.take(k) =~= gits);
                        assert(self.ahead(0) == pre.ahead(0 + items_len(gits)));
                    }
                    assert(self.ahead(0) == pre.ahead(0 + off));
                    assert(self.ahead(1) == pre.ahead(1 + off));
                    match gits[k] {
                        BodyItem::Field(f) => {
                            let l = plain_ref_type_len(f.0, f.1);
                            lemma_plain_ref_type_shift(pre, *self, off, 0, f.0, f.1);
                            lemma_plain_ref_type_starts(*self, 0, f.0, f.1);
                            assert(self.ahead(l) == pre.ahead(l + off));
                            assert(self.ahead(l + 1) == pre.ahead(l + 1 + off));
                            assert(plain_field_at(*self, f.0, f.1));
                            assert(self.ahead(0).token@ == TokenView::Identifier(f.0[0]));
                            if f.0.len() > 1 {
                                assert(self.ahead(0int + 2 * 0int + 1).token@ == TokenView::Dot);
                            } else if f.1 > 0 {
                                assert(self.ahead(0 + 2 * f.0.len() - 1 + 2 * 0).token@ == TokenView::LBracket);
                            }
                            assert(self.ahead(1).token@ != TokenView::LParen);
                            assert(self.ahead(1).token@ != TokenView::Op("-"@));
                        },
                        BodyItem::Semi => {},
                        BodyItem::Block(n, st) => {
                            if st {
                                lemma_balanced_group_shift(pre, *self, off, 1, TokenView::LBrace, TokenView::RBrace, n);
                            } else {
                                lemma_balanced_group_shift(pre, *self, off, 0, TokenView::LBrace, TokenView::RBrace, n);
                            }
                        },
                        BodyItem::Nested(_, _) => {
                            assert(self.ahead(2) == pre.ahead(2 + off));
                            assert(self.ahead(3) == pre.ahead(3 + off));
                        },
                    }
                }
            }
            proof {
                if hcx && members@.len() == 1 {
                    assert(self.ahead(0) == pre.ahead(0int + 5));
                }
                if hn && subtypes@.len() == 1 {
                    assert(self.ahead(0) == pre.ahead(0int + 4));
                }
            }
            if self.next_is(Token::EOF) {
                return Err(
                    ParseErrType::UnexpectedEOF.to_stack_parse_err(
                        self.get_current_token().addr,
                        ctx,
                    ),
                );
            }
            if self.next_is(Token::Semicolon) {
                self.get_next_token();
                proof {
                    if h {
                        match gits[k] {
                            BodyItem::Field(f) => {
                                lemma_plain_ref_type_starts(pre, off, f.0, f.1);
                            },
                            BodyItem::Block(n, st) => {},
                            BodyItem::Semi => {},
                            BodyItem::Nested(_, _) => {},
                        }
                        assert(gits[k] == BodyItem::Semi);
                        lemma_shifted_trans(pre, start, *self, off, 1);
                        ki = k + 1;
                    }
                }
                continue ;
            }
            let annotations = self.annotations().push_context(ctx)?;
            let ghost sm = *self;
            let mres = self.modifiers();
            proof {
                if h {
                    assert(sm == start);
                    match gits[k] {
                        BodyItem::Block(n, st) => {
                            if st {
                                lemma_single_modifier(sm, "static"@, Seq::<Seq<char>>::empty());
                                if mres is Ok {
                                    lemma_single_modifier(sm, "static"@, names_view(mres->Ok_0.modifiers@));
                                    assert(self.ahead(0) == sm.ahead(0int + 1));
                                } else {
                                    let ws = choose|ws: Seq<Seq<char>>|
                                        {
                                            &&& #[trigger] modifiers_spelled(sm, 0, ws)
                                            &&& access_of(ws) != AccessModifier::Default
                                            &&& sm.ahead(modifiers_len(ws)).token@ matches TokenView::Keyword(w)
                                            &&& access_word(w) is Some
                                        };
                                    lemma_single_modifier(sm, "static"@, ws);
                                    reveal_strlit("public");
                                    reveal_strlit("private");
                                    reveal_strlit("protected");
                                    assert(false);
                                }
                            }
                        },
                        _ => {},
                    }
                }
            }
            let modifiers = mres.push_context(ctx)?;
            let t0 = self.peek_token_offset(0);
            let is_ctor_name = match t0.token {
                Token::Identifier(s) => string_is(&classname, s),
                _ => false,
            };
            if self.next_is(Token::LBrace) {
                // initializer block
                let ghost sb = *self;
                let rr = self.skip_brace(Token::LBrace, Token::RBrace);
                proof {
                    if h {
                        match gits[k] {
                            BodyItem::Field(f) => {
                                lemma_plain_ref_type_starts(pre, off, f.0, f.1);
                                assert(false);
                            },
                            BodyItem::Semi => {
                                assert(false);
                            },
                            BodyItem::Block(n, st) => {
                                let pad: int = if st {
                                    1
                                } else {
                                    0
                                };
                                assert(sb.shifted(pre, off + pad));
                                lemma_balanced_group_shift(pre, sb, off + pad, 0, TokenView::LBrace, TokenView::RBrace, n);
                                if rr is Err {
                                    assert forall|m: int| !#[trigger] unclosed_group(sb, TokenView::LBrace, TokenView::RBrace, 0, m) by {
                                        lemma_balanced_not_unclosed(sb, TokenView::LBrace, TokenView::RBrace, 0, n, m);
                                    }
                                } else {
                                    let n2 = choose|x: int|
                                        balanced_group(sb, TokenView::LBrace, TokenView::RBrace, 0, x) && #[trigger] self.shifted(sb, x);
                                    lemma_balanced_group_unique(sb, TokenView::LBrace, TokenView::RBrace, 0, n2, n);
                                    lemma_shifted_trans(pre, sb, *self, off + pad, n);
                                    assert(item_fields(gits.take(k + 1)) == fb);
                                    ki = k + 1;
                                }
                            },
                            BodyItem::Nested(_, _) => {},
                        }
                    }
                }
                rr.push_context(ctx)?;
            } else if self.next_is(Token::Keyword("class")) {
                let ghost sc = *self;
                let ghost before = subtypes@;
                let mut typeclass = self.class_decl(prefix.duplicate()).push_context(ctx)?;
                typeclass.modifiers = modifiers;
                typeclass.annotation = annotations;
                subtypes.push(Rc::new(typeclass));
                proof {
                    if h {
                        match gits[k] {
                            BodyItem::Nested(kw, nm) => {
                                assert(sc == start);
                                lemma_shifted_trans(pre, start, *self, off, 4);
                                let tn = subtypes@.last().name@;
                                assert(tn.last() == nm);
                                assert(tn =~= prefix@.push(nm));
                                let nc = item_nested(gits.take(k + 1));
                                assert forall|i: int| 0 <= i < subtypes@.len() implies (#[trigger] subtypes@[i]).name@
                                    == prefix@.push(nc[i]) by {
                                    if i < before.len() {
                                        assert(subtypes@[i] == before[i]);
                                    }
                                }
                                assert(item_fields(gits.take(k + 1)) == fb);
                                ki = k + 1;
                            },
                            _ => {},
                        }
                    }
                }
            } else if self.next_is(Token::Keyword("enum")) {
                let ghost sc = *self;
                let ghost before = subtypes@;
                let mut typeclass = self.enum_decl(prefix.duplicate()).push_context(ctx)?;
                typeclass.modifiers = modifiers;
                typeclass.annotation = annotations;
                subtypes.push(Rc::new(typeclass));
                proof {
                    if h {
                        match gits[k] {
                            BodyItem::Nested(kw, nm) => {
                                assert(sc == start);
                                lemma_shifted_trans(pre, start, *self, off, 4);
                                let tn = subtypes@.last().name@;
                                assert(tn.last() == nm);
                                assert(tn =~= prefix@.push(nm));
                                let nc = item_nested(gits.take(k + 1));
                                assert forall|i: int| 0 <= i < subtypes@.len() implies (#[trigger] subtypes@[i]).name@
                                    == prefix@.push(nc[i]) by {
                                    if i < before.len() {
                                        assert(subtypes@[i] == before[i]);
                                    }
                                }
                                assert(item_fields(gits.take(k + 1)) == fb);
                                ki = k + 1;
                            },
                            _ => {},
                        }
                    }
                }
            } else if self.next_is(Token::At) && self.offset_is(1, Token::Keyword("interface")) {
                let mut typeclass = self.annotation_decl(prefix.duplicate()).push_context(ctx)?;
                typeclass.modifiers = modifiers;
                typeclass.annotation = annotations;
                subtypes.push(Rc::new(typeclass));
            } else if self.next_is(Token::Keyword("interface")) {
                let ghost sc = *self;
                let ghost before = subtypes@;
                let mut typeclass = self.interface_decl(prefix.duplicate()).push_context(ctx)?;
                typeclass.modifiers = modifiers;
                typeclass.annotation = annotations;
                subtypes.push(Rc::new(typeclass));
                proof {
                    if h {
                        match gits[k] {
                            BodyItem::Nested(kw, nm) => {
                                assert(sc == start);
                                lemma_shifted_trans(pre, start, *self, off, 4);
                                let tn = subtypes@.last().name@;
                                assert(tn.last() == nm);
                                assert(tn =~= prefix@.push(nm));
                                let nc = item_nested(gits.take(k + 1));
                                assert forall|i: int| 0 <= i < subtypes@.len() implies (#[trigger] subtypes@[i]).name@
                                    == prefix@.push(nc[i]) by {
                                    if i < before.len() {
                                        assert(subtypes@[i] == before[i]);
                                    }
                                }
                                assert(item_fields(gits.take(k + 1)) == fb);
                                ki = k + 1;
                            },
                            _ => {},
                        }
                    }
                }
            } else if self.next_is(Token::LessThan) {
                // <type_param_list> then a constructor or a method
                let type_param_list = self.type_param_list().push_context(ctx)?;
                let t = self.peek_next_token();
                let ctor = match t.token {
                    Token::Identifier(s) => string_is(&classname, s),
                    _ => false,
                };
                if ctor && self.offset_is(1, Token::LParen) {
                    let m = self.constructor_decl(type_param_list, annotations, modifiers, ctx)?;
                    members.push(Rc::new(m));
                } else {
                    let output = self.voidable_type().push_context(ctx)?;
                    let t = self.get_next_token();
                    let name = match t.token {
                        Token::Identifier(s) => s,
                        _ => {
                            let cur = self.get_current_token();
                            return Err(
                                ParseErrType::UnexpectedToken {
                                    expected: "IDENTIFIER",
                                    got: vec![cur.token.to_owned_token()],
                                }.to_stack_parse_err(cur.addr, ctx),
                            );
                        },
                    };
                    let m = self.method_rest(
                        name,
                        type_param_list,
                        output,
                        annotations,
                        modifiers,
                        ctx,
                    )?;
                    members.push(Rc::new(m));
                }
            } else if is_ctor_name && self.offset_is(1, Token::LParen) {
                // `classname <arg_list> ["throws" <ref_type> {"," <ref_type>}] <method_body>`
                let m = self.constructor_decl(
                    TypeParamList(Vec::new()),
                    annotations,
                    modifiers,
                    ctx,
                )?;
                members.push(Rc::new(m));
            } else if self.next_is(Token::Keyword("void")) || t0.token.is_identifier()
                || self.next_is(Token::At) {
                // a property or a method
                let ghost before = members@;
                let ghost s0 = *self;
                self.property_or_method(annotations, modifiers, &mut members, ctx)?;
                proof {
                    if h {
                        match gits[k] {
                            BodyItem::Field(f) => {
                                assert(s0 == start);
                                lemma_shifted_trans(pre, start, *self, off, plain_ref_type_len(f.0, f.1) + 2);
                                assert(start.ahead(plain_ref_type_len(f.0, f.1)) == pre.ahead(
                                    plain_ref_type_len(f.0, f.1) + off,
                                ));
                                let nf = item_fields(gits.take(k + 1));
                                assert(nf == fb.push(f));
                                assert forall|i: int| 0 <= i < members@.len() implies {
                                    &&& (#[trigger] members@[i]).name@ == nf[i].2
                                    &&& members@[i].member_kind->Property_reftype.name@ == nf[i].0
                                    &&& members@[i].member_kind->Property_arr_dim == nf[i].1
                                } by {
                                    if i < fb.len() {
                                        assert(members@[i] == before[i]);
                                    }
                                }
                                ki = k + 1;
                            },
                            _ => {},
                        }
                    }
                }
            } else {
                return Err(
                    ParseErrType::UnexpectedToken {
                        expected: "type_decl | type_param",
                        got: vec![t0.token.to_owned_token()],
                    }.to_stack_parse_err(t0.addr, ctx),
                );
            }
            assert(self.remaining() < start.remaining());
        }
        proof {
            if h {
                lemma_items_take(pre, gits, ki);
                if ki < gits.len() {
                    let off = items_len(gits.take(ki));
                    assert(self.ahead(0) == pre.ahead(0 + off));
                    match gits[ki] {
                        BodyItem::Field(f) => {
                            lemma_plain_ref_type_starts(pre, off, f.0, f.1);
                        },
                        _ => {},
                    }
                } else {
                    assert(gits.take(ki) =~= gits);
                }
                assert forall|its: Seq<BodyItem>|
                    #[trigger] items_at(pre, its) && pre.ahead(items_len(its)).token@ == TokenView::RBrace implies its
                    == gits by {
                    lemma_items_unique(pre, its, gits);
                }
            }
        }
        Ok(TypeBody { members, subtypes })
    }

    /// `<ref_type> IDENTIFIER ( <arg_list> <method_body> | [<assignment>] {"," IDENTIFIER [<assignment>]} ";" )`
    /// Adds the method, or one property per declarator, to `members`.
    fn property_or_method(
        &mut self,
        annotations: Vec<Annotation>,
        modifiers: Modifiers,
        members: &mut Vec<Rc<Member>>,
        ctx: (&'static str, usize),
    ) -> (r: ParseResult<()>)
        requires
            old(self).wf(),
        ensures
            final(self).follows(*old(self)),
            r is Ok ==> final(self).remaining() < old(self).remaining(),
            final(members)@.len() >= old(members)@.len(),
            forall|i: int| 0 <= i < old(members)@.len() ==> #[trigger] final(members)@[i] == old(members)@[i],
            forall|i: int|
                old(members)@.len() <= i < final(members)@.len() ==> !((#[trigger] final(members)@[i]).member_kind
                    is Constructor),
            forall|q: Seq<Seq<char>>, d: int|
                #[trigger] plain_field_at(*old(self), q, d) ==> {
                    &&& r is Ok
                    &&& final(members)@.len() == old(members)@.len() + 1
                    &&& old(self).ahead(plain_ref_type_len(q, d)).token@ == TokenView::Identifier(
                        final(members)@.last().name@,
                    )
                    &&& final(members)@.last().member_kind->Property_reftype.name@ == q
                    &&& final(members)@.last().member_kind->Property_arr_dim == d
                    &&& final(self).shifted(*old(self), plain_ref_type_len(q, d) + 2)
                },
    {
        let ghost h = exists|q: Seq<Seq<char>>, d: int| plain_field_at(*old(self), q, d);
        let ghost gqd = choose|q: Seq<Seq<char>>, d: int| plain_field_at(*old(self), q, d);
        let ghost gq = gqd.0;
        let ghost gd = gqd.1;
        let ghost gl = plain_ref_type_len(gq, gd);
        let output = self.voidable_type().push_context(ctx)?;
        let ghost s1 = *self;
        proof {
            if h {
                assert(s1.ahead(0) == old(self).ahead(0 + gl));
                assert(s1.ahead(1) == old(self).ahead(1 + gl));
            }
        }
        let void_addr = self.get_current_token().addr;
        let t = self.get_next_token();
        let ghost s2 = *self;
        proof {
            if h {
                lemma_shifted_trans(*old(self), s1, s2, gl, 1);
                assert(s2.ahead(0) == old(self).ahead(0 + (gl + 1)));
            }
        }
        let name = match t.token {
            Token::Identifier(s) => s,
            _ => {
                let cur = self.get_current_token();
                return Err(
                    ParseErrType::UnexpectedToken {
                        expected: "IDENTIFIER",
                        got: vec![cur.token.to_owned_token()],
                    }.to_stack_parse_err(cur.addr, ctx),
                );
            },
        };
        if self.next_is(Token::LParen) {
            let m = self.method_rest(
                name,
                TypeParamList(Vec::new()),
                output,
                annotations,
                modifiers,
                ctx,
            )?;
            members.push(Rc::new(m));
            return Ok(());
        }
        if !(self.next_is(Token::Assignment("=")) || self.next_is(Token::Comma) || self.next_is(
            Token::Semicolon,
        ) || self.next_is(Token::LBracket)) {
            let t = self.peek_next_token();
            return Err(
                ParseErrType::UnexpectedToken {
                    expected: "LBrace | = | Comma",
                    got: vec![t.token.to_owned_token()],
                }.to_stack_parse_err(t.addr, ctx),
            );
        }
        let reftype = match output {
            VoidableType::RefType(r) => r,
            VoidableType::Void => {
                return Err(
                    ParseErrType::UnexpectedToken {
                        expected: "IDENTIFIER",
                        got: vec![Token::Keyword("void").to_owned_token()],
                    }.to_stack_parse_err(void_addr, ctx),
                );
            },
        };
        proof {
            if h {
                assert(brackets_at(s2, 0, 0));
            }
        }
        let arr_dim = self.extra_dimensions(reftype.arr_dim, ctx)?;
        // "=" <skip_assignment>
        if self.next_is(Token::Assignment("=")) {
            self.skip_assignment(ctx)?;
        }
        members.push(
            Rc::new(
                Member {
                    name: name.to_owned(),
                    member_kind: MemberKind::Property { reftype: reftype.duplicate(), arr_dim },
                    annotations: copy_annotations(&annotations),
                    modifiers: modifiers.duplicate(),
                },
            ),
        );
        // {"," IDENTIFIER ["=" <skip_assignment>]} ";"
        let ghost mid = *self;
        proof {
            if h {
                assert(mid.ahead(0) == s2.ahead(0int + 0));
                lemma_shifted_trans(*old(self), s2, mid, gl + 1, 0);
                assert(old(self).ahead(gl).token@ == t.token@);
            }
        }
        while self.next_is(Token::Comma)
            invariant
                old(self).wf(),
                mid.follows(*old(self)),
                mid.remaining() < old(self).remaining(),
                self.follows(mid),
                members@.len() >= old(members)@.len(),
                forall|i: int| 0 <= i < old(members)@.len() ==> #[trigger] members@[i] == old(members)@[i],
                forall|i: int|
                    old(members)@.len() <= i < members@.len() ==> !((#[trigger] members@[i]).member_kind is Constructor),
                h == exists|q: Seq<Seq<char>>, d: int| plain_field_at(*old(self), q, d),
                h ==> *self == mid && mid.ahead(0).token@ == TokenView::Semicolon && mid.shifted(*old(self), gl + 1)
                    && members@.len() == old(members)@.len() + 1 && old(self).ahead(gl).token@ == TokenView::Identifier(
                    members@.last().name@,
                ) && members@.last().member_kind->Property_reftype.name@ == gq
                    && members@.last().member_kind->Property_arr_dim == gd,
            decreases self.remaining(),
        {
            self.get_next_token();
            let t = self.get_next_token();
            let name = match t.token {
                Token::Identifier(s) => s,
                _ => {
                    let cur = self.get_current_token();
                    return Err(
                        ParseErrType::UnexpectedToken {
                            expected: "IDENTIFIER",
                            got: vec![cur.token.to_owned_token()],
                        }.to_stack_parse_err(cur.addr, ctx),
                    );
                },
            };
            let arr_dim = self.extra_dimensions(reftype.arr_dim, ctx)?;
            if self.next_is(Token::Assignment("=")) {
                self.skip_assignment(ctx)?;
            } else if !(self.next_is(Token::Semicolon) || self.next_is(Token::Comma)) {
                let t = self.peek_next_token();
                return Err(
                    ParseErrType::UnexpectedToken {
                        expected: "Assignment | Semicolon | Comma",
                        got: vec![t.token.to_owned_token()],
                    }.to_stack_parse_err(t.addr, ctx),
                );
            }
            members.push(
                Rc::new(
                    Member {
                        name: name.to_owned(),
                        member_kind: MemberKind::Property { reftype: reftype.duplicate(), arr_dim },
                        annotations: copy_annotations(&annotations),
                        modifiers: modifiers.duplicate(),
                    },
                ),
            );
        }
        self.consume_token(Token::Semicolon, "Semicolon", ctx)?;
        proof {
            if h {
                lemma_shifted_trans(*old(self), mid, *self, gl + 1, 1);
                assert forall|q: Seq<Seq<char>>, d: int| #[trigger] plain_field_at(*old(self), q, d) implies q == gq
                    && d == gd by {
                    lemma_plain_ref_type_unique(*old(self), 0, q, d, gq, gd);
                }
            }
        }
        Ok(())
    }
}

} // verus!
