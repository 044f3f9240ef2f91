use vstd::prelude::*;

use crate::parser::parser::{
    balanced_group, lemma_balanced_group_shift, lemma_balanced_group_unique, lemma_balanced_not_unclosed, unclosed_group,
    ident_text, lemma_qualified_name_spelled, lemma_shifted_trans, lemma_spells_name_shift, lemma_spells_name_unique,
    spells_name, Parser,
};
use crate::text::str_eq;
use crate::parser::nonterminals::class::{
    lemma_plain_type_list_shift, lemma_plain_type_list_unique, lemma_plain_types_take, plain_type_list_at,
    plain_types_len, PlainType,
};
use crate::parser::token::{Token, TokenView};
use crate::types::{
    names_view, AccessModifier, Annotation, GenericParseResult, Modifiers, ParseErrType,
    ParseResult, QualifiedName, RefType, TypeArg, TypeArgList, TypeParam, TypeParamList,
    VoidableType,
};

verus! {

/// The words `modifiers` accepts without a second look.
pub open spec fn is_plain_modifier(w: Seq<char>) -> bool {
    ||| w == "public"@
    ||| w == "private"@
    ||| w == "protected"@
    ||| w == "abstract"@
    ||| w == "static"@
    ||| w == "final"@
    ||| w == "strictfp"@
    ||| w == "synchronized"@
    ||| w == "native"@
    ||| w == "transient"@
    ||| w == "volatile"@
    ||| w == "default"@
    ||| w == "sealed"@
}

/// From position `at` on, the tokens `non` `-` `sealed`: the modifier
/// `non-sealed`.
pub open spec fn non_sealed_at(p: Parser, at: int) -> bool {
    &&& p.ahead(at).token@ == TokenView::Identifier("non"@)
    &&& p.ahead(at + 1).token@ == TokenView::Op("-"@)
    &&& p.ahead(at + 2).token@ == TokenView::Keyword("sealed"@)
}

/// The tokens `non` `-` `sealed` come next.
pub open spec fn starts_non_sealed(p: Parser) -> bool {
    non_sealed_at(p, 0)
}

/// How many tokens the modifier words `ws` take: three for `non-sealed`,
/// one for each other word.
pub open spec fn modifiers_len(ws: Seq<Seq<char>>) -> int
    decreases ws.len(),
{
    if ws.len() == 0 {
        0
    } else {
        (if ws.last() == "non-sealed"@ {
            3int
        } else {
            1int
        }) + modifiers_len(ws.drop_last())
    }
}

/// The modifier words take no negative number of tokens.
pub proof fn lemma_modifiers_len_nonneg(ws: Seq<Seq<char>>)
    ensures
        modifiers_len(ws) >= 0,
    decreases ws.len(),
{
    if ws.len() > 0 {
        lemma_modifiers_len_nonneg(ws.drop_last());
    }
}

/// `non-sealed` is none of the one-token modifier words, and grants no
/// access.
pub proof fn lemma_non_sealed_distinct(w: Seq<char>)
    requires
        is_plain_modifier(w),
    ensures
        w != "non-sealed"@,
        access_word("non-sealed"@) is None,
{
    reveal_strlit("non-sealed");
    reveal_strlit("public");
    reveal_strlit("private");
    reveal_strlit("protected");
    reveal_strlit("abstract");
    reveal_strlit("static");
    reveal_strlit("final");
    reveal_strlit("strictfp");
    reveal_strlit("synchronized");
    reveal_strlit("native");
    reveal_strlit("transient");
    reveal_strlit("volatile");
    reveal_strlit("default");
    reveal_strlit("sealed");
    assert("non-sealed"@.len() == 10);
    assert("public"@.len() == 6 && "private"@.len() == 7 && "protected"@.len() == 9);
    assert("abstract"@.len() == 8 && "static"@.len() == 6 && "final"@.len() == 5);
    assert("strictfp"@.len() == 8 && "synchronized"@.len() == 12 && "native"@.len() == 6);
    assert("transient"@.len() == 9 && "volatile"@.len() == 8 && "default"@.len() == 7);
    assert("sealed"@.len() == 6);
}

/// The first `k` of the modifier words spelled from `at` are spelled from
/// `at` too.
pub proof fn lemma_modifiers_prefix(p: Parser, at: int, ws: Seq<Seq<char>>, k: int)
    requires
        modifiers_spelled(p, at, ws),
        0 <= k <= ws.len(),
    ensures
        modifiers_spelled(p, at, ws.take(k)),
    decreases ws.len(),
{
    if k == ws.len() {
        assert(ws.take(k) =~= ws);
    } else {
        lemma_modifiers_prefix(p, at, ws.drop_last(), k);
        assert(ws.take(k) =~= ws.drop_last().take(k));
    }
}

/// When one modifier word `w` comes and the next token is neither a
/// modifier nor an identifier, `w` is the only modifier word that can be
/// spelled.
pub proof fn lemma_single_modifier(p: Parser, w: Seq<char>, ws: Seq<Seq<char>>)
    requires
        p.ahead(0).token@ == TokenView::Keyword(w),
        is_plain_modifier(w),
        !is_modifier_token(p.ahead(1).token@),
        !(p.ahead(1).token@ is Identifier),
        modifiers_spelled(p, 0, ws),
    ensures
        ws.len() <= 1,
        ws.len() == 1 ==> ws[0] == w && modifiers_len(ws) == 1,
        access_of(ws) == AccessModifier::Default <== access_word(w) is None,
{
    lemma_non_sealed_distinct(w);
    if ws.len() >= 1 {
        lemma_modifiers_prefix(p, 0, ws, 1);
        let w1 = ws.take(1);
        assert(w1.drop_last() =~= Seq::<Seq<char>>::empty());
        assert(w1.last() == ws[0]);
    }
    if ws.len() >= 2 {
        lemma_modifiers_prefix(p, 0, ws, 2);
        let w2 = ws.take(2);
        assert(w2.drop_last() =~= ws.take(1));
        assert(w2.last() == ws[1]);
        assert(ws.take(1).drop_last() =~= Seq::<Seq<char>>::empty());
        assert(modifiers_len(ws.take(1)) == 1);
        assert(false);
    }
    if ws.len() == 1 {
        assert(ws.drop_last() =~= Seq::<Seq<char>>::empty());
        assert(access_of(ws.drop_last()) == AccessModifier::Default);
        assert(ws.last() == w);
    }
}

/// Before the keyword that opens a declaration, `public` is the only
/// modifier word that can be spelled.
pub proof fn lemma_public_before_decl(p: Parser, ws: Seq<Seq<char>>)
    requires
        p.ahead(0).token@ == TokenView::Keyword("public"@),
        !is_modifier_token(p.ahead(1).token@),
        p.ahead(1).token@ is Keyword,
        modifiers_spelled(p, 0, ws),
    ensures
        ws.len() <= 1,
        ws.len() == 1 ==> ws[0] == "public"@ && modifiers_len(ws) == 1,
{
    lemma_non_sealed_distinct("public"@);
    if ws.len() >= 1 {
        lemma_modifiers_prefix(p, 0, ws, 1);
        let w1 = ws.take(1);
        assert(w1.drop_last() =~= Seq::<Seq<char>>::empty());
        assert(w1.last() == ws[0]);
        assert(ws[0] == "public"@);
    }
    if ws.len() >= 2 {
        lemma_modifiers_prefix(p, 0, ws, 2);
        let w2 = ws.take(2);
        assert(w2.drop_last() =~= ws.take(1));
        assert(w2.last() == ws[1]);
        assert(ws.take(1).drop_last() =~= Seq::<Seq<char>>::empty());
        assert(modifiers_len(ws.take(1)) == 1);
        assert(false);
    }
    if ws.len() == 1 {
        assert(ws.drop_last() =~= Seq::<Seq<char>>::empty());
    }
}

/// From position `at` on, the tokens spell the modifier words `ws`, in
/// order.
pub open spec fn modifiers_spelled(p: Parser, at: int, ws: Seq<Seq<char>>) -> bool
    decreases ws.len(),
{
    if ws.len() == 0 {
        true
    } else {
        let k = at + modifiers_len(ws.drop_last());
        &&& modifiers_spelled(p, at, ws.drop_last())
        &&& if ws.last() == "non-sealed"@ {
            non_sealed_at(p, k)
        } else {
            p.ahead(k).token@ == TokenView::Keyword(ws.last()) && is_plain_modifier(ws.last())
        }
    }
}

/// The access that a modifier word grants, if it is an access modifier.
pub open spec fn access_word(w: Seq<char>) -> Option<AccessModifier> {
    if w == "public"@ {
        Some(AccessModifier::Public)
    } else if w == "private"@ {
        Some(AccessModifier::Private)
    } else if w == "protected"@ {
        Some(AccessModifier::Protected)
    } else {
        None
    }
}

/// The access given by the last access modifier in a list of words, or
/// default access if there is none.
pub open spec fn access_of(ws: Seq<Seq<char>>) -> AccessModifier
    decreases ws.len(),
{
    if ws.len() == 0 {
        AccessModifier::Default
    } else {
        match access_word(ws.last()) {
            Some(a) => a,
            None => access_of(ws.drop_last()),
        }
    }
}

/// Whether a word is one of Java's access keywords.
pub open spec fn is_access_keyword(w: Seq<char>) -> bool {
    ||| w == "public"@
    ||| w == "private"@
    ||| w == "protected"@
}

/// The Java keyword that grants an access, if one does: default access has
/// none.
pub open spec fn access_keyword(a: AccessModifier) -> Option<Seq<char>> {
    match a {
        AccessModifier::Public => Some("public"@),
        AccessModifier::Private => Some("private"@),
        AccessModifier::Protected => Some("protected"@),
        AccessModifier::Default => None,
    }
}

/// The access a list of modifier words gives is the one its last access
/// keyword names; with no access keyword in the list it is default access.
pub proof fn law_access_named_by_its_keyword(ws: Seq<Seq<char>>)
    ensures
        (forall|i: int| 0 <= i < ws.len() ==> !is_access_keyword(#[trigger] ws[i])) ==> access_of(ws)
            == AccessModifier::Default,
        forall|i: int|
            0 <= i < ws.len() && is_access_keyword(#[trigger] ws[i]) && (forall|k: int|
                i < k < ws.len() ==> !is_access_keyword(#[trigger] ws[k])) ==> access_keyword(access_of(ws)) == Some(
                ws[i],
            ),
    decreases ws.len(),
{
    reveal_strlit("public");
    reveal_strlit("private");
    reveal_strlit("protected");
    assert("public"@.len() == 6 && "private"@.len() == 7 && "protected"@.len() == 9);
    assert("public"@[1] != "private"@[1]);
    if ws.len() > 0 {
        let n = ws.len() - 1;
        let w = ws[n];
        law_access_named_by_its_keyword(ws.drop_last());
        if is_access_keyword(w) {
            assert(access_word(w) is Some);
            assert(access_keyword(access_word(w).unwrap()) == Some(w));
        } else {
            assert(access_word(w) is None);
            assert(access_of(ws) == access_of(ws.drop_last()));
            assert forall|i: int|
                0 <= i < ws.len() && is_access_keyword(#[trigger] ws[i]) && (forall|k: int|
                    i < k < ws.len() ==> !is_access_keyword(#[trigger] ws[k])) implies access_keyword(access_of(ws))
                == Some(ws[i]) by {
                assert(i < n);
                assert(ws.drop_last()[i] == ws[i]);
                assert forall|k: int| i < k < ws.drop_last().len() implies !is_access_keyword(
                    #[trigger] ws.drop_last()[k],
                ) by {
                    assert(ws.drop_last()[k] == ws[k]);
                }
            }
            if forall|i: int| 0 <= i < ws.len() ==> !is_access_keyword(#[trigger] ws[i]) {
                assert forall|i: int| 0 <= i < ws.drop_last().len() implies !is_access_keyword(
                    #[trigger] ws.drop_last()[i],
                ) by {
                    assert(ws.drop_last()[i] == ws[i]);
                }
            }
        }
    }
}

/// Whether the token is a keyword that `modifiers` reads.
pub open spec fn is_modifier_token(t: TokenView) -> bool {
    match t {
        TokenView::Keyword(w) => is_plain_modifier(w),
        _ => false,
    }
}

/// From position `at` on, the tokens of `p` are exactly `d` pairs `[` `]`,
/// not followed by another `[`.
pub open spec fn brackets_at(p: Parser, at: int, d: int) -> bool {
    &&& forall|i: int|
        0 <= i < d ==> (#[trigger] p.ahead(at + 2 * i)).token@ == TokenView::LBracket && p.ahead(at + 2 * i + 1).token@
            == TokenView::RBracket
    &&& p.ahead(at + 2 * d).token@ != TokenView::LBracket
}

/// From `at` on, the tokens spell a reference type with no annotation and
/// no type arguments: the name `q`, then `d` pairs `[` `]` (at most 255).
pub open spec fn plain_ref_type_at(p: Parser, at: int, q: Seq<Seq<char>>, d: int) -> bool {
    &&& spells_name(p, at, q)
    &&& p.ahead(at + 2 * q.len() - 1).token@ != TokenView::LessThan
    &&& 0 <= d <= 255
    &&& brackets_at(p, at + 2 * q.len() - 1, d)
}

/// How many tokens the plain reference type `q` with `d` dimensions takes.
pub open spec fn plain_ref_type_len(q: Seq<Seq<char>>, d: int) -> int {
    2 * q.len() - 1 + 2 * d
}

/// The tokens from `at` on give at most one count of bracket pairs.
pub proof fn lemma_brackets_unique(p: Parser, at: int, d1: int, d2: int)
    requires
        0 <= d1,
        0 <= d2,
        brackets_at(p, at, d1),
        brackets_at(p, at, d2),
    ensures
        d1 == d2,
{
    if d1 < d2 {
        assert(p.ahead(at + 2 * d1).token@ == TokenView::LBracket);
    } else if d2 < d1 {
        assert(p.ahead(at + 2 * d2).token@ == TokenView::LBracket);
    }
}

/// Reading `off` tokens moves `d` bracket pairs `off` places closer.
pub proof fn lemma_brackets_shift(p: Parser, s: Parser, off: int, at: int, d: int)
    requires
        0 <= off,
        0 <= at,
        0 <= d,
        s.shifted(p, off),
    ensures
        brackets_at(s, at, d) == brackets_at(p, at + off, d),
{
    assert(s.ahead(at + 2 * d) == p.ahead(at + 2 * d + off));
    assert forall|i: int| 0 <= i < d implies #[trigger] s.ahead(at + 2 * i) == p.ahead(at + off + 2 * i) && s.ahead(
        at + 2 * i + 1,
    ) == p.ahead(at + off + 2 * i + 1) by {
        assert(s.ahead(at + 2 * i) == p.ahead(at + 2 * i + off));
        assert(s.ahead(at + 2 * i + 1) == p.ahead(at + 2 * i + 1 + off));
    }
    if brackets_at(s, at, d) {
        assert forall|i: int| 0 <= i < d implies (#[trigger] p.ahead(at + off + 2 * i)).token@ == TokenView::LBracket
            && p.ahead(at + off + 2 * i + 1).token@ == TokenView::RBracket by {
            assert(s.ahead(at + 2 * i) == p.ahead(at + off + 2 * i));
        }
    }
    if brackets_at(p, at + off, d) {
        assert forall|i: int| 0 <= i < d implies (#[trigger] s.ahead(at + 2 * i)).token@ == TokenView::LBracket && s.ahead(
            at + 2 * i + 1,
        ).token@ == TokenView::RBracket by {
            assert(p.ahead(at + off + 2 * i).token@ == TokenView::LBracket);
        }
    }
}

/// A plain reference type starts with an identifier.
pub proof fn lemma_plain_ref_type_starts(p: Parser, at: int, q: Seq<Seq<char>>, d: int)
    requires
        plain_ref_type_at(p, at, q, d),
    ensures
        p.ahead(at).token@ == TokenView::Identifier(q[0]),
{
    assert(p.ahead(at + 2 * 0).token@ == TokenView::Identifier(q[0]));
}

/// From position `at` on, the tokens are a reference type with one plain
/// type argument: the name `q`, `<`, the plain type (name `aq`, `ad`
/// dimensions), `>`, then `d` pairs `[` `]` (at most 255).
pub open spec fn generic_ref_type_at(p: Parser, at: int, q: Seq<Seq<char>>, aq: Seq<Seq<char>>, ad: int, d: int) -> bool {
    let la = plain_ref_type_len(aq, ad);
    &&& spells_name(p, at, q)
    &&& p.ahead(at + 2 * q.len() - 1).token@ == TokenView::LessThan
    &&& plain_ref_type_at(p, at + 2 * q.len(), aq, ad)
    &&& p.ahead(at + 2 * q.len() + la).token@ == TokenView::GreaterThan
    &&& 0 <= d <= 255
    &&& brackets_at(p, at + 2 * q.len() + la + 1, d)
}

/// A reference type with one plain argument reads the same `off` tokens
/// later.
pub proof fn lemma_generic_ref_type_shift(p: Parser, s: Parser, off: int, at: int, q: Seq<Seq<char>>, aq: Seq<Seq<char>>, ad: int, d: int)
    requires
        0 <= off,
        0 <= at,
        s.shifted(p, off),
        generic_ref_type_at(p, at + off, q, aq, ad, d),
    ensures
        generic_ref_type_at(s, at, q, aq, ad, d),
{
    let la = plain_ref_type_len(aq, ad);
    lemma_spells_name_shift(p, s, off, at, q);
    assert(s.ahead(at + 2 * q.len() - 1) == p.ahead(at + 2 * q.len() - 1 + off));
    lemma_plain_ref_type_shift(p, s, off, at + 2 * q.len(), aq, ad);
    assert(aq.len() >= 1 && ad >= 0);
    assert(s.ahead(at + 2 * q.len() + la) == p.ahead(at + 2 * q.len() + la + off));
    lemma_brackets_shift(p, s, off, at + 2 * q.len() + la + 1, d);
}

/// How many tokens such a reference type takes.
pub open spec fn generic_ref_type_len(q: Seq<Seq<char>>, aq: Seq<Seq<char>>, ad: int, d: int) -> int {
    2 * q.len() + plain_ref_type_len(aq, ad) + 1 + 2 * d
}

/// From `at` on, the tokens spell a reference type whose type arguments
/// are plain types: the name `q`, `<`, the plain types `ts` separated by
/// `,`, `>`, then `d` pairs `[` `]` (at most 255).
pub open spec fn generic_list_ref_type_at(p: Parser, at: int, q: Seq<Seq<char>>, ts: Seq<PlainType>, d: int) -> bool {
    let lt = at + 2 * q.len() - 1;
    &&& spells_name(p, at, q)
    &&& p.ahead(lt).token@ == TokenView::LessThan
    &&& plain_type_list_at(p, lt + 1, ts)
    &&& p.ahead(lt + plain_types_len(ts)).token@ == TokenView::GreaterThan
    &&& 0 <= d <= 255
    &&& brackets_at(p, lt + plain_types_len(ts) + 1, d)
}

/// How many tokens such a reference type takes.
pub open spec fn generic_list_ref_type_len(q: Seq<Seq<char>>, ts: Seq<PlainType>, d: int) -> int {
    2 * q.len() + plain_types_len(ts) + 2 * d
}

/// The tokens are a type parameter list of bare names `ns` (at least
/// one): `<`, the names separated by `,`, then `>`.
pub open spec fn bare_type_params_at(p: Parser, ns: Seq<Seq<char>>) -> bool {
    &&& ns.len() >= 1
    &&& p.ahead(0).token@ == TokenView::LessThan
    &&& forall|i: int| 0 <= i < ns.len() ==> (#[trigger] p.ahead(1 + 2 * i)).token@ == TokenView::Identifier(ns[i])
    &&& forall|i: int| 0 <= i < ns.len() - 1 ==> (#[trigger] p.ahead(2 + 2 * i)).token@ == TokenView::Comma
    &&& p.ahead(2 * (ns.len() as int)).token@ == TokenView::GreaterThan
}

/// A parameter written with plain tokens: its type's name and array
/// dimensions, whether `final` comes before it, and whether `...` comes
/// after its type.
pub type PlainParam = (Seq<Seq<char>>, int, bool, bool);

/// How many tokens `...` takes after the parameter's type.
pub open spec fn param_dots(pp: PlainParam) -> int {
    if pp.3 {
        1
    } else {
        0
    }
}

/// How many tokens `final` takes before the parameter.
pub open spec fn param_skip(pp: PlainParam) -> int {
    if pp.2 {
        1
    } else {
        0
    }
}

/// How many tokens the parameters `ps` take, each with its name and the
/// `,` or `)` after it.
pub open spec fn plain_params_len(ps: Seq<PlainParam>) -> int
    decreases ps.len(),
{
    if ps.len() == 0 {
        0
    } else {
        plain_params_len(ps.drop_last()) + param_skip(ps.last()) + plain_ref_type_len(ps.last().0, ps.last().1)
            + param_dots(ps.last()) + 2
    }
}

/// After the `(`, the tokens give each parameter of `ps`: `final` where
/// its flag is set, a plain type and a name; the separators are not looked
/// at.
pub open spec fn plain_params_spelled(p: Parser, ps: Seq<PlainParam>) -> bool
    decreases ps.len(),
{
    if ps.len() == 0 {
        true
    } else {
        let at = 1 + plain_params_len(ps.drop_last());
        let f = param_skip(ps.last());
        let e = at + f + plain_ref_type_len(ps.last().0, ps.last().1);
        &&& plain_params_spelled(p, ps.drop_last())
        &&& (ps.last().2 ==> p.ahead(at).token@ == TokenView::Keyword("final"@))
        &&& plain_ref_type_at(p, at + f, ps.last().0, ps.last().1)
        &&& (ps.last().3 ==> p.ahead(e).token@ == TokenView::Op("..."@))
        &&& p.ahead(e + param_dots(ps.last())).token@ is Identifier
    }
}

/// The tokens are a parameter list of plain parameters `ps` (at least
/// one): `(`, then each parameter's `final` (where it has one), type and
/// name (with `...` between them for the last one where its flag is set),
/// separated by `,`, then `)`; no annotation and no `[]` after a name.
pub open spec fn plain_param_list_at(p: Parser, ps: Seq<PlainParam>) -> bool {
    &&& ps.len() >= 1
    &&& forall|i: int| 0 <= i < ps.len() - 1 ==> !(#[trigger] ps[i]).3
    &&& p.ahead(0).token@ == TokenView::LParen
    &&& plain_params_spelled(p, ps)
    &&& forall|i: int| 1 <= i < ps.len() ==> p.ahead(#[trigger] plain_params_len(ps.take(i))).token@ == TokenView::Comma
    &&& p.ahead(plain_params_len(ps)).token@ == TokenView::RParen
}

/// Every prefix of spelled parameters is spelled, and the next parameter
/// comes right after it.
pub proof fn lemma_plain_params_take(p: Parser, ps: Seq<PlainParam>, k: int)
    requires
        plain_params_spelled(p, ps),
        0 <= k <= ps.len(),
    ensures
        plain_params_spelled(p, ps.take(k)),
        plain_params_len(ps.take(k)) >= 0,
        k < ps.len() ==> (ps[k].2 ==> p.ahead(1 + plain_params_len(ps.take(k))).token@ == TokenView::Keyword(
            "final"@,
        )),
        k < ps.len() ==> plain_ref_type_at(p, 1 + plain_params_len(ps.take(k)) + param_skip(ps[k]), ps[k].0, ps[k].1),
        k < ps.len() ==> (ps[k].3 ==> p.ahead(1 + plain_params_len(ps.take(k)) + param_skip(ps[k]) + plain_ref_type_len(ps[k].0, ps[k].1)).token@
            == TokenView::Op("..."@)),
        k < ps.len() ==> p.ahead(1 + plain_params_len(ps.take(k)) + param_skip(ps[k]) + plain_ref_type_len(ps[k].0, ps[k].1)
            + param_dots(ps[k])).token@ is Identifier,
        k < ps.len() ==> plain_params_len(ps.take(k + 1)) == plain_params_len(ps.take(k)) + param_skip(ps[k])
            + plain_ref_type_len(ps[k].0, ps[k].1) + param_dots(ps[k]) + 2,
    decreases ps.len(),
{
    if k == ps.len() {
        assert(ps.take(k) =~= ps);
        if ps.len() > 0 {
            lemma_plain_params_take(p, ps.drop_last(), k - 1);
            assert(ps.drop_last().take(k - 1) =~= ps.drop_last());
            let f = ps.last();
            assert(f.0.len() >= 1 && 0 <= f.1);
        }
    } else {
        lemma_plain_params_take(p, ps.drop_last(), k);
        assert(ps.take(k) =~= ps.drop_last().take(k));
        if k + 1 < ps.len() {
            lemma_plain_params_take(p, ps.drop_last(), k + 1);
            assert(ps.take(k + 1) =~= ps.drop_last().take(k + 1));
        } else {
            assert(ps.take(k + 1) =~= ps);
            assert(ps.drop_last() =~= ps.take(k));
        }
    }
}

/// Two runs of spelled parameters agree on their common length.
pub proof fn lemma_plain_params_prefix(p: Parser, a: Seq<PlainParam>, b: Seq<PlainParam>)
    requires
        plain_params_spelled(p, a),
        plain_params_spelled(p, b),
        a.len() <= b.len(),
    ensures
        a == b.take(a.len() as int),
    decreases a.len(),
{
    if a.len() == 0 {
        assert(a =~= b.take(0));
    } else {
        let n = a.len() - 1;
        lemma_plain_params_prefix(p, a.drop_last(), b);
        lemma_plain_params_take(p, b, n);
        assert(a.drop_last() == b.take(n));
        let f = a.last();
        let g = b[n];
        let at = 1 + plain_params_len(a.drop_last());
        lemma_plain_params_take(p, a, n);
        assert(a.take(n) =~= a.drop_last());
        if f.2 && !g.2 {
            lemma_plain_ref_type_starts(p, at, g.0, g.1);
        } else if g.2 && !f.2 {
            lemma_plain_ref_type_starts(p, at, f.0, f.1);
        }
        lemma_plain_ref_type_unique(p, at + param_skip(f), f.0, f.1, g.0, g.1);
        assert(a =~= b.take(a.len() as int));
    }
}

/// A plain parameter list is determined by its tokens.
pub proof fn lemma_plain_param_list_unique(p: Parser, a: Seq<PlainParam>, b: Seq<PlainParam>)
    requires
        plain_param_list_at(p, a),
        plain_param_list_at(p, b),
    ensures
        a == b,
{
    if a.len() < b.len() {
        lemma_plain_params_prefix(p, a, b);
        assert(p.ahead(plain_params_len(b.take(a.len() as int))).token@ == TokenView::Comma);
    } else if b.len() < a.len() {
        lemma_plain_params_prefix(p, b, a);
        assert(p.ahead(plain_params_len(a.take(b.len() as int))).token@ == TokenView::Comma);
    } else {
        lemma_plain_params_prefix(p, a, b);
        assert(b.take(a.len() as int) =~= b);
    }
}

/// The tokens are `(`, a plain reference type, a parameter name and `)`:
/// a parameter list with one plain parameter.
pub open spec fn single_param_at(p: Parser, q: Seq<Seq<char>>, d: int) -> bool {
    &&& p.ahead(0).token@ == TokenView::LParen
    &&& plain_ref_type_at(p, 1, q, d)
    &&& p.ahead(1 + plain_ref_type_len(q, d)).token@ is Identifier
    &&& p.ahead(2 + plain_ref_type_len(q, d)).token@ == TokenView::RParen
}

/// The tokens are `@`, the name `q`, and an argument group of `n` tokens
/// in parentheses or braces.
pub open spec fn annotation_args_at(p: Parser, q: Seq<Seq<char>>, n: int) -> bool {
    &&& p.ahead(0).token@ == TokenView::At
    &&& spells_name(p, 1, q)
    &&& (balanced_group(p, TokenView::LParen, TokenView::RParen, 2 * q.len() as int, n) || balanced_group(
        p,
        TokenView::LBrace,
        TokenView::RBrace,
        2 * q.len() as int,
        n,
    ))
}

/// The tokens are `@` and the name `q`, with no argument list after it.
pub open spec fn bare_annotation_at(p: Parser, q: Seq<Seq<char>>) -> bool {
    &&& p.ahead(0).token@ == TokenView::At
    &&& spells_name(p, 1, q)
    &&& p.ahead(2 * q.len() as int).token@ != TokenView::LBrace
    &&& p.ahead(2 * q.len() as int).token@ != TokenView::LParen
}

/// The tokens from `at` on spell at most one plain reference type.
pub proof fn lemma_plain_ref_type_unique(p: Parser, at: int, q1: Seq<Seq<char>>, d1: int, q2: Seq<Seq<char>>, d2: int)
    requires
        plain_ref_type_at(p, at, q1, d1),
        plain_ref_type_at(p, at, q2, d2),
    ensures
        q1 == q2,
        d1 == d2,
{
    lemma_spells_name_unique(p, at, q1, q2);
    lemma_brackets_unique(p, at + 2 * q1.len() - 1, d1, d2);
}

/// Reading `off` tokens moves a plain reference type `off` places closer.
pub proof fn lemma_plain_ref_type_shift(p: Parser, s: Parser, off: int, at: int, q: Seq<Seq<char>>, d: int)
    requires
        0 <= off,
        0 <= at,
        s.shifted(p, off),
    ensures
        plain_ref_type_at(s, at, q, d) == plain_ref_type_at(p, at + off, q, d),
{
    lemma_spells_name_shift(p, s, off, at, q);
    let b = at + 2 * q.len() - 1;
    if q.len() >= 1 && d >= 0 {
        assert(s.ahead(b) == p.ahead(b + off));
        assert(s.ahead(b + 2 * d) == p.ahead(b + 2 * d + off));
        assert forall|i: int| 0 <= i < d implies #[trigger] s.ahead(b + 2 * i) == p.ahead(b + off + 2 * i) && s.ahead(
            b + 2 * i + 1,
        ) == p.ahead(b + off + 2 * i + 1) by {
            assert(s.ahead(b + 2 * i) == p.ahead(b + 2 * i + off));
            assert(s.ahead(b + 2 * i + 1) == p.ahead(b + 2 * i + 1 + off));
        }
        if brackets_at(s, b, d) {
            assert forall|i: int| 0 <= i < d implies (#[trigger] p.ahead(b + off + 2 * i)).token@ == TokenView::LBracket
                && p.ahead(b + off + 2 * i + 1).token@ == TokenView::RBracket by {
                assert(s.ahead(b + 2 * i) == p.ahead(b + off + 2 * i));
            }
        }
        if brackets_at(p, b + off, d) {
            assert forall|i: int| 0 <= i < d implies (#[trigger] s.ahead(b + 2 * i)).token@ == TokenView::LBracket
                && s.ahead(b + 2 * i + 1).token@ == TokenView::RBracket by {
                assert(p.ahead(b + off + 2 * i).token@ == TokenView::LBracket);
            }
        }
    }
}

impl<'a> Parser<'a> {
    /// `<qualified_name> ::= IDENTIFIER {"." IDENTIFIER}`
    pub fn qualified_name(&mut self) -> (r: ParseResult<QualifiedName>)
        requires
            old(self).wf(),
        ensures
            final(self).follows(*old(self)),
            r is Ok <==> old(self).ahead(0).token@ is Identifier,
            r matches Ok(q) ==> {
                &&& q@.len() >= 1
                &&& final(self).remaining() < old(self).remaining()
                &&& final(self).shifted(*old(self), 2 * q@.len() - 1)
                &&& forall|i: int|
                    0 <= i < q@.len() ==> old(self).ahead(2 * i).token@ == TokenView::Identifier(
                        #[trigger] q@[i],
                    )
                &&& forall|j: int|
                    0 <= j < 2 * q@.len() - 1 && j % 2 == 1 ==> (#[trigger] old(self).ahead(j)).token@
                        == TokenView::Dot
                &&& !(final(self).ahead(0).token@ == TokenView::Dot && final(self).ahead(1).token@ is Identifier)
                &&& final(self).current().token@ == TokenView::Identifier(q@.last())
            },
            r matches Err(e) ==> e.err_index == old(self).ahead(0).addr,
    {
        let ctx = ("qualified_name", self.peek_next_token().addr);
        let ghost pre = *self;
        let mut name: Vec<String> = Vec::new();
        // IDENTIFIER
        let token = self.get_next_token();
        match token.token {
            Token::Identifier(s) => {
                name.push(s.to_owned());
            },
            _ => {
                return Err(
                    ParseErrType::UnexpectedToken {
                        expected: "IDENTIFIER",
                        got: vec![token.token.to_owned_token()],
                    }.to_stack_parse_err(token.addr, ctx),
                );
            },
        }
        assert(names_view(name@) =~= seq![ident_text(pre.ahead(0).token@)]);
        // {"." IDENTIFIER}
        loop
            invariant
                pre == *old(self),
                pre.wf(),
                self.follows(pre),
                self.remaining() < pre.remaining(),
                name@.len() >= 1,
                self.shifted(pre, 2 * name@.len() - 1),
                forall|i: int|
                    0 <= i < name@.len() ==> pre.ahead(2 * i).token@ == TokenView::Identifier(
                        #[trigger] names_view(name@)[i],
                    ),
                forall|j: int|
                    0 <= j < 2 * name@.len() - 1 && j % 2 == 1 ==> (#[trigger] pre.ahead(j)).token@
                        == TokenView::Dot,
                self.current().token@ == TokenView::Identifier(names_view(name@).last()),
            ensures
                !(self.ahead(0).token@ == TokenView::Dot && self.ahead(1).token@ is Identifier),
            decreases self.remaining(),
        {
            let t0 = self.peek_token_offset(0);
            let t1 = self.peek_token_offset(1);
            match (t0.token, t1.token) {
                (Token::Dot, Token::Identifier(s)) => {
                    let ghost n = name@.len() as int;
                    let ghost s0 = *self;
                    let ghost old_names = names_view(name@);
                    name.push(s.to_owned());
                    assert(names_view(name@) =~= old_names.push(s@));
                    self.get_next_token();
                    let ghost s1 = *self;
                    self.get_next_token();
                    proof {
                        assert(s1.ahead(0) == s0.ahead(1));
                        assert forall|k: int| 0 <= k implies #[trigger] self.ahead(k) == pre.ahead(
                            k + 2 * (n + 1) - 1,
                        ) by {
                            assert(s1.ahead(k + 1) == s0.ahead(k + 2));
                            assert(s0.ahead(k + 2) == pre.ahead(k + 2 + 2 * n - 1));
                        }
                        assert(pre.ahead(2 * n) == s0.ahead(1));
                        assert(pre.ahead(2 * n - 1) == s0.ahead(0));
                        assert forall|i: int|
                            0 <= i < n + 1 implies pre.ahead(2 * i).token@ == TokenView::Identifier(
                            #[trigger] names_view(name@)[i],
                        ) by {
                            if i < n {
                                assert(old_names[i] == names_view(name@)[i]);
                            }
                        }
                        assert(s0.ahead(0) == t0);
                        assert(t0.token@ == TokenView::Dot);
                    }
                },
                _ => {
                    break ;
                },
            }
        }
        let q = QualifiedName(name);
        Ok(q)
    }

    /// `<annotations> ::= {<annotation>}`; an `@interface` is not an
    /// annotation and ends the list.
    pub fn annotations(&mut self) -> (r: ParseResult<Vec<Annotation>>)
        requires
            old(self).wf(),
        ensures
            final(self).follows(*old(self)),
            r matches Ok(v) ==> !(final(self).ahead(0).token@ == TokenView::At && final(self).ahead(1).token@ != TokenView::Keyword("interface"@)),
            r matches Ok(v) ==> (v@.len() == 0 <==> *final(self) == *old(self)),
            old(self).ahead(0).token@ != TokenView::At || old(self).ahead(1).token@ == TokenView::Keyword(
                "interface"@,
            ) ==> (r matches Ok(v) && v@.len() == 0 && *final(self) == *old(self)),
    {
        let ctx = ("annotations", self.peek_next_token().addr);
        let mut v: Vec<Annotation> = Vec::new();
        let ghost pre = *self;
        while self.next_is(Token::At) && !self.offset_is(1, Token::Keyword("interface"))
            invariant
                pre == *old(self),
                self.follows(pre),
                v@.len() == 0 ==> *self == pre,
                v@.len() > 0 ==> self.remaining() < pre.remaining(),
                pre.ahead(0).token@ != TokenView::At || pre.ahead(1).token@ == TokenView::Keyword("interface"@)
                    ==> v@.len() == 0,
            decreases self.remaining(),
        {
            let a = self.annotation().push_context(ctx)?;
            v.push(a);
        }
        Ok(v)
    }

    /// `<annotation> ::= "@" <qualified_name> [( "(" <skip_parens> ")" )| ( "{" <skip_brace> "}" )]`
    /// The annotation keeps its source text, from `@` to its last token.
    pub fn annotation(&mut self) -> (r: ParseResult<Annotation>)
        requires
            old(self).wf(),
        ensures
            final(self).follows(*old(self)),
            r is Ok ==> {
                &&& old(self).ahead(0).token@ == TokenView::At
                &&& old(self).ahead(1).token@ != TokenView::Keyword("interface"@)
                &&& final(self).remaining() < old(self).remaining()
            },
            r matches Ok(a) ==> {
                &&& a.name@.len() >= 1
                &&& old(self).ahead(1).token@ == TokenView::Identifier(a.name@[0])
                &&& spells_name(*old(self), 1, a.name@)
                &&& old(self).ahead(0).addr <= final(self).current().addr + final(self).current().len
                    <= old(self).source()@.len()
                &&& a.s@ == old(self).source()@.subrange(
                    old(self).ahead(0).addr as int,
                    final(self).current().addr + final(self).current().len,
                )
            },
            old(self).ahead(0).token@ != TokenView::At ==> r is Err,
            forall|q: Seq<Seq<char>>|
                #[trigger] bare_annotation_at(*old(self), q) ==> (r matches Ok(a) && a.name@ == q && final(self).shifted(
                    *old(self),
                    2 * q.len() as int,
                )),
            forall|q: Seq<Seq<char>>, n: int|
                #[trigger] annotation_args_at(*old(self), q, n) ==> (
                r matches Ok(a) && a.name@ == q && final(self).shifted(*old(self), 2 * q.len() as int + n)),
    {
        let ghost ha = exists|q: Seq<Seq<char>>, n: int|
            #[trigger] annotation_args_at(*old(self), q, n);
        let ghost ga = choose|q: Seq<Seq<char>>, n: int|
            #[trigger] annotation_args_at(*old(self), q, n);
        let ghost h = exists|q: Seq<Seq<char>>| bare_annotation_at(*old(self), q);
        let ghost gq = choose|q: Seq<Seq<char>>| bare_annotation_at(*old(self), q);
        let ctx = ("annotation", self.peek_next_token().addr);
        let ghost pre = *self;
        let at = self.get_next_token();
        if !crate::parser::token::token_eq(&at.token, &Token::At) {
            let cur = self.get_current_token();
            return Err(
                ParseErrType::UnexpectedToken {
                    expected: "@",
                    got: vec![cur.token.to_owned_token()],
                }.to_stack_parse_err(cur.addr, ctx),
            );
        }
        proof {
            if h {
                assert(self.ahead(0) == old(self).ahead(0int + 1));
                assert(old(self).ahead(1int + 2 * 0).token@ == TokenView::Identifier(gq[0]));
            }
            if ha {
                assert(spells_name(*old(self), 1, ga.0));
                assert(self.ahead(0) == old(self).ahead(0int + 1));
                assert(old(self).ahead(1int + 2 * 0).token@ == TokenView::Identifier(ga.0[0]));
            }
        }
        if self.next_is(Token::Keyword("interface")) {
            let cur = self.get_current_token();
            return Err(
                ParseErrType::UnexpectedToken {
                    expected: "IDENTIFIER",
                    got: vec![Token::Keyword("interface").to_owned_token()],
                }.to_stack_parse_err(cur.addr, ctx),
            );
        }
        let ghost after_at = *self;
        proof {
            if h {
                lemma_spells_name_shift(*old(self), after_at, 1, 0, gq);
                assert(after_at.ahead(0int + 2 * 0).token@ == TokenView::Identifier(gq[0]));
            }
            if ha {
                lemma_spells_name_shift(*old(self), after_at, 1, 0, ga.0);
                assert(after_at.ahead(0int + 2 * 0).token@ == TokenView::Identifier(ga.0[0]));
            }
        }
        let start_ind = self.get_current_token().addr;
        // <qualified_name>
        let name = self.qualified_name().push_context(ctx)?;
        let ghost s2 = *self;
        proof {
            lemma_qualified_name_spelled(after_at, s2, name@);
            lemma_spells_name_shift(*old(self), after_at, 1, 0, name@);
            if h {
                lemma_spells_name_unique(after_at, 0, gq, name@);
                lemma_shifted_trans(*old(self), after_at, s2, 1, 2 * gq.len() - 1);
                assert(s2.ahead(0) == old(self).ahead(0 + 2 * gq.len() as int));
            }
            if ha {
                lemma_spells_name_unique(after_at, 0, ga.0, name@);
                lemma_shifted_trans(*old(self), after_at, s2, 1, 2 * ga.0.len() - 1);
                assert(s2.ahead(0) == old(self).ahead(0 + 2 * ga.0.len() as int));
            }
        }
        // [( "(" <skip_parens> ")" )| ( "{" <skip_brace> "}" )]
        if self.next_is(Token::LBrace) {
            let rr = self.skip_brace(Token::LBrace, Token::RBrace);
            proof {
                if ha {
                    let off = 2 * ga.0.len() as int;
                    lemma_balanced_group_shift(*old(self), s2, off, 0, TokenView::LBrace, TokenView::RBrace, ga.1);
                    if rr is Err {
                        assert forall|m: int| !#[trigger] unclosed_group(s2, TokenView::LBrace, TokenView::RBrace, 0, m) by {
                            lemma_balanced_not_unclosed(s2, TokenView::LBrace, TokenView::RBrace, 0, ga.1, m);
                        }
                    } else {
                        let n2 = choose|n: int|
                            balanced_group(s2, TokenView::LBrace, TokenView::RBrace, 0, n) && #[trigger] self.shifted(s2, n);
                        lemma_balanced_group_unique(s2, TokenView::LBrace, TokenView::RBrace, 0, n2, ga.1);
                        lemma_shifted_trans(*old(self), s2, *self, off, ga.1);
                    }
                }
            }
            rr.push_context(ctx)?;
        } else if self.next_is(Token::LParen) {
            let rr = self.skip_brace(Token::LParen, Token::RParen);
            proof {
                if ha {
                    let off = 2 * ga.0.len() as int;
                    lemma_balanced_group_shift(*old(self), s2, off, 0, TokenView::LParen, TokenView::RParen, ga.1);
                    if rr is Err {
                        assert forall|m: int| !#[trigger] unclosed_group(s2, TokenView::LParen, TokenView::RParen, 0, m) by {
                            lemma_balanced_not_unclosed(s2, TokenView::LParen, TokenView::RParen, 0, ga.1, m);
                        }
                    } else {
                        let n2 = choose|n: int|
                            balanced_group(s2, TokenView::LParen, TokenView::RParen, 0, n) && #[trigger] self.shifted(s2, n);
                        lemma_balanced_group_unique(s2, TokenView::LParen, TokenView::RParen, 0, n2, ga.1);
                        lemma_shifted_trans(*old(self), s2, *self, off, ga.1);
                    }
                }
            }
            rr.push_context(ctx)?;
        }
        proof {
            if h {
                assert(*self == s2);
                assert forall|q: Seq<Seq<char>>| #[trigger] bare_annotation_at(*old(self), q) implies q == gq by {
                    lemma_spells_name_unique(*old(self), 1, q, gq);
                }
            }
            if ha {
                assert forall|q: Seq<Seq<char>>, n: int| #[trigger] annotation_args_at(*old(self), q, n) implies q
                    == ga.0 && n == ga.1 by {
                    lemma_spells_name_unique(*old(self), 1, q, ga.0);
                    if balanced_group(*old(self), TokenView::LParen, TokenView::RParen, 2 * q.len() as int, n) {
                        if balanced_group(*old(self), TokenView::LParen, TokenView::RParen, 2 * q.len() as int, ga.1) {
                            lemma_balanced_group_unique(*old(self), TokenView::LParen, TokenView::RParen, 2 * q.len() as int, n, ga.1);
                        }
                    } else {
                        if balanced_group(*old(self), TokenView::LBrace, TokenView::RBrace, 2 * q.len() as int, ga.1) {
                            lemma_balanced_group_unique(*old(self), TokenView::LBrace, TokenView::RBrace, 2 * q.len() as int, n, ga.1);
                        }
                    }
                }
            }
        }
        let cur = self.get_current_token();
        assert(cur.token@ != TokenView::EOF);
        proof {
            self.lemma_current_order(after_at);
        }
        let end_ind = cur.addr + cur.len;
        let text = self.source_text().substring_char(start_ind, end_ind);
        Ok(Annotation { name, s: text.to_owned() })
    }
    /// `<modifiers> ::= { "public" | "private" | "protected" | "abstract" | "static" | "final" |
    /// "strictfp" | "synchronized" | "native" | "transient" | "volatile" | "default" | "sealed" |
    /// "non-sealed" }`
    /// A second access modifier is an error.
    #[verifier::spinoff_prover]
    pub fn modifiers(&mut self) -> (r: ParseResult<Modifiers>)
        requires
            old(self).wf(),
        ensures
            final(self).follows(*old(self)),
            r matches Ok(m) ==> {
                &&& modifiers_spelled(*old(self), 0, names_view(m.modifiers@))
                &&& final(self).shifted(*old(self), modifiers_len(names_view(m.modifiers@)))
                &&& m.access_modifier == access_of(names_view(m.modifiers@))
                &&& !is_modifier_token(final(self).ahead(0).token@)
                &&& !starts_non_sealed(*final(self))
                &&& (m.modifiers@.len() == 0 <==> *final(self) == *old(self))
            },
            r is Err ==> exists|ws: Seq<Seq<char>>|
                {
                    &&& #[trigger] modifiers_spelled(*old(self), 0, ws)
                    &&& access_of(ws) != AccessModifier::Default
                    &&& old(self).ahead(modifiers_len(ws)).token@ matches TokenView::Keyword(w)
                    &&& access_word(w) is Some
                },
            !is_modifier_token(old(self).ahead(0).token@) && !starts_non_sealed(*old(self)) ==> (r is Ok
                && r->Ok_0.modifiers@.len() == 0),
            starts_non_sealed(*old(self)) ==> (r matches Ok(m) ==> m.modifiers@.len() >= 1
                && m.modifiers@[0]@ == "non-sealed"@),
            is_modifier_token(old(self).ahead(0).token@) ==> (r matches Ok(m) ==> m.modifiers@.len() >= 1
                && TokenView::Keyword(m.modifiers@[0]@) == old(self).ahead(0).token@),
    {
        let ctx = ("modifiers", self.peek_next_token().addr);
        let ghost pre = *self;
        let mut mods: Vec<String> = Vec::new();
        let mut access = AccessModifier::Default;
        proof {
            reveal_strlit("public");
            reveal_strlit("private");
            reveal_strlit("protected");
            reveal_strlit("non-sealed");
            assert("non-sealed"@.len() == 10);
            assert("public"@.len() == 6);
            assert("private"@.len() == 7);
            assert("protected"@.len() == 9);
            assert forall|k: int| 0 <= k implies #[trigger] self.ahead(k) == pre.ahead(k + 0) by {}
            assert(names_view(mods@) =~= Seq::<Seq<char>>::empty());
        }
        loop
            invariant
                pre == *old(self),
                self.follows(pre),
                access == access_of(names_view(mods@)),
                modifiers_spelled(pre, 0, names_view(mods@)),
                self.shifted(pre, modifiers_len(names_view(mods@))),
                mods@.len() == 0 <==> *self == pre,
                mods@.len() > 0 ==> self.remaining() < pre.remaining(),
                !(is_modifier_token(pre.ahead(0).token@) || starts_non_sealed(pre)) ==> *self == pre
                    && mods@.len() == 0,
                starts_non_sealed(pre) && mods@.len() > 0 ==> mods@[0]@ == "non-sealed"@,
                is_modifier_token(pre.ahead(0).token@) && mods@.len() > 0 ==> TokenView::Keyword(mods@[0]@)
                    == pre.ahead(0).token@,
            ensures
                !is_modifier_token(self.ahead(0).token@),
                !starts_non_sealed(*self),
                !is_modifier_token(pre.ahead(0).token@) && !starts_non_sealed(pre) ==> mods@.len() == 0,
            decreases self.remaining(),
        {
            let t = self.peek_next_token();
            let ghost s0 = *self;
            let ghost before = names_view(mods@);
            let ghost len0 = modifiers_len(before);
            proof {
                lemma_modifiers_len_nonneg(before);
            }
            match t.token {
                Token::Identifier(w) => {
                    if str_eq(w, "non") && self.offset_is(1, Token::Op("-")) && self.offset_is(
                        2,
                        Token::Keyword("sealed"),
                    ) {
                        assert(self.ahead(0) == pre.ahead(0 + len0));
                        assert(self.ahead(1) == pre.ahead(1 + len0));
                        assert(self.ahead(2) == pre.ahead(2 + len0));
                        mods.push("non-sealed".to_owned());
                        assert(names_view(mods@) =~= before.push("non-sealed"@));
                        assert(names_view(mods@).drop_last() =~= before);
                        proof {
                            lemma_non_sealed_distinct("public"@);
                        }
                        assert(access_of(names_view(mods@)) == access);
                        assert(modifiers_len(names_view(mods@)) == len0 + 3);
                        assert(modifiers_spelled(pre, 0, names_view(mods@)));
                        self.get_next_token();
                        let ghost s1 = *self;
                        self.get_next_token();
                        let ghost s2 = *self;
                        self.get_next_token();
                        proof {
                            lemma_shifted_trans(pre, s0, s1, len0, 1);
                            lemma_shifted_trans(pre, s1, s2, len0 + 1, 1);
                            lemma_shifted_trans(pre, s2, *self, len0 + 2, 1);
                        }
                        assert(self.remaining() < s0.remaining());
                    } else {
                        break ;
                    }
                },
                Token::Keyword(s) => {
                    if str_eq(s, "public") || str_eq(s, "private") || str_eq(s, "protected") {
                        if access.rank() != 1 {
                            proof {
                                assert(pre.ahead(len0) == self.ahead(0));
                                assert(modifiers_spelled(pre, 0, before));
                            }
                            return Err(
                                ParseErrType::UnexpectedToken {
                                    expected: "non-access modifier",
                                    got: vec![Token::Keyword(s).to_owned_token()],
                                }.to_stack_parse_err(t.addr, ctx),
                            );
                        }
                        access =
                        if str_eq(s, "public") {
                            AccessModifier::Public
                        } else if str_eq(s, "private") {
                            AccessModifier::Private
                        } else {
                            AccessModifier::Protected
                        };
                    } else if !(str_eq(s, "abstract") || str_eq(s, "static") || str_eq(s, "final")
                        || str_eq(s, "strictfp") || str_eq(s, "synchronized") || str_eq(s, "native")
                        || str_eq(s, "transient") || str_eq(s, "volatile") || str_eq(s, "default")
                        || str_eq(s, "sealed")) {
                        break ;
                    }
                    assert(self.ahead(0) == pre.ahead(0 + len0));
                    self.get_next_token();
                    proof {
                        lemma_shifted_trans(pre, s0, *self, len0, 1);
                    }
                    mods.push(s.to_owned());
                    assert(names_view(mods@) =~= before.push(s@));
                    assert(names_view(mods@).drop_last() =~= before);
                    assert(names_view(mods@).last() == s@);
                    assert(access_of(names_view(mods@)) == access);
                    proof {
                        lemma_non_sealed_distinct(s@);
                    }
                    assert(modifiers_len(names_view(mods@)) == len0 + 1);
                    assert(modifiers_spelled(pre, 0, names_view(mods@)));
                    assert(self.remaining() < s0.remaining());
                },
                _ => {
                    break ;
                },
            }
        }
        Ok(Modifiers { modifiers: mods, access_modifier: access })
    }

    /// `<voidable_type> ::= "void" | <ref_type>`
    pub fn voidable_type(&mut self) -> (r: ParseResult<VoidableType>)
        requires
            old(self).wf(),
        ensures
            final(self).follows(*old(self)),
            r is Ok ==> final(self).remaining() < old(self).remaining(),
            r matches Ok(v) ==> (v is Void <==> old(self).ahead(0).token@ == TokenView::Keyword(
                "void"@,
            )),
            old(self).ahead(0).token@ == TokenView::Keyword("void"@) ==> (r matches Ok(v) && v is Void
                && final(self).shifted(*old(self), 1)),
            forall|q: Seq<Seq<char>>, d: int|
                #[trigger] plain_ref_type_at(*old(self), 0, q, d) ==> (r matches Ok(VoidableType::RefType(t))
                    && t.name@ == q && t.arr_dim == d && t.type_arg_list.0@.len() == 0 && final(self).shifted(
                    *old(self),
                    plain_ref_type_len(q, d),
                )),
    {
        proof {
            assert forall|q: Seq<Seq<char>>, d: int| #[trigger] plain_ref_type_at(*old(self), 0, q, d) implies old(
                self,
            ).ahead(0).token@ != TokenView::Keyword("void"@) by {
                lemma_plain_ref_type_starts(*old(self), 0, q, d);
            }
        }
        let ctx = ("voidable_type", self.peek_next_token().addr);
        if self.next_is(Token::Keyword("void")) {
            self.get_next_token();
            Ok(VoidableType::Void)
        } else {
            let r = self.ref_type().push_context(ctx)?;
            Ok(VoidableType::RefType(r))
        }
    }

    /// `<ref_type> ::= <annotations> <qualified_name> <type_arg_lst> { "[]" }`
    #[verifier::spinoff_prover]
    #[verifier::rlimit(50)]
    pub fn ref_type(&mut self) -> (r: ParseResult<RefType>)
        requires
            old(self).wf(),
        ensures
            final(self).follows(*old(self)),
            r is Ok ==> final(self).remaining() < old(self).remaining(),
            r matches Ok(t) ==> t.name@.len() >= 1,
            r matches Ok(t) ==> (old(self).ahead(0).token@ != TokenView::At ==> spells_name(*old(self), 0, t.name@)),
            r matches Ok(t) ==> (old(self).ahead(0).token@ != TokenView::At && old(self).ahead(
                2 * t.name@.len() - 1,
            ).token@ != TokenView::LessThan ==> {
                &&& t.type_arg_list.0@.len() == 0
                &&& brackets_at(*old(self), 2 * t.name@.len() - 1, t.arr_dim as int)
                &&& final(self).shifted(*old(self), 2 * t.name@.len() - 1 + 2 * t.arr_dim)
            }),
            forall|q: Seq<Seq<char>>, d: int|
                #[trigger] plain_ref_type_at(*old(self), 0, q, d) ==> (r matches Ok(t) && t.name@ == q && t.arr_dim == d
                    && t.type_arg_list.0@.len() == 0 && final(self).shifted(*old(self), plain_ref_type_len(q, d))),
            forall|q: Seq<Seq<char>>, aq: Seq<Seq<char>>, ad: int, d: int|
                #[trigger] generic_ref_type_at(*old(self), 0, q, aq, ad, d) ==> {
                    &&& r matches Ok(t)
                    &&& t.name@ == q
                    &&& t.arr_dim == d
                    &&& t.type_arg_list.0@.len() == 1
                    &&& t.type_arg_list.0@[0] matches TypeArg::Is(a)
                    &&& a.name@ == aq
                    &&& a.arr_dim == ad
                    &&& final(self).shifted(*old(self), generic_ref_type_len(q, aq, ad, d))
                },
            forall|q: Seq<Seq<char>>, ts: Seq<PlainType>, d: int|
                #[trigger] generic_list_ref_type_at(*old(self), 0, q, ts, d) ==> {
                    &&& r matches Ok(t)
                    &&& t.name@ == q
                    &&& t.arr_dim == d
                    &&& t.type_arg_list.0@.len() == ts.len()
                    &&& forall|i: int|
                        0 <= i < ts.len() ==> (#[trigger] t.type_arg_list.0@[i] matches TypeArg::Is(a) && a.name@
                            == ts[i].0 && a.arr_dim == ts[i].1 && a.type_arg_list.0@.len() == 0)
                    &&& final(self).shifted(*old(self), generic_list_ref_type_len(q, ts, d))
                },
        decreases old(self).remaining(), 1nat,
    {
        let ghost hl = exists|q: Seq<Seq<char>>, ts: Seq<PlainType>, d: int|
            #[trigger] generic_list_ref_type_at(*old(self), 0, q, ts, d);
        let ghost gl: (Seq<Seq<char>>, Seq<PlainType>, int) = choose|q: Seq<Seq<char>>, ts: Seq<PlainType>, d: int|
            #[trigger] generic_list_ref_type_at(*old(self), 0, q, ts, d);
        proof {
            if hl {
                assert(old(self).ahead(0int + 2 * 0).token@ == TokenView::Identifier(gl.0[0]));
                lemma_plain_types_take(*old(self), 2 * (gl.0.len() as int), gl.1, gl.1.len() as int);
                assert(gl.1.take(gl.1.len() as int) =~= gl.1);
            }
        }
        let ghost hg = exists|q: Seq<Seq<char>>, aq: Seq<Seq<char>>, ad: int, d: int|
            #[trigger] generic_ref_type_at(*old(self), 0, q, aq, ad, d);
        let ghost g = choose|q: Seq<Seq<char>>, aq: Seq<Seq<char>>, ad: int, d: int|
            #[trigger] generic_ref_type_at(*old(self), 0, q, aq, ad, d);
        proof {
            if hg {
                assert(old(self).ahead(0int + 2 * 0).token@ == TokenView::Identifier(g.0[0]));
            }
        }
        let ghost is_plain = exists|q: Seq<Seq<char>>, d: int| plain_ref_type_at(*old(self), 0, q, d);
        let ghost gqd = choose|q: Seq<Seq<char>>, d: int| plain_ref_type_at(*old(self), 0, q, d);
        let ghost gq = gqd.0;
        let ghost gd = gqd.1;
        proof {
            if is_plain {
                assert(old(self).ahead(0int + 2 * 0).token@ == TokenView::Identifier(gq[0]));
            }
        }
        let ctx = ("ref_type", self.peek_next_token().addr);
        self.annotations().push_context(ctx)?;
        let ghost s1 = *self;
        // <qualified_name>
        let name = self.qualified_name().push_context(ctx)?;
        let ghost s2 = *self;
        proof {
            lemma_qualified_name_spelled(s1, s2, name@);
            if is_plain {
                assert(s1 == *old(self));
                lemma_spells_name_unique(*old(self), 0, gq, name@);
                assert(s2.ahead(0) == old(self).ahead(0 + (2 * gq.len() - 1)));
            }
            if hl {
                assert(s1 == *old(self));
                lemma_spells_name_unique(*old(self), 0, gl.0, name@);
                let off = 2 * gl.0.len() - 1;
                assert(s2.ahead(0) == old(self).ahead(0 + off));
                lemma_plain_type_list_shift(*old(self), s2, off, 1, gl.1);
                assert(s2.ahead(plain_types_len(gl.1)) == old(self).ahead(plain_types_len(gl.1) + off));
            }
            if hg {
                assert(s1 == *old(self));
                lemma_spells_name_unique(*old(self), 0, g.0, name@);
                let off = 2 * g.0.len() - 1;
                let la = plain_ref_type_len(g.1, g.2);
                assert(s2.ahead(0) == old(self).ahead(0 + off));
                lemma_plain_ref_type_shift(*old(self), s2, off, 1, g.1, g.2);
                assert(s2.ahead(1 + la) == old(self).ahead(1 + la + off));
            }
        }
        // <type_arg_lst>
        let type_arg_list = self.type_arg_list().push_context(ctx)?;
        // { "[]" }
        let ghost mid = *self;
        let mut arr_dim: u8 = 0;
        assert(self.shifted(mid, 0)) by {
            assert forall|k: int| 0 <= k implies #[trigger] self.ahead(k) == mid.ahead(k + 0) by {}
        }
        proof {
            if is_plain {
                assert(mid == s2);
                assert(mid.shifted(*old(self), 2 * gq.len() - 1));
                lemma_brackets_shift(*old(self), mid, 2 * gq.len() - 1, 0, gd);
            }
            if hg {
                let off = 2 * g.0.len() - 1;
                let la = plain_ref_type_len(g.1, g.2);
                lemma_shifted_trans(*old(self), s2, mid, off, 2 + la);
                lemma_brackets_shift(*old(self), mid, off + 2 + la, 0, g.3);
            }
            if hl {
                let off = 2 * gl.0.len() - 1;
                lemma_shifted_trans(*old(self), s2, mid, off, plain_types_len(gl.1) + 1);
                lemma_brackets_shift(*old(self), mid, off + plain_types_len(gl.1) + 1, 0, gl.2);
            }
        }
        while self.next_is(Token::LBracket)
            invariant
                old(self).wf(),
                mid.follows(*old(self)),
                mid.remaining() < old(self).remaining(),
                self.follows(mid),
                self.shifted(mid, 2 * arr_dim),
                forall|i: int|
                    0 <= i < arr_dim ==> (#[trigger] mid.ahead(2 * i)).token@ == TokenView::LBracket && mid.ahead(
                        2 * i + 1,
                    ).token@ == TokenView::RBracket,
                is_plain == exists|q: Seq<Seq<char>>, d: int| plain_ref_type_at(*old(self), 0, q, d),
                is_plain ==> arr_dim <= gd && gd <= 255 && brackets_at(mid, 0, gd),
                hg == exists|q: Seq<Seq<char>>, aq: Seq<Seq<char>>, ad: int, d: int|
                    #[trigger] generic_ref_type_at(*old(self), 0, q, aq, ad, d),
                hg ==> arr_dim <= g.3 && g.3 <= 255 && brackets_at(mid, 0, g.3),
                hl == exists|q: Seq<Seq<char>>, ts: Seq<PlainType>, d: int|
                    #[trigger] generic_list_ref_type_at(*old(self), 0, q, ts, d),
                hl ==> arr_dim <= gl.2 && gl.2 <= 255 && brackets_at(mid, 0, gl.2),
            decreases self.remaining(),
        {
            let ghost a0 = *self;
            proof {
                assert(a0.ahead(0) == mid.ahead(0 + 2 * arr_dim));
                if is_plain && arr_dim == gd {
                    assert(mid.ahead(0 + 2 * gd).token@ != TokenView::LBracket);
                }
                if is_plain {
                    assert(arr_dim < gd);
                }
                if hg && arr_dim == g.3 {
                    assert(mid.ahead(0 + 2 * g.3).token@ != TokenView::LBracket);
                }
                if hg {
                    assert(arr_dim < g.3);
                }
                if hl && arr_dim == gl.2 {
                    assert(mid.ahead(0 + 2 * gl.2).token@ != TokenView::LBracket);
                }
                if hl {
                    assert(arr_dim < gl.2);
                }
            }
            self.get_next_token();
            let ghost a1 = *self;
            proof {
                if is_plain || hg || hl {
                    assert(mid.ahead(0 + 2 * arr_dim + 1).token@ == TokenView::RBracket);
                    assert(a1.ahead(0) == a0.ahead(0int + 1));
                    assert(a0.ahead(1) == mid.ahead(1 + 2 * arr_dim));
                }
            }
            self.consume_token(Token::RBracket, "RBracket", ctx)?;
            if arr_dim == 255 {
                return Err(
                    ParseErrType::SemanticError("too many array dimensions").to_stack_parse_err(
                        self.get_current_token().addr,
                        ctx,
                    ),
                );
            }
            proof {
                lemma_shifted_trans(mid, a0, a1, 2 * arr_dim, 1);
                lemma_shifted_trans(mid, a1, *self, 2 * arr_dim + 1, 1);
                assert(a0.ahead(0) == mid.ahead(0 + 2 * arr_dim));
                assert(a1.ahead(0) == mid.ahead(0 + (2 * arr_dim + 1)));
            }
            arr_dim = arr_dim + 1;
        }
        proof {
            assert(self.ahead(0) == mid.ahead(0 + 2 * arr_dim));
            if old(self).ahead(0).token@ != TokenView::At {
                assert(s1 == *old(self));
                assert(s2.ahead(0) == s1.ahead(0 + (2 * name@.len() - 1)));
                if s2.ahead(0).token@ != TokenView::LessThan {
                    assert(mid == s2);
                    lemma_shifted_trans(*old(self), mid, *self, 2 * name@.len() - 1, 2 * arr_dim);
                    assert forall|i: int| 0 <= i < arr_dim implies (#[trigger] old(self).ahead(
                        2 * name@.len() - 1 + 2 * i,
                    )).token@ == TokenView::LBracket && old(self).ahead(2 * name@.len() - 1 + 2 * i + 1).token@
                        == TokenView::RBracket by {
                        assert(mid.ahead(2 * i) == old(self).ahead(2 * i + (2 * name@.len() - 1)));
                        assert(mid.ahead(2 * i + 1) == old(self).ahead(2 * i + 1 + (2 * name@.len() - 1)));
                    }
                    assert(mid.ahead(2 * arr_dim) == old(self).ahead(2 * arr_dim + (2 * name@.len() - 1)));
                }
            }
        }
        proof {
            if is_plain {
                assert(s2 == mid);
                assert(brackets_at(*old(self), 2 * gq.len() - 1, gd));
                if arr_dim < gd {
                    assert(mid.ahead(0 + 2 * arr_dim).token@ == TokenView::LBracket);
                }
                lemma_shifted_trans(*old(self), mid, *self, 2 * name@.len() - 1, 2 * arr_dim);
                assert forall|q: Seq<Seq<char>>, d: int| #[trigger] plain_ref_type_at(*old(self), 0, q, d) implies q
                    == gq && d == gd by {
                    lemma_plain_ref_type_unique(*old(self), 0, q, d, gq, gd);
                }
            }
            if hg {
                let off = 2 * g.0.len() - 1;
                let la = plain_ref_type_len(g.1, g.2);
                if arr_dim < g.3 {
                    assert(mid.ahead(0 + 2 * arr_dim).token@ == TokenView::LBracket);
                }
                lemma_shifted_trans(*old(self), mid, *self, off + 2 + la, 2 * arr_dim);
                assert forall|q: Seq<Seq<char>>, aq: Seq<Seq<char>>, ad: int, d: int|
                    #[trigger] generic_ref_type_at(*old(self), 0, q, aq, ad, d) implies q == g.0 && aq == g.1 && ad
                    == g.2 && d == g.3 by {
                    lemma_spells_name_unique(*old(self), 0, q, g.0);
                    lemma_plain_ref_type_unique(*old(self), 2 * q.len() as int, aq, ad, g.1, g.2);
                    lemma_brackets_unique(*old(self), 2 * q.len() + plain_ref_type_len(aq, ad) + 1, d, g.3);
                }
            }
            if hl {
                let off = 2 * gl.0.len() - 1;
                if arr_dim < gl.2 {
                    assert(mid.ahead(0 + 2 * arr_dim).token@ == TokenView::LBracket);
                }
                lemma_shifted_trans(*old(self), mid, *self, off + plain_types_len(gl.1) + 1, 2 * arr_dim);
                assert forall|q: Seq<Seq<char>>, ts: Seq<PlainType>, d: int|
                    #[trigger] generic_list_ref_type_at(*old(self), 0, q, ts, d) implies q == gl.0 && ts == gl.1 && d
                    == gl.2 by {
                    lemma_spells_name_unique(*old(self), 0, q, gl.0);
                    lemma_plain_type_list_unique(*old(self), 2 * q.len() as int, ts, gl.1);
                    lemma_brackets_unique(*old(self), 2 * q.len() - 1 + plain_types_len(ts) + 1, d, gl.2);
                }
            }
        }
        Ok(RefType { name, type_arg_list, arr_dim })
    }

    /// `<type_arg_list> ::= "<" <type_arg> { "," <type_arg> } ">"`, or nothing.
    pub fn type_arg_list(&mut self) -> (r: ParseResult<TypeArgList>)
        requires
            old(self).wf(),
        ensures
            final(self).follows(*old(self)),
            r matches Ok(l) ==> (old(self).ahead(0).token@ != TokenView::LessThan ==> l.0@.len()
                == 0 && *final(self) == *old(self)),
            r matches Ok(l) ==> (old(self).ahead(0).token@ == TokenView::LessThan ==> l.0@.len()
                >= 1 && final(self).remaining() < old(self).remaining()),
            old(self).ahead(0).token@ != TokenView::LessThan ==> (r matches Ok(l) && l.0@.len() == 0
                && *final(self) == *old(self)),
            forall|q: Seq<Seq<char>>, d: int|
                old(self).ahead(0).token@ == TokenView::LessThan && #[trigger] plain_ref_type_at(*old(self), 1, q, d)
                    && old(self).ahead(1 + plain_ref_type_len(q, d)).token@ == TokenView::GreaterThan ==> (
                r matches Ok(l) && l.0@.len() == 1 && (l.0@[0] matches TypeArg::Is(t) && t.name@ == q && t.arr_dim == d)
                    && final(self).shifted(*old(self), 2 + plain_ref_type_len(q, d))),
            forall|ts: Seq<PlainType>|
                old(self).ahead(0).token@ == TokenView::LessThan && #[trigger] plain_type_list_at(*old(self), 1, ts)
                    && old(self).ahead(plain_types_len(ts)).token@ == TokenView::GreaterThan ==> {
                    &&& r matches Ok(l)
                    &&& l.0@.len() == ts.len()
                    &&& forall|i: int|
                        0 <= i < ts.len() ==> (#[trigger] l.0@[i] matches TypeArg::Is(t) && t.name@ == ts[i].0
                            && t.arr_dim == ts[i].1 && t.type_arg_list.0@.len() == 0)
                    &&& final(self).shifted(*old(self), plain_types_len(ts) + 1)
                },
        decreases old(self).remaining(), 0nat,
    {
        let ghost hl = exists|ts: Seq<PlainType>|
            old(self).ahead(0).token@ == TokenView::LessThan && #[trigger] plain_type_list_at(*old(self), 1, ts)
                && old(self).ahead(plain_types_len(ts)).token@ == TokenView::GreaterThan;
        let ghost gt = choose|ts: Seq<PlainType>|
            old(self).ahead(0).token@ == TokenView::LessThan && #[trigger] plain_type_list_at(*old(self), 1, ts)
                && old(self).ahead(plain_types_len(ts)).token@ == TokenView::GreaterThan;
        let ctx = ("type_arg_list", self.peek_next_token().addr);
        // [ "<" ...
        if self.next_is(Token::LessThan) {
            self.get_next_token();
        } else {
            return Ok(TypeArgList(Vec::new()));
        }
        let ghost after_lt = *self;
        let ghost h = exists|q: Seq<Seq<char>>, d: int|
            plain_ref_type_at(*old(self), 1, q, d) && old(self).ahead(1 + plain_ref_type_len(q, d)).token@
                == TokenView::GreaterThan;
        let ghost gqd = choose|q: Seq<Seq<char>>, d: int|
            plain_ref_type_at(*old(self), 1, q, d) && old(self).ahead(1 + plain_ref_type_len(q, d)).token@
                == TokenView::GreaterThan;
        let ghost gl = plain_ref_type_len(gqd.0, gqd.1);
        proof {
            if h {
                lemma_plain_ref_type_shift(*old(self), after_lt, 1, 0, gqd.0, gqd.1);
            }
            if hl {
                lemma_plain_types_take(*old(self), 1, gt, 0);
                assert(gt.take(0) =~= Seq::<PlainType>::empty());
                lemma_plain_ref_type_shift(*old(self), after_lt, 1, 0, gt[0].0, gt[0].1);
            }
        }
        // <type_arg>
        let first = self.type_arg().push_context(ctx)?;
        let ghost s2 = *self;
        proof {
            if h {
                lemma_shifted_trans(*old(self), after_lt, s2, 1, gl);
                assert(s2.ahead(0) == old(self).ahead(0 + (1 + gl)));
            }
            if hl {
                lemma_shifted_trans(*old(self), after_lt, s2, 1, plain_ref_type_len(gt[0].0, gt[0].1));
            }
        }
        let mut list: Vec<TypeArg> = Vec::new();
        list.push(first);
        // {"," <type_arg>}
        while self.next_is(Token::Comma)
            invariant
                old(self).wf(),
                after_lt.follows(*old(self)),
                after_lt.remaining() < old(self).remaining(),
                self.follows(after_lt),
                list@.len() >= 1,
                old(self).ahead(0).token@ == TokenView::LessThan,
                h ==> *self == s2 && s2.ahead(0).token@ == TokenView::GreaterThan && list@.len() == 1 && (list@[0] matches TypeArg::Is(
                    t,
                ) && t.name@ == gqd.0 && t.arr_dim == gqd.1) && s2.shifted(*old(self), 1 + gl),
                h == exists|q: Seq<Seq<char>>, d: int|
                    plain_ref_type_at(*old(self), 1, q, d) && old(self).ahead(1 + plain_ref_type_len(q, d)).token@
                        == TokenView::GreaterThan,
                hl == exists|ts: Seq<PlainType>|
                    old(self).ahead(0).token@ == TokenView::LessThan && #[trigger] plain_type_list_at(*old(self), 1, ts)
                        && old(self).ahead(plain_types_len(ts)).token@ == TokenView::GreaterThan,
                hl ==> plain_type_list_at(*old(self), 1, gt) && old(self).ahead(plain_types_len(gt)).token@
                    == TokenView::GreaterThan && list@.len() <= gt.len() && self.shifted(
                    *old(self),
                    plain_types_len(gt.take(list@.len() as int)),
                ) && forall|i: int|
                    0 <= i < list@.len() ==> (#[trigger] list@[i] matches TypeArg::Is(t) && t.name@ == gt[i].0
                        && t.arr_dim == gt[i].1 && t.type_arg_list.0@.len() == 0),
            decreases self.remaining(),
        {
            let ghost k = list@.len() as int;
            let ghost c0 = *self;
            proof {
                if hl {
                    lemma_plain_types_take(*old(self), 1, gt, k);
                    if k == gt.len() {
                        assert(gt.take(k) =~= gt);
                    }
                    assert(c0.ahead(0) == old(self).ahead(0 + plain_types_len(gt.take(k))));
                }
            }
            self.get_next_token();
            proof {
                if hl {
                    lemma_shifted_trans(*old(self), c0, *self, plain_types_len(gt.take(k)), 1);
                    lemma_plain_ref_type_shift(*old(self), *self, 1 + plain_types_len(gt.take(k)), 0, gt[k].0, gt[k].1);
                }
            }
            let ghost c1 = *self;
            let a = self.type_arg().push_context(ctx)?;
            proof {
                if hl {
                    lemma_shifted_trans(*old(self), c1, *self, 1 + plain_types_len(gt.take(k)), plain_ref_type_len(gt[k].0, gt[k].1));
                }
            }
            list.push(a);
        }
        // ... ">" ]
        let ghost s3 = *self;
        proof {
            if hl {
                let n = list@.len() as int;
                lemma_plain_types_take(*old(self), 1, gt, n);
                if n < gt.len() {
                    assert(old(self).ahead(1 + plain_types_len(gt.take(n)) - 1).token@ == TokenView::Comma);
                    assert(s3.ahead(0) == old(self).ahead(0 + plain_types_len(gt.take(n))));
                }
                assert(gt.take(gt.len() as int) =~= gt);
            }
        }
        self.consume_gt()?;
        proof {
            if hl {
                lemma_shifted_trans(*old(self), s3, *self, plain_types_len(gt), 1);
                assert forall|ts: Seq<PlainType>|
                    old(self).ahead(0).token@ == TokenView::LessThan && #[trigger] plain_type_list_at(*old(self), 1, ts)
                        && old(self).ahead(plain_types_len(ts)).token@ == TokenView::GreaterThan implies ts == gt by {
                    lemma_plain_type_list_unique(*old(self), 1, ts, gt);
                }
            }
        }
        proof {
            if h {
                lemma_shifted_trans(*old(self), s3, *self, 1 + gl, 1);
                assert forall|q: Seq<Seq<char>>, d: int|
                    old(self).ahead(0).token@ == TokenView::LessThan && #[trigger] plain_ref_type_at(*old(self), 1, q, d)
                        && old(self).ahead(1 + plain_ref_type_len(q, d)).token@ == TokenView::GreaterThan implies q
                    == gqd.0 && d == gqd.1 by {
                    lemma_plain_ref_type_unique(*old(self), 1, q, d, gqd.0, gqd.1);
                }
            }
        }
        Ok(TypeArgList(list))
    }

    /// `<type_arg> ::= <annotations> (<ref_type> | "?" [ ( "extends" | "super" ) <ref_type> ])`
    pub fn type_arg(&mut self) -> (r: ParseResult<TypeArg>)
        requires
            old(self).wf(),
        ensures
            final(self).follows(*old(self)),
            r is Ok ==> final(self).remaining() < old(self).remaining(),
            r matches Ok(a) ==> (old(self).ahead(0).token@ != TokenView::At ==> {
                let t0 = old(self).ahead(0).token@;
                let t1 = old(self).ahead(1).token@;
                &&& (a is Is <==> t0 != TokenView::QuestionMark)
                &&& (a is Super <==> t0 == TokenView::QuestionMark && t1 == TokenView::Keyword("super"@))
                &&& (a is Extends <==> t0 == TokenView::QuestionMark && t1 == TokenView::Keyword("extends"@))
                &&& (a is Wildcard <==> t0 == TokenView::QuestionMark && t1 != TokenView::Keyword("super"@) && t1
                    != TokenView::Keyword("extends"@))
                &&& (a matches TypeArg::Is(t) ==> spells_name(*old(self), 0, t.name@))
            }),
            forall|q: Seq<Seq<char>>, d: int|
                #[trigger] plain_ref_type_at(*old(self), 0, q, d) ==> (r matches Ok(TypeArg::Is(t)) && t.name@ == q
                    && t.arr_dim == d && t.type_arg_list.0@.len() == 0 && final(self).shifted(
                    *old(self),
                    plain_ref_type_len(q, d),
                )),
            old(self).ahead(0).token@ == TokenView::QuestionMark && old(self).ahead(1).token@ != TokenView::Keyword(
                "super"@,
            ) && old(self).ahead(1).token@ != TokenView::Keyword("extends"@) ==> (r matches Ok(a) && a is Wildcard
                && final(self).shifted(*old(self), 1)),
            forall|q: Seq<Seq<char>>, d: int|
                old(self).ahead(0).token@ == TokenView::QuestionMark && old(self).ahead(1).token@ == TokenView::Keyword(
                    "extends"@,
                ) && #[trigger] plain_ref_type_at(*old(self), 2, q, d) ==> (r matches Ok(TypeArg::Extends(t))
                    && t.name@ == q && t.arr_dim == d),
            forall|q: Seq<Seq<char>>, d: int|
                old(self).ahead(0).token@ == TokenView::QuestionMark && old(self).ahead(1).token@ == TokenView::Keyword(
                    "super"@,
                ) && #[trigger] plain_ref_type_at(*old(self), 2, q, d) ==> (r matches Ok(TypeArg::Super(t))
                    && t.name@ == q && t.arr_dim == d),
        decreases old(self).remaining(), 2nat,
    {
        proof {
            reveal_strlit("super");
            reveal_strlit("extends");
            assert("super"@.len() != "extends"@.len());
            assert forall|q: Seq<Seq<char>>, d: int| #[trigger] plain_ref_type_at(*old(self), 0, q, d) implies old(
                self,
            ).ahead(0).token@ is Identifier by {
                lemma_plain_ref_type_starts(*old(self), 0, q, d);
            }
        }
        let ctx = ("type_arg", self.peek_next_token().addr);
        self.annotations().push_context(ctx)?;
        let ghost s0 = *self;
        if self.next_is(Token::QuestionMark) {
            self.get_next_token();
            assert(self.ahead(0) == s0.ahead(0int + 1));
            let ghost s1 = *self;
            if self.next_is(Token::Keyword("super")) {
                self.get_next_token();
                let ghost s2 = *self;
                proof {
                    if old(self).ahead(0).token@ == TokenView::QuestionMark {
                        lemma_shifted_trans(s0, s1, s2, 1, 1);
                        assert forall|q: Seq<Seq<char>>, d: int| #[trigger] plain_ref_type_at(*old(self), 2, q, d) implies plain_ref_type_at(
                            s2,
                            0,
                            q,
                            d,
                        ) by {
                            lemma_plain_ref_type_shift(*old(self), s2, 2, 0, q, d);
                        }
                    }
                }
                let t = self.ref_type().push_context(ctx)?;
                Ok(TypeArg::Super(t))
            } else if self.next_is(Token::Keyword("extends")) {
                self.get_next_token();
                let ghost s2 = *self;
                proof {
                    if old(self).ahead(0).token@ == TokenView::QuestionMark {
                        lemma_shifted_trans(s0, s1, s2, 1, 1);
                        assert forall|q: Seq<Seq<char>>, d: int| #[trigger] plain_ref_type_at(*old(self), 2, q, d) implies plain_ref_type_at(
                            s2,
                            0,
                            q,
                            d,
                        ) by {
                            lemma_plain_ref_type_shift(*old(self), s2, 2, 0, q, d);
                        }
                    }
                }
                let t = self.ref_type().push_context(ctx)?;
                Ok(TypeArg::Extends(t))
            } else {
                Ok(TypeArg::Wildcard)
            }
        } else {
            let t = self.ref_type().push_context(ctx)?;
            Ok(TypeArg::Is(t))
        }
    }

    /// `<type_param_list> ::= ["<" <type_param> { "," <type_param> } ">"]`
    #[verifier::spinoff_prover]
    pub fn type_param_list(&mut self) -> (r: ParseResult<TypeParamList>)
        requires
            old(self).wf(),
        ensures
            final(self).follows(*old(self)),
            r matches Ok(l) ==> (old(self).ahead(0).token@ != TokenView::LessThan ==> l.0@.len()
                == 0 && *final(self) == *old(self)),
            r matches Ok(l) ==> (old(self).ahead(0).token@ == TokenView::LessThan ==> l.0@.len()
                >= 1 && final(self).remaining() < old(self).remaining()),
            old(self).ahead(0).token@ != TokenView::LessThan ==> (r matches Ok(l) && l.0@.len() == 0
                && *final(self) == *old(self)),
            old(self).ahead(0).token@ == TokenView::LessThan && old(self).ahead(1).token@ is Identifier && old(
                self,
            ).ahead(2).token@ == TokenView::GreaterThan ==> (r matches Ok(l) && l.0@.len() == 1 && old(self).ahead(
                1,
            ).token@ == TokenView::Identifier(l.0@[0].name@) && l.0@[0].extends_from@.len() == 0
                && final(self).shifted(*old(self), 3)),
            forall|q: Seq<Seq<char>>, d: int|
                old(self).ahead(0).token@ == TokenView::LessThan && old(self).ahead(1).token@ is Identifier && old(
                    self,
                ).ahead(2).token@ == TokenView::Keyword("extends"@) && #[trigger] plain_ref_type_at(*old(self), 3, q, d)
                    && old(self).ahead(3 + plain_ref_type_len(q, d)).token@ == TokenView::GreaterThan ==> {
                    &&& r matches Ok(l)
                    &&& l.0@.len() == 1
                    &&& old(self).ahead(1).token@ == TokenView::Identifier(l.0@[0].name@)
                    &&& l.0@[0].extends_from@.len() == 1
                    &&& l.0@[0].extends_from@[0].name@ == q
                    &&& l.0@[0].extends_from@[0].arr_dim == d
                    &&& l.0@[0].extends_from@[0].type_arg_list.0@.len() == 0
                    &&& final(self).shifted(*old(self), 4 + plain_ref_type_len(q, d))
                },
            forall|ns: Seq<Seq<char>>|
                #[trigger] bare_type_params_at(*old(self), ns) ==> {
                    &&& r matches Ok(l)
                    &&& l.0@.len() == ns.len()
                    &&& forall|i: int|
                        0 <= i < ns.len() ==> (#[trigger] l.0@[i]).name@ == ns[i] && l.0@[i].extends_from@.len() == 0
                    &&& final(self).shifted(*old(self), 2 * (ns.len() as int) + 1)
                },
    {
        let ghost hn = exists|ns: Seq<Seq<char>>| #[trigger] bare_type_params_at(*old(self), ns);
        let ghost gn = choose|ns: Seq<Seq<char>>| #[trigger] bare_type_params_at(*old(self), ns);
        proof {
            reveal_strlit("extends");
        }
        let ghost hb = exists|q: Seq<Seq<char>>, d: int|
            old(self).ahead(0).token@ == TokenView::LessThan && old(self).ahead(1).token@ is Identifier && old(
                self,
            ).ahead(2).token@ == TokenView::Keyword("extends"@) && #[trigger] plain_ref_type_at(*old(self), 3, q, d)
                && old(self).ahead(3 + plain_ref_type_len(q, d)).token@ == TokenView::GreaterThan;
        let ghost gb = choose|q: Seq<Seq<char>>, d: int|
            old(self).ahead(0).token@ == TokenView::LessThan && old(self).ahead(1).token@ is Identifier && old(
                self,
            ).ahead(2).token@ == TokenView::Keyword("extends"@) && #[trigger] plain_ref_type_at(*old(self), 3, q, d)
                && old(self).ahead(3 + plain_ref_type_len(q, d)).token@ == TokenView::GreaterThan;
        let ctx = ("type_param_list", self.peek_next_token().addr);
        let mut list: Vec<TypeParam> = Vec::new();
        if self.next_is(Token::LessThan) {
            self.get_next_token();
            let ghost after_lt = *self;
            let ghost h = old(self).ahead(1).token@ is Identifier && old(self).ahead(2).token@ == TokenView::GreaterThan;
            proof {
                assert(after_lt.ahead(0) == old(self).ahead(0int + 1));
                assert(after_lt.ahead(1) == old(self).ahead(1int + 1));
                if hb {
                    let l = plain_ref_type_len(gb.0, gb.1);
                    lemma_plain_ref_type_shift(*old(self), after_lt, 1, 2, gb.0, gb.1);
                    assert(after_lt.ahead(2 + l) == old(self).ahead(2 + l + 1));
                }
            }
            proof {
                if hn {
                    assert(old(self).ahead(1int + 2 * 0) == after_lt.ahead(0));
                    assert(after_lt.ahead(1) == old(self).ahead(1int + 1));
                    if gn.len() > 1 {
                        assert(old(self).ahead(2int + 2 * 0).token@ == TokenView::Comma);
                    }
                }
            }
            let p = self.type_param().push_context(ctx)?;
            let ghost s2 = *self;
            proof {
                if hn {
                    lemma_shifted_trans(*old(self), after_lt, s2, 1, 1);
                }
                if h {
                    lemma_shifted_trans(*old(self), after_lt, s2, 1, 1);
                    assert(s2.ahead(0) == old(self).ahead(0int + 2));
                }
                if hb {
                    let l = plain_ref_type_len(gb.0, gb.1);
                    lemma_shifted_trans(*old(self), after_lt, s2, 1, 2 + l);
                    assert(s2.ahead(0) == old(self).ahead(0 + (3 + l)));
                }
            }
            list.push(p);
            while self.next_is(Token::Comma)
                invariant
                    old(self).wf(),
                    after_lt.follows(*old(self)),
                    after_lt.remaining() < old(self).remaining(),
                    self.follows(after_lt),
                    list@.len() >= 1,
                    old(self).ahead(0).token@ == TokenView::LessThan,
                    h == (old(self).ahead(1).token@ is Identifier && old(self).ahead(2).token@ == TokenView::GreaterThan),
                    h ==> *self == s2 && s2.ahead(0).token@ == TokenView::GreaterThan && s2.shifted(*old(self), 2)
                        && list@.len() == 1 && old(self).ahead(1).token@ == TokenView::Identifier(list@[0].name@)
                        && list@[0].extends_from@.len() == 0,
                    hb == exists|q: Seq<Seq<char>>, d: int|
                        old(self).ahead(0).token@ == TokenView::LessThan && old(self).ahead(1).token@ is Identifier
                            && old(self).ahead(2).token@ == TokenView::Keyword("extends"@) && #[trigger] plain_ref_type_at(
                            *old(self),
                            3,
                            q,
                            d,
                        ) && old(self).ahead(3 + plain_ref_type_len(q, d)).token@ == TokenView::GreaterThan,
                    hb ==> *self == s2 && s2.ahead(0).token@ == TokenView::GreaterThan && s2.shifted(
                        *old(self),
                        3 + plain_ref_type_len(gb.0, gb.1),
                    ) && list@.len() == 1 && old(self).ahead(1).token@ == TokenView::Identifier(list@[0].name@)
                        && list@[0].extends_from@.len() == 1 && list@[0].extends_from@[0].name@ == gb.0
                        && list@[0].extends_from@[0].arr_dim == gb.1 && list@[0].extends_from@[0].type_arg_list.0@.len()
                        == 0,
                    hn == exists|ns: Seq<Seq<char>>| #[trigger] bare_type_params_at(*old(self), ns),
                    hn ==> bare_type_params_at(*old(self), gn) && list@.len() <= gn.len() && self.shifted(
                        *old(self),
                        2 * (list@.len() as int),
                    ) && forall|i: int|
                        0 <= i < list@.len() ==> (#[trigger] list@[i]).name@ == gn[i] && list@[i].extends_from@.len()
                            == 0,
                decreases self.remaining(),
            {
                let ghost k = list@.len() as int;
                let ghost c0 = *self;
                proof {
                    if hn {
                        assert(c0.ahead(0) == old(self).ahead(0 + 2 * k));
                        if k == gn.len() {
                            assert(old(self).ahead(2 * (gn.len() as int)).token@ == TokenView::GreaterThan);
                        } else {
                            assert(old(self).ahead(1 + 2 * k).token@ == TokenView::Identifier(gn[k]));
                            assert(c0.ahead(1) == old(self).ahead(1 + 2 * k));
                            if k + 1 < gn.len() {
                                assert(old(self).ahead(2 + 2 * k).token@ == TokenView::Comma);
                            }
                            assert(c0.ahead(2) == old(self).ahead(2 + 2 * k));
                        }
                    }
                }
                self.get_next_token();
                let ghost c1 = *self;
                proof {
                    if hn {
                        assert(c1.ahead(0) == c0.ahead(1));
                        assert(c1.ahead(1) == c0.ahead(2));
                    }
                }
                let p = self.type_param().push_context(ctx)?;
                proof {
                    if hn {
                        lemma_shifted_trans(*old(self), c0, c1, 2 * k, 1);
                        lemma_shifted_trans(*old(self), c1, *self, 2 * k + 1, 1);
                    }
                }
                list.push(p);
            }
            let ghost s3 = *self;
            proof {
                if hn {
                    let n = list@.len() as int;
                    assert(s3.ahead(0) == old(self).ahead(0 + 2 * n));
                    if n < gn.len() {
                        assert(old(self).ahead(2 + 2 * (n - 1)).token@ == TokenView::Comma);
                    }
                    assert(n == gn.len());
                }
            }
            self.consume_gt()?;
            proof {
                if hn {
                    lemma_shifted_trans(*old(self), s3, *self, 2 * (gn.len() as int), 1);
                    assert forall|ns: Seq<Seq<char>>| #[trigger] bare_type_params_at(*old(self), ns) implies ns == gn by {
                        if ns.len() < gn.len() {
                            assert(old(self).ahead(2 + 2 * (ns.len() - 1)).token@ == TokenView::Comma);
                        } else if gn.len() < ns.len() {
                            assert(old(self).ahead(2 + 2 * (gn.len() - 1)).token@ == TokenView::Comma);
                        } else {
                            assert forall|i: int| 0 <= i < ns.len() implies ns[i] == gn[i] by {
                                assert(old(self).ahead(1 + 2 * i).token@ == TokenView::Identifier(ns[i]));
                            }
                            assert(ns =~= gn);
                        }
                    }
                }
                if h {
                    lemma_shifted_trans(*old(self), s3, *self, 2, 1);
                }
                if hb {
                    lemma_shifted_trans(*old(self), s3, *self, 3 + plain_ref_type_len(gb.0, gb.1), 1);
                    assert forall|q: Seq<Seq<char>>, d: int|
                        old(self).ahead(0).token@ == TokenView::LessThan && old(self).ahead(1).token@ is Identifier
                            && old(self).ahead(2).token@ == TokenView::Keyword("extends"@) && #[trigger] plain_ref_type_at(
                            *old(self),
                            3,
                            q,
                            d,
                        ) && old(self).ahead(3 + plain_ref_type_len(q, d)).token@ == TokenView::GreaterThan implies q
                        == gb.0 && d == gb.1 by {
                        lemma_plain_ref_type_unique(*old(self), 3, q, d, gb.0, gb.1);
                    }
                }
            }
        }
        Ok(TypeParamList(list))
    }

    /// `<type_param> ::= <annotations> IDENTIFIER ["extends" <ref_type> { "&" <ref_type> }]`
    pub fn type_param(&mut self) -> (r: ParseResult<TypeParam>)
        requires
            old(self).wf(),
        ensures
            final(self).follows(*old(self)),
            r is Ok ==> final(self).remaining() < old(self).remaining(),
            r matches Ok(tp) ==> (old(self).ahead(0).token@ != TokenView::At ==> {
                &&& old(self).ahead(0).token@ == TokenView::Identifier(tp.name@)
                &&& (tp.extends_from@.len() > 0 <==> old(self).ahead(1).token@ == TokenView::Keyword(
                    "extends"@,
                ))
                &&& (tp.extends_from@.len() == 0 ==> final(self).shifted(*old(self), 1))
                &&& (tp.extends_from@.len() > 0 && old(self).ahead(2).token@ != TokenView::At ==> spells_name(
                    *old(self),
                    2,
                    tp.extends_from@[0].name@,
                ))
            }),
            old(self).ahead(0).token@ is Identifier && old(self).ahead(1).token@ != TokenView::Keyword("extends"@)
                ==> (r matches Ok(tp) && old(self).ahead(0).token@ == TokenView::Identifier(tp.name@)
                && tp.extends_from@.len() == 0 && final(self).shifted(*old(self), 1)),
            forall|q: Seq<Seq<char>>, d: int|
                old(self).ahead(0).token@ is Identifier && old(self).ahead(1).token@ == TokenView::Keyword("extends"@)
                    && #[trigger] plain_ref_type_at(*old(self), 2, q, d) && old(self).ahead(2 + plain_ref_type_len(q, d)).token@
                    != TokenView::Op("&"@) ==> {
                    &&& r matches Ok(tp)
                    &&& old(self).ahead(0).token@ == TokenView::Identifier(tp.name@)
                    &&& tp.extends_from@.len() == 1
                    &&& tp.extends_from@[0].name@ == q
                    &&& tp.extends_from@[0].arr_dim == d
                    &&& tp.extends_from@[0].type_arg_list.0@.len() == 0
                    &&& final(self).shifted(*old(self), 2 + plain_ref_type_len(q, d))
                },
    {
        let ghost hb = exists|q: Seq<Seq<char>>, d: int|
            old(self).ahead(0).token@ is Identifier && old(self).ahead(1).token@ == TokenView::Keyword("extends"@)
                && #[trigger] plain_ref_type_at(*old(self), 2, q, d) && old(self).ahead(2 + plain_ref_type_len(q, d)).token@
                != TokenView::Op("&"@);
        let ghost gb = choose|q: Seq<Seq<char>>, d: int|
            old(self).ahead(0).token@ is Identifier && old(self).ahead(1).token@ == TokenView::Keyword("extends"@)
                && #[trigger] plain_ref_type_at(*old(self), 2, q, d) && old(self).ahead(2 + plain_ref_type_len(q, d)).token@
                != TokenView::Op("&"@);
        let ctx = ("type_param", self.peek_next_token().addr);
        self.annotations().push_context(ctx)?;
        let ghost s0 = *self;
        let t = self.get_next_token();
        let ghost s1 = *self;
        let name = match t.token {
            Token::Identifier(s) => s,
            _ => {
                let cur = self.get_current_token();
                return Err(
                    ParseErrType::UnexpectedToken {
                        expected: "IDENTIFIER",
                        got: vec![t.token.to_owned_token()],
                    }.to_stack_parse_err(cur.addr, ctx),
                );
            },
        };
        let mut extends_from: Vec<RefType> = Vec::new();
        proof {
            if old(self).ahead(0).token@ != TokenView::At {
                assert(s0 == *old(self));
                assert(s1.ahead(0) == old(self).ahead(0int + 1));
            }
        }
        if self.next_is(Token::Keyword("extends")) {
            self.get_next_token();
            let ghost s2 = *self;
            proof {
                if hb {
                    lemma_shifted_trans(*old(self), s1, s2, 1, 1);
                    lemma_plain_ref_type_shift(*old(self), s2, 2, 0, gb.0, gb.1);
                }
            }
            let first = self.ref_type().push_context(ctx)?;
            let ghost s3 = *self;
            proof {
                if old(self).ahead(0).token@ != TokenView::At {
                    lemma_shifted_trans(*old(self), s1, s2, 1, 1);
                    assert(s2.ahead(0) == old(self).ahead(0int + 2));
                    if old(self).ahead(2).token@ != TokenView::At {
                        lemma_spells_name_shift(*old(self), s2, 2, 0, first.name@);
                    }
                }
                if hb {
                    let l = plain_ref_type_len(gb.0, gb.1);
                    lemma_shifted_trans(*old(self), s2, s3, 2, l);
                    assert(s3.ahead(0) == old(self).ahead(0 + (2 + l)));
                }
            }
            let ghost gfirst = first;
            extends_from.push(first);
            let ghost mid = *self;
            while self.next_is(Token::Op("&"))
                invariant
                    old(self).wf(),
                    mid.follows(*old(self)),
                    mid.remaining() < old(self).remaining(),
                    self.follows(mid),
                    extends_from@.len() >= 1,
                    old(self).ahead(0).token@ != TokenView::At ==> old(self).ahead(1).token@ == TokenView::Keyword(
                        "extends"@,
                    ),
                    old(self).ahead(0).token@ != TokenView::At && old(self).ahead(2).token@ != TokenView::At
                        ==> spells_name(*old(self), 2, extends_from@[0].name@),
                    hb == exists|q: Seq<Seq<char>>, d: int|
                        old(self).ahead(0).token@ is Identifier && old(self).ahead(1).token@ == TokenView::Keyword(
                            "extends"@,
                        ) && #[trigger] plain_ref_type_at(*old(self), 2, q, d) && old(self).ahead(
                            2 + plain_ref_type_len(q, d),
                        ).token@ != TokenView::Op("&"@),
                    hb ==> *self == mid && mid == s3 && extends_from@.len() == 1 && extends_from@[0] == gfirst
                        && mid.ahead(0).token@ != TokenView::Op("&"@),
                decreases self.remaining(),
            {
                self.get_next_token();
                let next = self.ref_type().push_context(ctx)?;
                extends_from.push(next);
            }
        }
        proof {
            if hb {
                assert forall|q: Seq<Seq<char>>, d: int|
                    old(self).ahead(0).token@ is Identifier && old(self).ahead(1).token@ == TokenView::Keyword("extends"@)
                        && #[trigger] plain_ref_type_at(*old(self), 2, q, d) && old(self).ahead(
                        2 + plain_ref_type_len(q, d),
                    ).token@ != TokenView::Op("&"@) implies q == gb.0 && d == gb.1 by {
                    lemma_plain_ref_type_unique(*old(self), 2, q, d, gb.0, gb.1);
                }
            }
        }
        Ok(TypeParam { name: name.to_owned(), extends_from })
    }

    /// Adds one array dimension to the last type of `v`.
    fn add_dimension_to_last(&self, v: &mut Vec<RefType>, ctx: (&'static str, usize)) -> (r: ParseResult<()>)
        requires
            self.wf(),
            old(v)@.len() >= 1,
        ensures
            final(v)@.len() == old(v)@.len(),
            r is Err <==> old(v)@.last().arr_dim == 255,
            r is Err ==> final(v)@ == old(v)@,
            r is Ok ==> final(v)@.drop_last() == old(v)@.drop_last() && final(v)@.last() == (RefType {
                arr_dim: (old(v)@.last().arr_dim + 1) as u8,
                ..old(v)@.last()
            }),
    {
        let mut last = v.pop().unwrap();
        if last.arr_dim == 255 {
            v.push(last);
            assert(v@ =~= old(v)@);
            return Err(
                ParseErrType::SemanticError("too many array dimensions").to_stack_parse_err(
                    self.get_current_token().addr,
                    ctx,
                ),
            );
        }
        last.arr_dim = last.arr_dim + 1;
        v.push(last);
        assert(v@.drop_last() =~= old(v)@.drop_last());
        Ok(())
    }

    /// ```
    /// <arg_list> ::=
    /// "(" <annotations> ["final"] <ref_type> (
    ///     |   ("..." IDENTIFIER)
    ///     |   (IDENTIFIER {"[]"} {"," <annotations> ["final"] <ref_type> IDENTIFIER {"[]"}}
    ///         ["," "final" <annotations> <ref_type> "..." IDENTIFIER])
    /// ) ")"
    /// ```
    /// The result holds the parameters' types.
    #[verifier::spinoff_prover]
    #[verifier::rlimit(50)]
    pub fn arg_list(&mut self) -> (r: ParseResult<Vec<RefType>>)
        requires
            old(self).wf(),
        ensures
            final(self).follows(*old(self)),
            r is Ok ==> old(self).ahead(0).token@ == TokenView::LParen && final(self).remaining()
                < old(self).remaining(),
            r matches Ok(v) ==> (v@.len() == 0 <==> old(self).ahead(1).token@ == TokenView::RParen),
            r matches Ok(v) ==> (v@.len() == 0 ==> final(self).shifted(*old(self), 2)),
            old(self).ahead(0).token@ != TokenView::LParen ==> r is Err,
            old(self).ahead(0).token@ == TokenView::LParen && old(self).ahead(1).token@ == TokenView::RParen ==> (
            r matches Ok(v) && v@.len() == 0),
            forall|q: Seq<Seq<char>>, d: int|
                #[trigger] single_param_at(*old(self), q, d) ==> (r matches Ok(v) && v@.len() == 1 && v@[0].name@ == q
                    && v@[0].arr_dim == d && v@[0].type_arg_list.0@.len() == 0 && final(self).shifted(
                    *old(self),
                    plain_ref_type_len(q, d) + 3,
                )),
            forall|ps: Seq<PlainParam>|
                #[trigger] plain_param_list_at(*old(self), ps) ==> {
                    &&& r matches Ok(v)
                    &&& v@.len() == ps.len()
                    &&& forall|i: int|
                        0 <= i < ps.len() ==> {
                            &&& (#[trigger] v@[i]).name@ == ps[i].0
                            &&& v@[i].arr_dim == ps[i].1
                            &&& v@[i].type_arg_list.0@.len() == 0
                        }
                    &&& final(self).shifted(*old(self), plain_params_len(ps) + 1)
                },
    {
        let ghost h2 = exists|ps: Seq<PlainParam>| #[trigger] plain_param_list_at(*old(self), ps);
        let ghost gps = choose|ps: Seq<PlainParam>| #[trigger] plain_param_list_at(*old(self), ps);
        let ghost h = exists|q: Seq<Seq<char>>, d: int| single_param_at(*old(self), q, d);
        let ghost gqd = choose|q: Seq<Seq<char>>, d: int| single_param_at(*old(self), q, d);
        let ghost gq = gqd.0;
        let ghost gd = gqd.1;
        let ghost gl = plain_ref_type_len(gq, gd);
        let ctx = ("arg_list", self.peek_next_token().addr);
        // "("
        let open = self.get_next_token();
        if !crate::parser::token::token_eq(&open.token, &Token::LParen) {
            let cur = self.get_current_token();
            return Err(
                ParseErrType::UnexpectedToken {
                    expected: "LParen",
                    got: vec![cur.token.to_owned_token()],
                }.to_stack_parse_err(cur.addr, ctx),
            );
        }
        let ghost after_open = *self;
        let mut v: Vec<RefType> = Vec::new();
        assert(after_open.ahead(0) == old(self).ahead(0int + 1));
        proof {
            if h {
                lemma_plain_ref_type_shift(*old(self), after_open, 1, 0, gq, gd);
                lemma_plain_ref_type_starts(after_open, 0, gq, gd);
            }
            if h2 {
                lemma_plain_params_take(*old(self), gps, 0);
                assert(gps.take(0) =~= Seq::<PlainParam>::empty());
                lemma_plain_ref_type_shift(*old(self), after_open, 1, param_skip(gps[0]), gps[0].0, gps[0].1);
                if !gps[0].2 {
                    lemma_plain_ref_type_starts(after_open, 0, gps[0].0, gps[0].1);
                }
            }
        }
        if self.next_is(Token::RParen) {
            self.get_next_token();
            proof {
                lemma_shifted_trans(*old(self), after_open, *self, 1, 1);
            }
            return Ok(v);
        }
        // <annotations> ["final"]
        self.annotations().push_context(ctx)?;
        if self.next_is(Token::Keyword("final")) {
            self.get_next_token();
        }
        let ghost sf = *self;
        proof {
            if h {
                assert(sf == after_open);
            }
            if h2 {
                if gps[0].2 {
                    lemma_plain_ref_type_shift(*old(self), sf, 2, 0, gps[0].0, gps[0].1);
                } else {
                    assert(sf == after_open);
                }
            }
        }
        // <reftype>
        let first = self.ref_type().push_context(ctx)?;
        let ghost s3 = *self;
        proof {
            if h {
                assert(plain_ref_type_at(after_open, 0, gq, gd));
                lemma_shifted_trans(*old(self), after_open, s3, 1, gl);
                assert(s3.ahead(0) == old(self).ahead(0 + (1 + gl)));
                assert(s3.ahead(1) == old(self).ahead(1 + (1 + gl)));
            }
        }
        proof {
            if h2 {
                let l0 = plain_ref_type_len(gps[0].0, gps[0].1);
                let f0 = param_skip(gps[0]);
                lemma_shifted_trans(*old(self), sf, s3, 1 + f0, l0);
                assert(s3.ahead(0) == old(self).ahead(0 + (1 + f0 + l0)));
            }
        }
        v.push(first);
        // | ("..." IDENTIFIER ")")
        if self.next_is(Token::Op("...")) {
            self.get_next_token();
            let ghost e1 = *self;
            self.consume_identifier("Identifier", ctx)?;
            let ghost e2 = *self;
            self.consume_token(Token::RParen, "RParen", ctx)?;
            proof {
                if h2 {
                    let l0 = plain_ref_type_len(gps[0].0, gps[0].1);
                    let f0 = param_skip(gps[0]);
                    lemma_plain_params_take(*old(self), gps, 0);
                    assert(gps.take(0) =~= Seq::<PlainParam>::empty());
                    assert(gps[0].3);
                    assert(gps.len() == 1);
                    assert(gps.take(1) =~= gps);
                    lemma_shifted_trans(*old(self), s3, e1, 1 + f0 + l0, 1);
                    lemma_shifted_trans(*old(self), e1, e2, 2 + f0 + l0, 1);
                    lemma_shifted_trans(*old(self), e2, *self, 3 + f0 + l0, 1);
                    assert forall|ps: Seq<PlainParam>| #[trigger] plain_param_list_at(*old(self), ps) implies ps == gps by {
                        lemma_plain_param_list_unique(*old(self), ps, gps);
                    }
                }
            }
            return Ok(v);
        }
        // consume the Identifier
        let id = self.get_next_token();
        match id.token {
            Token::Identifier(_) => {},
            _ => {
                let cur = self.get_current_token();
                return Err(
                    ParseErrType::UnexpectedToken {
                        expected: "IDENTIFIER",
                        got: vec![cur.token.to_owned_token()],
                    }.to_stack_parse_err(cur.addr, ctx),
                );
            },
        }
        // {"[]"}
        let ghost mid = *self;
        proof {
            if h {
                assert(mid.shifted(s3, 1));
                assert(mid.ahead(0) == s3.ahead(0int + 1));
                lemma_shifted_trans(*old(self), s3, mid, 1 + gl, 1);
            }
            if h2 {
                let l0 = plain_ref_type_len(gps[0].0, gps[0].1);
                let f0 = param_skip(gps[0]);
                lemma_shifted_trans(*old(self), s3, mid, 1 + f0 + l0, 1);
                lemma_plain_params_take(*old(self), gps, 0);
                assert(gps.take(0) =~= Seq::<PlainParam>::empty());
                assert(plain_params_len(gps.take(1)) == f0 + l0 + 2);
                assert(mid.ahead(0) == old(self).ahead(0 + (f0 + l0 + 2)));
                if gps.len() > 1 {
                    assert(old(self).ahead(plain_params_len(gps.take(1))).token@ == TokenView::Comma);
                } else {
                    assert(gps.take(1) =~= gps);
                }
                assert(names_view(v@[0].name.0@) == gps[0].0);
            }
        }
        let ghost vm = v@;
        while self.next_is(Token::LBracket)
            invariant
                old(self).wf(),
                mid.follows(*old(self)),
                mid.remaining() < old(self).remaining(),
                self.follows(mid),
                v@.len() >= 1,
                old(self).ahead(0).token@ == TokenView::LParen,
                old(self).ahead(1).token@ != TokenView::RParen,
                h ==> *self == mid && mid.ahead(0).token@ == TokenView::RParen,
                h2 == exists|ps: Seq<PlainParam>| #[trigger] plain_param_list_at(*old(self), ps),
                h2 ==> *self == mid && (mid.ahead(0).token@ == TokenView::RParen || mid.ahead(0).token@
                    == TokenView::Comma),
                h2 ==> v@ == vm,
                h ==> v@.len() == 1 && v@[0].name@ == gq && v@[0].arr_dim == gd && v@[0].type_arg_list.0@.len() == 0,
                h == exists|q: Seq<Seq<char>>, d: int| single_param_at(*old(self), q, d),
            decreases self.remaining(),
        {
            self.get_next_token();
            self.consume_token(Token::RBracket, "RBracket", ctx)?;
            self.add_dimension_to_last(&mut v, ctx)?;
        }
        // {"," <annotations> ["final"] <ref_type> IDENTIFIER {"[]"}}
        // ["," "final" <annotations> <ref_type> "..." IDENTIFIER]
        let ghost mid2 = *self;
        while self.next_is(Token::Comma)
            invariant
                old(self).wf(),
                mid2.follows(*old(self)),
                mid2.remaining() < old(self).remaining(),
                self.follows(mid2),
                v@.len() >= 1,
                old(self).ahead(0).token@ == TokenView::LParen,
                old(self).ahead(1).token@ != TokenView::RParen,
                h ==> *self == mid2 && mid2.ahead(0).token@ == TokenView::RParen,
                h ==> v@.len() == 1 && v@[0].name@ == gq && v@[0].arr_dim == gd && v@[0].type_arg_list.0@.len() == 0,
                h == exists|q: Seq<Seq<char>>, d: int| single_param_at(*old(self), q, d),
                h2 == exists|ps: Seq<PlainParam>| #[trigger] plain_param_list_at(*old(self), ps),
                h2 ==> plain_param_list_at(*old(self), gps),
                h2 ==> v@.len() <= gps.len(),
                h2 ==> self.shifted(*old(self), plain_params_len(gps.take(v@.len() as int))),
                h2 ==> forall|i: int|
                    0 <= i < v@.len() ==> {
                        &&& (#[trigger] v@[i]).name@ == gps[i].0
                        &&& v@[i].arr_dim == gps[i].1
                        &&& v@[i].type_arg_list.0@.len() == 0
                    },
            decreases self.remaining(),
        {
            let ghost k = v@.len() as int;
            let ghost c0 = *self;
            let ghost vb = v@;
            proof {
                if h2 {
                    lemma_plain_params_take(*old(self), gps, k);
                    if k == gps.len() {
                        assert(gps.take(k) =~= gps);
                        assert(self.ahead(0) == old(self).ahead(0 + plain_params_len(gps)));
                    }
                    assert(self.ahead(0) == old(self).ahead(0 + plain_params_len(gps.take(k))));
                }
            }
            // ","
            self.get_next_token();
            let ghost c1 = *self;
            proof {
                if h2 {
                    let off = plain_params_len(gps.take(k));
                    lemma_shifted_trans(*old(self), c0, c1, off, 1);
                    assert(c1.ahead(0) == old(self).ahead(0 + (off + 1)));
                    lemma_plain_ref_type_shift(*old(self), c1, off + 1, param_skip(gps[k]), gps[k].0, gps[k].1);
                    if !gps[k].2 {
                        lemma_plain_ref_type_starts(c1, 0, gps[k].0, gps[k].1);
                    }
                }
            }
            // <annotations> ["final"]
            self.annotations().push_context(ctx)?;
            if self.next_is(Token::Keyword("final")) {
                self.get_next_token();
            }
            let ghost c1f = *self;
            proof {
                if h2 {
                    let off = plain_params_len(gps.take(k));
                    if gps[k].2 {
                        lemma_shifted_trans(*old(self), c1, c1f, off + 1, 1);
                        lemma_plain_ref_type_shift(*old(self), c1f, off + 2, 0, gps[k].0, gps[k].1);
                    } else {
                        assert(c1f == c1);
                    }
                }
            }
            // <type> before ID
            let t = self.ref_type().push_context(ctx)?;
            let ghost c2 = *self;
            proof {
                if h2 {
                    let off = plain_params_len(gps.take(k));
                    let fk = param_skip(gps[k]);
                    let lk = plain_ref_type_len(gps[k].0, gps[k].1);
                    lemma_shifted_trans(*old(self), c1f, c2, off + 1 + fk, lk);
                    assert(c2.ahead(0) == old(self).ahead(0 + (off + 1 + fk + lk)));
                }
            }
            v.push(t);
            // "..." IDENTIFIER ")"
            if self.next_is(Token::Op("...")) {
                self.get_next_token();
                let ghost e1 = *self;
                self.consume_identifier("IDENTIFIER", ctx)?;
                let ghost e2 = *self;
                self.consume_token(Token::RParen, "RParen", ctx)?;
                proof {
                    if h2 {
                        let off = plain_params_len(gps.take(k));
                        let fk = param_skip(gps[k]);
                        let lk = plain_ref_type_len(gps[k].0, gps[k].1);
                        assert(gps[k].3);
                        assert(k == gps.len() - 1);
                        assert(gps.take(k + 1) =~= gps);
                        lemma_shifted_trans(*old(self), c2, e1, off + 1 + fk + lk, 1);
                        lemma_shifted_trans(*old(self), e1, e2, off + 2 + fk + lk, 1);
                        lemma_shifted_trans(*old(self), e2, *self, off + 3 + fk + lk, 1);
                        assert forall|i: int| 0 <= i < v@.len() implies {
                            &&& (#[trigger] v@[i]).name@ == gps[i].0
                            &&& v@[i].arr_dim == gps[i].1
                            &&& v@[i].type_arg_list.0@.len() == 0
                        } by {
                            if i < k {
                                assert(v@[i] == vb[i]);
                            }
                        }
                        assert forall|ps: Seq<PlainParam>| #[trigger] plain_param_list_at(*old(self), ps) implies ps
                            == gps by {
                            lemma_plain_param_list_unique(*old(self), ps, gps);
                        }
                    }
                }
                return Ok(v);
            }
            // IDENTIFIER {"[]"}
            self.consume_identifier("IDENTIFIER", ctx)?;
            let ghost mid3 = *self;
            proof {
                if h2 {
                    let off = plain_params_len(gps.take(k));
                    let fk = param_skip(gps[k]);
                    let lk = plain_ref_type_len(gps[k].0, gps[k].1);
                    lemma_shifted_trans(*old(self), c2, mid3, off + 1 + fk + lk, 1);
                    assert(mid3.ahead(0) == old(self).ahead(0 + (off + 2 + fk + lk)));
                    if k + 1 < gps.len() {
                        assert(old(self).ahead(plain_params_len(gps.take(k + 1))).token@ == TokenView::Comma);
                    } else {
                        assert(gps.take(k + 1) =~= gps);
                    }
                    assert forall|i: int| 0 <= i < v@.len() implies {
                        &&& (#[trigger] v@[i]).name@ == gps[i].0
                        &&& v@[i].arr_dim == gps[i].1
                        &&& v@[i].type_arg_list.0@.len() == 0
                    } by {
                        if i < k {
                            assert(v@[i] == vb[i]);
                        }
                    }
                }
            }
            let ghost vm3 = v@;
            while self.next_is(Token::LBracket)
                invariant
                    old(self).wf(),
                    mid3.follows(*old(self)),
                    mid3.remaining() < old(self).remaining(),
                    self.follows(mid3),
                    v@.len() >= 1,
                    old(self).ahead(0).token@ == TokenView::LParen,
                    old(self).ahead(1).token@ != TokenView::RParen,
                    !h,
                    h == exists|q: Seq<Seq<char>>, d: int| single_param_at(*old(self), q, d),
                    h2 == exists|ps: Seq<PlainParam>| #[trigger] plain_param_list_at(*old(self), ps),
                    h2 ==> *self == mid3 && (mid3.ahead(0).token@ == TokenView::RParen || mid3.ahead(0).token@
                        == TokenView::Comma),
                    h2 ==> v@ == vm3,
                decreases self.remaining(),
            {
                self.get_next_token();
                self.consume_token(Token::RBracket, "RBracket", ctx)?;
                self.add_dimension_to_last(&mut v, ctx)?;
            }
        }
        let ghost c9 = *self;
        proof {
            if h2 {
                let k = v@.len() as int;
                lemma_plain_params_take(*old(self), gps, k);
                if k < gps.len() {
                    assert(old(self).ahead(plain_params_len(gps.take(k))).token@ == TokenView::Comma);
                    assert(self.ahead(0) == old(self).ahead(0 + plain_params_len(gps.take(k))));
                }
                assert(gps.take(gps.len() as int) =~= gps);
            }
        }
        let close = self.get_next_token();
        proof {
            if h2 {
                lemma_shifted_trans(*old(self), c9, *self, plain_params_len(gps), 1);
            }
        }
        if !crate::parser::token::token_eq(&close.token, &Token::RParen) {
            let cur = self.get_current_token();
            return Err(
                ParseErrType::UnexpectedToken {
                    expected: "RParen",
                    got: vec![cur.token.to_owned_token()],
                }.to_stack_parse_err(cur.addr, ctx),
            );
        }
        proof {
            if h {
                assert(mid2 == mid);
                lemma_shifted_trans(*old(self), mid, *self, 2 + gl, 1);
                assert forall|q: Seq<Seq<char>>, d: int| #[trigger] single_param_at(*old(self), q, d) implies q == gq
                    && d == gd by {
                    lemma_plain_ref_type_unique(*old(self), 1, q, d, gq, gd);
                }
            }
            if h2 {
                assert forall|ps: Seq<PlainParam>| #[trigger] plain_param_list_at(*old(self), ps) implies ps == gps by {
                    lemma_plain_param_list_unique(*old(self), ps, gps);
                }
            }
        }
        Ok(v)
    }
}

} // verus!
