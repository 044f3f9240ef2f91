use vstd::prelude::*;

use std::rc::Rc;

use crate::parser::lexer::{
    lemma_lex_step_bounds, lemma_scan_spans_text, lex_all, lex_from, lex_step, skip_trivia, spans_its_text, Lexer,
};
use crate::parser::token::{token_eq, IndexedToken, Token, TokenView};
use crate::parser::nonterminals::util::{
    access_of, access_word, is_modifier_token, lemma_non_sealed_distinct, lemma_public_before_decl, modifiers_len,
    modifiers_spelled,
};
use crate::types::{
    is_child_name, names_view, AccessModifier, GenericParseResult, ImportObject, JavaFile,
    ParseErr, ParseErrType, ParseResult, QualifiedName, Type,
};

verus! {

/// A recursive-descent parser over the tokens of one Java source file.
pub struct Parser<'a> {
    string: &'a str,
    tokens: Vec<IndexedToken<'a>>,
    ind: usize,
    lookahead: Option<IndexedToken<'a>>,
}

/// The tokens that are left over when a `>` is split off the front of a
/// longer operator.
pub open spec fn is_split_token(t: TokenView) -> bool {
    ||| t == TokenView::GreaterThan
    ||| t == TokenView::Op(">="@)
    ||| t == TokenView::Op(">>"@)
    ||| t == TokenView::Assignment("="@)
    ||| t == TokenView::Assignment(">>="@)
}

/// The text of an identifier token.
pub open spec fn ident_text(t: TokenView) -> Seq<char>
    recommends
        t is Identifier,
{
    match t {
        TokenView::Identifier(s) => s,
        _ => Seq::empty(),
    }
}

/// How much deeper inside `open`..`close` pairs the stream of `p` is after
/// the `j` tokens that start `from` places ahead.
pub open spec fn brace_depth(p: Parser, open: TokenView, close: TokenView, from: int, j: int) -> int
    decreases j,
{
    if j <= 0 {
        0
    } else {
        let t = p.ahead(from + j - 1).token@;
        brace_depth(p, open, close, from, j - 1) + if t == open {
            1int
        } else if t == close {
            -1int
        } else {
            0int
        }
    }
}

/// The `n` tokens that start `from` places ahead form one group: they open
/// with `open`, come back to depth 0 first at their last token, and hold no
/// end-of-file marker.
pub open spec fn balanced_group(p: Parser, open: TokenView, close: TokenView, from: int, n: int) -> bool {
    &&& n >= 1
    &&& p.ahead(from).token@ == open
    &&& brace_depth(p, open, close, from, n) == 0
    &&& forall|j: int| 1 <= j < n ==> brace_depth(p, open, close, from, j) > 0
    &&& forall|j: int| 0 <= j < n ==> (#[trigger] p.ahead(from + j)).token@ != TokenView::EOF
}

/// The tokens that start `from` places ahead open a group with `open`, but
/// an end-of-file marker comes `n` places on, before the group closes.
pub open spec fn unclosed_group(p: Parser, open: TokenView, close: TokenView, from: int, n: int) -> bool {
    &&& n >= 1
    &&& p.ahead(from).token@ == open
    &&& p.ahead(from + n).token@ == TokenView::EOF
    &&& forall|j: int| 1 <= j <= n ==> brace_depth(p, open, close, from, j) > 0
    &&& forall|j: int| 0 <= j < n ==> (#[trigger] p.ahead(from + j)).token@ != TokenView::EOF
}

/// A group that closes is the only group from its first token, and no
/// end of file cuts it short.
pub proof fn lemma_balanced_group_unique(p: Parser, open: TokenView, close: TokenView, from: int, n1: int, n2: int)
    requires
        balanced_group(p, open, close, from, n1),
        balanced_group(p, open, close, from, n2),
    ensures
        n1 == n2,
{
    if n1 < n2 {
        assert(brace_depth(p, open, close, from, n1) > 0);
    } else if n2 < n1 {
        assert(brace_depth(p, open, close, from, n2) > 0);
    }
}

/// A group that closes is not cut short by an end of file.
pub proof fn lemma_balanced_not_unclosed(p: Parser, open: TokenView, close: TokenView, from: int, n: int, m: int)
    requires
        balanced_group(p, open, close, from, n),
    ensures
        !unclosed_group(p, open, close, from, m),
{
    if unclosed_group(p, open, close, from, m) {
        if m < n {
            assert(p.ahead(from + m).token@ != TokenView::EOF);
        } else {
            assert(brace_depth(p, open, close, from, n) > 0);
        }
    }
}

/// How deep a stream is inside groups does not depend on how many tokens
/// were read before it.
pub proof fn lemma_brace_depth_shift(p: Parser, s: Parser, off: int, from: int, open: TokenView, close: TokenView, j: int)
    requires
        0 <= off,
        0 <= from,
        s.shifted(p, off),
    ensures
        brace_depth(s, open, close, from, j) == brace_depth(p, open, close, from + off, j),
    decreases j,
{
    if j > 0 {
        lemma_brace_depth_shift(p, s, off, from, open, close, j - 1);
        assert(s.ahead(from + j - 1) == p.ahead(from + j - 1 + off));
    }
}

/// A group read `off` tokens later is the same group.
pub proof fn lemma_balanced_group_shift(p: Parser, s: Parser, off: int, from: int, open: TokenView, close: TokenView, n: int)
    requires
        0 <= off,
        0 <= from,
        s.shifted(p, off),
        balanced_group(p, open, close, from + off, n),
    ensures
        balanced_group(s, open, close, from, n),
{
    lemma_brace_depth_shift(p, s, off, from, open, close, n);
    assert(s.ahead(from) == p.ahead(from + off));
    assert forall|j: int| 1 <= j < n implies brace_depth(s, open, close, from, j) > 0 by {
        lemma_brace_depth_shift(p, s, off, from, open, close, j);
    }
    assert forall|j: int| 0 <= j < n implies (#[trigger] s.ahead(from + j)).token@ != TokenView::EOF by {
        assert(s.ahead(from + j) == p.ahead(from + off + j));
    }
}

/// The kinds of bracket that groups are made of.
pub open spec fn is_bracket_pair(open: TokenView, close: TokenView) -> bool {
    ||| (open == TokenView::LBrace && close == TokenView::RBrace)
    ||| (open == TokenView::LParen && close == TokenView::RParen)
    ||| (open == TokenView::LBracket && close == TokenView::RBracket)
}

impl<'a> Parser<'a> {
    // --------------------------- the model ------------------------------

    /// The source text being parsed.
    pub closed spec fn source(&self) -> &'a str {
        self.string
    }

    /// The tokens of the source, ending with end-of-file markers.
    pub closed spec fn tokens(&self) -> Seq<IndexedToken<'a>> {
        self.tokens@
    }

    /// The token at position `i`; before the first token it is the first,
    /// after the last it is the last (an end-of-file marker).
    pub closed spec fn token_at(&self, i: int) -> IndexedToken<'a> {
        if 0 <= i < self.tokens@.len() {
            self.tokens@[i]
        } else if i < 0 {
            self.tokens@[0]
        } else {
            self.tokens@[self.tokens@.len() - 1]
        }
    }

    /// The `k`-th token still to be read (`k` from 0).
    pub closed spec fn ahead(&self, k: int) -> IndexedToken<'a> {
        match self.lookahead {
            Some(t) => if k == 0 {
                t
            } else {
                self.token_at(self.ind + k - 1)
            },
            None => self.token_at(self.ind + k),
        }
    }

    /// Whether part of a split token is waiting to be read.
    pub closed spec fn has_lookahead(&self) -> bool {
        self.lookahead is Some
    }

    /// The last token taken from the token list.
    pub closed spec fn current(&self) -> IndexedToken<'a> {
        self.token_at(self.ind - 1)
    }

    /// How many tokens have been taken from the token list.
    pub closed spec fn index(&self) -> int {
        self.ind as int
    }

    /// A measure of the input left: it never grows, and shrinks whenever a
    /// token other than the final end-of-file marker is read.
    pub closed spec fn remaining(&self) -> nat {
        (2 * (self.tokens@.len() - self.ind) + if self.lookahead is Some {
            1int
        } else {
            0int
        }) as nat
    }

    /// The tokens are in source order, lie within the source, and end with
    /// an end-of-file marker.
    pub closed spec fn wf(&self) -> bool {
        let n = self.string@.len();
        let ts = self.tokens@;
        &&& n + 4 < usize::MAX
        &&& 1 <= ts.len() <= n + 4
        &&& ts[ts.len() - 1].token@ == TokenView::EOF
        &&& self.ind <= ts.len()
        &&& forall|i: int, j: int|
            0 <= i <= j < ts.len() ==> (#[trigger] ts[i]).addr <= (#[trigger] ts[j]).addr
        &&& forall|i: int|
            0 <= i < ts.len() ==> ((#[trigger] ts[i]).token@ != TokenView::EOF ==> ts[i].addr
                + ts[i].len <= n)
        &&& forall|i: int| 0 <= i < ts.len() ==> spans_its_text((#[trigger] ts[i]).token@, ts[i].len as int)
        &&& forall|i: int| 0 <= i < ts.len() ==> (#[trigger] ts[i]).addr + ts[i].len < usize::MAX
        &&& match self.lookahead {
            Some(t) => {
                &&& is_split_token(t.token@)
                &&& spans_its_text(t.token@, t.len as int)
                &&& t.addr + t.len <= n
            },
            None => true,
        }
    }

    /// `self` is a later state of a parser that was in state `prev`: same
    /// input, no input given back.
    pub open spec fn follows(&self, prev: Parser<'a>) -> bool {
        &&& self.wf()
        &&& self.tokens() == prev.tokens()
        &&& self.source() == prev.source()
        &&& self.remaining() <= prev.remaining()
        &&& self.index() >= prev.index()
    }

    /// The tokens still to be read are those of `ts`, then end of file.
    pub open spec fn reads(&self, ts: Seq<TokenView>) -> bool {
        forall|k: int| 0 <= k ==> (#[trigger] self.ahead(k)).token@ == token_or_eof(ts, k)
    }

    /// `self` is the state of `prev` after `n` tokens were read.
    pub open spec fn shifted(&self, prev: Parser<'a>, n: int) -> bool {
        forall|k: int| 0 <= k ==> #[trigger] self.ahead(k) == prev.ahead(k + n)
    }

    /// The last token read lies within the source, and after every token
    /// read before it.
    pub proof fn lemma_current_order(&self, prev: Parser<'a>)
        requires
            prev.wf(),
            self.follows(prev),
        ensures
            prev.current().addr <= self.current().addr,
            self.source()@.len() + 4 < usize::MAX,
            self.current().token@ != TokenView::EOF ==> self.current().addr + self.current().len
                <= self.source()@.len(),
    {
        let ts = self.tokens@;
        let i = if 0 <= prev.ind - 1 {
            prev.ind - 1
        } else {
            0
        };
        let j = if 0 <= self.ind - 1 {
            self.ind - 1
        } else {
            0
        };
        assert(ts[i].addr <= ts[j].addr);
    }

    // --------------------------- construction ---------------------------

    /// Lexes `s` in full. `LexerError` if some part of it is not a token.
    pub fn new(s: &'a str) -> (r: Result<Self, ParseErr>)
        requires
            s@.len() + 4 < usize::MAX,
        ensures
            r matches Ok(p) ==> p.wf() && p.source() == s && p.index() == 0 && !p.has_lookahead(),
            r matches Ok(p) ==> lex_all(s@) matches Some(ts) && p.reads(ts),
            r is Err <==> lex_all(s@) is None,
            r matches Err(e) ==> e.err == ParseErrType::LexerError,
    {
        let mut lexer = Lexer::new(s);
        let mut tokens: Vec<IndexedToken<'a>> = Vec::new();
        let ghost cs = s@;
        let ghost n = s@.len();
        let mut ind: usize;
        loop
            invariant_except_break
                tokens@.len() <= lexer.pos(),
                forall|i: int|
                    0 <= i < tokens@.len() ==> (#[trigger] tokens@[i]).token@ != TokenView::EOF,
                lex_all(cs) == prepend_tokens(token_views(tokens@), lex_from(cs, lexer.pos())),
            invariant
                lexer.wf(),
                lexer.input() == cs,
                cs == s@,
                n == cs.len(),
                n + 4 < usize::MAX,
                0 <= lexer.pos() <= n,
                tokens@.len() <= lexer.pos() + 1,
                forall|i: int, j: int|
                    0 <= i <= j < tokens@.len() ==> (#[trigger] tokens@[i]).addr <= (
                    #[trigger] tokens@[j]).addr,
                forall|i: int|
                    0 <= i < tokens@.len() ==> (#[trigger] tokens@[i]).addr + tokens@[i].len
                        <= lexer.pos(),
                forall|i: int|
                    0 <= i < tokens@.len() ==> spans_its_text(
                        (#[trigger] tokens@[i]).token@,
                        tokens@[i].len as int,
                    ),
            ensures
                1 <= tokens@.len() <= n + 1,
                tokens@[tokens@.len() - 1].token@ == TokenView::EOF,
                ind == n,
                lex_all(cs) == Some(token_views(tokens@)),
            decreases n - lexer.pos(),
        {
            proof {
                lemma_lex_step_bounds(cs, lexer.pos());
                let p = skip_trivia(cs, lexer.pos());
                if p < cs.len() && lex_step(cs, lexer.pos()).tok is Some {
                    lemma_scan_spans_text(cs, p);
                }
            }
            let ghost pos0 = lexer.pos();
            let ghost tv0 = token_views(tokens@);
            let next = lexer.get_next_indexed_token();
            match next {
                Some(token) => {
                    tokens.push(token);
                    proof {
                        assert(token_views(tokens@) =~= tv0.push(token.token@));
                    }
                    if token_eq(&token.token, &Token::EOF) {
                        ind = token.addr;
                        proof {
                            assert(lex_from(cs, pos0) == Some(seq![TokenView::EOF]));
                            assert(tv0 + seq![TokenView::EOF] =~= tv0.push(TokenView::EOF));
                        }
                        break ;
                    }
                    proof {
                        let t = token.token@;
                        let rest = lex_from(cs, lexer.pos());
                        assert(lex_from(cs, pos0) == prepend_tokens(seq![t], rest));
                        match rest {
                            Some(r) => {
                                assert(tv0 + (seq![t] + r) =~= tv0.push(t) + r);
                            },
                            None => {},
                        }
                    }
                },
                None => {
                    proof {
                        assert(lex_from(cs, pos0) is None);
                    }
                    return Err(
                        ParseErr { err: ParseErrType::LexerError, stack: Vec::new(), err_index: 0 },
                    );
                },
            }
        }
        // Three more end-of-file markers, so that looking a few tokens past
        // the end never leaves the list.
        let ghost lexed_tokens = tokens@;
        let ghost lexed = token_views(tokens@);
        let mut k: usize = 0;
        while k < 3
            invariant
                lexed_tokens.len() <= tokens@.len(),
                forall|i: int| 0 <= i < lexed_tokens.len() ==> #[trigger] tokens@[i] == lexed_tokens[i],
                forall|i: int| lexed_tokens.len() <= i < tokens@.len() ==> (#[trigger] tokens@[i]).token@ == TokenView::EOF,
                lexed == token_views(lexed_tokens),
                lexed_tokens.len() >= 1,
                k <= 3,
                ind == n + k,
                n + 4 < usize::MAX,
                1 <= tokens@.len() <= n + 1 + k,
                tokens@[tokens@.len() - 1].token@ == TokenView::EOF,
                forall|i: int, j: int|
                    0 <= i <= j < tokens@.len() ==> (#[trigger] tokens@[i]).addr <= (
                    #[trigger] tokens@[j]).addr,
                forall|i: int| 0 <= i < tokens@.len() ==> (#[trigger] tokens@[i]).addr <= ind,
                forall|i: int|
                    0 <= i < tokens@.len() ==> ((#[trigger] tokens@[i]).token@ != TokenView::EOF
                        ==> tokens@[i].addr + tokens@[i].len <= n),
                forall|i: int|
                    0 <= i < tokens@.len() ==> spans_its_text(
                        (#[trigger] tokens@[i]).token@,
                        tokens@[i].len as int,
                    ),
                forall|i: int|
                    0 <= i < tokens@.len() ==> (#[trigger] tokens@[i]).addr + tokens@[i].len
                        < usize::MAX,
            decreases 3 - k,
        {
            ind = ind + 1;
            tokens.push(IndexedToken { token: Token::EOF, addr: ind, len: 1 });
            k = k + 1;
        }
        let p = Parser { string: s, tokens, ind: 0, lookahead: None };
        proof {
            let ts = lex_all(cs).unwrap();
            assert forall|k: int| 0 <= k implies (#[trigger] p.ahead(k)).token@ == token_or_eof(ts, k) by {
                if k < ts.len() {
                    assert(lexed[k] == ts[k]);
                    assert(p.tokens@[k] == lexed_tokens[k]);
                } else if k < p.tokens@.len() {
                    assert(p.tokens@[k].token@ == TokenView::EOF);
                }
            }
        }
        Ok(p)
    }

    /// A token other than an end-of-file marker can only be a few places
    /// ahead.
    pub proof fn lemma_ahead_bound(&self, k: int)
        requires
            self.wf(),
            0 <= k,
            self.ahead(k).token@ != TokenView::EOF,
        ensures
            k < self.tokens().len(),
    {
    }

    /// Reads one whole group of tokens that opens with `open_brace` and is
    /// closed by the matching `close_brace`.
    #[verifier::spinoff_prover]
    #[verifier::rlimit(40)]
    pub fn skip_brace(&mut self, open_brace: Token, close_brace: Token) -> (r: ParseResult<()>)
        requires
            old(self).wf(),
            is_bracket_pair(open_brace@, close_brace@),
        ensures
            final(self).follows(*old(self)),
            r is Ok ==> final(self).current().token@ == close_brace@,
            r is Ok ==> final(self).remaining() < old(self).remaining() && exists|n: int|
                balanced_group(*old(self), open_brace@, close_brace@, 0, n)
                    && #[trigger] final(self).shifted(*old(self), n),
            r is Err ==> old(self).ahead(0).token@ != open_brace@ || exists|n: int|
                #[trigger] unclosed_group(*old(self), open_brace@, close_brace@, 0, n),
            old(self).ahead(0).token@ == open_brace@ && old(self).ahead(1).token@ == close_brace@ ==> (r is Ok
                && final(self).shifted(*old(self), 2)),
    {
        let ctx = ("skip_brace", self.peek_next_token().addr);
        let ghost pre = *self;
        let ghost o = open_brace@;
        let ghost c = close_brace@;
        let first = self.get_next_token();
        if !token_eq(&first.token, &open_brace) {
            return Err(
                ParseErrType::UnexpectedToken {
                    expected: "LBrace | LBracket | LParen",
                    got: vec![first.token.to_owned_token()],
                }.to_stack_parse_err(first.addr, ctx),
            );
        }
        let mut stack: usize = 1;
        let ghost mut cnt: int = 1;
        assert(brace_depth(pre, o, c, 0, 0) == 0);
        assert(brace_depth(pre, o, c, 0, 1) == 1);
        while stack > 0
            invariant
                pre == *old(self),
                pre.wf(),
                is_bracket_pair(o, c),
                o == open_brace@,
                c == close_brace@,
                self.follows(pre),
                self.remaining() < pre.remaining(),
                cnt >= 1,
                self.shifted(pre, cnt),
                pre.ahead(0).token@ == o,
                stack == brace_depth(pre, o, c, 0, cnt),
                stack <= self.index() - pre.index(),
                !self.has_lookahead(),
                stack == 0 ==> self.current().token@ == c,
                forall|j: int| 1 <= j < cnt ==> brace_depth(pre, o, c, 0, j) > 0,
                forall|j: int| 0 <= j < cnt ==> (#[trigger] pre.ahead(0 + j)).token@ != TokenView::EOF,
                pre.ahead(1).token@ == c ==> cnt == 1 || (cnt == 2 && stack == 0),
            decreases self.remaining(),
        {
            let ghost before = *self;
            let t = self.get_next_token();
            assert(t == pre.ahead(cnt));
            assert(0 + cnt == cnt);
            if token_eq(&t.token, &open_brace) {
                stack = stack + 1;
            } else if token_eq(&t.token, &close_brace) {
                stack = stack - 1;
            } else if token_eq(&t.token, &Token::EOF) {
                assert(self.follows(pre));
                assert(brace_depth(pre, o, c, 0, cnt) > 0);
                assert(pre.ahead(cnt).token@ == TokenView::EOF);
                assert(pre.ahead(0 + cnt) == pre.ahead(cnt));
                assert(unclosed_group(pre, o, c, 0, cnt));
                return Err(ParseErrType::UnexpectedEOF.to_stack_parse_err(t.addr, ctx));
            }
            proof {
                assert forall|k: int| 0 <= k implies #[trigger] self.ahead(k) == pre.ahead(k + cnt + 1) by {
                    assert(before.ahead(k + 1) == pre.ahead(k + 1 + cnt));
                }
                if pre.ahead(1).token@ == c {
                    assert(cnt == 1);
                    assert(o != c);
                    assert(brace_depth(pre, o, c, 0, 0) == 0);
                    assert(brace_depth(pre, o, c, 0, 1) == 1);
                    assert(t.token@ == c);
                    assert(stack == 0);
                }
                cnt = cnt + 1;
            }
        }
        assert(balanced_group(pre, o, c, 0, cnt));
        Ok(())
    }

    /// Looks past one whole group of tokens that opens with `open_brace`
    /// `offset` places ahead, and gives the offset just after it.
    pub fn skip_brace_peek_forward(&self, open_brace: Token, close_brace: Token, offset: usize) -> (r: ParseResult<usize>)
        requires
            self.wf(),
            is_bracket_pair(open_brace@, close_brace@),
            offset < self.tokens().len(),
        ensures
            r matches Ok(o) ==> o <= self.tokens().len() && balanced_group(*self, open_brace@, close_brace@, offset as int, o - offset),
            r is Err ==> self.ahead(offset as int).token@ != open_brace@ || exists|n: int|
                #[trigger] unclosed_group(*self, open_brace@, close_brace@, offset as int, n),
    {
        let ctx = ("skip_brace_peek_forward", self.peek_token_offset(offset).addr);
        let ghost o = open_brace@;
        let ghost c = close_brace@;
        let first = self.peek_token_offset(offset);
        if !token_eq(&first.token, &open_brace) {
            return Err(
                ParseErrType::UnexpectedToken {
                    expected: "Open brace/bracket/paren",
                    got: vec![first.token.to_owned_token()],
                }.to_stack_parse_err(first.addr, ctx),
            );
        }
        let start = offset;
        let mut off = offset + 1;
        let mut stack: usize = 1;
        assert(brace_depth(*self, o, c, start as int, 0) == 0);
        assert(brace_depth(*self, o, c, start as int, 1) == 1);
        proof {
            self.lemma_ahead_bound(start as int);
        }
        while stack > 0
            invariant
                self.wf(),
                is_bracket_pair(o, c),
                o == open_brace@,
                c == close_brace@,
                start == offset,
                start < off <= self.tokens().len(),
                self.ahead(start as int).token@ == o,
                stack == brace_depth(*self, o, c, start as int, (off - start)),
                stack <= off - start,
                forall|j: int| 1 <= j < off - start ==> brace_depth(*self, o, c, start as int, j) > 0,
                forall|j: int| 0 <= j < off - start ==> (#[trigger] self.ahead(start + j)).token@ != TokenView::EOF,
            decreases self.tokens().len() - off,
        {
            let t = self.peek_token_offset(off);
            assert(start + (off - start) == off);
            if token_eq(&t.token, &Token::EOF) {
                assert(brace_depth(*self, o, c, start as int, off - start) > 0);
                assert(self.ahead(start + (off - start)).token@ == TokenView::EOF);
                assert(unclosed_group(*self, o, c, start as int, off - start));
                return Err(ParseErrType::UnexpectedEOF.to_stack_parse_err(t.addr, ctx));
            } else if token_eq(&t.token, &open_brace) {
                stack = stack + 1;
            } else if token_eq(&t.token, &close_brace) {
                stack = stack - 1;
            }
            proof {
                self.lemma_ahead_bound(off as int);
            }
            off = off + 1;
        }
        assert(balanced_group(*self, o, c, start as int, off - start));
        Ok(off)
    }

    /// The source text being parsed.
    pub fn source_text(&self) -> (r: &'a str)
        ensures
            r == self.source(),
    {
        self.string
    }

    /// The offset just after the annotations that start `offset` places
    /// ahead; the annotations are looked at, not read.
    pub fn skip_annotations(&self, offset: usize) -> (r: ParseResult<usize>)
        requires
            self.wf(),
            offset <= self.tokens().len(),
        ensures
            r matches Ok(o) ==> offset <= o <= self.tokens().len() && self.ahead(o as int).token@
                != TokenView::At,
            self.ahead(offset as int).token@ != TokenView::At ==> r == Ok::<usize, ParseErr>(offset),
            self.ahead(offset as int).token@ == TokenView::At && self.ahead(offset + 1).token@ is Identifier
                && self.ahead(offset + 2).token@ is Identifier ==> r == Ok::<usize, ParseErr>((offset + 2) as usize),
    {
        let ctx = ("skip_annotations", self.peek_token_offset(offset).addr);
        let mut off = offset;
        let ghost h = self.ahead(offset as int).token@ == TokenView::At && self.ahead(offset + 1).token@ is Identifier
            && self.ahead(offset + 2).token@ is Identifier;
        while self.offset_is(off, Token::At)
            invariant
                self.wf(),
                offset <= off <= self.tokens().len(),
                self.ahead(offset as int).token@ != TokenView::At ==> off == offset,
                h == (self.ahead(offset as int).token@ == TokenView::At && self.ahead(offset + 1).token@ is Identifier
                    && self.ahead(offset + 2).token@ is Identifier),
                h ==> off == offset || off == offset + 2,
            decreases self.tokens().len() - off,
        {
            let ghost off0 = off;
            proof {
                self.lemma_ahead_bound(off as int);
            }
            // "@"
            off = off + 1;
            // ID
            let t = self.peek_token_offset(off);
            match t.token {
                Token::Identifier(_) => {},
                _ => {
                    return Err(
                        ParseErrType::UnexpectedToken {
                            expected: "IDENTIFIER",
                            got: vec![t.token.to_owned_token()],
                        }.to_stack_parse_err(t.addr, ctx),
                    );
                },
            }
            proof {
                self.lemma_ahead_bound(off as int);
            }
            off = off + 1;
            // {"." ID}
            while self.offset_is(off, Token::Dot)
                invariant
                    self.wf(),
                    off0 < off <= self.tokens().len(),
                    offset <= off0,
                    self.ahead(offset as int).token@ == TokenView::At,
                    h == (self.ahead(offset as int).token@ == TokenView::At && self.ahead(offset + 1).token@ is Identifier
                        && self.ahead(offset + 2).token@ is Identifier),
                    h ==> off0 == offset && off == offset + 2,
                decreases self.tokens().len() - off,
            {
                proof {
                    self.lemma_ahead_bound(off as int);
                }
                off = off + 1;
                let t = self.peek_token_offset(off);
                match t.token {
                    Token::Identifier(_) => {},
                    _ => {
                        return Err(
                            ParseErrType::UnexpectedToken {
                                expected: "IDENTIFIER",
                                got: vec![t.token.to_owned_token()],
                            }.to_stack_parse_err(t.addr, ctx),
                        );
                    },
                }
                proof {
                    self.lemma_ahead_bound(off as int);
                }
                off = off + 1;
            }
            if self.offset_is(off, Token::LBrace) {
                proof {
                    self.lemma_ahead_bound(off as int);
                }
                off = self.skip_brace_peek_forward(Token::LBrace, Token::RBrace, off)?;
            } else if self.offset_is(off, Token::LParen) {
                proof {
                    self.lemma_ahead_bound(off as int);
                }
                off = self.skip_brace_peek_forward(Token::LParen, Token::RParen, off)?;
            }
        }
        Ok(off)
    }

    /// Whether the comma that comes next ends an assignment: it is the first
    /// comma of
    /// `"," <annotations> IDENTIFIER {"," <annotations> IDENTIFIER} (";" | "=")`.
    /// Nothing is read.
    #[verifier::spinoff_prover]
    #[verifier::rlimit(100)]
    pub fn check_end_assignment_comma(&self) -> (r: ParseResult<bool>)
        requires
            self.wf(),
        ensures
            r is Ok ==> self.ahead(0).token@ == TokenView::Comma,
            self.ahead(0).token@ != TokenView::Comma ==> r is Err,
            self.ahead(0).token@ == TokenView::Comma && self.ahead(1).token@ != TokenView::At && !(self.ahead(
                1,
            ).token@ is Identifier) ==> r == Ok::<bool, ParseErr>(false),
            self.ahead(0).token@ == TokenView::Comma && self.ahead(1).token@ is Identifier && self.ahead(2).token@
                != TokenView::Comma ==> r == Ok::<bool, ParseErr>(
                self.ahead(2).token@ == TokenView::Semicolon || self.ahead(2).token@ == TokenView::Assignment("="@),
            ),
            self.ahead(0).token@ == TokenView::Comma && self.ahead(1).token@ == TokenView::At && self.ahead(
                2,
            ).token@ is Identifier && self.ahead(3).token@ is Identifier && self.ahead(4).token@ != TokenView::Comma
                ==> r == Ok::<bool, ParseErr>(
                self.ahead(4).token@ == TokenView::Semicolon || self.ahead(4).token@ == TokenView::Assignment("="@),
            ),
            forall|ds: Seq<bool>|
                #[trigger] declarators_at(*self, ds) ==> r == Ok::<bool, ParseErr>(
                    self.ahead(declarators_len(ds)).token@ == TokenView::Semicolon || self.ahead(
                        declarators_len(ds),
                    ).token@ == TokenView::Assignment("="@),
                ),
    {
        let ghost hd = exists|ds: Seq<bool>| #[trigger] declarators_at(*self, ds);
        let ghost gd = choose|ds: Seq<bool>| #[trigger] declarators_at(*self, ds);
        proof {
            if hd {
                lemma_declarators_take(*self, gd, 0);
                assert(gd.take(0) =~= Seq::<bool>::empty());
            }
        }
        let ctx = ("check_end_assignment_comma", self.peek_next_token().addr);
        if !self.next_is(Token::Comma) {
            let t = self.get_current_token();
            return Err(
                ParseErrType::UnexpectedToken {
                    expected: "Comma",
                    got: vec![t.token.to_owned_token()],
                }.to_stack_parse_err(t.addr, ctx),
            );
        }
        proof {
            self.lemma_ahead_bound(0);
        }
        let mut offset: usize = 1;
        // <annotations>
        offset = self.skip_annotations(offset)?;
        // IDENTIFIER
        match self.peek_token_offset(offset).token {
            Token::Identifier(_) => {},
            _ => {
                return Ok(false);
            },
        }
        proof {
            self.lemma_ahead_bound(offset as int);
        }
        offset = offset + 1;
        let ghost mut k: int = 1;
        proof {
            if hd {
                assert(offset == declarators_len(gd.take(1)));
            }
        }
        // {"," <annotations> IDENTIFIER}
        while self.offset_is(offset, Token::Comma)
            invariant
                hd == exists|ds: Seq<bool>| #[trigger] declarators_at(*self, ds),
                hd ==> declarators_at(*self, gd) && 1 <= k <= gd.len() && offset == declarators_len(gd.take(k)),
                self.wf(),
                self.ahead(0).token@ == TokenView::Comma,
                offset <= self.tokens().len(),
                self.ahead(1).token@ is Identifier && self.ahead(2).token@ != TokenView::Comma ==> offset == 2,
                self.ahead(1).token@ == TokenView::At && self.ahead(2).token@ is Identifier && self.ahead(3).token@ is Identifier
                    && self.ahead(4).token@ != TokenView::Comma ==> offset == 4,
                self.ahead(1).token@ != TokenView::At ==> self.ahead(1).token@ is Identifier,
            decreases self.tokens().len() - offset,
        {
            proof {
                self.lemma_ahead_bound(offset as int);
                if hd {
                    if k == gd.len() {
                        assert(gd.take(k) =~= gd);
                    }
                    lemma_declarators_take(*self, gd, k);
                }
            }
            offset = offset + 1;
            let next = self.skip_annotations(offset)?;
            offset = next;
            match self.peek_token_offset(offset).token {
                Token::Identifier(_) => {},
                _ => {
                    return Ok(false);
                },
            }
            proof {
                self.lemma_ahead_bound(offset as int);
            }
            offset = offset + 1;
            proof {
                k = k + 1;
            }
        }
        proof {
            if hd {
                if k < gd.len() {
                    assert(self.ahead(declarators_len(gd.take(k))).token@ == TokenView::Comma);
                }
                assert(gd.take(k) =~= gd);
                assert forall|ds: Seq<bool>| #[trigger] declarators_at(*self, ds) implies ds == gd by {
                    lemma_declarators_unique(*self, ds, gd);
                }
            }
        }
        let t = self.peek_token_offset(offset);
        if token_eq(&t.token, &Token::Semicolon) || token_eq(&t.token, &Token::Assignment("=")) {
            Ok(true)
        } else {
            Ok(false)
        }
    }

    // --------------------------- reading tokens -------------------------

    /// Reads the next token. Past the end of the list, the final end-of-file
    /// marker is read again.
    pub fn get_next_token(&mut self) -> (r: IndexedToken<'a>)
        requires
            old(self).wf(),
        ensures
            final(self).follows(*old(self)),
            final(self).shifted(*old(self), 1),
            r == old(self).ahead(0),
            r.token@ != TokenView::EOF ==> final(self).remaining() < old(self).remaining(),
            !final(self).has_lookahead(),
            !old(self).has_lookahead() ==> final(self).current() == r,
            !old(self).has_lookahead() && r.token@ != TokenView::EOF ==> final(self).index()
                == old(self).index() + 1,
            old(self).has_lookahead() ==> is_split_token(r.token@),
    {
        match self.lookahead {
            Some(t) => {
                self.lookahead = None;
                t
            },
            None => {
                if self.ind < self.tokens.len() {
                    let t = self.tokens[self.ind];
                    self.ind = self.ind + 1;
                    t
                } else {
                    self.tokens[self.tokens.len() - 1]
                }
            },
        }
    }

    /// The last token taken from the token list.
    pub fn get_current_token(&self) -> (r: IndexedToken<'a>)
        requires
            self.wf(),
        ensures
            r == self.current(),
    {
        if self.ind >= 1 {
            self.tokens[self.ind - 1]
        } else {
            self.tokens[0]
        }
    }

    /// The next token, without reading it.
    pub fn peek_next_token(&self) -> (r: IndexedToken<'a>)
        requires
            self.wf(),
        ensures
            r == self.ahead(0),
    {
        match self.lookahead {
            Some(t) => t,
            None => {
                if self.ind < self.tokens.len() {
                    self.tokens[self.ind]
                } else {
                    self.tokens[self.tokens.len() - 1]
                }
            },
        }
    }

    /// The token `offset` places after the next one, without reading it.
    pub fn peek_token_offset(&self, offset: usize) -> (r: IndexedToken<'a>)
        requires
            self.wf(),
        ensures
            r == self.ahead(offset as int),
    {
        if offset == 0 {
            self.peek_next_token()
        } else {
            let n = self.tokens.len();
            let d = offset - 1;
            let rem = n - self.ind;
            if self.lookahead.is_some() {
                if d < rem {
                    self.tokens[self.ind + d]
                } else {
                    self.tokens[n - 1]
                }
            } else {
                if d < rem && d + 1 < rem {
                    self.tokens[self.ind + d + 1]
                } else {
                    self.tokens[n - 1]
                }
            }
        }
    }

    /// Whether the next token is `t`.
    pub fn next_is(&self, t: Token) -> (r: bool)
        requires
            self.wf(),
        ensures
            r == (self.ahead(0).token@ == t@),
    {
        let n = self.peek_next_token();
        token_eq(&n.token, &t)
    }

    /// Whether the token `offset` places after the next one is `t`.
    pub fn offset_is(&self, offset: usize, t: Token) -> (r: bool)
        requires
            self.wf(),
        ensures
            r == (self.ahead(offset as int).token@ == t@),
    {
        let n = self.peek_token_offset(offset);
        token_eq(&n.token, &t)
    }

    /// Reads the next token, which must be `t`; otherwise an
    /// `UnexpectedToken` error that names `expected` and the token found.
    pub fn consume_token(&mut self, t: Token, expected: &'static str, ctx: (&'static str, usize)) -> (r: ParseResult<IndexedToken<'a>>)
        requires
            old(self).wf(),
        ensures
            final(self).follows(*old(self)),
            final(self).shifted(*old(self), 1),
            r is Ok <==> old(self).ahead(0).token@ == t@,
            r matches Ok(x) ==> x == old(self).ahead(0),
            r is Ok && t@ != TokenView::EOF ==> final(self).remaining() < old(self).remaining(),
            r is Ok && !is_split_token(t@) ==> final(self).current() == old(self).ahead(0),
            r matches Err(e) ==> e.err_index == old(self).ahead(0).addr && e.stack@ == seq![ctx],
    {
        let token = self.get_next_token();
        if token_eq(&token.token, &t) {
            Ok(token)
        } else {
            Err(
                ParseErrType::UnexpectedToken {
                    expected,
                    got: vec![token.token.to_owned_token()],
                }.to_stack_parse_err(token.addr, ctx),
            )
        }
    }

    /// Reads the next token, which must be an identifier, and gives its
    /// text; otherwise an `UnexpectedToken` error that names `expected` and
    /// the token found.
    pub fn consume_identifier(&mut self, expected: &'static str, ctx: (&'static str, usize)) -> (r: ParseResult<&'a str>)
        requires
            old(self).wf(),
        ensures
            final(self).follows(*old(self)),
            final(self).shifted(*old(self), 1),
            r is Ok <==> old(self).ahead(0).token@ is Identifier,
            r matches Ok(s) ==> old(self).ahead(0).token@ == TokenView::Identifier(s@),
            r is Ok ==> final(self).remaining() < old(self).remaining(),
            r is Ok ==> final(self).current() == old(self).ahead(0),
            r matches Err(e) ==> e.err_index == old(self).ahead(0).addr && e.stack@ == seq![ctx],
    {
        let token = self.get_next_token();
        match token.token {
            Token::Identifier(s) => Ok(s),
            _ => Err(
                ParseErrType::UnexpectedToken {
                    expected,
                    got: vec![token.token.to_owned_token()],
                }.to_stack_parse_err(token.addr, ctx),
            ),
        }
    }

    /// Reads a `>`. A longer operator that starts with `>` (`>=`, `>>`,
    /// `>>=`, `>>>`, `>>>=`) gives up its first character and leaves the
    /// rest to be read next.
    pub fn consume_gt(&mut self) -> (r: ParseResult<()>)
        requires
            old(self).wf(),
        ensures
            final(self).follows(*old(self)),
            ({
                let t = old(self).ahead(0).token@;
                let rest = if t == TokenView::Op(">="@) {
                    Some(TokenView::Assignment("="@))
                } else if t == TokenView::Op(">>"@) {
                    Some(TokenView::GreaterThan)
                } else if t == TokenView::Assignment(">>="@) {
                    Some(TokenView::Op(">="@))
                } else if t == TokenView::Op(">>>"@) {
                    Some(TokenView::Op(">>"@))
                } else if t == TokenView::Assignment(">>>="@) {
                    Some(TokenView::Assignment(">>="@))
                } else {
                    None
                };
                &&& r.is_ok() <==> (t == TokenView::GreaterThan || rest is Some)
                &&& t == TokenView::GreaterThan ==> final(self).shifted(*old(self), 1)
                &&& rest matches Some(x) ==> {
                    &&& final(self).ahead(0).token@ == x
                    &&& final(self).ahead(0).addr == old(self).ahead(0).addr + 1
                    &&& final(self).ahead(0).len == old(self).ahead(0).len - 1
                    &&& forall|k: int| 1 <= k ==> #[trigger] final(self).ahead(k) == old(self).ahead(k)
                }
                &&& r is Err ==> final(self).shifted(*old(self), 1) && r->Err_0.err_index
                    == old(self).ahead(0).addr
            }),
    {
        let ctx = ("consume_gt", self.peek_next_token().addr);
        proof {
            reveal_strlit(">=");
            reveal_strlit(">>");
            reveal_strlit(">>=");
            reveal_strlit(">>>");
            reveal_strlit(">>>=");
            reveal_strlit("=");
        }
        let ghost pre = *self;
        let t = self.get_next_token();
        let ghost mid = *self;
        let rest: Option<Token<'a>> = if token_eq(&t.token, &Token::GreaterThan) {
            return Ok(());
        } else if token_eq(&t.token, &Token::Op(">=")) {
            Some(Token::Assignment("="))
        } else if token_eq(&t.token, &Token::Op(">>")) {
            Some(Token::GreaterThan)
        } else if token_eq(&t.token, &Token::Assignment(">>=")) {
            Some(Token::Op(">="))
        } else if token_eq(&t.token, &Token::Op(">>>")) {
            Some(Token::Op(">>"))
        } else if token_eq(&t.token, &Token::Assignment(">>>=")) {
            Some(Token::Assignment(">>="))
        } else {
            None
        };
        match rest {
            Some(x) => {
                proof {
                    if !pre.has_lookahead() {
                        assert(pre.tokens@[pre.ind as int] == t);
                    }
                }
                self.lookahead = Some(IndexedToken { token: x, addr: t.addr + 1, len: t.len - 1 });
                assert forall|k: int| 1 <= k implies #[trigger] self.ahead(k) == pre.ahead(k) by {
                    assert(mid.ahead(k - 1) == pre.ahead(k));
                }
                Ok(())
            },
            None => Err(
                ParseErrType::UnexpectedToken {
                    expected: ">",
                    got: vec![t.token.to_owned_token()],
                }.to_stack_parse_err(t.addr, ctx),
            ),
        }
    }
}

/// The kinds and texts of a list of tokens.
pub open spec fn token_views(ts: Seq<IndexedToken>) -> Seq<TokenView> {
    ts.map_values(|t: IndexedToken| t.token@)
}

/// `ts` after the tokens `pre`, if there is a `ts`.
pub open spec fn prepend_tokens(pre: Seq<TokenView>, ts: Option<Seq<TokenView>>) -> Option<Seq<TokenView>> {
    match ts {
        Some(r) => Some(pre + r),
        None => None,
    }
}

/// The tokens of `p` begin with the package declaration of `f`, if it has
/// one (`package` <qualified_name> `;`), followed by its import statements.
pub open spec fn file_spelled(p: Parser, f: JavaFile) -> bool {
    let has_package = p.ahead(0).token@ == TokenView::Keyword("package"@);
    let imports_at: int = if has_package {
        2 * f.package_name@.len() as int + 1
    } else {
        0
    };
    &&& has_package ==> spells_name(p, 1, f.package_name@) && p.ahead(imports_at - 1).token@ == TokenView::Semicolon
    &&& !has_package ==> f.package_name@.len() == 0
    &&& spells_imports(p, imports_at, f.imported_objects@)
}

/// The `k`-th token of `ts`, or end of file past its end.
pub open spec fn token_or_eof(ts: Seq<TokenView>, k: int) -> TokenView {
    if 0 <= k < ts.len() {
        ts[k]
    } else {
        TokenView::EOF
    }
}

/// From position `at` on, the tokens of `p` spell the qualified name `q`:
/// its words separated by dots, with no further `.` IDENTIFIER after it.
pub open spec fn spells_name(p: Parser, at: int, q: Seq<Seq<char>>) -> bool {
    &&& q.len() >= 1
    &&& forall|i: int| 0 <= i < q.len() ==> p.ahead(at + 2 * i).token@ == TokenView::Identifier(#[trigger] q[i])
    &&& forall|i: int| 0 <= i < q.len() - 1 ==> (#[trigger] p.ahead(at + 2 * i + 1)).token@ == TokenView::Dot
    &&& !(p.ahead(at + 2 * q.len() - 1).token@ == TokenView::Dot && p.ahead(at + 2 * q.len()).token@ is Identifier)
}

/// How many tokens the import statement of `x` takes.
pub open spec fn import_len(x: ImportObject) -> int {
    1 + (if x.is_static {
        1int
    } else {
        0int
    }) + 2 * x.name@.len() - 1 + (if x.is_wildcard {
        2int
    } else {
        0int
    }) + 1
}

/// From position `at` on, the tokens of `p` are the import statement of
/// `x`: `import` [`static`] <qualified_name> [`.` `*`] `;`.
pub open spec fn spells_import(p: Parser, at: int, x: ImportObject) -> bool {
    let s = at + 1 + if x.is_static {
        1int
    } else {
        0int
    };
    let e = s + 2 * x.name@.len() - 1;
    &&& p.ahead(at).token@ == TokenView::Keyword("import"@)
    &&& x.is_static == (p.ahead(at + 1).token@ == TokenView::Keyword("static"@))
    &&& spells_name(p, s, x.name@)
    &&& x.is_wildcard == (p.ahead(e).token@ == TokenView::Dot && p.ahead(e + 1).token@ == TokenView::Op("*"@))
    &&& p.ahead(
        e + if x.is_wildcard {
            2int
        } else {
            0int
        },
    ).token@ == TokenView::Semicolon
}

/// How many tokens the import statements of `xs` take.
pub open spec fn imports_len(xs: Seq<ImportObject>) -> int
    decreases xs.len(),
{
    if xs.len() == 0 {
        0
    } else {
        imports_len(xs.drop_last()) + import_len(xs.last())
    }
}

/// From position `at` on, the tokens of `p` are the import statements of
/// `xs`, one after the other.
pub open spec fn spells_imports(p: Parser, at: int, xs: Seq<ImportObject>) -> bool
    decreases xs.len(),
{
    xs.len() == 0 || (spells_imports(p, at, xs.drop_last()) && spells_import(
        p,
        at + imports_len(xs.drop_last()),
        xs.last(),
    ))
}

/// The tokens from `at` on spell at most one name.
pub proof fn lemma_spells_name_unique(p: Parser, at: int, q1: Seq<Seq<char>>, q2: Seq<Seq<char>>)
    requires
        spells_name(p, at, q1),
        spells_name(p, at, q2),
    ensures
        q1 == q2,
{
    if q1.len() < q2.len() {
        let k = q1.len() - 1;
        assert(p.ahead(at + 2 * k + 1).token@ == TokenView::Dot);
        assert(p.ahead(at + 2 * (k + 1)).token@ == TokenView::Identifier(q2[k + 1]));
        assert(at + 2 * q1.len() - 1 == at + 2 * k + 1);
        assert(at + 2 * q1.len() == at + 2 * (k + 1));
    } else if q2.len() < q1.len() {
        let k = q2.len() - 1;
        assert(p.ahead(at + 2 * k + 1).token@ == TokenView::Dot);
        assert(p.ahead(at + 2 * (k + 1)).token@ == TokenView::Identifier(q1[k + 1]));
        assert(at + 2 * q2.len() - 1 == at + 2 * k + 1);
        assert(at + 2 * q2.len() == at + 2 * (k + 1));
    }
    assert forall|i: int| 0 <= i < q1.len() implies q1[i] == q2[i] by {
        assert(p.ahead(at + 2 * i).token@ == TokenView::Identifier(q1[i]));
        assert(p.ahead(at + 2 * i).token@ == TokenView::Identifier(q2[i]));
    }
    assert(q1 =~= q2);
}

/// Two import statements that agree on name, `static` and `.*`.
pub open spec fn same_import(a: ImportObject, b: ImportObject) -> bool {
    &&& a.name@ == b.name@
    &&& a.is_static == b.is_static
    &&& a.is_wildcard == b.is_wildcard
}

/// Two lists of import statements that agree one by one.
pub open spec fn same_imports(v: Seq<ImportObject>, w: Seq<ImportObject>) -> bool {
    &&& v.len() == w.len()
    &&& forall|i: int| 0 <= i < v.len() ==> same_import(#[trigger] v[i], w[i])
}

/// The tokens at `at` spell at most one import statement.
pub proof fn lemma_spells_import_unique(p: Parser, at: int, x1: ImportObject, x2: ImportObject)
    requires
        spells_import(p, at, x1),
        spells_import(p, at, x2),
    ensures
        same_import(x1, x2),
{
    let s = at + 1 + if x1.is_static {
        1int
    } else {
        0int
    };
    lemma_spells_name_unique(p, s, x1.name@, x2.name@);
}

/// Agreeing import lists take as many tokens.
pub proof fn lemma_imports_len_same(v: Seq<ImportObject>, w: Seq<ImportObject>)
    requires
        same_imports(v, w),
    ensures
        imports_len(v) == imports_len(w),
    decreases v.len(),
{
    if v.len() > 0 {
        assert(same_import(v[v.len() - 1], w[w.len() - 1]));
        assert forall|i: int| 0 <= i < v.drop_last().len() implies same_import(#[trigger] v.drop_last()[i], w.drop_last()[i]) by {
            assert(same_import(v[i], w[i]));
        }
        lemma_imports_len_same(v.drop_last(), w.drop_last());
    }
}

/// The first `k` of a spelled list of imports are spelled too.
pub proof fn lemma_spells_imports_take(p: Parser, xs: Seq<ImportObject>, k: int)
    requires
        spells_imports(p, 0, xs),
        0 <= k <= xs.len(),
    ensures
        spells_imports(p, 0, xs.take(k)),
    decreases xs.len(),
{
    if k == xs.len() {
        assert(xs.take(k) =~= xs);
    } else {
        lemma_spells_imports_take(p, xs.drop_last(), k);
        assert(xs.drop_last().take(k) =~= xs.take(k));
    }
}

/// Two spelled lists of imports agree as far as the shorter goes.
pub proof fn lemma_spells_imports_prefix(p: Parser, v: Seq<ImportObject>, xs: Seq<ImportObject>)
    requires
        spells_imports(p, 0, v),
        spells_imports(p, 0, xs),
        v.len() <= xs.len(),
    ensures
        same_imports(v, xs.take(v.len() as int)),
    decreases v.len(),
{
    let k = v.len() as int;
    if k > 0 {
        lemma_spells_imports_take(p, xs, k);
        let w = xs.take(k);
        lemma_spells_imports_prefix(p, v.drop_last(), xs);
        assert(xs.take(k - 1) =~= w.drop_last());
        lemma_imports_len_same(v.drop_last(), w.drop_last());
        lemma_spells_import_unique(p, imports_len(v.drop_last()), v.last(), w.last());
        assert forall|i: int| 0 <= i < k implies same_import(#[trigger] v[i], w[i]) by {
            if i < k - 1 {
                assert(same_import(v.drop_last()[i], w.drop_last()[i]));
            }
        }
    } else {
        assert(xs.take(0) =~= Seq::<ImportObject>::empty());
    }
}

/// Reading `m` tokens, then `n` more, reads `m + n` tokens.
pub proof fn lemma_shifted_trans(a: Parser, b: Parser, c: Parser, m: int, n: int)
    requires
        0 <= m,
        0 <= n,
        b.shifted(a, m),
        c.shifted(b, n),
    ensures
        c.shifted(a, m + n),
{
    assert forall|k: int| 0 <= k implies #[trigger] c.ahead(k) == a.ahead(k + (m + n)) by {
        assert(c.ahead(k) == b.ahead(k + n));
        assert(b.ahead(k + n) == a.ahead(k + n + m));
    }
}

/// What is spelled from `at` in a parser that has read `off` tokens is
/// spelled from `at + off` before it read them.
pub proof fn lemma_spells_shift(p: Parser, q: Parser, off: int, at: int, xs: Seq<ImportObject>)
    requires
        0 <= off,
        0 <= at,
        q.shifted(p, off),
    ensures
        spells_imports(q, at, xs) == spells_imports(p, at + off, xs),
    decreases xs.len(),
{
    if xs.len() > 0 {
        lemma_spells_shift(p, q, off, at, xs.drop_last());
        lemma_imports_len_nonneg(xs.drop_last());
        lemma_spells_import_shift(p, q, off, at + imports_len(xs.drop_last()), xs.last());
    }
}

/// An import statement spelled from `at` after reading `off` tokens was
/// spelled from `at + off` before.
pub proof fn lemma_spells_import_shift(p: Parser, q: Parser, off: int, at: int, x: ImportObject)
    requires
        0 <= off,
        0 <= at,
        q.shifted(p, off),
    ensures
        spells_import(q, at, x) == spells_import(p, at + off, x),
{
    let st = if x.is_static {
        1int
    } else {
        0int
    };
    let s = at + 1 + st;
    lemma_spells_name_shift(p, q, off, s, x.name@);
    let e = s + 2 * x.name@.len() - 1;
    assert(q.ahead(at) == p.ahead(at + off));
    assert(q.ahead(at + 1) == p.ahead(at + 1 + off));
    if x.name@.len() >= 1 {
        assert(q.ahead(e) == p.ahead(e + off));
        assert(q.ahead(e + 1) == p.ahead(e + 1 + off));
        assert(q.ahead(e + 2) == p.ahead(e + 2 + off));
    }
}

/// A qualified name spelled from `at` after reading `off` tokens was
/// spelled from `at + off` before.
pub proof fn lemma_spells_name_shift(p: Parser, q: Parser, off: int, at: int, name: Seq<Seq<char>>)
    requires
        0 <= off,
        0 <= at,
        q.shifted(p, off),
    ensures
        spells_name(q, at, name) == spells_name(p, at + off, name),
{
    assert forall|i: int| 0 <= i < name.len() implies #[trigger] q.ahead(at + 2 * i) == p.ahead(at + off + 2 * i) by {
        assert(q.ahead(at + 2 * i) == p.ahead(at + 2 * i + off));
    }
    assert forall|i: int| 0 <= i < name.len() - 1 implies #[trigger] q.ahead(at + 2 * i + 1) == p.ahead(
        at + off + 2 * i + 1,
    ) by {
        assert(q.ahead(at + 2 * i + 1) == p.ahead(at + 2 * i + 1 + off));
    }
    if name.len() >= 1 {
        assert(q.ahead(at + 2 * name.len() - 1) == p.ahead(at + 2 * name.len() - 1 + off));
        assert(q.ahead(at + 2 * name.len()) == p.ahead(at + 2 * name.len() + off));
    }
    if spells_name(q, at, name) {
        assert forall|i: int| 0 <= i < name.len() implies p.ahead(at + off + 2 * i).token@ == TokenView::Identifier(
            #[trigger] name[i],
        ) by {
            assert(q.ahead(at + 2 * i) == p.ahead(at + off + 2 * i));
        }
        assert forall|i: int| 0 <= i < name.len() - 1 implies (#[trigger] p.ahead(at + off + 2 * i + 1)).token@
            == TokenView::Dot by {
            assert(q.ahead(at + 2 * i + 1) == p.ahead(at + off + 2 * i + 1));
        }
    }
    if spells_name(p, at + off, name) {
        assert forall|i: int| 0 <= i < name.len() implies q.ahead(at + 2 * i).token@ == TokenView::Identifier(
            #[trigger] name[i],
        ) by {
            assert(q.ahead(at + 2 * i) == p.ahead(at + off + 2 * i));
        }
        assert forall|i: int| 0 <= i < name.len() - 1 implies (#[trigger] q.ahead(at + 2 * i + 1)).token@
            == TokenView::Dot by {
            assert(q.ahead(at + 2 * i + 1) == p.ahead(at + off + 2 * i + 1));
        }
    }
}

/// What `qualified_name` ensures, said with [`spells_name`]: reading the
/// name took its tokens, which spell it.
pub proof fn lemma_qualified_name_spelled(before: Parser, after: Parser, q: Seq<Seq<char>>)
    requires
        q.len() >= 1,
        after.shifted(before, 2 * q.len() - 1),
        forall|i: int| 0 <= i < q.len() ==> before.ahead(2 * i).token@ == TokenView::Identifier(#[trigger] q[i]),
        forall|j: int| 0 <= j < 2 * q.len() - 1 && j % 2 == 1 ==> (#[trigger] before.ahead(j)).token@ == TokenView::Dot,
        !(after.ahead(0).token@ == TokenView::Dot && after.ahead(1).token@ is Identifier),
    ensures
        spells_name(before, 0, q),
{
    assert forall|i: int| 0 <= i < q.len() implies before.ahead(0 + 2 * i).token@ == TokenView::Identifier(
        #[trigger] q[i],
    ) by {
        assert(before.ahead(2 * i).token@ == TokenView::Identifier(q[i]));
    }
    assert forall|i: int| 0 <= i < q.len() - 1 implies (#[trigger] before.ahead(0 + 2 * i + 1)).token@
        == TokenView::Dot by {
        assert((2 * i + 1) % 2 == 1);
        assert(before.ahead(2 * i + 1).token@ == TokenView::Dot);
    }
    assert(after.ahead(0) == before.ahead(0 + (2 * q.len() - 1)));
    assert(after.ahead(1) == before.ahead(1 + (2 * q.len() - 1)));
}

/// An import statement read: from `s0`, `import`, then `static` if `x`
/// is static (`s1` to `s2`), its name (`s2` to `s3`), `.` `*` if it is a
/// wildcard (`s3` to `s4`), and `;` (`s4` to `s5`).
pub proof fn lemma_import_step(s0: Parser, s1: Parser, s2: Parser, s3: Parser, s4: Parser, s5: Parser, x: ImportObject)
    requires
        s0.ahead(0).token@ == TokenView::Keyword("import"@),
        s1.shifted(s0, 1),
        x.is_static == (s1.ahead(0).token@ == TokenView::Keyword("static"@)),
        s2.shifted(
            s1,
            if x.is_static {
                1int
            } else {
                0int
            },
        ),
        x.name@.len() >= 1,
        s3.shifted(s2, 2 * x.name@.len() - 1),
        forall|i: int| 0 <= i < x.name@.len() ==> s2.ahead(2 * i).token@ == TokenView::Identifier(#[trigger] x.name@[i]),
        forall|j: int| 0 <= j < 2 * x.name@.len() - 1 && j % 2 == 1 ==> (#[trigger] s2.ahead(j)).token@ == TokenView::Dot,
        !(s3.ahead(0).token@ == TokenView::Dot && s3.ahead(1).token@ is Identifier),
        x.is_wildcard == (s3.ahead(0).token@ == TokenView::Dot && s3.ahead(1).token@ == TokenView::Op("*"@)),
        s4.shifted(
            s3,
            if x.is_wildcard {
                2int
            } else {
                0int
            },
        ),
        s4.ahead(0).token@ == TokenView::Semicolon,
        s5.shifted(s4, 1),
    ensures
        spells_import(s0, 0, x),
        s5.shifted(s0, import_len(x)),
{
    let n = x.name@.len() as int;
    let st: int = if x.is_static {
        1
    } else {
        0
    };
    let w: int = if x.is_wildcard {
        2
    } else {
        0
    };
    lemma_qualified_name_spelled(s2, s3, x.name@);
    lemma_shifted_trans(s0, s1, s2, 1, st);
    lemma_spells_name_shift(s0, s2, 1 + st, 0, x.name@);
    lemma_shifted_trans(s0, s2, s3, 1 + st, 2 * n - 1);
    lemma_shifted_trans(s0, s3, s4, 1 + st + 2 * n - 1, w);
    lemma_shifted_trans(s0, s4, s5, 1 + st + 2 * n - 1 + w, 1);
    assert(s1.ahead(0) == s0.ahead(0int + 1));
    assert(s3.ahead(0) == s0.ahead(0 + (1 + st + 2 * n - 1)));
    assert(s3.ahead(1) == s0.ahead(1 + (1 + st + 2 * n - 1)));
    assert(s4.ahead(0) == s0.ahead(0 + (1 + st + 2 * n - 1 + w)));
}

/// Import statements take no negative number of tokens.
pub proof fn lemma_imports_len_nonneg(xs: Seq<ImportObject>)
    ensures
        imports_len(xs) >= 0,
    decreases xs.len(),
{
    if xs.len() > 0 {
        lemma_imports_len_nonneg(xs.drop_last());
    }
}

/// No two of the types have public access.
pub open spec fn at_most_one_public(ts: Seq<Rc<Type>>) -> bool {
    forall|i: int, j: int|
        0 <= i < ts.len() && 0 <= j < ts.len() && i != j ==> !((#[trigger] ts[i]).modifiers.access_modifier
            == AccessModifier::Public && (#[trigger] ts[j]).modifiers.access_modifier
            == AccessModifier::Public)
}

/// The next `n` tokens hold no bracket, no `;` and no end of file (and,
/// when `no_comma`, no `,`), and the `;` comes right after them.
pub open spec fn plain_run_to_semicolon(p: Parser, n: int, no_comma: bool) -> bool {
    &&& 0 <= n
    &&& forall|j: int|
        0 <= j < n ==> {
            let t = (#[trigger] p.ahead(j)).token@;
            &&& t != TokenView::LParen
            &&& t != TokenView::LBrace
            &&& t != TokenView::LBracket
            &&& t != TokenView::Semicolon
            &&& t != TokenView::EOF
            &&& (no_comma ==> t != TokenView::Comma)
        }
    &&& p.ahead(n).token@ == TokenView::Semicolon
}

/// The `;` that ends a plain run is the first one.
pub proof fn lemma_plain_run_unique(p: Parser, n1: int, n2: int, c1: bool, c2: bool)
    requires
        plain_run_to_semicolon(p, n1, c1),
        plain_run_to_semicolon(p, n2, c2),
    ensures
        n1 == n2,
{
    if n1 < n2 {
        assert(p.ahead(n1).token@ == TokenView::Semicolon);
    } else if n2 < n1 {
        assert(p.ahead(n2).token@ == TokenView::Semicolon);
    }
}

/// The tokens are `kw IDENTIFIER { }`: a declaration with an empty body
/// and nothing between its name and its body.
pub open spec fn empty_decl_at(p: Parser, kw: Seq<char>) -> bool {
    &&& p.ahead(0).token@ == TokenView::Keyword(kw)
    &&& p.ahead(1).token@ is Identifier
    &&& p.ahead(2).token@ == TokenView::LBrace
    &&& p.ahead(3).token@ == TokenView::RBrace
}

/// The tokens are `@ interface IDENTIFIER { }`.
pub open spec fn empty_annotation_decl_at(p: Parser) -> bool {
    &&& p.ahead(0).token@ == TokenView::At
    &&& p.ahead(1).token@ == TokenView::Keyword("interface"@)
    &&& p.ahead(2).token@ is Identifier
    &&& p.ahead(3).token@ == TokenView::LBrace
    &&& p.ahead(4).token@ == TokenView::RBrace
}

/// The file is one declaration with an empty body (`class`, `interface` or
/// `enum`), with no package line, no imports and no annotation or modifier.
pub open spec fn single_empty_decl_file(p: Parser) -> bool {
    &&& (empty_decl_at(p, "class"@) || empty_decl_at(p, "interface"@) || empty_decl_at(p, "enum"@))
    &&& p.ahead(4).token@ == TokenView::EOF
}

/// The tokens are `kw IDENTIFIER { }` for `kw` one of `class`,
/// `interface` and `enum`, and nothing after them.
pub open spec fn single_empty_decl_tokens(ts: Seq<TokenView>) -> bool {
    &&& (token_or_eof(ts, 0) == TokenView::Keyword("class"@) || token_or_eof(ts, 0) == TokenView::Keyword(
        "interface"@,
    ) || token_or_eof(ts, 0) == TokenView::Keyword("enum"@))
    &&& token_or_eof(ts, 1) is Identifier
    &&& token_or_eof(ts, 2) == TokenView::LBrace
    &&& token_or_eof(ts, 3) == TokenView::RBrace
    &&& token_or_eof(ts, 4) == TokenView::EOF
}

/// From position `at` on, the tokens are `public kw IDENTIFIER { }` for
/// `kw` one of `class`, `interface` and `enum`.
pub open spec fn public_empty_decl_at(p: Parser, at: int) -> bool {
    &&& p.ahead(at).token@ == TokenView::Keyword("public"@)
    &&& (p.ahead(at + 1).token@ == TokenView::Keyword("class"@) || p.ahead(at + 1).token@ == TokenView::Keyword(
        "interface"@,
    ) || p.ahead(at + 1).token@ == TokenView::Keyword("enum"@))
    &&& p.ahead(at + 2).token@ is Identifier
    &&& p.ahead(at + 3).token@ == TokenView::LBrace
    &&& p.ahead(at + 4).token@ == TokenView::RBrace
}

/// From position `at` on, the tokens are `kw IDENTIFIER { }` for `kw`
/// one of `class`, `interface` and `enum`.
pub open spec fn empty_decl_from(p: Parser, at: int) -> bool {
    &&& (p.ahead(at).token@ == TokenView::Keyword("class"@) || p.ahead(at).token@ == TokenView::Keyword("interface"@)
        || p.ahead(at).token@ == TokenView::Keyword("enum"@))
    &&& p.ahead(at + 1).token@ is Identifier
    &&& p.ahead(at + 2).token@ == TokenView::LBrace
    &&& p.ahead(at + 3).token@ == TokenView::RBrace
}

/// From position `at` on, the tokens `ts` are `public kw IDENTIFIER { }`
/// for `kw` one of `class`, `interface` and `enum`.
pub open spec fn public_empty_decl_tokens(ts: Seq<TokenView>, at: int) -> bool {
    &&& token_or_eof(ts, at) == TokenView::Keyword("public"@)
    &&& (token_or_eof(ts, at + 1) == TokenView::Keyword("class"@) || token_or_eof(ts, at + 1)
        == TokenView::Keyword("interface"@) || token_or_eof(ts, at + 1) == TokenView::Keyword("enum"@))
    &&& token_or_eof(ts, at + 2) is Identifier
    &&& token_or_eof(ts, at + 3) == TokenView::LBrace
    &&& token_or_eof(ts, at + 4) == TokenView::RBrace
}

/// How many tokens the declarators take after the first `,`, each with
/// the token after it; a declarator is a name, with `@ Name` before it
/// where its flag is set.
pub open spec fn declarators_len(ds: Seq<bool>) -> int
    decreases ds.len(),
{
    if ds.len() == 0 {
        0
    } else {
        declarators_len(ds.drop_last()) + if ds.last() {
            4int
        } else {
            2int
        }
    }
}

/// After the first `,`, the tokens give the declarators `ds` one after
/// another; the separators are not looked at.
pub open spec fn declarators_spelled(p: Parser, ds: Seq<bool>) -> bool
    decreases ds.len(),
{
    if ds.len() == 0 {
        true
    } else {
        let at = 1 + declarators_len(ds.drop_last());
        &&& declarators_spelled(p, ds.drop_last())
        &&& if ds.last() {
            &&& p.ahead(at).token@ == TokenView::At
            &&& p.ahead(at + 1).token@ is Identifier
            &&& p.ahead(at + 2).token@ is Identifier
        } else {
            p.ahead(at).token@ is Identifier
        }
    }
}

/// The tokens are `,` then the declarators `ds` (at least one) separated
/// by `,`, with no `,` after the last.
pub open spec fn declarators_at(p: Parser, ds: Seq<bool>) -> bool {
    &&& ds.len() >= 1
    &&& p.ahead(0).token@ == TokenView::Comma
    &&& declarators_spelled(p, ds)
    &&& forall|i: int| 1 <= i < ds.len() ==> p.ahead(#[trigger] declarators_len(ds.take(i))).token@ == TokenView::Comma
    &&& p.ahead(declarators_len(ds)).token@ != TokenView::Comma
}

/// Every prefix of spelled declarators is spelled, and the next declarator
/// comes right after it.
pub proof fn lemma_declarators_take(p: Parser, ds: Seq<bool>, k: int)
    requires
        declarators_spelled(p, ds),
        0 <= k <= ds.len(),
    ensures
        declarators_spelled(p, ds.take(k)),
        declarators_len(ds.take(k)) >= 0,
        k < ds.len() ==> declarators_len(ds.take(k + 1)) == declarators_len(ds.take(k)) + if ds[k] {
            4int
        } else {
            2int
        },
        k < ds.len() ==> if ds[k] {
            &&& p.ahead(1 + declarators_len(ds.take(k))).token@ == TokenView::At
            &&& p.ahead(2 + declarators_len(ds.take(k))).token@ is Identifier
            &&& p.ahead(3 + declarators_len(ds.take(k))).token@ is Identifier
        } else {
            p.ahead(1 + declarators_len(ds.take(k))).token@ is Identifier
        },
    decreases ds.len(),
{
    if k == ds.len() {
        assert(ds.take(k) =~= ds);
        if ds.len() > 0 {
            lemma_declarators_take(p, ds.drop_last(), k - 1);
            assert(ds.drop_last().take(k - 1) =~= ds.drop_last());
        }
    } else {
        lemma_declarators_take(p, ds.drop_last(), k);
        assert(ds.take(k) =~= ds.drop_last().take(k));
        if k + 1 < ds.len() {
            lemma_declarators_take(p, ds.drop_last(), k + 1);
            assert(ds.take(k + 1) =~= ds.drop_last().take(k + 1));
        } else {
            assert(ds.take(k + 1) =~= ds);
            assert(ds.drop_last() =~= ds.take(k));
        }
    }
}

/// Two runs of spelled declarators agree on their common length.
pub proof fn lemma_declarators_prefix(p: Parser, a: Seq<bool>, b: Seq<bool>)
    requires
        declarators_spelled(p, a),
        declarators_spelled(p, b),
        a.len() <= b.len(),
    ensures
        a == b.take(a.len() as int),
    decreases a.len(),
{
    if a.len() == 0 {
        assert(a =~= b.take(0));
    } else {
        let n = a.len() - 1;
        lemma_declarators_prefix(p, a.drop_last(), b);
        lemma_declarators_take(p, b, n);
        lemma_declarators_take(p, a, n);
        assert(a.take(n) =~= a.drop_last());
        assert(a =~= b.take(a.len() as int));
    }
}

/// The declarators after a `,` are determined by the tokens.
pub proof fn lemma_declarators_unique(p: Parser, a: Seq<bool>, b: Seq<bool>)
    requires
        declarators_at(p, a),
        declarators_at(p, b),
    ensures
        a == b,
{
    if a.len() < b.len() {
        lemma_declarators_prefix(p, a, b);
        assert(p.ahead(declarators_len(b.take(a.len() as int))).token@ == TokenView::Comma);
    } else if b.len() < a.len() {
        lemma_declarators_prefix(p, b, a);
        assert(p.ahead(declarators_len(a.take(b.len() as int))).token@ == TokenView::Comma);
    } else {
        lemma_declarators_prefix(p, a, b);
        assert(b.take(a.len() as int) =~= b);
    }
}

/// The tokens `ts` are `public kw A { }`, then `kw B { }`, and nothing
/// more, for `kw` each time one of `class`, `interface` and `enum`.
pub open spec fn public_then_plain_decl_tokens(ts: Seq<TokenView>) -> bool {
    &&& public_empty_decl_tokens(ts, 0)
    &&& (token_or_eof(ts, 5) == TokenView::Keyword("class"@) || token_or_eof(ts, 5) == TokenView::Keyword(
        "interface"@,
    ) || token_or_eof(ts, 5) == TokenView::Keyword("enum"@))
    &&& token_or_eof(ts, 6) is Identifier
    &&& token_or_eof(ts, 7) == TokenView::LBrace
    &&& token_or_eof(ts, 8) == TokenView::RBrace
    &&& token_or_eof(ts, 9) == TokenView::EOF
}

/// Whether the tokens `t0 t1` open a type declaration directly, with no
/// annotation or modifier before it: `class`, `interface`, `enum` or
/// `@interface`.
pub open spec fn starts_type_decl(t0: TokenView, t1: TokenView) -> bool {
    ||| t0 == TokenView::Keyword("class"@)
    ||| t0 == TokenView::Keyword("interface"@)
    ||| t0 == TokenView::Keyword("enum"@)
    ||| (t0 == TokenView::At && t1 == TokenView::Keyword("interface"@))
}

/// The keywords that open a type declaration are no modifiers.
pub proof fn lemma_decl_keywords_not_modifiers()
    ensures
        !is_modifier_token(TokenView::Keyword("class"@)),
        !is_modifier_token(TokenView::Keyword("interface"@)),
        !is_modifier_token(TokenView::Keyword("enum"@)),
        "class"@ != "non"@,
        "interface"@ != "non"@,
        "enum"@ != "non"@,
        "class"@ != "interface"@,
        "class"@ != "enum"@,
        "interface"@ != "enum"@,
{
    reveal_strlit("class");
    reveal_strlit("interface");
    reveal_strlit("enum");
    reveal_strlit("non");
    reveal_strlit("public");
    reveal_strlit("private");
    reveal_strlit("protected");
    reveal_strlit("abstract");
    reveal_strlit("static");
    reveal_strlit("final");
    reveal_strlit("strictfp");
    reveal_strlit("synchronized");
    reveal_strlit("native");
    reveal_strlit("transient");
    reveal_strlit("volatile");
    reveal_strlit("default");
    reveal_strlit("sealed");
    assert("sealed"@.len() == 6);
    assert("class"@.len() == 5 && "interface"@.len() == 9 && "enum"@.len() == 4 && "non"@.len() == 3);
    assert("public"@.len() == 6 && "private"@.len() == 7 && "protected"@.len() == 9 && "abstract"@.len() == 8);
    assert("static"@.len() == 6 && "final"@.len() == 5 && "strictfp"@.len() == 8 && "synchronized"@.len() == 12);
    assert("native"@.len() == 6 && "transient"@.len() == 9 && "volatile"@.len() == 8 && "default"@.len() == 7);
    assert("class"@[0] != "final"@[0]);
    assert("interface"@[0] != "protected"@[0]);
    assert("interface"@[0] != "transient"@[0]);
}

impl<'a> Parser<'a> {
    /// Parses a whole Java file read from `file`.
    pub fn parse(s: &'a str, file: &str) -> (r: Result<JavaFile, ParseErr>)
        requires
            s@.len() + 4 < usize::MAX,
        ensures
            lex_all(s@) is None ==> (r matches Err(e) && e.err == ParseErrType::LexerError),
            r matches Ok(f) ==> lex_all(s@) matches Some(ts) && exists|p: Parser| #[trigger] p.reads(ts) && file_spelled(p, f),
            r matches Ok(f) ==> {
                &&& f.file@ == file@
                &&& at_most_one_public(f.type_decls@)
                &&& forall|i: int|
                    0 <= i < f.type_decls@.len() ==> is_child_name(
                        f.package_name@,
                        (#[trigger] f.type_decls@[i]).name@,
                    )
            },
            lex_all(s@) matches Some(ts) && token_or_eof(ts, 0) == TokenView::EOF ==> (r matches Ok(f)
                && f.package_name@.len() == 0 && f.imported_objects@.len() == 0 && f.type_decls@.len() == 0),
            lex_all(s@) matches Some(ts) && single_empty_decl_tokens(ts) ==> (r matches Ok(f)
                && f.package_name@.len() == 0 && f.imported_objects@.len() == 0 && f.type_decls@.len() == 1
                && f.type_decls@[0].body.members@.len() == 0),
            lex_all(s@) matches Some(ts) && public_empty_decl_tokens(ts, 0) && public_empty_decl_tokens(ts, 5) ==> (
            r matches Err(e) && e.err == ParseErrType::MultiplePublicTypesError),
            lex_all(s@) matches Some(ts) && public_then_plain_decl_tokens(ts) ==> (r matches Ok(f)
                && f.type_decls@.len() == 2 && f.type_decls@[0].modifiers.access_modifier == AccessModifier::Public
                && f.type_decls@[1].modifiers.access_modifier == AccessModifier::Default),
    {
        let mut parser = Parser::new(s)?;
        let ghost p0 = parser;
        let ghost ts = lex_all(s@).unwrap();
        proof {
            assert(p0.ahead(0).token@ == token_or_eof(ts, 0));
            assert(p0.ahead(1).token@ == token_or_eof(ts, 1));
            assert(p0.ahead(2).token@ == token_or_eof(ts, 2));
            assert(p0.ahead(3).token@ == token_or_eof(ts, 3));
            assert(p0.ahead(4).token@ == token_or_eof(ts, 4));
            assert(p0.ahead(5).token@ == token_or_eof(ts, 5));
            assert(p0.ahead(6).token@ == token_or_eof(ts, 6));
            assert(p0.ahead(7).token@ == token_or_eof(ts, 7));
            assert(p0.ahead(8).token@ == token_or_eof(ts, 8));
            assert(p0.ahead(9).token@ == token_or_eof(ts, 9));
        }
        let r = parser.java_file(file);
        proof {
            if r is Ok {
                assert(p0.reads(lex_all(s@).unwrap()));
            }
        }
        r
    }

    /// `<java_file> ::= [<package_decl>] <import> {<type_decl>}`
    /// At most one top-level type may be public.
    #[verifier::rlimit(100)]
    pub fn java_file(&mut self, file: &str) -> (r: ParseResult<JavaFile>)
        requires
            old(self).wf(),
        ensures
            final(self).follows(*old(self)),
            r matches Ok(f) ==> {
                &&& f.file@ == file@
                &&& at_most_one_public(f.type_decls@)
                &&& forall|i: int|
                    0 <= i < f.type_decls@.len() ==> is_child_name(
                        f.package_name@,
                        (#[trigger] f.type_decls@[i]).name@,
                    )
                &&& final(self).ahead(0).token@ == TokenView::EOF
            },
            r matches Ok(f) ==> file_spelled(*old(self), f),
            old(self).ahead(0).token@ == TokenView::EOF ==> (r matches Ok(f) && f.package_name@.len() == 0
                && f.imported_objects@.len() == 0 && f.type_decls@.len() == 0),
            single_empty_decl_file(*old(self)) ==> (r matches Ok(f) && f.package_name@.len() == 0
                && f.imported_objects@.len() == 0 && f.type_decls@.len() == 1 && f.type_decls@[0].body.members@.len()
                == 0),
            public_empty_decl_at(*old(self), 0) && public_empty_decl_at(*old(self), 5) ==> (r matches Err(e)
                && e.err == ParseErrType::MultiplePublicTypesError),
            public_empty_decl_at(*old(self), 0) && empty_decl_from(*old(self), 5) && old(self).ahead(9).token@
                == TokenView::EOF ==> (r matches Ok(f) && f.type_decls@.len() == 2
                && f.type_decls@[0].modifiers.access_modifier == AccessModifier::Public
                && f.type_decls@[1].modifiers.access_modifier == AccessModifier::Default),
    {
        proof {
            reveal_strlit("package");
            reveal_strlit("import");
            reveal_strlit("class");
            reveal_strlit("interface");
            reveal_strlit("enum");
            reveal_strlit("public");
            assert("package"@.len() == 7 && "import"@.len() == 6 && "class"@.len() == 5);
            assert("interface"@.len() == 9 && "enum"@.len() == 4);
            assert("public"@.len() == 6 && "public"@[0] != "import"@[0]);
        }
        let ghost h3 = public_empty_decl_at(*old(self), 0) && public_empty_decl_at(*old(self), 5);
        let ghost h4 = public_empty_decl_at(*old(self), 0) && empty_decl_from(*old(self), 5) && old(self).ahead(9).token@
            == TokenView::EOF;
        let ctx = ("java_file", self.peek_next_token().addr);
        // <package_decl>
        let has_package = self.next_is(Token::Keyword("package"));
        let package_name = if has_package {
            self.package_decl()?
        } else {
            assert(self.shifted(*old(self), 0)) by {
                assert forall|k: int| 0 <= k implies #[trigger] self.ahead(k) == old(self).ahead(k + 0) by {}
            }
            QualifiedName(Vec::new())
        };
        let ghost imports_at: int = if has_package {
            2 * package_name@.len() as int + 1
        } else {
            0
        };
        let ghost s1 = *self;
        // <import>
        let imported_objects = self.import()?;
        proof {
            lemma_spells_shift(*old(self), s1, imports_at, 0, imported_objects@);
        }
        // {<type_decl>}
        let mut type_decls: Vec<Rc<Type>> = Vec::new();
        let mut have_public_type = false;
        let ghost pre = *self;
        let ghost h0 = old(self).ahead(0).token@ == TokenView::EOF;
        let ghost h1 = single_empty_decl_file(*old(self));
        proof {
            if h0 || h1 || h3 || h4 {
                assert(pre == *old(self));
            }
        }
        while !self.next_is(Token::EOF)
            invariant
                old(self).wf(),
                pre.follows(*old(self)),
                self.follows(pre),
                h0 == (old(self).ahead(0).token@ == TokenView::EOF),
                h1 == single_empty_decl_file(*old(self)),
                h0 || h1 ==> pre == *old(self) && package_name@.len() == 0 && imported_objects@.len() == 0,
                h0 ==> *self == pre && type_decls@.len() == 0,
                h3 == (public_empty_decl_at(*old(self), 0) && public_empty_decl_at(*old(self), 5)),
                h3 ==> pre == *old(self),
                h3 ==> (type_decls@.len() == 0 && *self == pre) || (type_decls@.len() == 1 && self.shifted(pre, 5)
                    && have_public_type),
                h4 == (public_empty_decl_at(*old(self), 0) && empty_decl_from(*old(self), 5) && old(self).ahead(
                    9,
                ).token@ == TokenView::EOF),
                h4 ==> pre == *old(self),
                h4 ==> (type_decls@.len() == 0 && *self == pre) || (type_decls@.len() == 1 && self.shifted(pre, 5)
                    && have_public_type && type_decls@[0].modifiers.access_modifier == AccessModifier::Public) || (
                type_decls@.len() == 2 && self.shifted(pre, 9) && type_decls@[0].modifiers.access_modifier
                    == AccessModifier::Public && type_decls@[1].modifiers.access_modifier == AccessModifier::Default),
                h1 ==> (type_decls@.len() == 0 && *self == pre) || (type_decls@.len() == 1 && self.shifted(pre, 4)
                    && type_decls@[0].body.members@.len() == 0 && !have_public_type),
                at_most_one_public(type_decls@),
                have_public_type <==> exists|i: int|
                    0 <= i < type_decls@.len() && (#[trigger] type_decls@[i]).modifiers.access_modifier
                        == AccessModifier::Public,
                forall|i: int|
                    0 <= i < type_decls@.len() ==> is_child_name(
                        package_name@,
                        (#[trigger] type_decls@[i]).name@,
                    ),
            decreases self.remaining(),
        {
            let ghost before_decl = *self;
            proof {
                if h1 && type_decls@.len() == 1 {
                    assert(self.ahead(0) == pre.ahead(0int + 4));
                }
                if h4 && type_decls@.len() == 1 {
                    assert(self.ahead(0) == pre.ahead(0int + 5));
                    assert(self.ahead(1) == pre.ahead(1int + 5));
                    assert(self.ahead(2) == pre.ahead(2int + 5));
                    assert(self.ahead(3) == pre.ahead(3int + 5));
                }
                if h4 && type_decls@.len() == 2 {
                    assert(self.ahead(0) == pre.ahead(0int + 9));
                }
                if h3 && type_decls@.len() == 1 {
                    assert(self.ahead(0) == pre.ahead(0int + 5));
                    assert(self.ahead(1) == pre.ahead(1int + 5));
                    assert(self.ahead(2) == pre.ahead(2int + 5));
                    assert(self.ahead(3) == pre.ahead(3int + 5));
                    assert(self.ahead(4) == pre.ahead(4int + 5));
                }
            }
            let t = self.type_decl(package_name.duplicate())?;
            let is_public = t.modifiers.access_modifier == AccessModifier::Public;
            if is_public && have_public_type {
                return Err(
                    ParseErrType::MultiplePublicTypesError.to_stack_parse_err(
                        self.get_current_token().addr,
                        ctx,
                    ),
                );
            }
            let ghost before = type_decls@;
            type_decls.push(Rc::new(t));
            proof {
                assert forall|i: int| 0 <= i < before.len() implies type_decls@[i] == before[i] by {}
                if is_public {
                    assert(type_decls@[before.len() as int].modifiers.access_modifier
                        == AccessModifier::Public);
                }
            }
            if is_public {
                have_public_type = true;
            }
        }
        Ok(JavaFile { package_name, imported_objects, type_decls, file: file.to_owned() })
    }

    /// `<package_decl> ::= "package" <qualified_name> ";"`
    pub fn package_decl(&mut self) -> (r: ParseResult<QualifiedName>)
        requires
            old(self).wf(),
        ensures
            final(self).follows(*old(self)),
            r is Ok ==> old(self).ahead(0).token@ == TokenView::Keyword("package"@),
            r matches Ok(q) ==> {
                &&& spells_name(*old(self), 1, q@)
                &&& old(self).ahead(2 * q@.len() as int).token@ == TokenView::Semicolon
                &&& final(self).shifted(*old(self), 2 * q@.len() as int + 1)
            },
            forall|q: Seq<Seq<char>>|
                old(self).ahead(0).token@ == TokenView::Keyword("package"@) && #[trigger] spells_name(*old(self), 1, q)
                    && old(self).ahead(2 * q.len() as int).token@ == TokenView::Semicolon ==> (r matches Ok(n) && n@ == q),
    {
        let ctx = ("package_decl", self.peek_next_token().addr);
        let kw = self.get_next_token();
        if !token_eq(&kw.token, &Token::Keyword("package")) {
            let cur = self.get_current_token();
            return Err(
                ParseErrType::UnexpectedToken {
                    expected: "package",
                    got: vec![cur.token.to_owned_token()],
                }.to_stack_parse_err(cur.addr, ctx),
            );
        }
        let ghost s1 = *self;
        proof {
            assert forall|q: Seq<Seq<char>>| #[trigger] spells_name(*old(self), 1, q) implies s1.ahead(0).token@ is Identifier by {
                assert(old(self).ahead(1int + 2 * 0).token@ == TokenView::Identifier(q[0]));
                assert(s1.ahead(0) == old(self).ahead(0int + 1));
            }
        }
        let name = self.qualified_name().push_context(ctx)?;
        let ghost s2 = *self;
        proof {
            lemma_qualified_name_spelled(s1, s2, name@);
            lemma_spells_name_shift(*old(self), s1, 1, 0, name@);
            assert forall|q: Seq<Seq<char>>| #[trigger] spells_name(*old(self), 1, q) implies q == name@ by {
                lemma_spells_name_unique(*old(self), 1, q, name@);
            }
            lemma_shifted_trans(*old(self), s1, s2, 1, 2 * name@.len() - 1);
            assert(s2.ahead(0) == old(self).ahead(0 + (1 + 2 * name@.len() - 1)));
        }
        self.consume_token(Token::Semicolon, "Semicolon", ctx)?;
        proof {
            lemma_shifted_trans(*old(self), s2, *self, 2 * name@.len() as int, 1);
        }
        Ok(name)
    }

    /// `<import> ::= { "import" ["static"] <qualified_name>[.*] ";" }`
    #[verifier::rlimit(40)]
    #[verifier::spinoff_prover]
    pub fn import(&mut self) -> (r: ParseResult<Vec<ImportObject>>)
        requires
            old(self).wf(),
        ensures
            final(self).follows(*old(self)),
            r is Ok ==> final(self).ahead(0).token@ != TokenView::Keyword("import"@),
            r matches Ok(v) ==> spells_imports(*old(self), 0, v@) && final(self).shifted(*old(self), imports_len(v@)),
            old(self).ahead(0).token@ != TokenView::Keyword("import"@) ==> (r matches Ok(v) && v@.len() == 0
                && *final(self) == *old(self)),
            forall|xs: Seq<ImportObject>|
                #[trigger] spells_imports(*old(self), 0, xs) && old(self).ahead(imports_len(xs)).token@
                    != TokenView::Keyword("import"@) ==> (r matches Ok(v) && same_imports(v@, xs)),
    {
        let ctx = ("import", self.peek_next_token().addr);
        let mut v: Vec<ImportObject> = Vec::new();
        let ghost pre = *self;
        let ghost h = exists|xs: Seq<ImportObject>|
            spells_imports(*old(self), 0, xs) && old(self).ahead(imports_len(xs)).token@ != TokenView::Keyword(
                "import"@,
            );
        let ghost gxs = choose|xs: Seq<ImportObject>|
            spells_imports(*old(self), 0, xs) && old(self).ahead(imports_len(xs)).token@ != TokenView::Keyword(
                "import"@,
            );
        assert(self.shifted(pre, 0)) by {
            assert forall|k: int| 0 <= k implies #[trigger] self.ahead(k) == pre.ahead(k + 0) by {}
        }
        loop
            invariant
                pre == *old(self),
                self.follows(pre),
                spells_imports(pre, 0, v@),
                imports_len(v@) >= 0,
                self.shifted(pre, imports_len(v@)),
                pre.ahead(0).token@ != TokenView::Keyword("import"@) ==> v@.len() == 0 && *self == pre,
                h == exists|xs: Seq<ImportObject>|
                    spells_imports(*old(self), 0, xs) && old(self).ahead(imports_len(xs)).token@
                        != TokenView::Keyword("import"@),
                h ==> spells_imports(pre, 0, gxs) && pre.ahead(imports_len(gxs)).token@ != TokenView::Keyword(
                    "import"@,
                ) && v@.len() <= gxs.len(),
            ensures
                self.ahead(0).token@ != TokenView::Keyword("import"@),
                spells_imports(pre, 0, v@),
                self.shifted(pre, imports_len(v@)),
                pre.ahead(0).token@ != TokenView::Keyword("import"@) ==> v@.len() == 0 && *self == pre,
                h ==> same_imports(v@, gxs),
            decreases self.remaining(),
        {
            proof {
                if h {
                    let k = v@.len() as int;
                    lemma_spells_imports_prefix(pre, v@, gxs);
                    lemma_imports_len_same(v@, gxs.take(k));
                    assert(self.ahead(0) == pre.ahead(0 + imports_len(v@)));
                    if k == gxs.len() {
                        assert(gxs.take(k) =~= gxs);
                    } else {
                        lemma_spells_imports_take(pre, gxs, k + 1);
                        assert(gxs.take(k + 1).drop_last() =~= gxs.take(k));
                        assert(gxs.take(k + 1).last() == gxs[k]);
                        assert(spells_import(pre, imports_len(gxs.take(k)), gxs[k]));
                        lemma_spells_import_shift(pre, *self, imports_len(v@), 0, gxs[k]);
                    }
                }
            }
            if !self.next_is(Token::Keyword("import")) {
                break ;
            }
            let ghost s0 = *self;
            let x = self.import_object(ctx)?;
            let ghost v0 = v@;
            proof {
                lemma_spells_import_shift(pre, s0, imports_len(v0), 0, x);
                assert(v0.push(x).drop_last() =~= v0);
                assert(v0.push(x).last() == x);
                lemma_shifted_trans(pre, s0, *self, imports_len(v0), import_len(x));
            }
            v.push(x);
        }
        proof {
            if h {
                assert forall|xs: Seq<ImportObject>|
                    #[trigger] spells_imports(*old(self), 0, xs) && old(self).ahead(imports_len(xs)).token@
                        != TokenView::Keyword("import"@) implies same_imports(v@, xs) by {
                    let k = v@.len() as int;
                    if xs.len() < k {
                        lemma_spells_imports_prefix(pre, xs, v@);
                        lemma_imports_len_same(xs, v@.take(xs.len() as int));
                        lemma_spells_imports_take(pre, v@, xs.len() as int + 1);
                        assert(v@.take(xs.len() as int + 1).drop_last() =~= v@.take(xs.len() as int));
                        assert(v@.take(xs.len() as int + 1).last() == v@[xs.len() as int]);
                    } else {
                        lemma_spells_imports_prefix(pre, v@, xs);
                        if k < xs.len() {
                            lemma_imports_len_same(v@, xs.take(k));
                            lemma_spells_imports_take(pre, xs, k + 1);
                            assert(xs.take(k + 1).drop_last() =~= xs.take(k));
                            assert(xs.take(k + 1).last() == xs[k]);
                            assert(self.ahead(0) == pre.ahead(0 + imports_len(v@)));
                        }
                        assert(xs.take(k) =~= xs);
                    }
                }
            }
        }
        Ok(v)
    }

    /// One import statement: `import` [`static`] <qualified_name> [`.` `*`] `;`.
    #[verifier::spinoff_prover]
    #[verifier::rlimit(60)]
    fn import_object(&mut self, ctx: (&'static str, usize)) -> (r: ParseResult<ImportObject>)
        requires
            old(self).wf(),
            old(self).ahead(0).token@ == TokenView::Keyword("import"@),
        ensures
            final(self).follows(*old(self)),
            final(self).remaining() < old(self).remaining(),
            r matches Ok(x) ==> spells_import(*old(self), 0, x) && final(self).shifted(*old(self), import_len(x)),
            forall|x: ImportObject| #[trigger] spells_import(*old(self), 0, x) ==> (r matches Ok(y) && same_import(y, x)),
    {
        let ghost h = exists|x: ImportObject| spells_import(*old(self), 0, x);
        let ghost gx = choose|x: ImportObject| spells_import(*old(self), 0, x);
        let ghost gst: int = if gx.is_static {
            1
        } else {
            0
        };
        let ghost ge = 1 + gst + 2 * gx.name@.len() - 1;
        let ghost s0 = *self;
        self.get_next_token();
        let ghost s1 = *self;
        proof {
            assert(s1.ahead(0) == old(self).ahead(0int + 1));
        }
        let is_static = if self.next_is(Token::Keyword("static")) {
            self.get_next_token();
            true
        } else {
            assert(self.shifted(s1, 0)) by {
                assert forall|k: int| 0 <= k implies #[trigger] self.ahead(k) == s1.ahead(k + 0) by {}
            }
            false
        };
        let ghost s2 = *self;
        proof {
            if h {
                lemma_shifted_trans(*old(self), s1, s2, 1, gst);
                lemma_spells_name_shift(*old(self), s2, 1 + gst, 0, gx.name@);
                assert(s2.ahead(0int + 2 * 0).token@ == TokenView::Identifier(gx.name@[0]));
            }
        }
        let name = self.qualified_name().push_context(ctx)?;
        let ghost s3 = *self;
        proof {
            if h {
                lemma_qualified_name_spelled(s2, s3, name@);
                lemma_spells_name_unique(s2, 0, name@, gx.name@);
                lemma_shifted_trans(*old(self), s2, s3, 1 + gst, 2 * name@.len() - 1);
                assert(s3.ahead(0) == old(self).ahead(0 + ge));
                assert(s3.ahead(1) == old(self).ahead(1 + ge));
            }
        }
        let is_wildcard = if self.offset_is(0, Token::Dot) && self.offset_is(1, Token::Op("*")) {
            self.get_next_token();
            let ghost s3b = *self;
            self.get_next_token();
            proof {
                lemma_shifted_trans(s3, s3b, *self, 1, 1);
            }
            true
        } else {
            assert(self.shifted(s3, 0)) by {
                assert forall|k: int| 0 <= k implies #[trigger] self.ahead(k) == s3.ahead(k + 0) by {}
            }
            false
        };
        let ghost s4 = *self;
        proof {
            if h {
                let w: int = if gx.is_wildcard {
                    2
                } else {
                    0
                };
                lemma_shifted_trans(*old(self), s3, s4, ge, w);
                assert(s4.ahead(0) == old(self).ahead(0 + (ge + w)));
            }
        }
        let semi = self.get_next_token();
        if !token_eq(&semi.token, &Token::Semicolon) {
            let cur = self.get_current_token();
            return Err(
                ParseErrType::UnexpectedToken {
                    expected: "Semicolon",
                    got: vec![cur.token.to_owned_token()],
                }.to_stack_parse_err(cur.addr, ctx),
            );
        }
        let x = ImportObject { name, is_static, is_wildcard };
        proof {
            lemma_import_step(s0, s1, s2, s3, s4, *self, x);
            if h {
                assert forall|y: ImportObject| #[trigger] spells_import(*old(self), 0, y) implies same_import(x, y) by {
                    lemma_spells_import_unique(*old(self), 0, x, y);
                }
            }
        }
        Ok(x)
    }

    /// `<type_decl> ::= {<annotation>} <modifiers> ( <enum_decl> | <class_decl> |
    /// <interface_decl> | <annotation_decl> )`
    /// The type is named `prefix` followed by its identifier.
    pub fn type_decl(&mut self, prefix: QualifiedName) -> (r: ParseResult<Type>)
        requires
            old(self).wf(),
        ensures
            final(self).follows(*old(self)),
            r is Ok ==> final(self).remaining() < old(self).remaining(),
            r matches Ok(t) ==> {
                &&& is_child_name(prefix@, t.name@)
                &&& t.modifiers.access_modifier == access_of(names_view(t.modifiers.modifiers@))
                &&& forall|i: int|
                    0 <= i < t.body.subtypes@.len() ==> is_child_name(
                        t.name@,
                        (#[trigger] t.body.subtypes@[i]).name@,
                    )
            },
            r matches Ok(t) ==> (starts_type_decl(old(self).ahead(0).token@, old(self).ahead(1).token@) ==> {
                &&& t.annotation@.len() == 0
                &&& t.modifiers.modifiers@.len() == 0
                &&& t.modifiers.access_modifier == AccessModifier::Default
                &&& (old(self).ahead(0).token@ == TokenView::Keyword("class"@) <==> t.type_kind is Class)
                &&& (old(self).ahead(0).token@ == TokenView::Keyword("interface"@) <==> t.type_kind is Interface)
                &&& (old(self).ahead(0).token@ == TokenView::Keyword("enum"@) <==> t.type_kind is Enum)
                &&& (old(self).ahead(0).token@ == TokenView::At <==> t.type_kind is Annotation)
            }),
            empty_decl_at(*old(self), "class"@) || empty_decl_at(*old(self), "interface"@) || empty_decl_at(
                *old(self),
                "enum"@,
            ) ==> (r matches Ok(t) && t.body.members@.len() == 0 && t.body.subtypes@.len() == 0
                && final(self).shifted(*old(self), 4)),
            empty_annotation_decl_at(*old(self)) ==> (r matches Ok(t) && t.body.members@.len() == 0
                && t.body.subtypes@.len() == 0 && final(self).shifted(*old(self), 5)),
            public_empty_decl_at(*old(self), 0) ==> (r matches Ok(t) && t.modifiers.access_modifier
                == AccessModifier::Public && t.body.members@.len() == 0 && final(self).shifted(*old(self), 5)),
    {
        proof {
            lemma_decl_keywords_not_modifiers();
        }
        let ghost hp = public_empty_decl_at(*old(self), 0);
        let ctx = ("type_decl", self.peek_next_token().addr);
        // {<annotation>}
        let annotation = self.annotations().push_context(ctx)?;
        // <modifiers>
        let ghost sa = *self;
        let mres = self.modifiers();
        proof {
            if hp {
                assert(sa == *old(self));
                if mres is Ok {
                        let m = mres->Ok_0;
                        lemma_public_before_decl(sa, names_view(m.modifiers@));
                        assert(self.ahead(0) == sa.ahead(0int + 1));
                        assert(self.ahead(1) == sa.ahead(1int + 1));
                        assert(self.ahead(2) == sa.ahead(2int + 1));
                        assert(self.ahead(3) == sa.ahead(3int + 1));
                        assert(names_view(m.modifiers@).last() == "public"@);
                        assert(access_word("public"@) == Some(AccessModifier::Public));
                } else {
                        let ws = choose|ws: Seq<Seq<char>>|
                            {
                                &&& #[trigger] modifiers_spelled(sa, 0, ws)
                                &&& access_of(ws) != AccessModifier::Default
                                &&& sa.ahead(modifiers_len(ws)).token@ matches TokenView::Keyword(w)
                                &&& access_word(w) is Some
                            };
                        lemma_public_before_decl(sa, ws);
                        lemma_non_sealed_distinct("class"@);
                        reveal_strlit("class");
                        reveal_strlit("interface");
                        reveal_strlit("enum");
                        reveal_strlit("public");
                        reveal_strlit("private");
                        reveal_strlit("protected");
                        assert(false);
                }
            }
        }
        let modifiers = mres.push_context(ctx)?;
        // (<enum_decl> | <class_decl> | <interface_decl> | <annotation_decl>)
        let mut typeclass = if self.next_is(Token::Keyword("class")) {
            self.class_decl(prefix)?
        } else if self.next_is(Token::Keyword("interface")) {
            self.interface_decl(prefix)?
        } else if self.next_is(Token::Keyword("enum")) {
            self.enum_decl(prefix)?
        } else if self.next_is(Token::At) {
            self.annotation_decl(prefix)?
        } else {
            let t = self.peek_next_token();
            return Err(
                ParseErrType::UnexpectedToken {
                    expected: "class | interface | enum | @",
                    got: vec![t.token.to_owned_token()],
                }.to_stack_parse_err(t.addr, ctx),
            );
        };
        typeclass.modifiers = modifiers;
        typeclass.annotation = annotation;
        Ok(typeclass)
    }
}

} // verus!
