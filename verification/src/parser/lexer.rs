use vstd::prelude::*;

use crate::text::{alphanumeric, char_is_alphanumeric, char_is_whitespace, chars_eq_str, is_white_space};
use crate::parser::token::{IndexedToken, Token, TokenView};

verus! {

// ------------------------------------------------------------------------
// The lexical grammar, over the characters of the source.
// ------------------------------------------------------------------------

/// The character at `i`, if there is one.
pub open spec fn char_at(cs: Seq<char>, i: int) -> Option<char> {
    if 0 <= i < cs.len() {
        Some(cs[i])
    } else {
        None
    }
}

/// Where a `//` comment whose text starts at `j` ends: just after the first
/// line break at or after `j`, or at the end of the input.
pub open spec fn line_comment_end(cs: Seq<char>, j: int) -> int
    decreases cs.len() - j,
{
    if j >= cs.len() {
        cs.len() as int
    } else if cs[j] == '\n' {
        j + 1
    } else {
        line_comment_end(cs, j + 1)
    }
}

/// Where a `/*` comment whose text starts at `j` ends: just after the first
/// `*/` at or after `j`, or at the end of the input.
pub open spec fn block_comment_end(cs: Seq<char>, j: int) -> int
    decreases cs.len() - j,
{
    if j + 1 >= cs.len() {
        cs.len() as int
    } else if cs[j] == '*' && cs[j + 1] == '/' {
        j + 2
    } else {
        block_comment_end(cs, j + 1)
    }
}

/// Whether a `//` comment starts at `i`.
pub open spec fn line_comment_at(cs: Seq<char>, i: int) -> bool {
    0 <= i && i + 1 < cs.len() && cs[i] == '/' && cs[i + 1] == '/'
}

/// Whether a `/*` comment starts at `i`.
pub open spec fn block_comment_at(cs: Seq<char>, i: int) -> bool {
    0 <= i && i + 1 < cs.len() && cs[i] == '/' && cs[i + 1] == '*'
}

/// The position of the first character at or after `i` that is neither
/// white space nor part of a comment.
pub open spec fn skip_trivia(cs: Seq<char>, i: int) -> int
    decreases cs.len() - i,
{
    if i < 0 || i >= cs.len() {
        i
    } else if is_white_space(cs[i]) {
        skip_trivia(cs, i + 1)
    } else if line_comment_at(cs, i) {
        if i < line_comment_end(cs, i + 2) <= cs.len() {
            skip_trivia(cs, line_comment_end(cs, i + 2))
        } else {
            i
        }
    } else if block_comment_at(cs, i) {
        if i < block_comment_end(cs, i + 2) <= cs.len() {
            skip_trivia(cs, block_comment_end(cs, i + 2))
        } else {
            i
        }
    } else {
        i
    }
}

/// Where a character or string literal opened by `quote` and whose text
/// starts at `j` ends (just after the closing quote), if it is closed at all.
/// A backslash escapes the character after it.
pub open spec fn quoted_end(cs: Seq<char>, j: int, quote: char) -> Option<int>
    decreases cs.len() - j,
{
    if j < 0 || j >= cs.len() {
        None
    } else if cs[j] == '\\' {
        if j + 1 >= cs.len() {
            None
        } else {
            quoted_end(cs, j + 2, quote)
        }
    } else if cs[j] == quote {
        Some(j + 1)
    } else {
        quoted_end(cs, j + 1, quote)
    }
}

/// Whether `c` may continue a word.
pub open spec fn word_char(c: char) -> bool {
    alphanumeric(c) || c == '_' || c == '$'
}

/// The end of the run of word characters that starts at `j`.
pub open spec fn word_end(cs: Seq<char>, j: int) -> int
    decreases cs.len() - j,
{
    if 0 <= j < cs.len() && word_char(cs[j]) {
        word_end(cs, j + 1)
    } else {
        j
    }
}

/// The words that the lexer reports as literals: `true`, `false` and the
/// words that start with a decimal digit (numbers such as `42`, `0x1F`,
/// `10L`).
pub open spec fn is_literal_word(w: Seq<char>) -> bool {
    ||| w == "true"@
    ||| w == "false"@
    ||| (w.len() > 0 && '0' <= w[0] && w[0] <= '9')
}

/// The words that the lexer reports as keywords.
pub open spec fn is_keyword(w: Seq<char>) -> bool {
    ||| w == "abstract"@
    ||| w == "class"@
    ||| w == "const"@
    ||| w == "default"@
    ||| w == "enum"@
    ||| w == "extends"@
    ||| w == "final"@
    ||| w == "implements"@
    ||| w == "import"@
    ||| w == "interface"@
    ||| w == "package"@
    ||| w == "public"@
    ||| w == "private"@
    ||| w == "static"@
    ||| w == "synchronized"@
    ||| w == "transient"@
    ||| w == "return"@
    ||| w == "void"@
    ||| w == "if"@
    ||| w == "else"@
    ||| w == "while"@
    ||| w == "for"@
    ||| w == "new"@
    ||| w == "this"@
    ||| w == "super"@
    ||| w == "break"@
    ||| w == "continue"@
    ||| w == "case"@
    ||| w == "try"@
    ||| w == "catch"@
    ||| w == "do"@
    ||| w == "finally"@
    ||| w == "instanceof"@
    ||| w == "native"@
    ||| w == "protected"@
    ||| w == "switch"@
    ||| w == "throw"@
    ||| w == "throws"@
    ||| w == "volatile"@
    ||| w == "sealed"@
    ||| w == "permits"@
    ||| w == "strictfp"@
}

/// One scanning step: the token (or `None` for a lexical error) and the
/// position after it.
pub struct Scan {
    pub tok: Option<TokenView>,
    pub end: int,
}

/// A token of the given kind that ends at `end`.
pub open spec fn scanned(tok: TokenView, end: int) -> Scan {
    Scan { tok: Some(tok), end }
}

/// Scans the token that starts at `p` (which holds neither white space nor
/// the start of a comment). Operators take the longest spelling that matches.
pub open spec fn scan_at(cs: Seq<char>, p: int) -> Scan
    recommends
        0 <= p < cs.len(),
{
    let c = cs[p];
    let n1 = char_at(cs, p + 1);
    let n2 = char_at(cs, p + 2);
    let n3 = char_at(cs, p + 3);
    if c == '{' {
        scanned(TokenView::LBrace, p + 1)
    } else if c == '}' {
        scanned(TokenView::RBrace, p + 1)
    } else if c == '[' {
        scanned(TokenView::LBracket, p + 1)
    } else if c == ']' {
        scanned(TokenView::RBracket, p + 1)
    } else if c == '(' {
        scanned(TokenView::LParen, p + 1)
    } else if c == ')' {
        scanned(TokenView::RParen, p + 1)
    } else if c == '?' {
        scanned(TokenView::QuestionMark, p + 1)
    } else if c == '@' {
        scanned(TokenView::At, p + 1)
    } else if c == ',' {
        scanned(TokenView::Comma, p + 1)
    } else if c == '~' {
        scanned(TokenView::Op("~"@), p + 1)
    } else if c == ';' {
        scanned(TokenView::Semicolon, p + 1)
    } else if c == '.' {
        if n1 == Some('.') && n2 == Some('.') {
            scanned(TokenView::Op("..."@), p + 3)
        } else {
            scanned(TokenView::Dot, p + 1)
        }
    } else if c == '^' {
        if n1 == Some('=') {
            scanned(TokenView::Assignment("^="@), p + 2)
        } else {
            scanned(TokenView::Op("^"@), p + 1)
        }
    } else if c == '%' {
        if n1 == Some('=') {
            scanned(TokenView::Assignment("%="@), p + 2)
        } else {
            scanned(TokenView::Op("%"@), p + 1)
        }
    } else if c == '!' {
        if n1 == Some('=') {
            scanned(TokenView::Op("!="@), p + 2)
        } else {
            scanned(TokenView::Op("!"@), p + 1)
        }
    } else if c == ':' {
        if n1 == Some(':') {
            scanned(TokenView::Op("::"@), p + 2)
        } else {
            scanned(TokenView::Op(":"@), p + 1)
        }
    } else if c == '=' {
        if n1 == Some('=') {
            scanned(TokenView::Op("=="@), p + 2)
        } else {
            scanned(TokenView::Assignment("="@), p + 1)
        }
    } else if c == '+' {
        if n1 == Some('=') {
            scanned(TokenView::Assignment("+="@), p + 2)
        } else if n1 == Some('+') {
            scanned(TokenView::Op("++"@), p + 2)
        } else {
            scanned(TokenView::Op("+"@), p + 1)
        }
    } else if c == '-' {
        if n1 == Some('=') {
            scanned(TokenView::Assignment("-="@), p + 2)
        } else if n1 == Some('-') {
            scanned(TokenView::Op("--"@), p + 2)
        } else {
            scanned(TokenView::Op("-"@), p + 1)
        }
    } else if c == '*' {
        if n1 == Some('=') {
            scanned(TokenView::Assignment("*="@), p + 2)
        } else {
            scanned(TokenView::Op("*"@), p + 1)
        }
    } else if c == '/' {
        if n1 == Some('=') {
            scanned(TokenView::Assignment("/="@), p + 2)
        } else {
            scanned(TokenView::Op("/"@), p + 1)
        }
    } else if c == '&' {
        if n1 == Some('=') {
            scanned(TokenView::Assignment("&="@), p + 2)
        } else if n1 == Some('&') {
            scanned(TokenView::Op("&&"@), p + 2)
        } else {
            scanned(TokenView::Op("&"@), p + 1)
        }
    } else if c == '|' {
        if n1 == Some('=') {
            scanned(TokenView::Assignment("|="@), p + 2)
        } else if n1 == Some('|') {
            scanned(TokenView::Op("||"@), p + 2)
        } else {
            scanned(TokenView::Op("|"@), p + 1)
        }
    } else if c == '>' {
        if n1 == Some('>') && n2 == Some('>') && n3 == Some('=') {
            scanned(TokenView::Assignment(">>>="@), p + 4)
        } else if n1 == Some('>') && n2 == Some('>') {
            scanned(TokenView::Op(">>>"@), p + 3)
        } else if n1 == Some('>') && n2 == Some('=') {
            scanned(TokenView::Assignment(">>="@), p + 3)
        } else if n1 == Some('>') {
            scanned(TokenView::Op(">>"@), p + 2)
        } else if n1 == Some('=') {
            scanned(TokenView::Op(">="@), p + 2)
        } else {
            scanned(TokenView::GreaterThan, p + 1)
        }
    } else if c == '<' {
        if n1 == Some('<') && n2 == Some('=') {
            scanned(TokenView::Assignment("<<="@), p + 3)
        } else if n1 == Some('<') {
            scanned(TokenView::Op("<<"@), p + 2)
        } else if n1 == Some('=') {
            scanned(TokenView::Op("<="@), p + 2)
        } else {
            scanned(TokenView::LessThan, p + 1)
        }
    } else if c == '\'' || c == '"' {
        match quoted_end(cs, p + 1, c) {
            Some(e) => scanned(TokenView::Literal(cs.subrange(p, e)), e),
            None => Scan { tok: None, end: cs.len() as int },
        }
    } else if alphanumeric(c) {
        let e = word_end(cs, p + 1);
        let w = cs.subrange(p, e);
        if is_literal_word(w) {
            scanned(TokenView::Literal(w), e)
        } else if is_keyword(w) {
            scanned(TokenView::Keyword(w), e)
        } else {
            scanned(TokenView::Identifier(w), e)
        }
    } else {
        Scan { tok: None, end: p + 1 }
    }
}

/// The outcome of asking for the next token at position `i`: the token (or
/// `None` for a lexical error), where it starts and the position after it.
pub struct LexStep {
    pub tok: Option<TokenView>,
    pub start: int,
    pub end: int,
}

/// The next token after position `i`: trivia is skipped, and at the end of
/// the input the token is `EOF`, which spans nothing.
pub open spec fn lex_step(cs: Seq<char>, i: int) -> LexStep {
    let p = skip_trivia(cs, i);
    if p >= cs.len() {
        LexStep { tok: Some(TokenView::EOF), start: cs.len() as int, end: cs.len() as int }
    } else {
        let s = scan_at(cs, p);
        LexStep { tok: s.tok, start: p, end: s.end }
    }
}

/// The tokens of `cs` read from position `i` on, up to and including the
/// end-of-file token; `None` if some part of the input is not a token.
pub open spec fn lex_from(cs: Seq<char>, i: int) -> Option<Seq<TokenView>>
    decreases cs.len() + 1 - i,
{
    if i < 0 || i > cs.len() {
        None
    } else {
        let st = lex_step(cs, i);
        match st.tok {
            None => None,
            Some(t) => if t == TokenView::EOF {
                Some(seq![t])
            } else if st.end <= i || st.end > cs.len() {
                None
            } else {
                match lex_from(cs, st.end) {
                    Some(rest) => Some(seq![t] + rest),
                    None => None,
                }
            },
        }
    }
}

/// The tokens of the whole of `cs`, ending with the end-of-file token;
/// `None` if some part of it is not a token.
pub open spec fn lex_all(cs: Seq<char>) -> Option<Seq<TokenView>> {
    lex_from(cs, 0)
}

// ------------------------------------------------------------------------
// Facts about the grammar
// ------------------------------------------------------------------------

proof fn lemma_line_comment_end_bounds(cs: Seq<char>, j: int)
    requires
        0 <= j,
    ensures
        j <= line_comment_end(cs, j) <= cs.len() || (j > cs.len() && line_comment_end(cs, j)
            == cs.len()),
    decreases cs.len() - j,
{
    if j < cs.len() && cs[j] != '\n' {
        lemma_line_comment_end_bounds(cs, j + 1);
    }
}

proof fn lemma_block_comment_end_bounds(cs: Seq<char>, j: int)
    requires
        0 <= j <= cs.len(),
    ensures
        j <= block_comment_end(cs, j) <= cs.len(),
    decreases cs.len() - j,
{
    if j + 1 < cs.len() && !(cs[j] == '*' && cs[j + 1] == '/') {
        lemma_block_comment_end_bounds(cs, j + 1);
    }
}

proof fn lemma_quoted_end_bounds(cs: Seq<char>, j: int, quote: char)
    requires
        0 <= j,
    ensures
        quoted_end(cs, j, quote) matches Some(e) ==> j < e <= cs.len(),
    decreases cs.len() - j,
{
    if 0 <= j < cs.len() {
        if cs[j] == '\\' {
            if j + 1 < cs.len() {
                lemma_quoted_end_bounds(cs, j + 2, quote);
            }
        } else if cs[j] != quote {
            lemma_quoted_end_bounds(cs, j + 1, quote);
        }
    }
}

proof fn lemma_word_end_bounds(cs: Seq<char>, j: int)
    requires
        0 <= j <= cs.len(),
    ensures
        j <= word_end(cs, j) <= cs.len(),
    decreases cs.len() - j,
{
    if j < cs.len() && word_char(cs[j]) {
        lemma_word_end_bounds(cs, j + 1);
    }
}

/// How many backslashes come right before position `j`, counting no
/// further back than `lo`.
pub open spec fn backslashes_before(cs: Seq<char>, lo: int, j: int) -> nat
    decreases j - lo,
{
    if j <= lo {
        0
    } else if cs[j - 1] == '\\' {
        backslashes_before(cs, lo, j - 1) + 1
    } else {
        0
    }
}

/// The character at `j` is escaped: an odd number of backslashes comes
/// right before it (within the text that starts at `lo`).
pub open spec fn escaped(cs: Seq<char>, lo: int, j: int) -> bool {
    backslashes_before(cs, lo, j) % 2 == 1
}

/// Scanning from `j`, where no backslash is pending, with every quote seen
/// since `lo` escaped.
proof fn lemma_quoted_end_unescaped(cs: Seq<char>, lo: int, j: int, quote: char)
    requires
        0 <= lo <= j,
        quote != '\\',
        backslashes_before(cs, lo, j) % 2 == 0,
        forall|k: int| lo <= k < j && k < cs.len() && cs[k] == quote ==> escaped(cs, lo, k),
    ensures
        quoted_end(cs, j, quote) matches Some(e) ==> {
            &&& j < e <= cs.len()
            &&& cs[e - 1] == quote
            &&& !escaped(cs, lo, e - 1)
            &&& forall|k: int| lo <= k < e - 1 && cs[k] == quote ==> escaped(cs, lo, k)
        },
        quoted_end(cs, j, quote) is None ==> forall|k: int| lo <= k < cs.len() && cs[k] == quote ==> escaped(cs, lo, k),
    decreases cs.len() - j,
{
    if j < cs.len() {
        if cs[j] == '\\' {
            if j + 1 < cs.len() {
                assert(backslashes_before(cs, lo, j + 1) == backslashes_before(cs, lo, j) + 1);
                if cs[j + 1] == '\\' {
                    assert(backslashes_before(cs, lo, j + 2) == backslashes_before(cs, lo, j + 1) + 1);
                } else {
                    assert(backslashes_before(cs, lo, j + 2) == 0);
                }
                assert forall|k: int| lo <= k < j + 2 && k < cs.len() && cs[k] == quote implies escaped(cs, lo, k) by {
                    if k == j + 1 {
                        assert(backslashes_before(cs, lo, j + 1) % 2 == 1);
                    }
                }
                lemma_quoted_end_unescaped(cs, lo, j + 2, quote);
            }
        } else if cs[j] != quote {
            assert(backslashes_before(cs, lo, j + 1) == 0);
            lemma_quoted_end_unescaped(cs, lo, j + 1, quote);
        }
    }
}

/// A character or string literal whose text starts at `lo` ends at the
/// first quote that no backslash escapes: the quote that closes it is not
/// escaped, and every quote inside it is. A literal that never closes has
/// every quote after its start escaped.
pub proof fn law_quoted_literal_ends_at_unescaped_quote(cs: Seq<char>, lo: int, quote: char)
    requires
        0 <= lo,
        quote != '\\',
    ensures
        quoted_end(cs, lo, quote) matches Some(e) ==> {
            &&& lo < e <= cs.len()
            &&& cs[e - 1] == quote
            &&& !escaped(cs, lo, e - 1)
            &&& forall|k: int| lo <= k < e - 1 && cs[k] == quote ==> escaped(cs, lo, k)
        },
        quoted_end(cs, lo, quote) is None ==> forall|k: int| lo <= k < cs.len() && cs[k] == quote ==> escaped(cs, lo, k),
{
    lemma_quoted_end_unescaped(cs, lo, lo, quote);
}

/// Every scanning step moves forward and stays within the input.
pub proof fn lemma_scan_at_bounds(cs: Seq<char>, p: int)
    requires
        0 <= p < cs.len(),
    ensures
        p < scan_at(cs, p).end <= cs.len(),
{
    lemma_quoted_end_bounds(cs, p + 1, cs[p]);
    lemma_word_end_bounds(cs, p + 1);
}

/// Skipping trivia moves forward and stays within the input.
pub proof fn lemma_skip_trivia_bounds(cs: Seq<char>, i: int)
    requires
        0 <= i <= cs.len(),
    ensures
        i <= skip_trivia(cs, i) <= cs.len(),
    decreases cs.len() - i,
{
    if i < cs.len() {
        if is_white_space(cs[i]) {
            lemma_skip_trivia_bounds(cs, i + 1);
        } else if line_comment_at(cs, i) {
            lemma_line_comment_end_bounds(cs, i + 2);
            lemma_skip_trivia_bounds(cs, line_comment_end(cs, i + 2));
        } else if block_comment_at(cs, i) {
            lemma_block_comment_end_bounds(cs, i + 2);
            lemma_skip_trivia_bounds(cs, block_comment_end(cs, i + 2));
        }
    }
}

/// The step from `i` starts after `i` and ends within the input.
pub proof fn lemma_lex_step_bounds(cs: Seq<char>, i: int)
    requires
        0 <= i <= cs.len(),
    ensures
        i <= lex_step(cs, i).start <= lex_step(cs, i).end <= cs.len(),
        lex_step(cs, i).start < cs.len() ==> lex_step(cs, i).start < lex_step(cs, i).end,
        lex_step(cs, i).tok == Some(TokenView::EOF) ==> lex_step(cs, i).start == cs.len(),
{
    lemma_skip_trivia_bounds(cs, i);
    let p = skip_trivia(cs, i);
    if p < cs.len() {
        lemma_scan_at_bounds(cs, p);
    }
}

/// Whether a token spans exactly its spelling, as operator and assignment
/// tokens do.
pub open spec fn spans_its_text(tok: TokenView, len: int) -> bool {
    match tok {
        TokenView::Op(s) => len == s.len(),
        TokenView::Assignment(s) => len == s.len(),
        _ => true,
    }
}

/// An operator or assignment token spans exactly its spelling.
pub proof fn lemma_scan_spans_text(cs: Seq<char>, p: int)
    requires
        0 <= p < cs.len(),
        scan_at(cs, p).tok is Some,
    ensures
        spans_its_text(scan_at(cs, p).tok.unwrap(), scan_at(cs, p).end - p),
{
    reveal_strlit("~");
    reveal_strlit("...");
    reveal_strlit("^=");
    reveal_strlit("^");
    reveal_strlit("%=");
    reveal_strlit("%");
    reveal_strlit("!=");
    reveal_strlit("!");
    reveal_strlit("::");
    reveal_strlit(":");
    reveal_strlit("==");
    reveal_strlit("=");
    reveal_strlit("+=");
    reveal_strlit("++");
    reveal_strlit("+");
    reveal_strlit("-=");
    reveal_strlit("--");
    reveal_strlit("-");
    reveal_strlit("*=");
    reveal_strlit("*");
    reveal_strlit("/=");
    reveal_strlit("/");
    reveal_strlit("&=");
    reveal_strlit("&&");
    reveal_strlit("&");
    reveal_strlit("|=");
    reveal_strlit("||");
    reveal_strlit("|");
    reveal_strlit(">>>=");
    reveal_strlit(">>>");
    reveal_strlit(">>=");
    reveal_strlit(">>");
    reveal_strlit(">=");
    reveal_strlit("<<=");
    reveal_strlit("<<");
    reveal_strlit("<=");
}

// ------------------------------------------------------------------------
// The lexer
// ------------------------------------------------------------------------

/// The characters of `s`, in order.
fn collect_chars(s: &str) -> (v: Vec<char>)
    ensures
        v@ == s@,
{
    let mut v: Vec<char> = Vec::new();
    for c in it: s.chars()
        invariant
            v@ == it.seq().take(it.index() as int),
    {
        v.push(c);
    }
    proof {
        broadcast use vstd::string::axiom_spec_iter;
    }
    v
}

/// Splits Java source into tokens, one at a time.
pub struct Lexer<'a> {
    s: &'a str,
    chars: Vec<char>,
    ind: usize,
    curr_char: Option<char>,
    token_start: usize,
}

impl<'a> Lexer<'a> {
    /// The characters of the source.
    pub closed spec fn input(&self) -> Seq<char> {
        self.chars@
    }

    /// The position (in characters) of the next character to read.
    pub closed spec fn pos(&self) -> int {
        self.ind as int
    }

    /// Where the token most recently asked for starts.
    pub closed spec fn start_of_token(&self) -> int {
        self.token_start as int
    }

    /// The source borrowed by this lexer.
    pub closed spec fn source(&self) -> &'a str {
        self.s
    }

    /// The lexer's fields agree with one another.
    pub closed spec fn wf(&self) -> bool {
        &&& self.chars@ == self.s@
        &&& self.token_start <= self.ind <= self.chars@.len()
    }

    /// Starts lexing `s` from its first character.
    pub fn new(s: &'a str) -> (r: Self)
        ensures
            r.wf(),
            r.input() == s@,
            r.source() == s,
            r.pos() == 0,
            r.start_of_token() == 0,
    {
        let chars = collect_chars(s);
        Self { s, chars, ind: 0, curr_char: Some('\0'), token_start: 0 }
    }

    /// Reads the next token and reports it with its start and length.
    pub fn get_next_indexed_token(&mut self) -> (r: Option<IndexedToken<'a>>)
        requires
            old(self).wf(),
        ensures
            final(self).wf(),
            final(self).input() == old(self).input(),
            final(self).source() == old(self).source(),
            ({
                let step = lex_step(old(self).input(), old(self).pos());
                &&& final(self).pos() == step.end
                &&& final(self).start_of_token() == step.start
                &&& r.is_some() == step.tok.is_some()
                &&& r matches Some(it) ==> {
                    &&& it.token@ == step.tok.unwrap()
                    &&& it.addr == step.start
                    &&& it.len == step.end - step.start
                }
            }),
    {
        let token = self.get_next_token()?;
        let len = self.ind - self.token_start;
        Some(IndexedToken { token, addr: self.token_start, len })
    }

    /// Reads the next token: white space and comments are skipped, and at the
    /// end of the input the token is `EOF`. `None` reports a lexical error.
    pub fn get_next_token(&mut self) -> (r: Option<Token<'a>>)
        requires
            old(self).wf(),
        ensures
            final(self).wf(),
            final(self).input() == old(self).input(),
            final(self).source() == old(self).source(),
            ({
                let step = lex_step(old(self).input(), old(self).pos());
                &&& final(self).pos() == step.end
                &&& final(self).start_of_token() == step.start
                &&& r.is_some() == step.tok.is_some()
                &&& r matches Some(t) ==> t@ == step.tok.unwrap()
            }),
    {
        let ghost cs = self.chars@;
        let ghost i0 = self.ind as int;
        proof {
            lemma_skip_trivia_bounds(cs, i0);
        }
        loop
            invariant
                self.wf(),
                self.chars@ == cs,
                cs == old(self).chars@,
                i0 == old(self).ind,
                self.s == old(self).s,
                i0 <= self.ind,
                skip_trivia(cs, self.ind as int) == skip_trivia(cs, i0),
            decreases cs.len() - self.ind,
        {
            self.token_start = self.ind;
            proof {
                lemma_skip_trivia_bounds(cs, self.ind as int);
            }
            let next_char = self.get_next_char();
            match next_char {
                None => {
                    return Some(Token::EOF);
                },
                Some(c) => {
                    if char_is_whitespace(c) {
                        continue ;
                    }
                    if c == '/' && self.peek_next_char() == Some('/') {
                        proof {
                            lemma_line_comment_end_bounds(cs, self.ind + 1);
                        }
                        self.pass_inline_comment();
                        continue ;
                    }
                    if c == '/' && self.peek_next_char() == Some('*') {
                        self.get_next_char();
                        proof {
                            lemma_block_comment_end_bounds(cs, self.ind as int);
                        }
                        self.pass_block_comment();
                        continue ;
                    }
                    return self.scan_token(c);
                },
            }
        }
    }

    /// Scans the rest of the token whose first character `c` was just read.
    fn scan_token(&mut self, c: char) -> (r: Option<Token<'a>>)
        requires
            old(self).wf(),
            old(self).ind == old(self).token_start + 1,
            old(self).chars@[old(self).token_start as int] == c,
            !line_comment_at(old(self).chars@, old(self).token_start as int),
            !block_comment_at(old(self).chars@, old(self).token_start as int),
        ensures
            final(self).wf(),
            final(self).chars@ == old(self).chars@,
            final(self).s == old(self).s,
            final(self).token_start == old(self).token_start,
            ({
                let sc = scan_at(old(self).chars@, old(self).token_start as int);
                &&& final(self).ind == sc.end
                &&& r.is_some() == sc.tok.is_some()
                &&& r matches Some(t) ==> t@ == sc.tok.unwrap()
            }),
    {
        let ghost cs = self.chars@;
        let ghost p = self.token_start as int;
        match c {
            '{' => Some(Token::LBrace),
            '}' => Some(Token::RBrace),
            '[' => Some(Token::LBracket),
            ']' => Some(Token::RBracket),
            '(' => Some(Token::LParen),
            ')' => Some(Token::RParen),
            '?' => Some(Token::QuestionMark),
            '@' => Some(Token::At),
            ',' => Some(Token::Comma),
            '~' => Some(Token::Op("~")),
            ';' => Some(Token::Semicolon),
            '.' => {
                let (n1, n2) = self.peek_next_2();
                if n1 == Some('.') && n2 == Some('.') {
                    self.get_next_char();
                    self.get_next_char();
                    Some(Token::Op("..."))
                } else {
                    Some(Token::Dot)
                }
            },
            '^' => {
                if self.peek_next_char() == Some('=') {
                    self.get_next_char();
                    Some(Token::Assignment("^="))
                } else {
                    Some(Token::Op("^"))
                }
            },
            '%' => {
                if self.peek_next_char() == Some('=') {
                    self.get_next_char();
                    Some(Token::Assignment("%="))
                } else {
                    Some(Token::Op("%"))
                }
            },
            '!' => {
                if self.peek_next_char() == Some('=') {
                    self.get_next_char();
                    Some(Token::Op("!="))
                } else {
                    Some(Token::Op("!"))
                }
            },
            ':' => {
                if self.peek_next_char() == Some(':') {
                    self.get_next_char();
                    Some(Token::Op("::"))
                } else {
                    Some(Token::Op(":"))
                }
            },
            '=' => {
                if self.peek_next_char() == Some('=') {
                    self.get_next_char();
                    Some(Token::Op("=="))
                } else {
                    Some(Token::Assignment("="))
                }
            },
            '+' => {
                let n = self.peek_next_char();
                if n == Some('=') {
                    self.get_next_char();
                    Some(Token::Assignment("+="))
                } else if n == Some('+') {
                    self.get_next_char();
                    Some(Token::Op("++"))
                } else {
                    Some(Token::Op("+"))
                }
            },
            '-' => {
                let n = self.peek_next_char();
                if n == Some('=') {
                    self.get_next_char();
                    Some(Token::Assignment("-="))
                } else if n == Some('-') {
                    self.get_next_char();
                    Some(Token::Op("--"))
                } else {
                    Some(Token::Op("-"))
                }
            },
            '*' => {
                if self.peek_next_char() == Some('=') {
                    self.get_next_char();
                    Some(Token::Assignment("*="))
                } else {
                    Some(Token::Op("*"))
                }
            },
            '/' => {
                if self.peek_next_char() == Some('=') {
                    self.get_next_char();
                    Some(Token::Assignment("/="))
                } else {
                    Some(Token::Op("/"))
                }
            },
            '&' => {
                let n = self.peek_next_char();
                if n == Some('=') {
                    self.get_next_char();
                    Some(Token::Assignment("&="))
                } else if n == Some('&') {
                    self.get_next_char();
                    Some(Token::Op("&&"))
                } else {
                    Some(Token::Op("&"))
                }
            },
            '|' => {
                let n = self.peek_next_char();
                if n == Some('=') {
                    self.get_next_char();
                    Some(Token::Assignment("|="))
                } else if n == Some('|') {
                    self.get_next_char();
                    Some(Token::Op("||"))
                } else {
                    Some(Token::Op("|"))
                }
            },
            '>' => {
                let (n1, n2, n3) = self.peek_next_3();
                if n1 == Some('>') && n2 == Some('>') && n3 == Some('=') {
                    self.get_next_char();
                    self.get_next_char();
                    self.get_next_char();
                    Some(Token::Assignment(">>>="))
                } else if n1 == Some('>') && n2 == Some('>') {
                    self.get_next_char();
                    self.get_next_char();
                    Some(Token::Op(">>>"))
                } else if n1 == Some('>') && n2 == Some('=') {
                    self.get_next_char();
                    self.get_next_char();
                    Some(Token::Assignment(">>="))
                } else if n1 == Some('>') {
                    self.get_next_char();
                    Some(Token::Op(">>"))
                } else if n1 == Some('=') {
                    self.get_next_char();
                    Some(Token::Op(">="))
                } else {
                    Some(Token::GreaterThan)
                }
            },
            '<' => {
                let (n1, n2) = self.peek_next_2();
                if n1 == Some('<') && n2 == Some('=') {
                    self.get_next_char();
                    self.get_next_char();
                    Some(Token::Assignment("<<="))
                } else if n1 == Some('<') {
                    self.get_next_char();
                    Some(Token::Op("<<"))
                } else if n1 == Some('=') {
                    self.get_next_char();
                    Some(Token::Op("<="))
                } else {
                    Some(Token::LessThan)
                }
            },
            '\'' => self.get_char_literal(),
            '"' => self.get_string_literal(),
            _ => {
                if char_is_alphanumeric(c) {
                    let start = self.token_start;
                    self.get_identifier_chain();
                    let end = self.ind;
                    let word = self.s.substring_char(start, end);
                    proof {
                        lemma_word_end_bounds(cs, p + 1);
                        assert(start as int == p);
                        assert(end as int >= p + 1);
                        assert(cs[p] == c);
                        assert(cs.subrange(start as int, end as int)[0] == c);
                    }
                    if ('0' <= c && c <= '9') || chars_eq_str(&self.chars, start, end, "true") || chars_eq_str(
                        &self.chars,
                        start,
                        end,
                        "false",
                    ) {
                        Some(Token::Literal(word))
                    } else if self.is_keyword_at(start, end) {
                        Some(Token::Keyword(word))
                    } else {
                        Some(Token::Identifier(word))
                    }
                } else {
                    None
                }
            },
        }
    }

    /// Whether the characters `start..end` spell a keyword.
    fn is_keyword_at(&self, start: usize, end: usize) -> (r: bool)
        requires
            start <= end <= self.chars@.len(),
        ensures
            r == is_keyword(self.chars@.subrange(start as int, end as int)),
    {
        let cs = &self.chars;
        chars_eq_str(cs, start, end, "abstract") || chars_eq_str(cs, start, end, "class")
            || chars_eq_str(cs, start, end, "const") || chars_eq_str(cs, start, end, "default")
            || chars_eq_str(cs, start, end, "enum") || chars_eq_str(cs, start, end, "extends")
            || chars_eq_str(cs, start, end, "final") || chars_eq_str(cs, start, end, "implements")
            || chars_eq_str(cs, start, end, "import") || chars_eq_str(cs, start, end, "interface")
            || chars_eq_str(cs, start, end, "package") || chars_eq_str(cs, start, end, "public")
            || chars_eq_str(cs, start, end, "private") || chars_eq_str(cs, start, end, "static")
            || chars_eq_str(cs, start, end, "synchronized") || chars_eq_str(
            cs,
            start,
            end,
            "transient",
        ) || chars_eq_str(cs, start, end, "return") || chars_eq_str(cs, start, end, "void")
            || chars_eq_str(cs, start, end, "if") || chars_eq_str(cs, start, end, "else")
            || chars_eq_str(cs, start, end, "while") || chars_eq_str(cs, start, end, "for")
            || chars_eq_str(cs, start, end, "new") || chars_eq_str(cs, start, end, "this")
            || chars_eq_str(cs, start, end, "super") || chars_eq_str(cs, start, end, "break")
            || chars_eq_str(cs, start, end, "continue") || chars_eq_str(cs, start, end, "case")
            || chars_eq_str(cs, start, end, "try") || chars_eq_str(cs, start, end, "catch")
            || chars_eq_str(cs, start, end, "do") || chars_eq_str(cs, start, end, "finally")
            || chars_eq_str(cs, start, end, "instanceof") || chars_eq_str(cs, start, end, "native")
            || chars_eq_str(cs, start, end, "protected") || chars_eq_str(cs, start, end, "switch")
            || chars_eq_str(cs, start, end, "throw") || chars_eq_str(cs, start, end, "throws")
            || chars_eq_str(cs, start, end, "volatile") || chars_eq_str(cs, start, end, "sealed")
            || chars_eq_str(cs, start, end, "permits") || chars_eq_str(cs, start, end, "strictfp")
    }

    /// Reads the rest of a word whose first character was just read.
    fn get_identifier_chain(&mut self)
        requires
            old(self).wf(),
            old(self).ind >= 1,
        ensures
            final(self).wf(),
            final(self).chars@ == old(self).chars@,
            final(self).s == old(self).s,
            final(self).token_start == old(self).token_start,
            final(self).ind == word_end(old(self).chars@, old(self).ind as int),
    {
        let ghost cs = self.chars@;
        let ghost j0 = self.ind as int;
        proof {
            lemma_word_end_bounds(cs, j0);
        }
        while self.ind < self.chars.len() && (char_is_alphanumeric(self.chars[self.ind])
            || self.chars[self.ind] == '_' || self.chars[self.ind] == '$')
            invariant
                self.wf(),
                self.chars@ == cs,
                cs == old(self).chars@,
                j0 == old(self).ind,
                self.s == old(self).s,
                self.token_start == old(self).token_start,
                j0 <= self.ind <= cs.len(),
                word_end(cs, self.ind as int) == word_end(cs, j0),
            decreases cs.len() - self.ind,
        {
            self.ind = self.ind + 1;
        }
    }

    /// Reads the rest of a character literal whose opening quote was just
    /// read. `None` if the literal is not closed.
    pub fn get_char_literal(&mut self) -> (r: Option<Token<'a>>)
        requires
            old(self).wf(),
            old(self).pos() >= 1,
        ensures
            final(self).wf(),
            final(self).input() == old(self).input(),
            final(self).source() == old(self).source(),
            final(self).start_of_token() == old(self).start_of_token(),
            ({
                let cs = old(self).input();
                let open = old(self).pos() - 1;
                match quoted_end(cs, old(self).pos(), '\'') {
                    Some(e) => final(self).pos() == e && r.is_some()
                        && r.unwrap()@ == TokenView::Literal(cs.subrange(open, e)),
                    None => final(self).pos() == cs.len() && r.is_none(),
                }
            }),
    {
        self.quoted_literal('\'')
    }

    /// Reads the rest of a string literal whose opening quote was just read.
    /// `None` if the literal is not closed.
    pub fn get_string_literal(&mut self) -> (r: Option<Token<'a>>)
        requires
            old(self).wf(),
            old(self).pos() >= 1,
        ensures
            final(self).wf(),
            final(self).input() == old(self).input(),
            final(self).source() == old(self).source(),
            final(self).start_of_token() == old(self).start_of_token(),
            ({
                let cs = old(self).input();
                let open = old(self).pos() - 1;
                match quoted_end(cs, old(self).pos(), '"') {
                    Some(e) => final(self).pos() == e && r.is_some()
                        && r.unwrap()@ == TokenView::Literal(cs.subrange(open, e)),
                    None => final(self).pos() == cs.len() && r.is_none(),
                }
            }),
    {
        self.quoted_literal('"')
    }

    fn quoted_literal(&mut self, quote: char) -> (r: Option<Token<'a>>)
        requires
            old(self).wf(),
            old(self).ind >= 1,
        ensures
            final(self).wf(),
            final(self).chars@ == old(self).chars@,
            final(self).s == old(self).s,
            final(self).token_start == old(self).token_start,
            ({
                let cs = old(self).chars@;
                let open = old(self).ind - 1;
                match quoted_end(cs, old(self).ind as int, quote) {
                    Some(e) => final(self).ind == e && r.is_some()
                        && r.unwrap()@ == TokenView::Literal(cs.subrange(open, e)),
                    None => final(self).ind == cs.len() && r.is_none(),
                }
            }),
    {
        let ghost cs = self.chars@;
        let ghost j0 = self.ind as int;
        let start_index = self.ind - 1;
        let n = self.chars.len();
        loop
            invariant
                self.wf(),
                self.chars@ == cs,
                cs == old(self).chars@,
                j0 == old(self).ind,
                n == cs.len(),
                self.s == old(self).s,
                self.token_start == old(self).token_start,
                j0 <= self.ind <= n,
                start_index == j0 - 1,
                quoted_end(cs, self.ind as int, quote) == quoted_end(cs, j0, quote),
            decreases n - self.ind,
        {
            if self.ind >= n {
                return None;
            }
            let c = self.chars[self.ind];
            self.ind = self.ind + 1;
            if c == '\\' {
                if self.ind >= n {
                    return None;
                }
                self.ind = self.ind + 1;
            } else if c == quote {
                let lit = self.s.substring_char(start_index, self.ind);
                return Some(Token::Literal(lit));
            }
        }
    }

    /// Skips the rest of a `//` comment whose first `/` was just read.
    fn pass_inline_comment(&mut self)
        requires
            old(self).wf(),
        ensures
            final(self).wf(),
            final(self).chars@ == old(self).chars@,
            final(self).s == old(self).s,
            final(self).token_start == old(self).token_start,
            final(self).ind == line_comment_end(old(self).chars@, old(self).ind as int),
    {
        let ghost cs = self.chars@;
        let ghost j0 = self.ind as int;
        let mut c = self.get_next_char();
        while c.is_some() && c != Some('\n')
            invariant
                self.wf(),
                self.chars@ == cs,
                cs == old(self).chars@,
                j0 == old(self).ind,
                self.s == old(self).s,
                self.token_start == old(self).token_start,
                j0 <= self.ind,
                c.is_none() ==> self.ind == cs.len() && line_comment_end(cs, j0) == cs.len(),
                c == Some('\n') ==> line_comment_end(cs, j0) == self.ind,
                (c.is_some() && c != Some('\n')) ==> line_comment_end(cs, self.ind as int)
                    == line_comment_end(cs, j0),
            decreases cs.len() - self.ind + (if c.is_some() { 1int } else { 0int }),
        {
            c = self.get_next_char();
        }
    }

    /// Skips the rest of a `/*` comment whose `/*` was just read.
    fn pass_block_comment(&mut self)
        requires
            old(self).wf(),
        ensures
            final(self).wf(),
            final(self).chars@ == old(self).chars@,
            final(self).s == old(self).s,
            final(self).token_start == old(self).token_start,
            final(self).ind == block_comment_end(old(self).chars@, old(self).ind as int),
    {
        let ghost cs = self.chars@;
        let ghost j0 = self.ind as int;
        loop
            invariant
                self.wf(),
                self.chars@ == cs,
                cs == old(self).chars@,
                j0 == old(self).ind,
                self.s == old(self).s,
                self.token_start == old(self).token_start,
                j0 <= self.ind,
                block_comment_end(cs, self.ind as int) == block_comment_end(cs, j0),
            decreases cs.len() - self.ind,
        {
            let c = self.get_next_char();
            let n = self.peek_next_char();
            if c.is_none() || n.is_none() {
                return ;
            }
            if c == Some('*') && n == Some('/') {
                self.get_next_char();
                return ;
            }
        }
    }

    /// Reads one character, if any is left.
    pub fn get_next_char(&mut self) -> (r: Option<char>)
        requires
            old(self).wf(),
        ensures
            final(self).wf(),
            final(self).input() == old(self).input(),
            final(self).source() == old(self).source(),
            final(self).start_of_token() == old(self).start_of_token(),
            r == char_at(old(self).input(), old(self).pos()),
            final(self).pos() == if r.is_some() {
                old(self).pos() + 1
            } else {
                old(self).pos()
            },
    {
        if self.ind < self.chars.len() {
            let c = self.chars[self.ind];
            self.curr_char = Some(c);
            self.ind = self.ind + 1;
        } else {
            self.curr_char = None;
        }
        self.curr_char
    }

    fn peek_next_char(&self) -> (r: Option<char>)
        ensures
            r == char_at(self.chars@, self.ind as int),
    {
        if self.ind < self.chars.len() {
            Some(self.chars[self.ind])
        } else {
            None
        }
    }

    fn peek_at(&self, k: usize) -> (r: Option<char>)
        ensures
            r == char_at(self.chars@, self.ind + k),
    {
        if self.ind < self.chars.len() && k < self.chars.len() - self.ind {
            Some(self.chars[self.ind + k])
        } else {
            None
        }
    }

    fn peek_next_2(&self) -> (r: (Option<char>, Option<char>))
        ensures
            r == (char_at(self.chars@, self.ind as int), char_at(self.chars@, self.ind + 1)),
    {
        (self.peek_at(0), self.peek_at(1))
    }

    fn peek_next_3(&self) -> (r: (Option<char>, Option<char>, Option<char>))
        ensures
            r == (
                char_at(self.chars@, self.ind as int),
                char_at(self.chars@, self.ind + 1),
                char_at(self.chars@, self.ind + 2),
            ),
    {
        (self.peek_at(0), self.peek_at(1), self.peek_at(2))
    }
}

} // verus!
