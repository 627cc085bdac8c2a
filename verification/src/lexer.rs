//! A lazy tokenizer for the small function language.
//!
//! The grammar of tokens is stated once, as the ghost function [`first_token`]
//! over a sequence of characters; [`TokenStream::next`] and [`lex`] are proved
//! to compute exactly that.

use vstd::prelude::*;

verus! {

/// Why a stream of tokens is not a program.
pub enum ParseError {
    Null,
}

/// The kinds of tokens.
#[derive(Debug, PartialEq, Eq, Clone, Copy)]
#[non_exhaustive]
pub enum TokenType {
    LCurly,
    RCurly,
    LParen,
    RParen,
    Colon,
    Sep,
    Comma,
    LitNum,
    LitId,
    LitStr,
    KLet,
    KRet,
    KFn,
    KMatch,
    SymEq,
    SymAdd,
    SymSub,
    Unknown,
    EOF,
}

/// A token: its kind and the slice of the source text it covers.
#[derive(Debug, PartialEq)]
pub struct Token<'a> {
    pub kind: TokenType,
    pub source: &'a str,
}

impl<'a> Token<'a> {
    /// The kind of the token and the characters it covers.
    pub open spec fn view(&self) -> (TokenType, Seq<char>) {
        (self.kind, self.source@)
    }
}

impl TokenType {
    /// Attaches a kind to the text it was read from.
    pub fn on<'a>(self, source: &'a str) -> (t: Token<'a>)
        ensures
            t.kind == self,
            t.source@ == source@,
    {
        Token { kind: self, source }
    }
}

/// The sets of characters that continue a token once it has started.
#[derive(Debug, PartialEq, Eq, Clone, Copy)]
pub enum CharClass {
    /// Digits and `_`: the body of a number.
    Numeric,
    /// Letters and `_`: the body of a word.
    Word,
    /// Space, tab and carriage return.
    Blank,
    /// Everything but `"`: the inside of a string literal.
    Quoted,
}

pub open spec fn is_digit(c: char) -> bool {
    '0' <= c <= '9'
}

pub open spec fn is_letter(c: char) -> bool {
    ('a' <= c <= 'z') || ('A' <= c <= 'Z')
}

pub open spec fn is_blank(c: char) -> bool {
    c == ' ' || c == '\t' || c == '\r'
}

/// A comma or a line break: both end a statement.
pub open spec fn is_break(c: char) -> bool {
    c == ',' || c == '\n'
}

impl CharClass {
    /// Whether `c` belongs to the class.
    pub open spec fn holds(self, c: char) -> bool {
        match self {
            CharClass::Numeric => is_digit(c) || c == '_',
            CharClass::Word => is_letter(c) || c == '_',
            CharClass::Blank => is_blank(c),
            CharClass::Quoted => c != '"',
        }
    }

    pub fn contains(self, c: char) -> (b: bool)
        ensures
            b == self.holds(c),
    {
        match self {
            CharClass::Numeric => (c >= '0' && c <= '9') || c == '_',
            CharClass::Word => (c >= 'a' && c <= 'z') || (c >= 'A' && c <= 'Z') || c == '_',
            CharClass::Blank => c == ' ' || c == '\t' || c == '\r',
            CharClass::Quoted => c != '"',
        }
    }
}

/// Where the longest run of `class` characters that starts at `from` ends.
pub open spec fn run_end(s: Seq<char>, from: int, class: CharClass) -> int
    decreases s.len() - from,
{
    if 0 <= from < s.len() && class.holds(s[from]) {
        run_end(s, from + 1, class)
    } else {
        from
    }
}

/// What a word means: one of the keywords, or an identifier.
pub open spec fn word_kind(w: Seq<char>) -> TokenType {
    if w =~= seq!['f', 'n'] {
        TokenType::KFn
    } else if w =~= seq!['l', 'e', 't'] {
        TokenType::KLet
    } else if w =~= seq!['r', 'e', 't', 'u', 'r', 'n'] {
        TokenType::KRet
    } else {
        TokenType::LitId
    }
}

/// Where a number that starts at index 0 ends: digits, at most one `.`, digits.
pub open spec fn number_end(s: Seq<char>) -> int {
    let whole = run_end(s, 1, CharClass::Numeric);
    let dot = if whole < s.len() && s[whole] == '.' {
        whole + 1
    } else {
        whole
    };
    run_end(s, dot, CharClass::Numeric)
}

/// The kind and the length of the token at the start of `s`, which is not empty.
pub open spec fn first_token(s: Seq<char>) -> (TokenType, int) {
    let c = s[0];
    if c == '{' {
        (TokenType::LCurly, 1)
    } else if c == '}' {
        (TokenType::RCurly, 1)
    } else if c == '(' {
        (TokenType::LParen, 1)
    } else if c == ')' {
        (TokenType::RParen, 1)
    } else if c == ':' {
        (TokenType::Colon, 1)
    } else if is_digit(c) {
        (TokenType::LitNum, number_end(s))
    } else if c == '"' {
        let body = run_end(s, 1, CharClass::Quoted);
        if body < s.len() {
            (TokenType::LitStr, body + 1)
        } else {
            (TokenType::Unknown, body)
        }
    } else if is_letter(c) {
        let end = run_end(s, 1, CharClass::Word);
        (word_kind(s.take(end)), end)
    } else if is_break(c) {
        (TokenType::Comma, run_end(s, 1, CharClass::Blank))
    } else if is_blank(c) {
        (TokenType::Sep, run_end(s, 1, CharClass::Blank))
    } else {
        (TokenType::Unknown, 1)
    }
}

/// The tokens of `s`, in order, each with the characters it covers.
pub open spec fn tokens_of(s: Seq<char>) -> Seq<(TokenType, Seq<char>)>
    decreases s.len(),
{
    if s.len() == 0 {
        Seq::empty()
    } else {
        let (kind, len) = first_token(s);
        proof {
            lemma_first_token_len(s);
        }
        seq![(kind, s.take(len))] + tokens_of(s.skip(len))
    }
}

/// The views of a vector of tokens.
pub open spec fn views<'a>(tokens: Seq<Token<'a>>) -> Seq<(TokenType, Seq<char>)> {
    tokens.map_values(|t: Token<'a>| t@)
}

/// A run starts where it is asked to, stays inside the text, holds only
/// characters of its class, and cannot be made longer.
pub proof fn lemma_run_end(s: Seq<char>, from: int, class: CharClass)
    requires
        0 <= from <= s.len(),
    ensures
        from <= run_end(s, from, class) <= s.len(),
        forall|i: int| from <= i < run_end(s, from, class) ==> class.holds(#[trigger] s[i]),
        run_end(s, from, class) < s.len() ==> !class.holds(s[run_end(s, from, class)]),
    decreases s.len() - from,
{
    if from < s.len() && class.holds(s[from]) {
        lemma_run_end(s, from + 1, class);
    }
}

/// Every token covers at least one character and none beyond the text.
pub proof fn lemma_first_token_len(s: Seq<char>)
    requires
        s.len() > 0,
    ensures
        1 <= first_token(s).1 <= s.len(),
{
    lemma_run_end(s, 1, CharClass::Numeric);
    lemma_run_end(s, 1, CharClass::Word);
    lemma_run_end(s, 1, CharClass::Blank);
    lemma_run_end(s, 1, CharClass::Quoted);
    let whole = run_end(s, 1, CharClass::Numeric);
    if whole < s.len() {
        lemma_run_end(s, whole + 1, CharClass::Numeric);
    }
    lemma_run_end(s, whole, CharClass::Numeric);
}

/// The tokens of a text cover it: joined in order they give the text back.
pub proof fn lemma_tokens_cover(s: Seq<char>)
    ensures
        joined(tokens_of(s)) =~= s,
    decreases s.len(),
{
    if s.len() > 0 {
        lemma_first_token_len(s);
        let len = first_token(s).1;
        lemma_tokens_cover(s.skip(len));
        let head = seq![(first_token(s).0, s.take(len))];
        let tail = tokens_of(s.skip(len));
        assert((head + tail).drop_first() =~= tail);
    }
}

/// The texts of a sequence of tokens, one after the other.
pub open spec fn joined(tokens: Seq<(TokenType, Seq<char>)>) -> Seq<char>
    decreases tokens.len(),
{
    if tokens.len() == 0 {
        Seq::empty()
    } else {
        tokens[0].1 + joined(tokens.drop_first())
    }
}

/// The tokens of a text, read one at a time from its front.
pub struct TokenStream<'a> {
    rest: &'a str,
}

/// Scans `text` from `from` to the end of the run of `class` characters there.
fn scan(text: &str, len: usize, from: usize, class: CharClass) -> (end: usize)
    requires
        len == text@.len(),
        from <= len,
    ensures
        end == run_end(text@, from as int, class),
        from <= end <= len,
{
    let mut at: usize = from;
    while at < len && class.contains(text.get_char(at))
        invariant
            len == text@.len(),
            from <= at <= len,
            run_end(text@, from as int, class) == run_end(text@, at as int, class),
        decreases len - at,
    {
        at = at + 1;
    }
    at
}

/// Tells a keyword from an identifier.
fn classify_word(word: &str) -> (kind: TokenType)
    ensures
        kind == word_kind(word@),
{
    let len: usize = word.unicode_len();
    if len == 2 && word.get_char(0) == 'f' && word.get_char(1) == 'n' {
        TokenType::KFn
    } else if len == 3 && word.get_char(0) == 'l' && word.get_char(1) == 'e' && word.get_char(2)
        == 't' {
        TokenType::KLet
    } else if len == 6 && word.get_char(0) == 'r' && word.get_char(1) == 'e' && word.get_char(2)
        == 't' && word.get_char(3) == 'u' && word.get_char(4) == 'r' && word.get_char(5) == 'n' {
        TokenType::KRet
    } else {
        TokenType::LitId
    }
}

impl<'a> TokenStream<'a> {
    /// The characters that have not been read yet.
    pub closed spec fn view(&self) -> Seq<char> {
        self.rest@
    }

    /// A stream over the whole of `source`.
    pub fn new(source: &'a str) -> (stream: Self)
        ensures
            stream@ == source@,
    {
        TokenStream { rest: source }
    }

    /// Reads the next token, or `None` at the end of the text.
    pub fn next(&mut self) -> (token: Option<Token<'a>>)
        ensures
            old(self)@.len() == 0 ==> token is None && final(self)@ == old(self)@,
            old(self)@.len() > 0 ==> token is Some && token->0@ == (
                first_token(old(self)@).0,
                old(self)@.take(first_token(old(self)@).1),
            ) && final(self)@ == old(self)@.skip(first_token(old(self)@).1),
    {
        let text: &'a str = self.rest;
        let len: usize = text.unicode_len();
        if len == 0 {
            return None;
        }
        proof {
            lemma_first_token_len(text@);
        }
        let c: char = text.get_char(0);
        let mut kind: TokenType = TokenType::Unknown;
        let mut end: usize = 1;
        if c == '{' {
            kind = TokenType::LCurly;
        } else if c == '}' {
            kind = TokenType::RCurly;
        } else if c == '(' {
            kind = TokenType::LParen;
        } else if c == ')' {
            kind = TokenType::RParen;
        } else if c == ':' {
            kind = TokenType::Colon;
        } else if c >= '0' && c <= '9' {
            let whole: usize = scan(text, len, 1, CharClass::Numeric);
            let dot: usize = if whole < len && text.get_char(whole) == '.' {
                whole + 1
            } else {
                whole
            };
            end = scan(text, len, dot, CharClass::Numeric);
            kind = TokenType::LitNum;
        } else if c == '"' {
            let body: usize = scan(text, len, 1, CharClass::Quoted);
            if body < len {
                end = body + 1;
                kind = TokenType::LitStr;
            } else {
                end = body;
            }
        } else if (c >= 'a' && c <= 'z') || (c >= 'A' && c <= 'Z') {
            end = scan(text, len, 1, CharClass::Word);
            kind = classify_word(text.substring_char(0, end));
        } else if c == ',' || c == '\n' {
            end = scan(text, len, 1, CharClass::Blank);
            kind = TokenType::Comma;
        } else if c == ' ' || c == '\t' || c == '\r' {
            end = scan(text, len, 1, CharClass::Blank);
            kind = TokenType::Sep;
        }
        let source: &'a str = text.substring_char(0, end);
        self.rest = text.substring_char(end, len);
        Some(kind.on(source))
    }

    /// Reads the stream to its end.
    pub fn collect(self) -> (tokens: Vec<Token<'a>>)
        ensures
            views(tokens@) == tokens_of(self@),
    {
        let mut stream = self;
        let mut tokens: Vec<Token<'a>> = Vec::new();
        let mut left: usize = stream.rest.unicode_len();
        while left > 0
            invariant
                left == stream@.len(),
                views(tokens@) + tokens_of(stream@) == tokens_of(self@),
            decreases left,
        {
            let ghost before = stream@;
            let ghost read = tokens@;
            proof {
                lemma_first_token_len(before);
            }
            let token = stream.next();
            match token {
                Some(t) => {
                    tokens.push(t);
                    proof {
                        let head = seq![t@];
                        assert(views(tokens@) =~= views(read) + head);
                        assert(tokens_of(before) == head + tokens_of(stream@));
                        assert(views(tokens@) + tokens_of(stream@) =~= views(read) + tokens_of(
                            before,
                        ));
                    }
                },
                None => {},
            }
            left = stream.rest.unicode_len();
        }
        assert(views(tokens@) + tokens_of(stream@) =~= views(tokens@));
        tokens
    }
}

/// All tokens of `source`, closed by an end-of-input token over no text.
pub fn lex<'a>(source: &'a str) -> (tokens: Vec<Token<'a>>)
    ensures
        views(tokens@) == tokens_of(source@).push((TokenType::EOF, Seq::<char>::empty())),
{
    let mut tokens = TokenStream::new(source).collect();
    let ghost read = tokens@;
    let len: usize = source.unicode_len();
    let end = TokenType::EOF.on(source.substring_char(len, len));
    tokens.push(end);
    assert(views(tokens@) =~= views(read).push(end@));
    assert(end@.1 =~= Seq::<char>::empty());
    tokens
}

/// Takes a stream of tokens; the grammar above it is not defined yet, so
/// nothing is built from them.
pub fn parse<'a>(toks: TokenStream<'a>) {
}

} // verus!
