//! The lexer of the lambda calculus language: it turns source text into the
//! token sequence the parser consumes, skipping blanks, line comments and
//! unrecognized characters.

use vstd::prelude::*;
use vstd::string::StrSliceExecFns;

verus! {

/// Tokens types for the lambda calculus language.
#[derive(Debug, PartialEq)]
pub enum TokenType {
    /// The dot character `.`
    Dot,
    /// The lambda character `\`
    Lambda,
    /// The left parenthesis `(`
    LParen,
    /// The right parenthesis `)`
    RParen,
    /// The `let` keyword
    Let,
    /// The `eval` keyword
    Eval,
    /// The equals sign `=`
    Equals,
    /// An identifier (variable name)
    Identifier(String),
    /// A new line character
    NewLine,
}

/// The model of a token type.
pub enum SpecTokenType {
    /// The dot character.
    Dot,
    /// The lambda character.
    Lambda,
    /// The left parenthesis.
    LParen,
    /// The right parenthesis.
    RParen,
    /// The `let` keyword.
    Let,
    /// The `eval` keyword.
    Eval,
    /// The equals sign.
    Equals,
    /// An identifier and its spelling.
    Identifier(Seq<char>),
    /// A line break.
    NewLine,
}

impl View for TokenType {
    type V = SpecTokenType;

    open spec fn view(&self) -> SpecTokenType {
        match self {
            TokenType::Dot => SpecTokenType::Dot,
            TokenType::Lambda => SpecTokenType::Lambda,
            TokenType::LParen => SpecTokenType::LParen,
            TokenType::RParen => SpecTokenType::RParen,
            TokenType::Let => SpecTokenType::Let,
            TokenType::Eval => SpecTokenType::Eval,
            TokenType::Equals => SpecTokenType::Equals,
            TokenType::Identifier(name) => SpecTokenType::Identifier(name@),
            TokenType::NewLine => SpecTokenType::NewLine,
        }
    }
}

/// A token with its type and span in the source code, as character indices.
#[derive(Debug)]
pub struct Token {
    /// The type of the token
    pub token_type: TokenType,
    /// The span (start and end indices) of the token in the source code
    pub span: (usize, usize),
}

/// The model of a token: its kind and the character range it covers.
pub struct SpecToken {
    /// The kind of the token.
    pub kind: SpecTokenType,
    /// The index of its first character.
    pub start: int,
    /// The index just past its last character.
    pub end: int,
}

impl View for Token {
    type V = SpecToken;

    open spec fn view(&self) -> SpecToken {
        SpecToken { kind: self.token_type@, start: self.span.0 as int, end: self.span.1 as int }
    }
}

/// The models of a vector of tokens.
pub open spec fn token_views(s: Seq<Token>) -> Seq<SpecToken> {
    s.map_values(|t: Token| t@)
}

impl Clone for TokenType {
    fn clone(&self) -> (r: Self)
        ensures
            r@ == self@,
    {
        match self {
            TokenType::Dot => TokenType::Dot,
            TokenType::Lambda => TokenType::Lambda,
            TokenType::LParen => TokenType::LParen,
            TokenType::RParen => TokenType::RParen,
            TokenType::Let => TokenType::Let,
            TokenType::Eval => TokenType::Eval,
            TokenType::Equals => TokenType::Equals,
            TokenType::Identifier(name) => TokenType::Identifier(name.clone()),
            TokenType::NewLine => TokenType::NewLine,
        }
    }
}

impl Clone for Token {
    fn clone(&self) -> (r: Self)
        ensures
            r@ == self@,
    {
        Token { token_type: self.token_type.clone(), span: (self.span.0, self.span.1) }
    }
}

/// The textual description of a token type, as diagnostics print it.
pub open spec fn spec_describe(t: SpecTokenType) -> Seq<char> {
    match t {
        SpecTokenType::Dot => "dot (.)"@,
        SpecTokenType::Lambda => "lambda (\\)"@,
        SpecTokenType::LParen => "left parenthesis '('"@,
        SpecTokenType::RParen => "right parenthesis ')'"@,
        SpecTokenType::Let => "let"@,
        SpecTokenType::Eval => "eval"@,
        SpecTokenType::Equals => "equals"@,
        SpecTokenType::Identifier(name) => "identifier ("@ + name + ")"@,
        SpecTokenType::NewLine => "newline"@,
    }
}

impl TokenType {
    /// The description of this token type, for diagnostics.
    pub fn describe(&self) -> (r: String)
        ensures
            r@ == spec_describe(self@),
    {
        match self {
            TokenType::Dot => "dot (.)".to_owned(),
            TokenType::Lambda => "lambda (\\)".to_owned(),
            TokenType::LParen => "left parenthesis '('".to_owned(),
            TokenType::RParen => "right parenthesis ')'".to_owned(),
            TokenType::Let => "let".to_owned(),
            TokenType::Eval => "eval".to_owned(),
            TokenType::Equals => "equals".to_owned(),
            TokenType::Identifier(name) => {
                let mut s: String = "identifier (".to_owned();
                s.append(name.as_str());
                s.append(")");
                s
            },
            TokenType::NewLine => "newline".to_owned(),
        }
    }
}

/// Whether a character can begin an identifier: a letter or an underscore.
pub open spec fn is_ident_start(c: char) -> bool {
    ||| ('a' as u32) <= (c as u32) && (c as u32) <= ('z' as u32)
    ||| ('A' as u32) <= (c as u32) && (c as u32) <= ('Z' as u32)
    ||| c == '_'
}

/// Whether a character can continue an identifier: a letter, a digit or an
/// underscore.
pub open spec fn is_ident_continue(c: char) -> bool {
    ||| is_ident_start(c)
    ||| ('0' as u32) <= (c as u32) && (c as u32) <= ('9' as u32)
}

/// Whether a character is skipped blank space: space, tab or form feed.
pub open spec fn is_blank(c: char) -> bool {
    c == ' ' || c == '\t' || c == '\u{c}'
}

/// The single-character tokens.
pub open spec fn single_token(c: char) -> Option<SpecTokenType> {
    if c == '.' {
        Some(SpecTokenType::Dot)
    } else if c == '\\' {
        Some(SpecTokenType::Lambda)
    } else if c == '(' {
        Some(SpecTokenType::LParen)
    } else if c == ')' {
        Some(SpecTokenType::RParen)
    } else if c == '=' {
        Some(SpecTokenType::Equals)
    } else if c == '\n' {
        Some(SpecTokenType::NewLine)
    } else {
        None
    }
}

/// The first position at or after `i` that does not continue an identifier.
pub open spec fn ident_end(s: Seq<char>, i: int) -> int
    decreases s.len() - i when 0 <= i <= s.len()
{
    if i >= s.len() {
        i
    } else if is_ident_continue(s[i]) {
        ident_end(s, i + 1)
    } else {
        i
    }
}

/// The first position at or after `i` past a line comment's text: the next
/// newline, or the end.
pub open spec fn comment_end(s: Seq<char>, i: int) -> int
    decreases s.len() - i when 0 <= i <= s.len()
{
    if i >= s.len() {
        i
    } else if s[i] == '\n' {
        i
    } else {
        comment_end(s, i + 1)
    }
}

/// Where an identifier scan ends up.
pub proof fn lemma_ident_end_bounds(s: Seq<char>, i: int)
    requires
        0 <= i <= s.len(),
    ensures
        i <= ident_end(s, i) <= s.len(),
    decreases s.len() - i,
{
    if i < s.len() && is_ident_continue(s[i]) {
        lemma_ident_end_bounds(s, i + 1);
    }
}

/// Where a comment scan ends up.
pub proof fn lemma_comment_end_bounds(s: Seq<char>, i: int)
    requires
        0 <= i <= s.len(),
    ensures
        i <= comment_end(s, i) <= s.len(),
    decreases s.len() - i,
{
    if i < s.len() && s[i] != '\n' {
        lemma_comment_end_bounds(s, i + 1);
    }
}

/// The token an identifier's spelling denotes: the two keywords are
/// recognized, everything else names a variable.
pub open spec fn ident_token(name: Seq<char>) -> SpecTokenType {
    if name == seq!['l', 'e', 't'] {
        SpecTokenType::Let
    } else if name == seq!['e', 'v', 'a', 'l'] {
        SpecTokenType::Eval
    } else {
        SpecTokenType::Identifier(name)
    }
}

/// The tokens of the text from position `i` on: blanks, line comments and
/// unrecognized characters are skipped, identifiers take the longest run of
/// identifier characters, and `let` and `eval` are keywords.
pub open spec fn spec_tokenize_from(s: Seq<char>, i: int) -> Seq<SpecToken>
    decreases s.len() - i when 0 <= i <= s.len()
    via spec_tokenize_from_decreases
{
    if i >= s.len() {
        Seq::empty()
    } else {
        let c = s[i];
        if is_blank(c) {
            spec_tokenize_from(s, i + 1)
        } else if c == '/' && i + 1 < s.len() && s[i + 1] == '/' {
            spec_tokenize_from(s, comment_end(s, i + 2))
        } else if is_ident_start(c) {
            let j = ident_end(s, i + 1);
            seq![SpecToken { kind: ident_token(s.subrange(i, j)), start: i, end: j }]
                + spec_tokenize_from(s, j)
        } else {
            match single_token(c) {
                Some(kind) => seq![SpecToken { kind: kind, start: i, end: i + 1 }]
                    + spec_tokenize_from(s, i + 1),
                None => spec_tokenize_from(s, i + 1),
            }
        }
    }
}

#[via_fn]
proof fn spec_tokenize_from_decreases(s: Seq<char>, i: int) {
    if 0 <= i && i < s.len() {
        if s[i] == '/' && i + 1 < s.len() && s[i + 1] == '/' {
            lemma_comment_end_bounds(s, i + 2);
        }
        if is_ident_start(s[i]) {
            lemma_ident_end_bounds(s, i + 1);
        }
    }
}

/// Whether a character can begin an identifier.
fn ident_start_char(c: char) -> (b: bool)
    ensures
        b == is_ident_start(c),
{
    let v = c as u32;
    (97 <= v && v <= 122) || (65 <= v && v <= 90) || c == '_'
}

/// Whether a character can continue an identifier.
fn ident_continue_char(c: char) -> (b: bool)
    ensures
        b == is_ident_continue(c),
{
    let v = c as u32;
    ident_start_char(c) || (48 <= v && v <= 57)
}

/// Turn source text into its token sequence.
pub fn tokenize(text: &str) -> (r: Vec<Token>)
    ensures
        token_views(r@) == spec_tokenize_from(text@, 0),
{
    let ghost s = text@;
    let n = text.unicode_len();
    let mut toks: Vec<Token> = Vec::new();
    let mut i: usize = 0;
    while i < n
        invariant
            s == text@,
            n == s.len(),
            i <= n,
            spec_tokenize_from(s, 0) == token_views(toks@) + spec_tokenize_from(s, i as int),
        decreases n - i,
    {
        let ghost toks_before = toks@;
        let c = text.get_char(i);
        if c == ' ' || c == '\t' || c == '\u{c}' {
            i += 1;
        } else if c == '/' && i + 1 < n && text.get_char(i + 1) == '/' {
            let mut j: usize = i + 2;
            while j < n
                invariant
                    s == text@,
                    n == s.len(),
                    i + 2 <= j <= n,
                    comment_end(s, i as int + 2) == comment_end(s, j as int),
                ensures
                    i + 2 <= j <= n,
                    j as int == comment_end(s, i as int + 2),
                decreases n - j,
            {
                if text.get_char(j) == '\n' {
                    break;
                }
                j += 1;
            }
            i = j;
        } else if ident_start_char(c) {
            let mut j: usize = i + 1;
            while j < n
                invariant
                    s == text@,
                    n == s.len(),
                    i + 1 <= j <= n,
                    ident_end(s, i as int + 1) == ident_end(s, j as int),
                ensures
                    i + 1 <= j <= n,
                    j as int == ident_end(s, i as int + 1),
                decreases n - j,
            {
                if !ident_continue_char(text.get_char(j)) {
                    break;
                }
                j += 1;
            }
            let name = text.substring_char(i, j);
            let name_string: String = name.to_owned();
            let let_kw: String = "let".to_owned();
            let eval_kw: String = "eval".to_owned();
            proof {
                reveal_strlit("let");
                reveal_strlit("eval");
                assert(let_kw@ =~= seq!['l', 'e', 't']);
                assert(eval_kw@ =~= seq!['e', 'v', 'a', 'l']);
            }
            let token_type = if name_string.eq(&let_kw) {
                TokenType::Let
            } else if name_string.eq(&eval_kw) {
                TokenType::Eval
            } else {
                TokenType::Identifier(name_string)
            };
            toks.push(Token { token_type, span: (i, j) });
            proof {
                assert(token_views(toks@) =~= token_views(toks_before) + seq![
                    SpecToken {
                        kind: ident_token(s.subrange(i as int, j as int)),
                        start: i as int,
                        end: j as int,
                    },
                ]);
                assert(token_views(toks@) + spec_tokenize_from(s, j as int)
                    =~= token_views(toks_before) + spec_tokenize_from(s, i as int));
            }
            i = j;
        } else {
            let single = if c == '.' {
                Some(TokenType::Dot)
            } else if c == '\\' {
                Some(TokenType::Lambda)
            } else if c == '(' {
                Some(TokenType::LParen)
            } else if c == ')' {
                Some(TokenType::RParen)
            } else if c == '=' {
                Some(TokenType::Equals)
            } else if c == '\n' {
                Some(TokenType::NewLine)
            } else {
                None
            };
            match single {
                Some(token_type) => {
                    toks.push(Token { token_type, span: (i, i + 1) });
                    proof {
                        assert(token_views(toks@) =~= token_views(toks_before) + seq![
                            SpecToken {
                                kind: single_token(s[i as int]).unwrap(),
                                start: i as int,
                                end: i as int + 1,
                            },
                        ]);
                        assert(token_views(toks@) + spec_tokenize_from(s, i as int + 1)
                            =~= token_views(toks_before) + spec_tokenize_from(s, i as int));
                    }
                },
                None => {},
            }
            i += 1;
        }
    }
    proof {
        assert(spec_tokenize_from(s, n as int) =~= Seq::<SpecToken>::empty());
        assert(token_views(toks@) =~= token_views(toks@) + spec_tokenize_from(s, n as int));
    }
    toks
}

} // verus!
