//! The tokenizer: from the characters of a source text to tokens, one at a
//! time.

use vstd::prelude::*;
use crate::text::{chars_of, is_digit, push_char, string_of};

verus! {

/// The kinds of token.
#[derive(Clone, Copy, Debug, PartialEq, Eq, Structural)]
pub enum TokenType {
    /// `=`
    AssignmentOperator,
    /// `,`
    Comma,
    /// `else`
    Else,
    /// The end of the source text.
    EOF,
    /// `false`
    False,
    /// `fn`
    Fn,
    /// A name.
    Identifier,
    /// `if`
    If,
    /// A run of decimal digits.
    Integer,
    /// `{`
    LCurlyBrace,
    /// `let`
    Let,
    /// `(`
    LParen,
    /// `[`
    LSquareBracket,
    /// `}`
    RCurlyBrace,
    /// `)`
    RParen,
    /// `]`
    RSquareBracket,
    /// `;`
    Semicolon,
    /// Text between double quotes.
    StringLiteral,
    /// `true`
    True,
    /// `while`
    While,
}

/// The model of a token.
pub struct TokenView {
    pub token_type: TokenType,
    pub value: Seq<char>,
}

/// A token: its kind and, for identifiers, integers and string literals, its
/// text.
#[derive(Debug)]
pub struct Token {
    pub token_type: TokenType,
    pub value: String,
}

impl View for Token {
    type V = TokenView;

    open spec fn view(&self) -> TokenView {
        TokenView { token_type: self.token_type, value: self.value@ }
    }
}

impl Clone for Token {
    fn clone(&self) -> (out: Token)
        ensures
            out@ == self@,
    {
        Token { token_type: self.token_type, value: self.value.clone() }
    }
}

/// What a scan was reading when it met a character it cannot take.
#[derive(Clone, Copy, Debug, PartialEq, Eq, Structural)]
pub enum ScanKind {
    Word,
    Integer,
}

/// The model of a failure to tokenize or to parse.
pub enum SyntaxFault {
    /// What was scanned so far, the character that cannot follow it, and what
    /// was being scanned.
    UnexpectedCharacter(Seq<char>, char, ScanKind),
    /// A string literal that the end of the text cuts short, with what was
    /// scanned of it.
    UnterminatedString(Seq<char>),
    /// A character was required where another one stands.
    ExpectedCharacter(char, char),
    /// A text was required where another one stands.
    ExpectedText(Seq<char>, Seq<char>),
    /// A character was required at the end of the text.
    NoRemainingCharacters,
    /// A token of the given kind was required where another token stands.
    UnexpectedToken(TokenType, TokenView),
    /// A block without any expression.
    EmptyBlock,
    /// Two parameter names of a function declaration without a comma between.
    UnseparatedParameter,
    /// Two arguments of a call without a comma between.
    UnseparatedArgument,
    /// Two items of a list without a comma between.
    UnseparatedItem,
    /// A token with which no expression starts.
    NoExpression(TokenView),
    /// An integer literal that does not fit in 64 bits.
    IntegerOutOfRange(Seq<char>),
}

/// A failure to tokenize or to parse.
#[derive(Debug)]
pub enum SyntaxError {
    /// What was scanned so far, the character that cannot follow it, and what
    /// was being scanned.
    UnexpectedCharacter(String, char, ScanKind),
    /// A string literal that the end of the text cuts short, with what was
    /// scanned of it.
    UnterminatedString(String),
    /// A character was required where another one stands.
    ExpectedCharacter(char, char),
    /// A text was required where another one stands.
    ExpectedText(String, String),
    /// A character was required at the end of the text.
    NoRemainingCharacters,
    /// A token of the given kind was required where another token stands.
    UnexpectedToken(TokenType, Token),
    /// A block without any expression.
    EmptyBlock,
    /// Two parameter names of a function declaration without a comma between.
    UnseparatedParameter,
    /// Two arguments of a call without a comma between.
    UnseparatedArgument,
    /// Two items of a list without a comma between.
    UnseparatedItem,
    /// A token with which no expression starts.
    NoExpression(Token),
    /// An integer literal that does not fit in 64 bits.
    IntegerOutOfRange(String),
}

impl View for SyntaxError {
    type V = SyntaxFault;

    open spec fn view(&self) -> SyntaxFault {
        match self {
            SyntaxError::UnexpectedCharacter(scanned, found, kind) => {
                SyntaxFault::UnexpectedCharacter(scanned@, *found, *kind)
            },
            SyntaxError::UnterminatedString(scanned) => SyntaxFault::UnterminatedString(scanned@),
            SyntaxError::ExpectedCharacter(expected, found) => SyntaxFault::ExpectedCharacter(
                *expected,
                *found,
            ),
            SyntaxError::ExpectedText(expected, found) => SyntaxFault::ExpectedText(
                expected@,
                found@,
            ),
            SyntaxError::NoRemainingCharacters => SyntaxFault::NoRemainingCharacters,
            SyntaxError::UnexpectedToken(expected, found) => SyntaxFault::UnexpectedToken(
                *expected,
                found@,
            ),
            SyntaxError::EmptyBlock => SyntaxFault::EmptyBlock,
            SyntaxError::UnseparatedParameter => SyntaxFault::UnseparatedParameter,
            SyntaxError::UnseparatedArgument => SyntaxFault::UnseparatedArgument,
            SyntaxError::UnseparatedItem => SyntaxFault::UnseparatedItem,
            SyntaxError::NoExpression(found) => SyntaxFault::NoExpression(found@),
            SyntaxError::IntegerOutOfRange(text) => SyntaxFault::IntegerOutOfRange(text@),
        }
    }
}

/// The name of a kind of token, as messages give it.
pub open spec fn token_type_name(token_type: TokenType) -> Seq<char> {
    match token_type {
        TokenType::AssignmentOperator => "="@,
        TokenType::Comma => ","@,
        TokenType::Else => "else"@,
        TokenType::EOF => "end of file"@,
        TokenType::False => "false"@,
        TokenType::Fn => "fn"@,
        TokenType::Identifier => "identifier"@,
        TokenType::If => "if"@,
        TokenType::Integer => "integer"@,
        TokenType::LCurlyBrace => "{"@,
        TokenType::Let => "let"@,
        TokenType::LParen => "("@,
        TokenType::LSquareBracket => "["@,
        TokenType::RCurlyBrace => "}"@,
        TokenType::RParen => ")"@,
        TokenType::RSquareBracket => "]"@,
        TokenType::Semicolon => ";"@,
        TokenType::StringLiteral => "string literal"@,
        TokenType::True => "true"@,
        TokenType::While => "while"@,
    }
}

/// The display form of a token: its text for an identifier or an integer,
/// its text between double quotes for a string literal, and the name of its
/// kind otherwise.
pub open spec fn token_text(token: TokenView) -> Seq<char> {
    match token.token_type {
        TokenType::StringLiteral => "\""@ + token.value + "\""@,
        TokenType::Identifier => token.value,
        TokenType::Integer => token.value,
        other => token_type_name(other),
    }
}

/// The message that describes a failure to tokenize or to parse.
pub open spec fn syntax_message(fault: SyntaxFault) -> Seq<char> {
    match fault {
        SyntaxFault::UnexpectedCharacter(scanned, found, kind) => "`"@ + scanned
            + "`: unexpected `"@ + seq![found] + (match kind {
            ScanKind::Word => "` while scanning identifier/keyword"@,
            ScanKind::Integer => "` while scanning integer"@,
        }),
        SyntaxFault::UnterminatedString(scanned) => "`\""@ + scanned
            + "`: unterminated string literal, got EOF"@,
        SyntaxFault::ExpectedCharacter(expected, found) => "expected `"@ + seq![expected]
            + "`, got `"@ + seq![found] + "`"@,
        SyntaxFault::ExpectedText(expected, found) => "expected `"@ + expected + "`, got `"@
            + found + "` instead"@,
        SyntaxFault::NoRemainingCharacters => "no remaining characters"@,
        SyntaxFault::UnexpectedToken(expected, found) => "expected token of type "@
            + token_type_name(expected) + ", got `"@ + token_text(found) + "` instead"@,
        SyntaxFault::EmptyBlock => "expected at least one expression in block, got none"@,
        SyntaxFault::UnseparatedParameter => "unseparated argument name in fn declaration"@,
        SyntaxFault::UnseparatedArgument => "unseparated argument name in fn call"@,
        SyntaxFault::UnseparatedItem => "unseparated item in list"@,
        SyntaxFault::NoExpression(found) => "unexpected `"@ + token_text(found)
            + "`; no valid expression starts with this"@,
        SyntaxFault::IntegerOutOfRange(text) => "`"@ + text
            + "`: number too large to fit in target type"@,
    }
}

impl TokenType {
    /// The name of this kind of token, as messages give it.
    pub fn name(&self) -> (out: String)
        ensures
            out@ == token_type_name(*self),
    {
        match self {
            TokenType::AssignmentOperator => String::from_str("="),
            TokenType::Comma => String::from_str(","),
            TokenType::Else => String::from_str("else"),
            TokenType::EOF => String::from_str("end of file"),
            TokenType::False => String::from_str("false"),
            TokenType::Fn => String::from_str("fn"),
            TokenType::Identifier => String::from_str("identifier"),
            TokenType::If => String::from_str("if"),
            TokenType::Integer => String::from_str("integer"),
            TokenType::LCurlyBrace => String::from_str("{"),
            TokenType::Let => String::from_str("let"),
            TokenType::LParen => String::from_str("("),
            TokenType::LSquareBracket => String::from_str("["),
            TokenType::RCurlyBrace => String::from_str("}"),
            TokenType::RParen => String::from_str(")"),
            TokenType::RSquareBracket => String::from_str("]"),
            TokenType::Semicolon => String::from_str(";"),
            TokenType::StringLiteral => String::from_str("string literal"),
            TokenType::True => String::from_str("true"),
            TokenType::While => String::from_str("while"),
        }
    }
}

impl Token {
    /// The display form of this token.
    pub fn render(&self) -> (out: String)
        ensures
            out@ == token_text(self@),
    {
        match self.token_type {
            TokenType::StringLiteral => {
                let mut out = String::from_str("\"");
                out.append(self.value.as_str());
                out.append("\"");
                out
            },
            TokenType::Identifier => self.value.clone(),
            TokenType::Integer => self.value.clone(),
            other => other.name(),
        }
    }
}

impl SyntaxError {
    /// The message that describes this failure.
    pub fn message(&self) -> (out: String)
        ensures
            out@ == syntax_message(self@),
    {
        match self {
            SyntaxError::UnexpectedCharacter(scanned, found, kind) => {
                let mut out = String::from_str("`");
                out.append(scanned.as_str());
                out.append("`: unexpected `");
                let ghost before = out@;
                push_char(&mut out, *found);
                assert(out@ =~= before + seq![*found]);
                match kind {
                    ScanKind::Word => out.append("` while scanning identifier/keyword"),
                    ScanKind::Integer => out.append("` while scanning integer"),
                }
                out
            },
            SyntaxError::UnterminatedString(scanned) => {
                let mut out = String::from_str("`\"");
                out.append(scanned.as_str());
                out.append("`: unterminated string literal, got EOF");
                out
            },
            SyntaxError::ExpectedCharacter(expected, found) => {
                let mut out = String::from_str("expected `");
                let ghost first = out@;
                push_char(&mut out, *expected);
                assert(out@ =~= first + seq![*expected]);
                out.append("`, got `");
                let ghost second = out@;
                push_char(&mut out, *found);
                assert(out@ =~= second + seq![*found]);
                out.append("`");
                out
            },
            SyntaxError::ExpectedText(expected, found) => {
                let mut out = String::from_str("expected `");
                out.append(expected.as_str());
                out.append("`, got `");
                out.append(found.as_str());
                out.append("` instead");
                out
            },
            SyntaxError::NoRemainingCharacters => String::from_str("no remaining characters"),
            SyntaxError::UnexpectedToken(expected, found) => {
                let mut out = String::from_str("expected token of type ");
                out.append(expected.name().as_str());
                out.append(", got `");
                out.append(found.render().as_str());
                out.append("` instead");
                out
            },
            SyntaxError::EmptyBlock => String::from_str(
                "expected at least one expression in block, got none",
            ),
            SyntaxError::UnseparatedParameter => String::from_str(
                "unseparated argument name in fn declaration",
            ),
            SyntaxError::UnseparatedArgument => String::from_str(
                "unseparated argument name in fn call",
            ),
            SyntaxError::UnseparatedItem => String::from_str("unseparated item in list"),
            SyntaxError::NoExpression(found) => {
                let mut out = String::from_str("unexpected `");
                out.append(found.render().as_str());
                out.append("`; no valid expression starts with this");
                out
            },
            SyntaxError::IntegerOutOfRange(text) => {
                let mut out = String::from_str("`");
                out.append(text.as_str());
                out.append("`: number too large to fit in target type");
                out
            },
        }
    }
}

/// The model of the outcome of reading a token.
pub open spec fn token_outcome(r: Result<Token, SyntaxError>) -> Result<TokenView, SyntaxFault> {
    match r {
        Ok(token) => Ok(token@),
        Err(e) => Err(e@),
    }
}

/// Whether `c` is white space: a character with the Unicode property
/// White_Space.
pub open spec fn is_space(c: char) -> bool {
    let code = c as u32;
    (0x09 <= code <= 0x0D) || code == 0x20 || code == 0x85 || code == 0xA0 || code == 0x1680 || (
    0x2000 <= code <= 0x200A) || code == 0x2028 || code == 0x2029 || code == 0x202F || code
        == 0x205F || code == 0x3000
}

/// Whether `c` ends a word or an integer without being part of it.
pub open spec fn is_delimiter(c: char) -> bool {
    is_space(c) || c == '(' || c == ')' || c == ';' || c == ',' || c == '[' || c == ']' || c == '}'
        || c == '{'
}

/// Whether `c` can stand in a keyword or an identifier.
pub open spec fn is_word_char(c: char) -> bool {
    c == '+' || c == '=' || c == '*' || c == '/' || c == '-' || c == '>' || c == '<' || c == '_'
        || ('0' <= c <= '9') || ('a' <= c <= 'z') || ('A' <= c <= 'Z')
}

/// The first position from `i` on that holds no white space.
pub open spec fn skip_spaces(s: Seq<char>, i: nat) -> nat
    decreases s.len() - i,
{
    if i < s.len() && is_space(s[i as int]) {
        skip_spaces(s, i + 1)
    } else {
        i
    }
}

/// The position after the first line feed from `i` on, or the end of the
/// text where there is none.
pub open spec fn skip_line(s: Seq<char>, i: nat) -> nat
    decreases s.len() - i,
{
    if i >= s.len() {
        i
    } else if s[i as int] == '\n' {
        i + 1
    } else {
        skip_line(s, i + 1)
    }
}

/// A keyword or identifier scanned from `i` on, after `acc`: it ends before a
/// delimiter or at the end of the text, and a character that is neither a
/// delimiter nor a word character is a failure. With the result comes the
/// position where the scan stops.
pub open spec fn scan_word(s: Seq<char>, i: nat, acc: Seq<char>) -> (
    Result<Seq<char>, SyntaxFault>,
    nat,
)
    decreases s.len() - i,
{
    if i >= s.len() {
        (Ok(acc), i)
    } else if is_delimiter(s[i as int]) {
        (Ok(acc), i)
    } else if !is_word_char(s[i as int]) {
        (Err(SyntaxFault::UnexpectedCharacter(acc, s[i as int], ScanKind::Word)), i + 1)
    } else {
        scan_word(s, i + 1, acc.push(s[i as int]))
    }
}

/// An integer scanned from `i` on, after `acc`, in the same way.
pub open spec fn scan_integer(s: Seq<char>, i: nat, acc: Seq<char>) -> (
    Result<Seq<char>, SyntaxFault>,
    nat,
)
    decreases s.len() - i,
{
    if i >= s.len() {
        (Ok(acc), i)
    } else if is_delimiter(s[i as int]) {
        (Ok(acc), i)
    } else if !is_digit(s[i as int]) {
        (Err(SyntaxFault::UnexpectedCharacter(acc, s[i as int], ScanKind::Integer)), i + 1)
    } else {
        scan_integer(s, i + 1, acc.push(s[i as int]))
    }
}

/// The rest of a string literal scanned from `i` on, after `acc`: it ends
/// with the next double quote, which is consumed; the end of the text before
/// that is a failure.
pub open spec fn scan_string(s: Seq<char>, i: nat, acc: Seq<char>) -> (
    Result<Seq<char>, SyntaxFault>,
    nat,
)
    decreases s.len() - i,
{
    if i >= s.len() {
        (Err(SyntaxFault::UnterminatedString(acc)), i)
    } else if s[i as int] == '"' {
        (Ok(acc), i + 1)
    } else {
        scan_string(s, i + 1, acc.push(s[i as int]))
    }
}

/// A token that carries no text.
pub open spec fn bare(token_type: TokenType) -> TokenView {
    TokenView { token_type, value: Seq::empty() }
}

/// The token that a scanned word stands for: a keyword, or else an
/// identifier with the word as its text.
pub open spec fn word_token(word: Seq<char>) -> TokenView {
    if word == "let"@ {
        bare(TokenType::Let)
    } else if word == "if"@ {
        bare(TokenType::If)
    } else if word == "else"@ {
        bare(TokenType::Else)
    } else if word == "true"@ {
        bare(TokenType::True)
    } else if word == "false"@ {
        bare(TokenType::False)
    } else if word == "fn"@ {
        bare(TokenType::Fn)
    } else if word == "while"@ {
        bare(TokenType::While)
    } else {
        TokenView { token_type: TokenType::Identifier, value: word }
    }
}

/// The token that a single character stands for, if it stands for one.
pub open spec fn punctuation(c: char) -> Option<TokenType> {
    if c == '(' {
        Some(TokenType::LParen)
    } else if c == ')' {
        Some(TokenType::RParen)
    } else if c == ';' {
        Some(TokenType::Semicolon)
    } else if c == '=' {
        Some(TokenType::AssignmentOperator)
    } else if c == ',' {
        Some(TokenType::Comma)
    } else if c == '{' {
        Some(TokenType::LCurlyBrace)
    } else if c == '}' {
        Some(TokenType::RCurlyBrace)
    } else if c == '[' {
        Some(TokenType::LSquareBracket)
    } else if c == ']' {
        Some(TokenType::RSquareBracket)
    } else {
        None
    }
}

/// The token that starts at the first character from `i` on that is not
/// white space, `c`, which stands at `j` and starts no comment.
pub open spec fn lex_at(s: Seq<char>, j: nat, c: char) -> (Result<TokenView, SyntaxFault>, nat) {
    match punctuation(c) {
        Some(token_type) => (Ok(bare(token_type)), j + 1),
        None => if is_digit(c) {
            let (r, k) = scan_integer(s, j, Seq::empty());
            match r {
                Ok(digits) => (Ok(TokenView { token_type: TokenType::Integer, value: digits }), k),
                Err(e) => (Err(e), k),
            }
        } else if c == '"' {
            let (r, k) = scan_string(s, j + 1, Seq::empty());
            match r {
                Ok(text) => (
                    Ok(TokenView { token_type: TokenType::StringLiteral, value: text }),
                    k,
                ),
                Err(e) => (Err(e), k),
            }
        } else {
            let (r, k) = scan_word(s, j, Seq::empty());
            match r {
                Ok(word) => (Ok(word_token(word)), k),
                Err(e) => (Err(e), k),
            }
        },
    }
}

/// The next token of `s` from position `i` on, and the position after it.
/// White space is skipped, and so is a comment, which runs from `%` to the
/// end of its line. At the end of the text the token is `EOF`. The
/// condition on the positions around a comment always holds
/// (`progress::lemma_lex_moves`) and makes the recursion well-founded.
#[verifier::opaque]
pub open spec fn lex(s: Seq<char>, i: nat) -> (Result<TokenView, SyntaxFault>, nat)
    decreases s.len() - i,
{
    let j = skip_spaces(s, i);
    if j >= s.len() {
        (Ok(bare(TokenType::EOF)), j)
    } else if s[j as int] == '%' {
        let k = skip_line(s, j + 1);
        if i <= j && j < k <= s.len() {
            lex(s, k)
        } else {
            (Err(SyntaxFault::NoRemainingCharacters), k)
        }
    } else {
        lex_at(s, j, s[j as int])
    }
}

/// Whether `c` is white space.
pub fn is_whitespace(c: char) -> (r: bool)
    ensures
        r == is_space(c),
{
    let code: u32 = c as u32;
    (0x09 <= code && code <= 0x0D) || code == 0x20 || code == 0x85 || code == 0xA0 || code
        == 0x1680 || (0x2000 <= code && code <= 0x200A) || code == 0x2028 || code == 0x2029 || code
        == 0x202F || code == 0x205F || code == 0x3000
}

/// Whether `c` ends a word or an integer.
fn ends_scan(c: char) -> (r: bool)
    ensures
        r == is_delimiter(c),
{
    is_whitespace(c) || c == '(' || c == ')' || c == ';' || c == ',' || c == '[' || c == ']' || c
        == '}' || c == '{'
}

/// Whether `c` can stand in a keyword or an identifier.
fn in_word(c: char) -> (r: bool)
    ensures
        r == is_word_char(c),
{
    c == '+' || c == '=' || c == '*' || c == '/' || c == '-' || c == '>' || c == '<' || c == '_'
        || ('0' <= c && c <= '9') || ('a' <= c && c <= 'z') || ('A' <= c && c <= 'Z')
}

/// The token that `c` alone stands for, if it stands for one.
fn punctuation_of(c: char) -> (r: Option<TokenType>)
    ensures
        r == punctuation(c),
{
    if c == '(' {
        Some(TokenType::LParen)
    } else if c == ')' {
        Some(TokenType::RParen)
    } else if c == ';' {
        Some(TokenType::Semicolon)
    } else if c == '=' {
        Some(TokenType::AssignmentOperator)
    } else if c == ',' {
        Some(TokenType::Comma)
    } else if c == '{' {
        Some(TokenType::LCurlyBrace)
    } else if c == '}' {
        Some(TokenType::RCurlyBrace)
    } else if c == '[' {
        Some(TokenType::LSquareBracket)
    } else if c == ']' {
        Some(TokenType::RSquareBracket)
    } else {
        None
    }
}

/// The model of a tokenizer: the characters of the source text and the
/// position of the next one to read.
pub struct LexerView {
    pub source: Seq<char>,
    pub index: nat,
}

/// A tokenizer over one source text.
#[derive(Debug)]
pub struct Lexer {
    source: Vec<char>,
    current_index: usize,
}

impl View for Lexer {
    type V = LexerView;

    closed spec fn view(&self) -> LexerView {
        LexerView { source: self.source@, index: self.current_index as nat }
    }
}

impl Lexer {
    #[verifier::type_invariant]
    spec fn in_bounds(&self) -> bool {
        self.current_index <= self.source@.len()
    }

    /// A tokenizer at the start of `source`.
    pub fn new(source: String) -> (lexer: Lexer)
        ensures
            lexer@ == (LexerView { source: source@, index: 0 }),
    {
        Lexer { source: chars_of(source.as_str()), current_index: 0 }
    }

    /// Moves `n` characters forward, or to the end of the text where fewer
    /// are left.
    pub fn consume(&mut self, n: usize)
        ensures
            final(self)@.source == old(self)@.source,
            final(self)@.index == if old(self)@.index + n <= old(self)@.source.len() {
                old(self)@.index + n
            } else {
                old(self)@.source.len() as int
            },
    {
        proof {
            use_type_invariant(&*self);
        }
        let left: usize = self.source.len() - self.current_index;
        if n <= left {
            self.current_index = self.current_index + n;
        } else {
            self.current_index = self.source.len();
        }
    }

    /// The next `n` characters, or as many as are left.
    pub fn peek(&self, n: usize) -> (out: Vec<char>)
        ensures
            out@ == self@.source.subrange(
                self@.index as int,
                if self@.index + n <= self@.source.len() {
                    self@.index + n
                } else {
                    self@.source.len() as int
                },
            ),
    {
        proof {
            use_type_invariant(self);
        }
        let left: usize = self.source.len() - self.current_index;
        let count: usize = if n <= left {
            n
        } else {
            left
        };
        let mut out: Vec<char> = Vec::new();
        let mut k: usize = 0;
        while k < count
            invariant
                k <= count,
                self.source@.len() <= usize::MAX,
                self.current_index + count <= self.source@.len(),
                out@ == self.source@.subrange(
                    self.current_index as int,
                    self.current_index + k,
                ),
            decreases count - k,
        {
            out.push(self.source[self.current_index + k]);
            k += 1;
            assert(out@ =~= self.source@.subrange(
                self.current_index as int,
                self.current_index + k,
            ));
        }
        out
    }

    /// The next character, if one is left.
    pub fn peek_one(&self) -> (c: Option<char>)
        ensures
            c == if self@.index < self@.source.len() {
                Some(self@.source[self@.index as int])
            } else {
                None
            },
    {
        proof {
            use_type_invariant(self);
        }
        if self.current_index < self.source.len() {
            Some(self.source[self.current_index])
        } else {
            None
        }
    }

    /// Reads the next `n` characters, or as many as are left.
    pub fn take(&mut self, n: usize) -> (out: Vec<char>)
        ensures
            final(self)@.source == old(self)@.source,
            final(self)@.index == old(self)@.index + out@.len(),
            final(self)@.index <= final(self)@.source.len(),
            out@ == old(self)@.source.subrange(old(self)@.index as int, final(self)@.index as int),
            out@.len() == n || final(self)@.index == final(self)@.source.len(),
    {
        proof {
            use_type_invariant(&*self);
        }
        let return_value = self.peek(n);
        self.consume(n);
        return_value
    }

    /// Reads the next character, if one is left.
    pub fn take_one(&mut self) -> (c: Option<char>)
        ensures
            final(self)@.source == old(self)@.source,
            c == if old(self)@.index < old(self)@.source.len() {
                Some(old(self)@.source[old(self)@.index as int])
            } else {
                None
            },
            final(self)@.index == if c is Some {
                old(self)@.index + 1
            } else {
                old(self)@.index
            },
    {
        let c = self.peek_one();
        if c.is_some() {
            self.consume(1);
        }
        c
    }

    /// Moves `n` characters back, or to the start of the text where the
    /// position is less than `n`.
    pub fn rewind(&mut self, n: usize)
        ensures
            final(self)@.source == old(self)@.source,
            final(self)@.index == if old(self)@.index >= n {
                old(self)@.index - n
            } else {
                0
            },
    {
        proof {
            use_type_invariant(&*self);
        }
        if self.current_index >= n {
            self.current_index = self.current_index - n;
        } else {
            self.current_index = 0;
        }
    }

    /// Moves past white space, up to the next character that is none.
    pub fn skip_whitespace(&mut self)
        ensures
            final(self)@.source == old(self)@.source,
            final(self)@.index == skip_spaces(old(self)@.source, old(self)@.index),
            old(self)@.index <= final(self)@.index <= final(self)@.source.len(),
            final(self)@.index < final(self)@.source.len() ==> !is_space(
                final(self)@.source[final(self)@.index as int],
            ),
    {
        proof {
            use_type_invariant(&*self);
        }
        loop
            invariant_except_break
                self@.source == old(self)@.source,
                old(self)@.index <= self@.index <= self@.source.len(),
                skip_spaces(self@.source, self@.index) == skip_spaces(
                    old(self)@.source,
                    old(self)@.index,
                ),
            ensures
                self@.source == old(self)@.source,
                old(self)@.index < self@.index <= self@.source.len(),
                self@.index - 1 == skip_spaces(old(self)@.source, old(self)@.index),
                !is_space(self@.source[self@.index - 1]),
            decreases self@.source.len() - self@.index,
        {
            let ch = match self.take_one() {
                Some(ch) => ch,
                None => {
                    return ;
                },
            };
            if !is_whitespace(ch) {
                break ;
            }
        }
        self.rewind(1);
    }

    /// Reads one character, which must be `expected_ch`.
    pub fn expect_ch(&mut self, expected_ch: char) -> (r: Result<(), SyntaxError>)
        ensures
            final(self)@.source == old(self)@.source,
            old(self)@.index < old(self)@.source.len() ==> final(self)@.index == old(self)@.index
                + 1 && (match r {
                Ok(_) => old(self)@.source[old(self)@.index as int] == expected_ch,
                Err(e) => old(self)@.source[old(self)@.index as int] != expected_ch && e@
                    == SyntaxFault::ExpectedCharacter(
                    expected_ch,
                    old(self)@.source[old(self)@.index as int],
                ),
            }),
            old(self)@.index >= old(self)@.source.len() ==> final(self)@.index == old(self)@.index
                && r is Err && r->Err_0@ == SyntaxFault::NoRemainingCharacters,
    {
        match self.take_one() {
            Some(ch) => {
                if ch == expected_ch {
                    Ok(())
                } else {
                    Err(SyntaxError::ExpectedCharacter(expected_ch, ch))
                }
            },
            None => Err(SyntaxError::NoRemainingCharacters),
        }
    }

    /// Reads as many characters as `expected_str` has, which must be those of
    /// `expected_str`.
    pub fn expect(&mut self, expected_str: String) -> (r: Result<(), SyntaxError>)
        ensures
            final(self)@.source == old(self)@.source,
            old(self)@.index <= final(self)@.index <= final(self)@.source.len(),
            final(self)@.index == old(self)@.index + expected_str@.len() || final(self)@.index
                == final(self)@.source.len(),
            ({
                let actual = old(self)@.source.subrange(
                    old(self)@.index as int,
                    final(self)@.index as int,
                );
                match r {
                    Ok(_) => actual == expected_str@,
                    Err(e) => actual != expected_str@ && e@ == SyntaxFault::ExpectedText(
                        expected_str@,
                        actual,
                    ),
                }
            }),
    {
        let wanted: usize = expected_str.as_str().unicode_len();
        let actual = string_of(&self.take(wanted));
        if actual == expected_str {
            Ok(())
        } else {
            Err(SyntaxError::ExpectedText(expected_str, actual))
        }
    }

    /// Scans a keyword or an identifier.
    fn keyword_or_identifier(&mut self) -> (r: Result<String, SyntaxError>)
        ensures
            final(self)@.source == old(self)@.source,
            (match r {
                Ok(word) => Ok::<Seq<char>, SyntaxFault>(word@),
                Err(e) => Err::<Seq<char>, SyntaxFault>(e@),
            }) == scan_word(old(self)@.source, old(self)@.index, Seq::empty()).0,
            final(self)@.index == scan_word(old(self)@.source, old(self)@.index, Seq::empty()).1,
            old(self)@.index <= final(self)@.index <= final(self)@.source.len(),
            r is Ok && old(self)@.index < old(self)@.source.len() && !is_delimiter(
                old(self)@.source[old(self)@.index as int],
            ) ==> old(self)@.index < final(self)@.index,
    {
        proof {
            use_type_invariant(&*self);
        }
        let mut result = String::new();
        loop
            invariant
                self@.source == old(self)@.source,
                old(self)@.index <= self@.index <= self@.source.len(),
                scan_word(self@.source, self@.index, result@) == scan_word(
                    old(self)@.source,
                    old(self)@.index,
                    Seq::empty(),
                ),
            ensures
                self@.index == self@.source.len() || is_delimiter(
                    self@.source[self@.index as int],
                ),
            decreases self@.source.len() - self@.index,
        {
            let ch = match self.take_one() {
                Some(ch) => ch,
                None => {
                    break ;
                },
            };
            if ends_scan(ch) {
                self.rewind(1);
                break ;
            }
            if !in_word(ch) {
                return Err(SyntaxError::UnexpectedCharacter(result, ch, ScanKind::Word));
            }
            push_char(&mut result, ch);
        }
        Ok(result)
    }

    /// Scans a word and makes the token that it stands for.
    fn take_keyword_or_identifier(&mut self) -> (r: Result<Token, SyntaxError>)
        ensures
            final(self)@.source == old(self)@.source,
            token_outcome(r) == (match scan_word(
                old(self)@.source,
                old(self)@.index,
                Seq::empty(),
            ).0 {
                Ok(word) => Ok::<TokenView, SyntaxFault>(word_token(word)),
                Err(e) => Err::<TokenView, SyntaxFault>(e),
            }),
            final(self)@.index == scan_word(old(self)@.source, old(self)@.index, Seq::empty()).1,
            old(self)@.index <= final(self)@.index <= final(self)@.source.len(),
            r is Ok && old(self)@.index < old(self)@.source.len() && !is_delimiter(
                old(self)@.source[old(self)@.index as int],
            ) ==> old(self)@.index < final(self)@.index,
    {
        let word = match self.keyword_or_identifier() {
            Ok(word) => word,
            Err(e) => {
                return Err(e);
            },
        };
        let token = if word == String::from_str("let") {
            Token { token_type: TokenType::Let, value: String::new() }
        } else if word == String::from_str("if") {
            Token { token_type: TokenType::If, value: String::new() }
        } else if word == String::from_str("else") {
            Token { token_type: TokenType::Else, value: String::new() }
        } else if word == String::from_str("true") {
            Token { token_type: TokenType::True, value: String::new() }
        } else if word == String::from_str("false") {
            Token { token_type: TokenType::False, value: String::new() }
        } else if word == String::from_str("fn") {
            Token { token_type: TokenType::Fn, value: String::new() }
        } else if word == String::from_str("while") {
            Token { token_type: TokenType::While, value: String::new() }
        } else {
            Token { token_type: TokenType::Identifier, value: word }
        };
        Ok(token)
    }

    /// Scans an integer.
    fn take_integer(&mut self) -> (r: Result<Token, SyntaxError>)
        ensures
            final(self)@.source == old(self)@.source,
            token_outcome(r) == (match scan_integer(
                old(self)@.source,
                old(self)@.index,
                Seq::empty(),
            ).0 {
                Ok(digits) => Ok::<TokenView, SyntaxFault>(
                    TokenView { token_type: TokenType::Integer, value: digits },
                ),
                Err(e) => Err::<TokenView, SyntaxFault>(e),
            }),
            final(self)@.index == scan_integer(old(self)@.source, old(self)@.index, Seq::empty()).1,
            old(self)@.index <= final(self)@.index <= final(self)@.source.len(),
            r is Ok && old(self)@.index < old(self)@.source.len() && !is_delimiter(
                old(self)@.source[old(self)@.index as int],
            ) ==> old(self)@.index < final(self)@.index,
    {
        proof {
            use_type_invariant(&*self);
        }
        let mut result = String::new();
        loop
            invariant
                self@.source == old(self)@.source,
                old(self)@.index <= self@.index <= self@.source.len(),
                scan_integer(self@.source, self@.index, result@) == scan_integer(
                    old(self)@.source,
                    old(self)@.index,
                    Seq::empty(),
                ),
            ensures
                self@.index == self@.source.len() || is_delimiter(
                    self@.source[self@.index as int],
                ),
            decreases self@.source.len() - self@.index,
        {
            let ch = match self.take_one() {
                Some(ch) => ch,
                None => {
                    break ;
                },
            };
            if ends_scan(ch) {
                self.rewind(1);
                break ;
            }
            if !('0' <= ch && ch <= '9') {
                return Err(SyntaxError::UnexpectedCharacter(result, ch, ScanKind::Integer));
            }
            push_char(&mut result, ch);
        }
        Ok(Token { token_type: TokenType::Integer, value: result })
    }

    /// Scans a string literal, from its opening double quote on.
    fn take_string_literal(&mut self) -> (r: Result<Token, SyntaxError>)
        requires
            old(self)@.index < old(self)@.source.len(),
            old(self)@.source[old(self)@.index as int] == '"',
        ensures
            final(self)@.source == old(self)@.source,
            token_outcome(r) == (match scan_string(
                old(self)@.source,
                old(self)@.index + 1,
                Seq::empty(),
            ).0 {
                Ok(text) => Ok::<TokenView, SyntaxFault>(
                    TokenView { token_type: TokenType::StringLiteral, value: text },
                ),
                Err(e) => Err::<TokenView, SyntaxFault>(e),
            }),
            final(self)@.index == scan_string(
                old(self)@.source,
                old(self)@.index + 1,
                Seq::empty(),
            ).1,
            old(self)@.index < final(self)@.index <= final(self)@.source.len(),
    {
        proof {
            use_type_invariant(&*self);
        }
        match self.expect_ch('"') {
            Ok(_) => {},
            Err(e) => {
                return Err(e);
            },
        }
        proof {
            use_type_invariant(&*self);
        }
        let mut string_literal = String::new();
        loop
            invariant_except_break
                self@.source == old(self)@.source,
                old(self)@.index < self@.index <= self@.source.len(),
                scan_string(self@.source, self@.index, string_literal@) == scan_string(
                    old(self)@.source,
                    old(self)@.index + 1,
                    Seq::empty(),
                ),
            ensures
                self@.source == old(self)@.source,
                old(self)@.index < self@.index <= self@.source.len(),
                scan_string(old(self)@.source, old(self)@.index + 1, Seq::empty()) == (
                    Ok::<Seq<char>, SyntaxFault>(string_literal@),
                    self@.index,
                ),
            decreases self@.source.len() - self@.index,
        {
            let ch = match self.take_one() {
                Some(ch) => ch,
                None => {
                    return Err(SyntaxError::UnterminatedString(string_literal));
                },
            };
            if ch == '"' {
                break ;
            }
            push_char(&mut string_literal, ch);
        }
        Ok(Token { token_type: TokenType::StringLiteral, value: string_literal })
    }

    /// Moves past the rest of the line.
    fn skip_comment(&mut self)
        ensures
            final(self)@.source == old(self)@.source,
            final(self)@.index == skip_line(old(self)@.source, old(self)@.index),
            old(self)@.index <= final(self)@.index <= final(self)@.source.len(),
            old(self)@.index < old(self)@.source.len() ==> old(self)@.index < final(self)@.index,
    {
        proof {
            use_type_invariant(&*self);
        }
        let ghost mut moved = false;
        loop
            invariant
                self@.source == old(self)@.source,
                old(self)@.index <= self@.index <= self@.source.len(),
                moved ==> old(self)@.index < self@.index,
                !moved ==> old(self)@.index == self@.index,
                skip_line(self@.source, self@.index) == skip_line(
                    old(self)@.source,
                    old(self)@.index,
                ),
            decreases self@.source.len() - self@.index,
        {
            match self.take_one() {
                Some(ch) => {
                    proof {
                        moved = true;
                    }
                    if ch == '\n' {
                        return ;
                    }
                },
                None => {
                    return ;
                },
            }
        }
    }

    /// Reads the next token.
    pub fn next_token(&mut self) -> (r: Result<Token, SyntaxError>)
        ensures
            final(self)@.source == old(self)@.source,
            token_outcome(r) == lex(old(self)@.source, old(self)@.index).0,
            final(self)@.index == lex(old(self)@.source, old(self)@.index).1,
            old(self)@.index <= final(self)@.index <= final(self)@.source.len(),
            r is Ok && r->Ok_0.token_type != TokenType::EOF ==> old(self)@.index
                < final(self)@.index,
        decreases old(self)@.source.len() - old(self)@.index,
    {
        proof {
            use_type_invariant(&*self);
            reveal(lex);
        }
        self.skip_whitespace();
        let c = match self.peek_one() {
            Some(c) => c,
            None => {
                return Ok(Token { token_type: TokenType::EOF, value: String::new() });
            },
        };
        if c == '%' {
            self.consume(1);
            self.skip_comment();
            return self.next_token();
        }
        let r = match punctuation_of(c) {
            Some(token_type) => {
                self.consume(1);
                Ok(Token { token_type, value: String::new() })
            },
            None => if '0' <= c && c <= '9' {
                self.take_integer()
            } else if c == '"' {
                self.take_string_literal()
            } else {
                self.take_keyword_or_identifier()
            },
        };
        proof {
            use_type_invariant(&*self);
        }
        r
    }
}

} // verus!
