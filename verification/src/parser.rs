//! The parser: from tokens to the expression tree, by recursive descent with
//! one token of lookahead.

use vstd::prelude::*;
use crate::ast::{Expression, Term, terms_of};
use crate::lexer::{
    Lexer,
    SyntaxError,
    SyntaxFault,
    Token,
    TokenType,
    TokenView,
    lex,
    token_outcome,
};
use crate::text::{parse_decimal, parse_u64};

verus! {

/// The model of a parser: the source text, the position of the tokenizer in
/// it, and the token that was read ahead, if one was.
pub struct ParserView {
    pub source: Seq<char>,
    pub index: nat,
    pub pending: Option<TokenView>,
}

/// What is left to parse, as a number: the characters not yet tokenized,
/// and one more where a token other than `EOF` was read ahead. Parsing never
/// increases it, and consuming a token decreases it.
pub open spec fn weight(p: ParserView) -> nat {
    let left: nat = if p.index <= p.source.len() {
        (p.source.len() - p.index) as nat
    } else {
        0
    };
    match p.pending {
        Some(t) => if t.token_type == TokenType::EOF {
            left
        } else {
            left + 1
        },
        None => left,
    }
}

/// The outcome of a parse as the grammar gives it, with the state after it.
pub type Parsed = (Result<Term, SyntaxFault>, ParserView);

/// The outcome where the input did not shrink although the grammar says it
/// does. No parse ends so (`progress::lemma_expression_progress`): the
/// conditions on `weight` in the grammar below are there to make its
/// recursion well-founded.
pub open spec fn stalled(p: ParserView) -> Parsed {
    (Err(SyntaxFault::NoRemainingCharacters), p)
}

/// The next token, read ahead where none was.
pub open spec fn peek(p: ParserView) -> (Result<TokenView, SyntaxFault>, ParserView) {
    match p.pending {
        Some(t) => (Ok(t), p),
        None => {
            let (r, j) = lex(p.source, p.index);
            match r {
                Ok(t) => (Ok(t), ParserView { index: j, pending: Some(t), ..p }),
                Err(e) => (Err(e), ParserView { index: j, ..p }),
            }
        },
    }
}

/// The token that was read ahead is consumed.
pub open spec fn advance(p: ParserView) -> ParserView {
    ParserView { pending: None, ..p }
}

/// The next token, which must be of the given kind, is consumed.
pub open spec fn expect(p: ParserView, kind: TokenType) -> (
    Result<TokenView, SyntaxFault>,
    ParserView,
) {
    let (r, q1) = peek(p);
    match r {
        Ok(t) => if t.token_type == kind {
            (Ok(t), advance(q1))
        } else {
            (Err(SyntaxFault::UnexpectedToken(kind, t)), q1)
        },
        Err(e) => (Err(e), q1),
    }
}

/// The next token is consumed if it is of the given kind.
pub open spec fn accept(p: ParserView, kind: TokenType) -> (
    Result<Option<TokenView>, SyntaxFault>,
    ParserView,
) {
    let (r, q1) = peek(p);
    match r {
        Ok(t) => if t.token_type == kind {
            (Ok(Some(t)), advance(q1))
        } else {
            (Ok(None), q1)
        },
        Err(e) => (Err(e), q1),
    }
}

/// A function of the given parameters: one function for each, the first
/// outermost, around the body; a function without parameter where there is
/// none.
pub open spec fn curried(names: Seq<Seq<char>>, body: Term) -> Term
    decreases names.len(),
{
    if names.len() == 0 {
        Term::Fn(None, Box::new(body))
    } else if names.len() == 1 {
        Term::Fn(Some(names[0]), Box::new(body))
    } else {
        Term::Fn(Some(names[0]), Box::new(curried(names.drop_first(), body)))
    }
}

/// An expression: a binding, a conditional, a function, a loop, a list, an
/// identifier or a literal, followed by any number of argument lists. At the
/// end of the text it is the end-of-program mark, and nothing is consumed.
pub open spec fn parse_expression(p: ParserView) -> Parsed
    decreases weight(p), 10int, 0int,
{
    let (r, q1) = peek(p);
    match r {
        Err(e) => (Err(e), q1),
        Ok(t) => if weight(q1) <= weight(p) {
            let (first, q2) = parse_head(t, q1);
            match first {
                Ok(e) => if weight(q2) <= weight(p) {
                    parse_calls(e, q2)
                } else {
                    stalled(q2)
                },
                Err(e) => (Err(e), q2),
            }
        } else {
            stalled(q1)
        },
    }
}

/// An expression without the argument lists that may follow it, where `t`
/// is the token that was read ahead.
pub open spec fn parse_head(t: TokenView, p: ParserView) -> Parsed
    decreases weight(p), 7int, 0int,
{
    match t.token_type {
        TokenType::Let => parse_let(p),
        TokenType::If => parse_if(p),
        TokenType::Fn => parse_fn(p),
        TokenType::While => parse_while(p),
        TokenType::LSquareBracket => parse_list(p),
        TokenType::Identifier => (Ok(Term::Identifier(t.value)), advance(p)),
        TokenType::Integer => (
            match parse_decimal(t.value) {
                Some(n) => Ok(Term::IntegerValue(n)),
                None => Err(SyntaxFault::IntegerOutOfRange(t.value)),
            },
            advance(p),
        ),
        TokenType::StringLiteral => (Ok(Term::StringValue(t.value)), advance(p)),
        TokenType::True => (Ok(Term::BooleanValue(true)), advance(p)),
        TokenType::False => (Ok(Term::BooleanValue(false)), advance(p)),
        TokenType::EOF => (Ok(Term::EndOfProgram), p),
        _ => (Err(SyntaxFault::NoExpression(t)), p),
    }
}

/// The argument lists that follow an expression, each making a call of what
/// stands before it.
pub open spec fn parse_calls(e: Term, p: ParserView) -> Parsed
    decreases weight(p), 9int, 0int,
{
    let (r, q1) = peek(p);
    match r {
        Err(err) => (Err(err), q1),
        Ok(t) => if t.token_type == TokenType::LParen {
            if weight(q1) <= weight(p) {
                let (rc, q2) = parse_fn_call(e, q1);
                match rc {
                    Ok(call) => if weight(q2) < weight(p) {
                        parse_calls(call, q2)
                    } else {
                        stalled(q2)
                    },
                    Err(err) => (Err(err), q2),
                }
            } else {
                stalled(q1)
            }
        } else {
            (Ok(e), q1)
        },
    }
}

/// One argument list after `callee`.
pub open spec fn parse_fn_call(callee: Term, p: ParserView) -> Parsed
    decreases weight(p), 8int, 0int,
{
    let (r, q1) = expect(p, TokenType::LParen);
    match r {
        Err(e) => (Err(e), q1),
        Ok(_) => if weight(q1) < weight(p) {
            parse_args(callee, false, true, q1)
        } else {
            stalled(q1)
        },
    }
}

/// The arguments up to the closing parenthesis, separated by commas. Each
/// argument makes one call of what the arguments before it made of the
/// callee; an empty list makes a call without argument.
pub open spec fn parse_args(current: Term, applied: bool, separated: bool, p: ParserView) -> Parsed
    decreases weight(p), 12int, if separated {
        1int
    } else {
        0int
    },
{
    let (r, q1) = accept(p, TokenType::RParen);
    match r {
        Err(e) => (Err(e), q1),
        Ok(Some(_)) => (
            Ok(
                if applied {
                    current
                } else {
                    Term::FnCall(Box::new(current), None)
                },
            ),
            q1,
        ),
        Ok(None) => if !separated {
            (Err(SyntaxFault::UnseparatedArgument), q1)
        } else if weight(q1) <= weight(p) {
            let (ra, q2) = parse_expression(q1);
            match ra {
                Err(e) => (Err(e), q2),
                Ok(arg) => {
                    let (rs, q3) = accept(q2, TokenType::Comma);
                    match rs {
                        Err(e) => (Err(e), q3),
                        Ok(comma) => if weight(q3) < weight(p) || (weight(q3) == weight(p)
                            && comma is None) {
                            parse_args(
                                Term::FnCall(Box::new(current), Some(Box::new(arg))),
                                true,
                                comma is Some,
                                q3,
                            )
                        } else {
                            stalled(q3)
                        },
                    }
                },
            }
        } else {
            stalled(q1)
        },
    }
}

/// `let`, a name, `=` and an expression.
pub open spec fn parse_let(p: ParserView) -> Parsed
    decreases weight(p), 5int, 0int,
{
    let (r1, q1) = expect(p, TokenType::Let);
    match r1 {
        Err(e) => (Err(e), q1),
        Ok(_) => {
            let (r2, q2) = expect(q1, TokenType::Identifier);
            match r2 {
                Err(e) => (Err(e), q2),
                Ok(name) => {
                    let (r3, q3) = expect(q2, TokenType::AssignmentOperator);
                    match r3 {
                        Err(e) => (Err(e), q3),
                        Ok(_) => if weight(q3) < weight(p) {
                            let (r4, q4) = parse_expression(q3);
                            match r4 {
                                Err(e) => (Err(e), q4),
                                Ok(value) => (
                                    Ok(Term::LetBinding(name.value, Box::new(value))),
                                    q4,
                                ),
                            }
                        } else {
                            stalled(q3)
                        },
                    }
                },
            }
        },
    }
}

/// `{`, one or more expressions with `;` after each, and `}`.
pub open spec fn parse_block(p: ParserView) -> Parsed
    decreases weight(p), 4int, 0int,
{
    let (r, q1) = expect(p, TokenType::LCurlyBrace);
    match r {
        Err(e) => (Err(e), q1),
        Ok(_) => if weight(q1) < weight(p) {
            parse_block_items(Seq::empty(), q1)
        } else {
            stalled(q1)
        },
    }
}

/// The expressions of a block after `done`, up to the closing brace.
pub open spec fn parse_block_items(done: Seq<Term>, p: ParserView) -> Parsed
    decreases weight(p), 12int, 0int,
{
    let (r, q1) = accept(p, TokenType::RCurlyBrace);
    match r {
        Err(e) => (Err(e), q1),
        Ok(Some(_)) => if done.len() == 0 {
            (Err(SyntaxFault::EmptyBlock), q1)
        } else {
            (Ok(Term::Block(done)), q1)
        },
        Ok(None) => if weight(q1) <= weight(p) {
            let (re, q2) = parse_expression(q1);
            match re {
                Err(e) => (Err(e), q2),
                Ok(item) => {
                    let (rs, q3) = expect(q2, TokenType::Semicolon);
                    match rs {
                        Err(e) => (Err(e), q3),
                        Ok(_) => if weight(q3) < weight(p) {
                            parse_block_items(done.push(item), q3)
                        } else {
                            stalled(q3)
                        },
                    }
                },
            }
        } else {
            stalled(q1)
        },
    }
}

/// `if`, a condition, a block, `else` and a block.
pub open spec fn parse_if(p: ParserView) -> Parsed
    decreases weight(p), 5int, 0int,
{
    let (r1, q1) = expect(p, TokenType::If);
    match r1 {
        Err(e) => (Err(e), q1),
        Ok(_) => if weight(q1) < weight(p) {
            let (r2, q2) = parse_expression(q1);
            match r2 {
                Err(e) => (Err(e), q2),
                Ok(condition) => if weight(q2) < weight(p) {
                    let (r3, q3) = parse_block(q2);
                    match r3 {
                        Err(e) => (Err(e), q3),
                        Ok(when_true) => {
                            let (r4, q4) = expect(q3, TokenType::Else);
                            match r4 {
                                Err(e) => (Err(e), q4),
                                Ok(_) => if weight(q4) < weight(p) {
                                    let (r5, q5) = parse_block(q4);
                                    match r5 {
                                        Err(e) => (Err(e), q5),
                                        Ok(when_false) => (
                                            Ok(
                                                Term::IfExpression(
                                                    Box::new(condition),
                                                    Box::new(when_true),
                                                    Box::new(when_false),
                                                ),
                                            ),
                                            q5,
                                        ),
                                    }
                                } else {
                                    stalled(q4)
                                },
                            }
                        },
                    }
                } else {
                    stalled(q2)
                },
            }
        } else {
            stalled(q1)
        },
    }
}

/// `while`, a condition and a block.
pub open spec fn parse_while(p: ParserView) -> Parsed
    decreases weight(p), 5int, 0int,
{
    let (r1, q1) = expect(p, TokenType::While);
    match r1 {
        Err(e) => (Err(e), q1),
        Ok(_) => if weight(q1) < weight(p) {
            let (r2, q2) = parse_expression(q1);
            match r2 {
                Err(e) => (Err(e), q2),
                Ok(condition) => if weight(q2) < weight(p) {
                    let (r3, q3) = parse_block(q2);
                    match r3 {
                        Err(e) => (Err(e), q3),
                        Ok(body) => (Ok(Term::While(Box::new(condition), Box::new(body))), q3),
                    }
                } else {
                    stalled(q2)
                },
            }
        } else {
            stalled(q1)
        },
    }
}

/// `fn`, a parenthesized list of parameter names separated by commas, and a
/// block.
pub open spec fn parse_fn(p: ParserView) -> Parsed
    decreases weight(p), 5int, 0int,
{
    let (r1, q1) = expect(p, TokenType::Fn);
    match r1 {
        Err(e) => (Err(e), q1),
        Ok(_) => {
            let (r2, q2) = expect(q1, TokenType::LParen);
            match r2 {
                Err(e) => (Err(e), q2),
                Ok(_) => if weight(q2) < weight(p) {
                    parse_params(Seq::empty(), true, q2)
                } else {
                    stalled(q2)
                },
            }
        },
    }
}

/// The parameter names after `names`, up to the closing parenthesis, and
/// the body after them.
pub open spec fn parse_params(names: Seq<Seq<char>>, separated: bool, p: ParserView) -> Parsed
    decreases weight(p), 12int, 0int,
{
    let (r, q1) = accept(p, TokenType::RParen);
    match r {
        Err(e) => (Err(e), q1),
        Ok(Some(_)) => if weight(q1) < weight(p) {
            let (rb, q2) = parse_block(q1);
            match rb {
                Err(e) => (Err(e), q2),
                Ok(body) => (Ok(curried(names, body)), q2),
            }
        } else {
            stalled(q1)
        },
        Ok(None) => if !separated {
            (Err(SyntaxFault::UnseparatedParameter), q1)
        } else {
            let (rn, q2) = expect(q1, TokenType::Identifier);
            match rn {
                Err(e) => (Err(e), q2),
                Ok(name) => {
                    let (rs, q3) = accept(q2, TokenType::Comma);
                    match rs {
                        Err(e) => (Err(e), q3),
                        Ok(comma) => if weight(q3) < weight(p) {
                            parse_params(names.push(name.value), comma is Some, q3)
                        } else {
                            stalled(q3)
                        },
                    }
                },
            }
        },
    }
}

/// `[`, items separated by commas, and `]`.
pub open spec fn parse_list(p: ParserView) -> Parsed
    decreases weight(p), 5int, 0int,
{
    let (r, q1) = expect(p, TokenType::LSquareBracket);
    match r {
        Err(e) => (Err(e), q1),
        Ok(_) => if weight(q1) < weight(p) {
            parse_list_items(Seq::empty(), true, q1)
        } else {
            stalled(q1)
        },
    }
}

/// The items of a list after `done`, up to the closing bracket.
pub open spec fn parse_list_items(done: Seq<Term>, separated: bool, p: ParserView) -> Parsed
    decreases weight(p), 12int, if separated {
        1int
    } else {
        0int
    },
{
    let (r, q1) = accept(p, TokenType::RSquareBracket);
    match r {
        Err(e) => (Err(e), q1),
        Ok(Some(_)) => (Ok(Term::List(done)), q1),
        Ok(None) => if !separated {
            (Err(SyntaxFault::UnseparatedItem), q1)
        } else if weight(q1) <= weight(p) {
            let (re, q2) = parse_expression(q1);
            match re {
                Err(e) => (Err(e), q2),
                Ok(item) => {
                    let (rs, q3) = accept(q2, TokenType::Comma);
                    match rs {
                        Err(e) => (Err(e), q3),
                        Ok(comma) => if weight(q3) < weight(p) || (weight(q3) == weight(p)
                            && comma is None) {
                            parse_list_items(done.push(item), comma is Some, q3)
                        } else {
                            stalled(q3)
                        },
                    }
                },
            }
        } else {
            stalled(q1)
        },
    }
}

/// A whole source text: expressions with `;` after each, up to the end.
pub open spec fn parse_program(p: ParserView) -> Parsed {
    parse_program_items(Seq::empty(), p)
}

/// The expressions of a program after `done`, up to the end of the text.
pub open spec fn parse_program_items(done: Seq<Term>, p: ParserView) -> Parsed
    decreases weight(p), 12int, 0int,
{
    let (r, q1) = accept(p, TokenType::EOF);
    match r {
        Err(e) => (Err(e), q1),
        Ok(Some(_)) => (Ok(Term::Program(done)), q1),
        Ok(None) => if weight(q1) <= weight(p) {
            let (re, q2) = parse_expression(q1);
            match re {
                Err(e) => (Err(e), q2),
                Ok(item) => {
                    let (rs, q3) = expect(q2, TokenType::Semicolon);
                    match rs {
                        Err(e) => (Err(e), q3),
                        Ok(_) => if weight(q3) < weight(p) {
                            parse_program_items(done.push(item), q3)
                        } else {
                            stalled(q3)
                        },
                    }
                },
            }
        } else {
            stalled(q1)
        },
    }
}

/// The model of the outcome of a parse.
pub open spec fn parsed(r: Result<Expression, SyntaxError>) -> Result<Term, SyntaxFault> {
    match r {
        Ok(e) => Ok(e@),
        Err(e) => Err(e@),
    }
}

/// The texts of a sequence of strings.
pub open spec fn texts_of(names: Seq<String>) -> Seq<Seq<char>> {
    Seq::new(names.len(), |i: int| names[i]@)
}

/// A parser over one source text.
pub struct Parser {
    lexer: Lexer,
    lexed_token: Option<Token>,
}

impl View for Parser {
    type V = ParserView;

    closed spec fn view(&self) -> ParserView {
        ParserView {
            source: self.lexer@.source,
            index: self.lexer@.index,
            pending: match self.lexed_token {
                Some(t) => Some(t@),
                None => None,
            },
        }
    }
}

/// The function of the given parameters around `body`.
fn curry(names: Vec<String>, body: Expression) -> (out: Expression)
    ensures
        out@ == curried(texts_of(names@), body@),
{
    let ghost all = texts_of(names@);
    let ghost inner = body@;
    let mut names = names;
    let mut last_fn = match names.pop() {
        Some(name) => Expression::Fn(Some(name), Box::new(body)),
        None => {
            return Expression::Fn(None, Box::new(body));
        },
    };
    assert(all.subrange(names@.len() as int, all.len() as int).len() == 1);
    while names.len() > 0
        invariant
            names@.len() < all.len(),
            texts_of(names@) == all.subrange(0, names@.len() as int),
            last_fn@ == curried(all.subrange(names@.len() as int, all.len() as int), inner),
        decreases names@.len(),
    {
        let ghost before = names@;
        let ghost rest = all.subrange(names@.len() as int, all.len() as int);
        match names.pop() {
            Some(name) => {
                last_fn = Expression::Fn(Some(name), Box::new(last_fn));
                proof {
                    let now = all.subrange(names@.len() as int, all.len() as int);
                    assert(name@ == texts_of(before)[before.len() - 1]);
                    assert(now[0] == name@);
                    assert(now.drop_first() =~= rest);
                    assert(texts_of(names@) =~= all.subrange(0, names@.len() as int));
                }
            },
            None => {},
        }
    }
    assert(all.subrange(0, all.len() as int) =~= all);
    last_fn
}

impl Parser {
    /// A parser at the start of `input`.
    pub fn new(input: String) -> (parser: Parser)
        ensures
            parser@ == (ParserView { source: input@, index: 0, pending: None }),
    {
        Parser { lexer: Lexer::new(input), lexed_token: None }
    }

    /// The next token, which stays the next one.
    fn peek_token(&mut self) -> (r: Result<Token, SyntaxError>)
        ensures
            token_outcome(r) == peek(old(self)@).0,
            final(self)@ == peek(old(self)@).1,
            weight(final(self)@) <= weight(old(self)@),
    {
        match &self.lexed_token {
            Some(token) => {
                return Ok(token.clone());
            },
            None => {},
        }
        match self.lexer.next_token() {
            Ok(token) => {
                self.lexed_token = Some(token.clone());
                Ok(token)
            },
            Err(e) => Err(e),
        }
    }

    /// Consumes the token that was read ahead.
    fn consume_token(&mut self)
        ensures
            final(self)@ == advance(old(self)@),
    {
        self.lexed_token = None;
    }

    /// Consumes the next token, which must be of the given kind.
    fn expect(&mut self, expected_type: TokenType) -> (r: Result<Token, SyntaxError>)
        ensures
            token_outcome(r) == expect(old(self)@, expected_type).0,
            final(self)@ == expect(old(self)@, expected_type).1,
            weight(final(self)@) <= weight(old(self)@),
            r is Ok && expected_type != TokenType::EOF ==> weight(final(self)@) < weight(
                old(self)@,
            ),
    {
        let tok = match self.peek_token() {
            Ok(tok) => tok,
            Err(e) => {
                return Err(e);
            },
        };
        if tok.token_type == expected_type {
            self.consume_token();
            Ok(tok)
        } else {
            Err(SyntaxError::UnexpectedToken(expected_type, tok))
        }
    }

    /// Consumes the next token if it is of the given kind.
    fn accept(&mut self, token_type: TokenType) -> (r: Result<Option<Token>, SyntaxError>)
        ensures
            (match r {
                Ok(Some(t)) => Ok::<Option<TokenView>, SyntaxFault>(Some(t@)),
                Ok(None) => Ok::<Option<TokenView>, SyntaxFault>(None),
                Err(e) => Err::<Option<TokenView>, SyntaxFault>(e@),
            }) == accept(old(self)@, token_type).0,
            final(self)@ == accept(old(self)@, token_type).1,
            weight(final(self)@) <= weight(old(self)@),
            r is Ok && r->Ok_0 is Some && token_type != TokenType::EOF ==> weight(final(self)@)
                < weight(old(self)@),
    {
        let tok = match self.peek_token() {
            Ok(tok) => tok,
            Err(e) => {
                return Err(e);
            },
        };
        if tok.token_type == token_type {
            self.consume_token();
            Ok(Some(tok))
        } else {
            Ok(None)
        }
    }

    /// Parses `let <identifier> = <expression>`.
    fn parse_let_expression(&mut self) -> (r: Result<Expression, SyntaxError>)
        ensures
            parsed(r) == parse_let(old(self)@).0,
            final(self)@ == parse_let(old(self)@).1,
            weight(final(self)@) <= weight(old(self)@),
        decreases weight(old(self)@), 5int, 0int,
    {
        match self.expect(TokenType::Let) {
            Ok(_) => {},
            Err(e) => {
                return Err(e);
            },
        }
        let variable_name = match self.expect(TokenType::Identifier) {
            Ok(token) => token.value,
            Err(e) => {
                return Err(e);
            },
        };
        match self.expect(TokenType::AssignmentOperator) {
            Ok(_) => {},
            Err(e) => {
                return Err(e);
            },
        }
        match self.parse_expression() {
            Ok(expression) => Ok(Expression::LetBinding(variable_name, Box::new(expression))),
            Err(e) => Err(e),
        }
    }

    /// Parses `{ <one or more expressions, each followed by ;> }`.
    fn parse_block(&mut self) -> (r: Result<Expression, SyntaxError>)
        ensures
            parsed(r) == parse_block(old(self)@).0,
            final(self)@ == parse_block(old(self)@).1,
            weight(final(self)@) <= weight(old(self)@),
        decreases weight(old(self)@), 4int, 0int,
    {
        match self.expect(TokenType::LCurlyBrace) {
            Ok(_) => {},
            Err(e) => {
                return Err(e);
            },
        }
        let ghost start = self@;
        let mut expressions: Vec<Expression> = Vec::new();
        assert(terms_of(expressions@) =~= Seq::<Term>::empty());
        loop
            invariant
                parse_block(old(self)@) == parse_block_items(Seq::empty(), start),
                weight(start) < weight(old(self)@),
                weight(self@) <= weight(start),
                parse_block_items(terms_of(expressions@), self@) == parse_block_items(
                    Seq::empty(),
                    start,
                ),
            decreases weight(self@),
        {
            match self.accept(TokenType::RCurlyBrace) {
                Ok(Some(_)) => {
                    assert(terms_of(expressions@).len() == expressions@.len());
                    if expressions.len() == 0 {
                        return Err(SyntaxError::EmptyBlock);
                    }
                    return Ok(Expression::Block(expressions));
                },
                Ok(None) => {},
                Err(e) => {
                    return Err(e);
                },
            }
            let item = match self.parse_expression() {
                Ok(item) => item,
                Err(e) => {
                    return Err(e);
                },
            };
            match self.expect(TokenType::Semicolon) {
                Ok(_) => {},
                Err(e) => {
                    return Err(e);
                },
            }
            let ghost done = terms_of(expressions@);
            expressions.push(item);
            assert(terms_of(expressions@) =~= done.push(item@));
        }
    }

    /// Parses `if <condition> <block> else <block>`.
    fn parse_if_expression(&mut self) -> (r: Result<Expression, SyntaxError>)
        ensures
            parsed(r) == parse_if(old(self)@).0,
            final(self)@ == parse_if(old(self)@).1,
            weight(final(self)@) <= weight(old(self)@),
        decreases weight(old(self)@), 5int, 0int,
    {
        match self.expect(TokenType::If) {
            Ok(_) => {},
            Err(e) => {
                return Err(e);
            },
        }
        let condition = match self.parse_expression() {
            Ok(e) => e,
            Err(e) => {
                return Err(e);
            },
        };
        let when_true_block = match self.parse_block() {
            Ok(e) => e,
            Err(e) => {
                return Err(e);
            },
        };
        match self.expect(TokenType::Else) {
            Ok(_) => {},
            Err(e) => {
                return Err(e);
            },
        }
        let when_false_block = match self.parse_block() {
            Ok(e) => e,
            Err(e) => {
                return Err(e);
            },
        };
        Ok(
            Expression::IfExpression(
                Box::new(condition),
                Box::new(when_true_block),
                Box::new(when_false_block),
            ),
        )
    }

    /// Parses `while <condition> <block>`.
    fn parse_while(&mut self) -> (r: Result<Expression, SyntaxError>)
        ensures
            parsed(r) == parse_while(old(self)@).0,
            final(self)@ == parse_while(old(self)@).1,
            weight(final(self)@) <= weight(old(self)@),
        decreases weight(old(self)@), 5int, 0int,
    {
        match self.expect(TokenType::While) {
            Ok(_) => {},
            Err(e) => {
                return Err(e);
            },
        }
        let condition = match self.parse_expression() {
            Ok(e) => e,
            Err(e) => {
                return Err(e);
            },
        };
        match self.parse_block() {
            Ok(body) => Ok(Expression::While(Box::new(condition), Box::new(body))),
            Err(e) => Err(e),
        }
    }

    /// Parses `fn (<parameter names, separated by ,>) <block>`.
    fn parse_fn_declaration(&mut self) -> (r: Result<Expression, SyntaxError>)
        ensures
            parsed(r) == parse_fn(old(self)@).0,
            final(self)@ == parse_fn(old(self)@).1,
            weight(final(self)@) <= weight(old(self)@),
        decreases weight(old(self)@), 5int, 0int,
    {
        match self.expect(TokenType::Fn) {
            Ok(_) => {},
            Err(e) => {
                return Err(e);
            },
        }
        match self.expect(TokenType::LParen) {
            Ok(_) => {},
            Err(e) => {
                return Err(e);
            },
        }
        let ghost start = self@;
        let mut argument_names: Vec<String> = Vec::new();
        let mut was_separated = true;
        assert(texts_of(argument_names@) =~= Seq::<Seq<char>>::empty());
        loop
            invariant
                parse_fn(old(self)@) == parse_params(Seq::empty(), true, start),
                weight(start) < weight(old(self)@),
                weight(self@) <= weight(start),
                parse_params(texts_of(argument_names@), was_separated, self@) == parse_params(
                    Seq::empty(),
                    true,
                    start,
                ),
            decreases weight(self@),
        {
            match self.accept(TokenType::RParen) {
                Ok(Some(_)) => {
                    return match self.parse_block() {
                        Ok(fn_body) => Ok(curry(argument_names, fn_body)),
                        Err(e) => Err(e),
                    };
                },
                Ok(None) => {},
                Err(e) => {
                    return Err(e);
                },
            }
            if !was_separated {
                return Err(SyntaxError::UnseparatedParameter);
            }
            let argument_name = match self.expect(TokenType::Identifier) {
                Ok(token) => token,
                Err(e) => {
                    return Err(e);
                },
            };
            let separator = match self.accept(TokenType::Comma) {
                Ok(separator) => separator,
                Err(e) => {
                    return Err(e);
                },
            };
            let ghost names = texts_of(argument_names@);
            argument_names.push(argument_name.value);
            assert(texts_of(argument_names@) =~= names.push(argument_name.value@));
            was_separated = separator.is_some();
        }
    }

    /// Parses `(<arguments, separated by ,>)` after `expr`, into one call
    /// for each argument.
    fn parse_fn_call(&mut self, expr: Expression) -> (r: Result<Expression, SyntaxError>)
        ensures
            parsed(r) == parse_fn_call(expr@, old(self)@).0,
            final(self)@ == parse_fn_call(expr@, old(self)@).1,
            weight(final(self)@) <= weight(old(self)@),
            r is Ok ==> weight(final(self)@) < weight(old(self)@),
        decreases weight(old(self)@), 8int, 0int,
    {
        match self.expect(TokenType::LParen) {
            Ok(_) => {},
            Err(e) => {
                return Err(e);
            },
        }
        let ghost start = self@;
        let mut was_separated = true;
        let mut applied = false;
        let mut fn_call = expr;
        loop
            invariant
                parse_fn_call(expr@, old(self)@) == parse_args(expr@, false, true, start),
                weight(start) < weight(old(self)@),
                weight(self@) <= weight(start),
                parse_args(fn_call@, applied, was_separated, self@) == parse_args(
                    expr@,
                    false,
                    true,
                    start,
                ),
            decreases
                    weight(self@),
                    if was_separated {
                        1int
                    } else {
                        0int
                    },
        {
            match self.accept(TokenType::RParen) {
                Ok(Some(_)) => {
                    if applied {
                        return Ok(fn_call);
                    }
                    return Ok(Expression::FnCall(Box::new(fn_call), Box::new(None)));
                },
                Ok(None) => {},
                Err(e) => {
                    return Err(e);
                },
            }
            if !was_separated {
                return Err(SyntaxError::UnseparatedArgument);
            }
            let argument = match self.parse_expression() {
                Ok(argument) => argument,
                Err(e) => {
                    return Err(e);
                },
            };
            let separator = match self.accept(TokenType::Comma) {
                Ok(separator) => separator,
                Err(e) => {
                    return Err(e);
                },
            };
            fn_call = Expression::FnCall(Box::new(fn_call), Box::new(Some(argument)));
            applied = true;
            was_separated = separator.is_some();
        }
    }

    /// Parses `[<items, separated by ,>]`.
    fn parse_list(&mut self) -> (r: Result<Expression, SyntaxError>)
        ensures
            parsed(r) == parse_list(old(self)@).0,
            final(self)@ == parse_list(old(self)@).1,
            weight(final(self)@) <= weight(old(self)@),
        decreases weight(old(self)@), 5int, 0int,
    {
        match self.expect(TokenType::LSquareBracket) {
            Ok(_) => {},
            Err(e) => {
                return Err(e);
            },
        }
        let ghost start = self@;
        let mut items: Vec<Expression> = Vec::new();
        let mut was_separated = true;
        assert(terms_of(items@) =~= Seq::<Term>::empty());
        loop
            invariant
                parse_list(old(self)@) == parse_list_items(Seq::empty(), true, start),
                weight(start) < weight(old(self)@),
                weight(self@) <= weight(start),
                parse_list_items(terms_of(items@), was_separated, self@) == parse_list_items(
                    Seq::empty(),
                    true,
                    start,
                ),
            decreases
                    weight(self@),
                    if was_separated {
                        1int
                    } else {
                        0int
                    },
        {
            match self.accept(TokenType::RSquareBracket) {
                Ok(Some(_)) => {
                    return Ok(Expression::List(items));
                },
                Ok(None) => {},
                Err(e) => {
                    return Err(e);
                },
            }
            if !was_separated {
                return Err(SyntaxError::UnseparatedItem);
            }
            let item = match self.parse_expression() {
                Ok(item) => item,
                Err(e) => {
                    return Err(e);
                },
            };
            let separator = match self.accept(TokenType::Comma) {
                Ok(separator) => separator,
                Err(e) => {
                    return Err(e);
                },
            };
            let ghost done = terms_of(items@);
            items.push(item);
            assert(terms_of(items@) =~= done.push(item@));
            was_separated = separator.is_some();
        }
    }

    /// Parses a whole source text.
    pub fn parse_program(&mut self) -> (r: Result<Expression, SyntaxError>)
        ensures
            parsed(r) == parse_program(old(self)@).0,
            final(self)@ == parse_program(old(self)@).1,
    {
        let ghost start = self@;
        let mut expressions: Vec<Expression> = Vec::new();
        assert(terms_of(expressions@) =~= Seq::<Term>::empty());
        loop
            invariant
                start == old(self)@,
                parse_program_items(terms_of(expressions@), self@) == parse_program_items(
                    Seq::empty(),
                    start,
                ),
            decreases weight(self@),
        {
            match self.accept(TokenType::EOF) {
                Ok(Some(_)) => {
                    return Ok(Expression::Program(expressions));
                },
                Ok(None) => {},
                Err(e) => {
                    return Err(e);
                },
            }
            let item = match self.parse_expression() {
                Ok(item) => item,
                Err(e) => {
                    return Err(e);
                },
            };
            match self.expect(TokenType::Semicolon) {
                Ok(_) => {},
                Err(e) => {
                    return Err(e);
                },
            }
            let ghost done = terms_of(expressions@);
            expressions.push(item);
            assert(terms_of(expressions@) =~= done.push(item@));
        }
    }

    /// Parses one expression.
    pub fn parse_expression(&mut self) -> (r: Result<Expression, SyntaxError>)
        ensures
            parsed(r) == parse_expression(old(self)@).0,
            final(self)@ == parse_expression(old(self)@).1,
            weight(final(self)@) <= weight(old(self)@),
        decreases weight(old(self)@), 10int, 0int,
    {
        let token = match self.peek_token() {
            Ok(token) => token,
            Err(e) => {
                return Err(e);
            },
        };
        let first = match token.token_type {
            TokenType::Let => self.parse_let_expression(),
            TokenType::If => self.parse_if_expression(),
            TokenType::Fn => self.parse_fn_declaration(),
            TokenType::While => self.parse_while(),
            TokenType::LSquareBracket => self.parse_list(),
            TokenType::Identifier => {
                self.consume_token();
                Ok(Expression::Identifier(token.value))
            },
            TokenType::Integer => {
                self.consume_token();
                match parse_u64(token.value.as_str()) {
                    Some(n) => Ok(Expression::IntegerValue(n)),
                    None => Err(SyntaxError::IntegerOutOfRange(token.value)),
                }
            },
            TokenType::StringLiteral => {
                self.consume_token();
                Ok(Expression::StringValue(token.value))
            },
            TokenType::True => {
                self.consume_token();
                Ok(Expression::BooleanValue(true))
            },
            TokenType::False => {
                self.consume_token();
                Ok(Expression::BooleanValue(false))
            },
            TokenType::EOF => Ok(Expression::EndOfProgram),
            _ => Err(SyntaxError::NoExpression(token)),
        };
        let mut expr = match first {
            Ok(expr) => expr,
            Err(e) => {
                return Err(e);
            },
        };
        let ghost start = self@;
        let ghost head = expr@;
        loop
            invariant
                parse_expression(old(self)@) == parse_calls(head, start),
                weight(start) <= weight(old(self)@),
                weight(self@) <= weight(start),
                parse_calls(expr@, self@) == parse_calls(head, start),
            decreases weight(self@),
        {
            let next = match self.peek_token() {
                Ok(next) => next,
                Err(e) => {
                    return Err(e);
                },
            };
            if next.token_type != TokenType::LParen {
                return Ok(expr);
            }
            expr = match self.parse_fn_call(expr) {
                Ok(call) => call,
                Err(e) => {
                    return Err(e);
                },
            };
        }
    }
}

} // verus!
