//! Progress of the tokenizer and the parser: reading never moves backwards
//! or past the end of the text, and parsing never leaves more to parse than
//! there was.

use vstd::prelude::*;
use crate::ast::Term;
use crate::lexer::{
    TokenType,
    TokenView,
    is_delimiter,
    is_space,
    is_word_char,
    lex,
    lex_at,
    scan_integer,
    scan_string,
    scan_word,
    skip_line,
    skip_spaces,
};
use crate::text::is_digit;
use crate::parser::{
    ParserView,
    accept,
    expect,
    parse_args,
    parse_block,
    parse_block_items,
    parse_calls,
    parse_expression,
    parse_fn,
    parse_fn_call,
    parse_head,
    parse_if,
    parse_let,
    parse_list,
    parse_list_items,
    parse_params,
    parse_program,
    parse_program_items,
    parse_while,
    peek,
    weight,
};

verus! {

/// Whether `j` is a position of `s` from `i` on. Beyond the end of the text
/// nothing moves.
pub open spec fn moves_on(s: Seq<char>, i: nat, j: nat) -> bool {
    i <= j && (i <= s.len() ==> j <= s.len())
}

proof fn lemma_skip_spaces(s: Seq<char>, i: nat)
    ensures
        moves_on(s, i, skip_spaces(s, i)),
        skip_spaces(s, i) < s.len() ==> !is_space(s[skip_spaces(s, i) as int]),
    decreases s.len() - i,
{
    if i < s.len() && is_space(s[i as int]) {
        lemma_skip_spaces(s, i + 1);
    }
}

proof fn lemma_skip_line(s: Seq<char>, i: nat)
    ensures
        moves_on(s, i, skip_line(s, i)),
    decreases s.len() - i,
{
    if i < s.len() && s[i as int] != '\n' {
        lemma_skip_line(s, i + 1);
    }
}

proof fn lemma_scan_word_moves(s: Seq<char>, i: nat, acc: Seq<char>)
    ensures
        moves_on(s, i, scan_word(s, i, acc).1),
        scan_word(s, i, acc).0 is Ok && i < s.len() && !is_delimiter(s[i as int]) ==> i
            < scan_word(s, i, acc).1,
    decreases s.len() - i,
{
    if i < s.len() && !is_delimiter(s[i as int]) && is_word_char(s[i as int]) {
        lemma_scan_word_moves(s, i + 1, acc.push(s[i as int]));
    }
}

proof fn lemma_scan_integer_moves(s: Seq<char>, i: nat, acc: Seq<char>)
    ensures
        moves_on(s, i, scan_integer(s, i, acc).1),
        scan_integer(s, i, acc).0 is Ok && i < s.len() && !is_delimiter(s[i as int]) ==> i
            < scan_integer(s, i, acc).1,
    decreases s.len() - i,
{
    if i < s.len() && !is_delimiter(s[i as int]) && is_digit(s[i as int]) {
        lemma_scan_integer_moves(s, i + 1, acc.push(s[i as int]));
    }
}

proof fn lemma_scan_string_moves(s: Seq<char>, i: nat, acc: Seq<char>)
    ensures
        moves_on(s, i, scan_string(s, i, acc).1),
    decreases s.len() - i,
{
    if i < s.len() && s[i as int] != '"' {
        lemma_scan_string_moves(s, i + 1, acc.push(s[i as int]));
    }
}

/// Reading a token never moves backwards nor past the end of the text, and
/// a token other than `EOF` takes at least one character.
pub proof fn lemma_lex_moves(s: Seq<char>, i: nat)
    ensures
        moves_on(s, i, lex(s, i).1),
        lex(s, i).0 is Ok && lex(s, i).0->Ok_0.token_type != TokenType::EOF ==> i < lex(s, i).1
            <= s.len(),
    decreases s.len() - i,
{
    reveal(lex);
    lemma_skip_spaces(s, i);
    let j = skip_spaces(s, i);
    if j < s.len() {
        let c = s[j as int];
        if c == '%' {
            lemma_skip_line(s, j + 1);
            lemma_lex_moves(s, skip_line(s, j + 1));
        } else {
            lemma_scan_integer_moves(s, j, Seq::empty());
            lemma_scan_string_moves(s, j + 1, Seq::empty());
            lemma_scan_word_moves(s, j, Seq::empty());
            assert(lex(s, i) == lex_at(s, j, c));
        }
    }
}

/// Reading a token ahead never leaves more to parse than there was.
pub proof fn lemma_peek(p: ParserView)
    ensures
        weight(peek(p).1) <= weight(p),
        peek(p).0 is Ok ==> peek(p).1.pending == Some(peek(p).0->Ok_0),
{
    lemma_lex_moves(p.source, p.index);
}

proof fn lemma_expect(p: ParserView, kind: TokenType)
    ensures
        weight(expect(p, kind).1) <= weight(p),
        expect(p, kind).0 is Ok && kind != TokenType::EOF ==> weight(expect(p, kind).1) < weight(p),
{
    lemma_peek(p);
}

proof fn lemma_accept(p: ParserView, kind: TokenType)
    ensures
        weight(accept(p, kind).1) <= weight(p),
        accept(p, kind).0 is Ok && accept(p, kind).0->Ok_0 is Some && kind != TokenType::EOF
            ==> weight(accept(p, kind).1) < weight(p),
{
    lemma_peek(p);
}

/// Parsing an expression never leaves more to parse than there was.
pub proof fn lemma_expression_progress(p: ParserView)
    ensures
        weight(parse_expression(p).1) <= weight(p),
    decreases weight(p), 10int, 0int,
{
    lemma_peek(p);
    let (r, q1) = peek(p);
    if r is Ok {
        lemma_head(r->Ok_0, q1);
        let (first, q2) = parse_head(r->Ok_0, q1);
        if first is Ok {
            lemma_calls(first->Ok_0, q2);
        }
    }
}

/// Parsing the head of an expression never leaves more to parse than there
/// was.
pub proof fn lemma_head(t: TokenView, p: ParserView)
    ensures
        weight(parse_head(t, p).1) <= weight(p),
    decreases weight(p), 7int, 0int,
{
    match t.token_type {
        TokenType::Let => lemma_let(p),
        TokenType::If => lemma_if(p),
        TokenType::Fn => lemma_fn(p),
        TokenType::While => lemma_while(p),
        TokenType::LSquareBracket => lemma_list(p),
        _ => {},
    }
}

proof fn lemma_calls(e: Term, p: ParserView)
    ensures
        weight(parse_calls(e, p).1) <= weight(p),
    decreases weight(p), 9int, 0int,
{
    lemma_peek(p);
    let (r, q1) = peek(p);
    if r is Ok && r->Ok_0.token_type == TokenType::LParen {
        lemma_fn_call(e, q1);
        let (rc, q2) = parse_fn_call(e, q1);
        if rc is Ok {
            lemma_calls(rc->Ok_0, q2);
        }
    }
}

proof fn lemma_fn_call(callee: Term, p: ParserView)
    ensures
        weight(parse_fn_call(callee, p).1) <= weight(p),
        parse_fn_call(callee, p).0 is Ok ==> weight(parse_fn_call(callee, p).1) < weight(p),
    decreases weight(p), 8int, 0int,
{
    lemma_expect(p, TokenType::LParen);
    let (r, q1) = expect(p, TokenType::LParen);
    if r is Ok {
        lemma_args(callee, false, true, q1);
    }
}

proof fn lemma_args(current: Term, applied: bool, separated: bool, p: ParserView)
    ensures
        weight(parse_args(current, applied, separated, p).1) <= weight(p),
    decreases weight(p), 12int, if separated {
        1int
    } else {
        0int
    },
{
    lemma_accept(p, TokenType::RParen);
    let (r, q1) = accept(p, TokenType::RParen);
    if r is Ok && r->Ok_0 is None && separated {
        lemma_expression_progress(q1);
        let (ra, q2) = parse_expression(q1);
        if ra is Ok {
            lemma_accept(q2, TokenType::Comma);
            let (rs, q3) = accept(q2, TokenType::Comma);
            if rs is Ok {
                lemma_args(
                    Term::FnCall(Box::new(current), Some(Box::new(ra->Ok_0))),
                    true,
                    rs->Ok_0 is Some,
                    q3,
                );
            }
        }
    }
}

proof fn lemma_let(p: ParserView)
    ensures
        weight(parse_let(p).1) <= weight(p),
    decreases weight(p), 5int, 0int,
{
    lemma_expect(p, TokenType::Let);
    let (r1, q1) = expect(p, TokenType::Let);
    if r1 is Ok {
        lemma_expect(q1, TokenType::Identifier);
        let (r2, q2) = expect(q1, TokenType::Identifier);
        if r2 is Ok {
            lemma_expect(q2, TokenType::AssignmentOperator);
            let (r3, q3) = expect(q2, TokenType::AssignmentOperator);
            if r3 is Ok {
                lemma_expression_progress(q3);
            }
        }
    }
}

proof fn lemma_block(p: ParserView)
    ensures
        weight(parse_block(p).1) <= weight(p),
    decreases weight(p), 4int, 0int,
{
    lemma_expect(p, TokenType::LCurlyBrace);
    let (r, q1) = expect(p, TokenType::LCurlyBrace);
    if r is Ok {
        lemma_block_items(Seq::empty(), q1);
    }
}

proof fn lemma_block_items(done: Seq<Term>, p: ParserView)
    ensures
        weight(parse_block_items(done, p).1) <= weight(p),
    decreases weight(p), 12int, 0int,
{
    lemma_accept(p, TokenType::RCurlyBrace);
    let (r, q1) = accept(p, TokenType::RCurlyBrace);
    if r is Ok && r->Ok_0 is None {
        lemma_expression_progress(q1);
        let (re, q2) = parse_expression(q1);
        if re is Ok {
            lemma_expect(q2, TokenType::Semicolon);
            let (rs, q3) = expect(q2, TokenType::Semicolon);
            if rs is Ok {
                lemma_block_items(done.push(re->Ok_0), q3);
            }
        }
    }
}

proof fn lemma_if(p: ParserView)
    ensures
        weight(parse_if(p).1) <= weight(p),
    decreases weight(p), 5int, 0int,
{
    lemma_expect(p, TokenType::If);
    let (r1, q1) = expect(p, TokenType::If);
    if r1 is Ok {
        lemma_expression_progress(q1);
        let (r2, q2) = parse_expression(q1);
        if r2 is Ok {
            lemma_block(q2);
            let (r3, q3) = parse_block(q2);
            if r3 is Ok {
                lemma_expect(q3, TokenType::Else);
                let (r4, q4) = expect(q3, TokenType::Else);
                if r4 is Ok {
                    lemma_block(q4);
                }
            }
        }
    }
}

proof fn lemma_while(p: ParserView)
    ensures
        weight(parse_while(p).1) <= weight(p),
    decreases weight(p), 5int, 0int,
{
    lemma_expect(p, TokenType::While);
    let (r1, q1) = expect(p, TokenType::While);
    if r1 is Ok {
        lemma_expression_progress(q1);
        let (r2, q2) = parse_expression(q1);
        if r2 is Ok {
            lemma_block(q2);
        }
    }
}

proof fn lemma_fn(p: ParserView)
    ensures
        weight(parse_fn(p).1) <= weight(p),
    decreases weight(p), 5int, 0int,
{
    lemma_expect(p, TokenType::Fn);
    let (r1, q1) = expect(p, TokenType::Fn);
    if r1 is Ok {
        lemma_expect(q1, TokenType::LParen);
        let (r2, q2) = expect(q1, TokenType::LParen);
        if r2 is Ok {
            lemma_params(Seq::empty(), true, q2);
        }
    }
}

proof fn lemma_params(names: Seq<Seq<char>>, separated: bool, p: ParserView)
    ensures
        weight(parse_params(names, separated, p).1) <= weight(p),
    decreases weight(p), 12int, 0int,
{
    lemma_accept(p, TokenType::RParen);
    let (r, q1) = accept(p, TokenType::RParen);
    if r is Ok {
        if r->Ok_0 is Some {
            lemma_block(q1);
        } else if separated {
            lemma_expect(q1, TokenType::Identifier);
            let (rn, q2) = expect(q1, TokenType::Identifier);
            if rn is Ok {
                lemma_accept(q2, TokenType::Comma);
                let (rs, q3) = accept(q2, TokenType::Comma);
                if rs is Ok {
                    lemma_params(names.push(rn->Ok_0.value), rs->Ok_0 is Some, q3);
                }
            }
        }
    }
}

proof fn lemma_list(p: ParserView)
    ensures
        weight(parse_list(p).1) <= weight(p),
    decreases weight(p), 5int, 0int,
{
    lemma_expect(p, TokenType::LSquareBracket);
    let (r, q1) = expect(p, TokenType::LSquareBracket);
    if r is Ok {
        lemma_list_items(Seq::empty(), true, q1);
    }
}

proof fn lemma_list_items(done: Seq<Term>, separated: bool, p: ParserView)
    ensures
        weight(parse_list_items(done, separated, p).1) <= weight(p),
    decreases weight(p), 12int, if separated {
        1int
    } else {
        0int
    },
{
    lemma_accept(p, TokenType::RSquareBracket);
    let (r, q1) = accept(p, TokenType::RSquareBracket);
    if r is Ok && r->Ok_0 is None && separated {
        lemma_expression_progress(q1);
        let (re, q2) = parse_expression(q1);
        if re is Ok {
            lemma_accept(q2, TokenType::Comma);
            let (rs, q3) = accept(q2, TokenType::Comma);
            if rs is Ok {
                lemma_list_items(done.push(re->Ok_0), rs->Ok_0 is Some, q3);
            }
        }
    }
}

proof fn lemma_program_items(done: Seq<Term>, p: ParserView)
    ensures
        weight(parse_program_items(done, p).1) <= weight(p),
    decreases weight(p), 12int, 0int,
{
    lemma_accept(p, TokenType::EOF);
    let (r, q1) = accept(p, TokenType::EOF);
    if r is Ok && r->Ok_0 is None {
        lemma_expression_progress(q1);
        let (re, q2) = parse_expression(q1);
        if re is Ok {
            lemma_expect(q2, TokenType::Semicolon);
            let (rs, q3) = expect(q2, TokenType::Semicolon);
            if rs is Ok {
                lemma_program_items(done.push(re->Ok_0), q3);
            }
        }
    }
}

/// Parsing a program never leaves more to parse than there was.
pub proof fn lemma_program_progress(p: ParserView)
    ensures
        weight(parse_program(p).1) <= weight(p),
{
    lemma_program_items(Seq::empty(), p);
}

} // verus!
