//! Display forms that parse back: what the tokenizer and the parser make of
//! the display form of a term, and for which terms that is the term itself.

use vstd::prelude::*;
use crate::ast::Term;
use crate::lexer::{
    SyntaxFault,
    TokenType,
    TokenView,
    bare,
    is_delimiter,
    is_space,
    is_word_char,
    lex,
    lex_at,
    punctuation,
    scan_integer,
    scan_string,
    scan_word,
    skip_spaces,
    word_token,
};
use crate::parser::{
    ParserView,
    accept,
    advance,
    expect,
    parse_block,
    parse_block_items,
    parse_calls,
    parse_expression,
    parse_head,
    parse_if,
    parse_let,
    parse_list,
    parse_list_items,
    parse_program,
    parse_program_items,
    parse_while,
    peek,
    weight,
};
use crate::progress::{lemma_head, lemma_lex_moves, lemma_peek};
use crate::render::{render, render_first};
use crate::text::{
    all_digits,
    decimal,
    digit_char,
    digit_value,
    digits_value,
    is_digit,
    parse_decimal,
    unsigned_part,
};

verus! {

/// Whether `text` stands in `s` from position `i` on.
pub open spec fn stands_at(s: Seq<char>, i: nat, text: Seq<char>) -> bool {
    i + text.len() <= s.len() && s.subrange(i as int, (i + text.len()) as int) == text
}

/// Whether a word or an integer that ends before position `i` of `s` ends
/// there: the text ends, or a delimiter follows.
pub open spec fn ends_at(s: Seq<char>, i: nat) -> bool {
    i >= s.len() || is_delimiter(s[i as int])
}

/// Decimal notation is made of digits, at least one, and denotes the number
/// it was made from.
pub proof fn lemma_decimal_digits(v: nat)
    ensures
        decimal(v).len() >= 1,
        all_digits(decimal(v)),
        digits_value(decimal(v)) == v,
    decreases v,
{
    if v < 10 {
        let c = digit_char(v);
        assert(is_digit(c));
        assert(digit_value(c) == v);
        assert(decimal(v) == seq![c]);
        assert(decimal(v).drop_last() =~= Seq::<char>::empty());
        assert(digits_value(decimal(v).drop_last()) == 0);
    } else {
        lemma_decimal_digits(v / 10);
        let c = digit_char(v % 10);
        assert(is_digit(c));
        assert(digit_value(c) == v % 10);
        assert(decimal(v).drop_last() =~= decimal(v / 10));
        assert(decimal(v).last() == c);
        assert forall|k: int| 0 <= k < decimal(v).len() implies is_digit(
            #[trigger] decimal(v)[k],
        ) by {
            if k < decimal(v / 10).len() {
                assert(decimal(v)[k] == decimal(v / 10)[k]);
            }
        }
    }
}

/// The decimal notation of a number that fits in 64 bits reads back as that
/// number.
pub proof fn lemma_decimal_reads_back(v: u64)
    ensures
        parse_decimal(decimal(v as nat)) == Some(v),
{
    lemma_decimal_digits(v as nat);
    assert(is_digit(decimal(v as nat)[0]));
    assert(unsigned_part(decimal(v as nat)) == decimal(v as nat));
}

proof fn lemma_scan_integer(s: Seq<char>, i: nat, n: nat, acc: Seq<char>)
    requires
        i + n <= s.len(),
        forall|k: int| i <= k < i + n ==> is_digit(#[trigger] s[k]),
        ends_at(s, i + n),
    ensures
        scan_integer(s, i, acc) == (Ok::<Seq<char>, SyntaxFault>(acc + s.subrange(i as int, (i + n) as int)), i + n),
    decreases n,
{
    if n == 0 {
        assert(acc + s.subrange(i as int, (i + n) as int) =~= acc);
    } else {
        assert(is_digit(s[i as int]));
        lemma_scan_integer(s, i + 1, (n - 1) as nat, acc.push(s[i as int]));
        assert(acc.push(s[i as int]) + s.subrange((i + 1) as int, (i + n) as int) =~= acc + s.subrange(i as int, (i + n) as int));
    }
}

proof fn lemma_scan_word(s: Seq<char>, i: nat, n: nat, acc: Seq<char>)
    requires
        i + n <= s.len(),
        forall|k: int| i <= k < i + n ==> is_word_char(#[trigger] s[k]) && !is_delimiter(s[k]),
        ends_at(s, i + n),
    ensures
        scan_word(s, i, acc) == (Ok::<Seq<char>, SyntaxFault>(acc + s.subrange(i as int, (i + n) as int)), i + n),
    decreases n,
{
    if n == 0 {
        assert(acc + s.subrange(i as int, (i + n) as int) =~= acc);
    } else {
        assert(is_word_char(s[i as int]) && !is_delimiter(s[i as int]));
        lemma_scan_word(s, i + 1, (n - 1) as nat, acc.push(s[i as int]));
        assert(acc.push(s[i as int]) + s.subrange((i + 1) as int, (i + n) as int) =~= acc + s.subrange(i as int, (i + n) as int));
    }
}

proof fn lemma_scan_string(s: Seq<char>, i: nat, n: nat, acc: Seq<char>)
    requires
        i + n < s.len(),
        forall|k: int| i <= k < i + n ==> #[trigger] s[k] != '"',
        s[(i + n) as int] == '"',
    ensures
        scan_string(s, i, acc) == (
            Ok::<Seq<char>, SyntaxFault>(acc + s.subrange(i as int, (i + n) as int)),
            i + n + 1,
        ),
    decreases n,
{
    if n == 0 {
        assert(acc + s.subrange(i as int, (i + n) as int) =~= acc);
    } else {
        assert(s[i as int] != '"');
        lemma_scan_string(s, i + 1, (n - 1) as nat, acc.push(s[i as int]));
        assert(acc.push(s[i as int]) + s.subrange((i + 1) as int, (i + n) as int) =~= acc + s.subrange(i as int, (i + n) as int));
    }
}

/// The token at a position that holds no white space and starts no comment.
proof fn lemma_lex_here(s: Seq<char>, i: nat)
    requires
        i < s.len(),
        !is_space(s[i as int]),
        s[i as int] != '%',
    ensures
        lex(s, i) == lex_at(s, i, s[i as int]),
{
    reveal(lex);
    assert(skip_spaces(s, i) == i);
}

/// The decimal notation of `v`, where it ends, is read as one integer token.
pub proof fn lemma_lex_integer(s: Seq<char>, i: nat, v: u64)
    requires
        stands_at(s, i, decimal(v as nat)),
        ends_at(s, i + decimal(v as nat).len()),
    ensures
        lex(s, i) == (
            Ok::<TokenView, SyntaxFault>(
                TokenView { token_type: TokenType::Integer, value: decimal(v as nat) },
            ),
            i + decimal(v as nat).len(),
        ),
{
    let text = decimal(v as nat);
    let n = text.len();
    lemma_decimal_digits(v as nat);
    assert forall|k: int| i <= k < i + n implies is_digit(#[trigger] s[k]) by {
        assert(s[k] == s.subrange(i as int, (i + n) as int)[k - i]);
        assert(is_digit(text[k - i]));
    }
    assert(is_digit(s[i as int]));
    lemma_lex_here(s, i);
    assert(punctuation(s[i as int]) is None);
    lemma_scan_integer(s, i, n, Seq::empty());
    assert(Seq::<char>::empty() + s.subrange(i as int, (i + n) as int) =~= text);
}

/// The word `true` or `false`, where it ends, is read as the token of that
/// truth value.
pub proof fn lemma_lex_boolean(s: Seq<char>, i: nat, b: bool)
    requires
        stands_at(
            s,
            i,
            if b {
                "true"@
            } else {
                "false"@
            },
        ),
        ends_at(
            s,
            i + (if b {
                "true"@
            } else {
                "false"@
            }).len(),
        ),
    ensures
        lex(s, i) == (
            Ok::<TokenView, SyntaxFault>(
                bare(
                    if b {
                        TokenType::True
                    } else {
                        TokenType::False
                    },
                ),
            ),
            i + (if b {
                "true"@
            } else {
                "false"@
            }).len(),
        ),
{
    reveal_strlit("true");
    reveal_strlit("false");
    reveal_strlit("let");
    reveal_strlit("if");
    reveal_strlit("else");
    let text = if b {
        "true"@
    } else {
        "false"@
    };
    let n = text.len();
    assert forall|k: int| i <= k < i + n implies is_word_char(#[trigger] s[k]) && !is_delimiter(
        s[k],
    ) && !is_digit(s[k]) && s[k] != '"' && s[k] != '%' && punctuation(s[k]) is None by {
        assert(s[k] == s.subrange(i as int, (i + n) as int)[k - i]);
        assert(s[k] == text[k - i]);
    }
    assert(is_word_char(s[i as int]));
    lemma_lex_here(s, i);
    lemma_scan_word(s, i, n, Seq::empty());
    assert(Seq::<char>::empty() + s.subrange(i as int, (i + n) as int) =~= text);
    assert(text != "let"@ && text != "if"@);
    assert(text[0] != "else"@[0]);
    assert("false"@[0] != "true"@[0]);
    assert(word_token(text) == bare(
        if b {
            TokenType::True
        } else {
            TokenType::False
        },
    ));
}

/// A text without double quote, between double quotes, is read as one
/// string token that holds the text.
pub proof fn lemma_lex_string(s: Seq<char>, i: nat, body: Seq<char>)
    requires
        stands_at(s, i, "\""@ + body + "\""@),
        forall|k: int| 0 <= k < body.len() ==> #[trigger] body[k] != '"',
    ensures
        lex(s, i) == (
            Ok::<TokenView, SyntaxFault>(TokenView { token_type: TokenType::StringLiteral, value: body }),
            i + body.len() + 2,
        ),
{
    reveal_strlit("\"");
    let text = "\""@ + body + "\""@;
    assert(text.len() == body.len() + 2);
    assert forall|k: int| i <= k < i + text.len() implies #[trigger] s[k] == text[k - i] by {
        assert(s[k] == s.subrange(i as int, (i + text.len()) as int)[k - i]);
    }
    assert(s[i as int] == text[0]);
    assert(s[i as int] == '"');
    lemma_lex_here(s, i);
    assert(punctuation(s[i as int]) is None);
    assert forall|k: int| i + 1 <= k < i + 1 + body.len() implies #[trigger] s[k] != '"' by {
        assert(s[k] == text[k - i]);
        assert(text[k - i] == body[k - i - 1]);
    }
    assert(s[(i + 1 + body.len()) as int] == text[(body.len() + 1) as int]);
    lemma_scan_string(s, i + 1, body.len(), Seq::empty());
    assert(Seq::<char>::empty() + s.subrange((i + 1) as int, (i + 1 + body.len()) as int) =~= body);
}

/// Where a text stands, its two halves stand.
proof fn lemma_stands_split(s: Seq<char>, i: nat, a: Seq<char>, b: Seq<char>)
    requires
        stands_at(s, i, a + b),
    ensures
        stands_at(s, i, a),
        stands_at(s, i + a.len(), b),
{
    let t = a + b;
    assert forall|x: int| 0 <= x < t.len() implies s[i + x] == #[trigger] t[x] by {
        assert(s.subrange(i as int, (i + t.len()) as int)[x] == s[i + x]);
    }
    assert(s.subrange(i as int, (i + a.len()) as int) =~= a) by {
        assert forall|x: int| 0 <= x < a.len() implies s[i + x] == a[x] by {
            assert(t[x] == a[x]);
        }
    }
    assert(s.subrange((i + a.len()) as int, (i + a.len() + b.len()) as int) =~= b) by {
        assert forall|x: int| 0 <= x < b.len() implies s[i + a.len() + x] == b[x] by {
            assert(t[a.len() + x] == b[x]);
        }
    }
}

/// Where a text stands, each of its characters stands.
proof fn lemma_stands_char(s: Seq<char>, i: nat, text: Seq<char>, k: int)
    requires
        stands_at(s, i, text),
        0 <= k < text.len(),
    ensures
        s[i + k] == text[k],
{
    assert(s.subrange(i as int, (i + text.len()) as int)[k] == s[i + k]);
}

/// Where a text stands, what stands in that text stands.
proof fn lemma_stands_within(
    s: Seq<char>,
    base: nat,
    whole: Seq<char>,
    off: nat,
    part: Seq<char>,
)
    requires
        stands_at(s, base, whole),
        stands_at(whole, off, part),
    ensures
        stands_at(s, base + off, part),
{
    assert(s.subrange((base + off) as int, (base + off + part.len()) as int) =~= part) by {
        assert forall|x: int| 0 <= x < part.len() implies s[base + off + x] == part[x] by {
            lemma_stands_char(s, base, whole, off + x);
            lemma_stands_char(whole, off, part, x);
        }
    }
}

/// The token read from a position is the one that starts there or, after
/// one white space, at the next position.
proof fn lemma_lex_gap(s: Seq<char>, g: nat, i: nat)
    requires
        i < s.len(),
        !is_space(s[i as int]),
        s[i as int] != '%',
        g == i || (g + 1 == i && is_space(s[g as int])),
    ensures
        lex(s, g) == lex(s, i),
        lex(s, i) == lex_at(s, i, s[i as int]),
{
    reveal(lex);
    assert(skip_spaces(s, i) == i);
    assert(skip_spaces(s, g) == i);
}

/// Whether `word` is read as one word: it is made of word characters, at
/// least one, and starts neither with a digit nor with `=`.
pub open spec fn is_wordlike(word: Seq<char>) -> bool {
    &&& word.len() >= 1
    &&& forall|k: int| 0 <= k < word.len() ==> is_word_char(#[trigger] word[k])
    &&& !is_digit(word[0])
    &&& word[0] != '='
}

/// Whether `name` is read as an identifier of that name: it is read as one
/// word and is no keyword.
pub open spec fn is_name(name: Seq<char>) -> bool {
    is_wordlike(name) && word_token(name) == (TokenView {
        token_type: TokenType::Identifier,
        value: name,
    })
}

/// A word, where it ends, is read as the token that it stands for.
pub proof fn lemma_lex_word(s: Seq<char>, i: nat, word: Seq<char>)
    requires
        is_wordlike(word),
        stands_at(s, i, word),
        ends_at(s, i + word.len()),
    ensures
        lex(s, i) == (Ok::<TokenView, SyntaxFault>(word_token(word)), i + word.len()),
        !is_space(s[i as int]) && s[i as int] != '%',
{
    let n = word.len();
    assert forall|k: int| i <= k < i + n implies is_word_char(#[trigger] s[k]) && !is_delimiter(
        s[k],
    ) by {
        lemma_stands_char(s, i, word, k - i);
        assert(is_word_char(word[k - i]));
    }
    lemma_stands_char(s, i, word, 0);
    assert(is_word_char(s[i as int]) && !is_delimiter(s[i as int]));
    lemma_lex_here(s, i);
    assert(punctuation(s[i as int]) is None);
    lemma_scan_word(s, i, n, Seq::empty());
    assert(Seq::<char>::empty() + s.subrange(i as int, (i + n) as int) =~= word);
}

/// Parsing an expression gives the same whether its first token was read
/// ahead or not.
proof fn lemma_parse_after_peek(p: ParserView)
    requires
        peek(p).0 is Ok,
    ensures
        parse_expression(p) == parse_expression(peek(p).1),
{
    let (r, read) = peek(p);
    lemma_peek(p);
    lemma_head(r->Ok_0, read);
    assert(peek(read) == (r, read));
}

/// Whether the display form of `t` is one token that is read as `t`: `t`
/// is an integer, a truth value, a text without double quote, or an
/// identifier whose name is read as an identifier.
pub open spec fn is_atom(t: Term) -> bool {
    match t {
        Term::IntegerValue(_) => true,
        Term::BooleanValue(_) => true,
        Term::StringValue(body) => forall|k: int| 0 <= k < body.len() ==> #[trigger] body[k] != '"',
        Term::Identifier(name) => is_name(name),
        _ => false,
    }
}

/// The token that the display form of such a term is read as.
pub open spec fn atom_token(t: Term) -> TokenView {
    match t {
        Term::IntegerValue(v) => TokenView {
            token_type: TokenType::Integer,
            value: decimal(v as nat),
        },
        Term::BooleanValue(b) => bare(
            if b {
                TokenType::True
            } else {
                TokenType::False
            },
        ),
        Term::StringValue(body) => TokenView {
            token_type: TokenType::StringLiteral,
            value: body,
        },
        Term::Identifier(name) => TokenView { token_type: TokenType::Identifier, value: name },
        _ => bare(TokenType::EOF),
    }
}

/// The display form of such a term, where it ends, is read as one token.
pub proof fn lemma_lex_atom(t: Term, s: Seq<char>, i: nat)
    requires
        is_atom(t),
        stands_at(s, i, render(t)),
        ends_at(s, i + render(t).len()),
    ensures
        lex(s, i) == (Ok::<TokenView, SyntaxFault>(atom_token(t)), i + render(t).len()),
        render(t).len() >= 1,
{
    match t {
        Term::IntegerValue(v) => {
            lemma_decimal_digits(v as nat);
            lemma_lex_integer(s, i, v);
        },
        Term::BooleanValue(b) => {
            reveal_strlit("true");
            reveal_strlit("false");
            lemma_lex_boolean(s, i, b);
        },
        Term::StringValue(body) => {
            reveal_strlit("\"");
            lemma_lex_string(s, i, body);
        },
        Term::Identifier(name) => {
            lemma_lex_word(s, i, name);
        },
        _ => {},
    }
}

/// Whether the display form of `t` parses back to `t`, as proved below:
/// `t` is an integer, a truth value, a text without double quote, an
/// identifier whose name is read as one, a list of such terms, a binding of
/// such a term to such a name, or a conditional or a loop whose condition is
/// such a term and whose branches or body are blocks of such terms.
///
/// Nothing is stated of other terms, and these do not parse back: a
/// function, a built-in, `Null` and the end-of-program mark are shown as
/// placeholders; a call is shown in parentheses, with which no expression
/// starts; a text that holds a double quote ends at it; a block is an
/// expression only where a conditional, a loop or a function has its body,
/// and must hold an item there.
pub open spec fn parses_back(t: Term) -> bool
    decreases t,
{
    match t {
        Term::List(items) => forall|k: int| 0 <= k < items.len() ==> parses_back(#[trigger] items[k]),
        Term::LetBinding(name, value) => is_name(name) && parses_back(*value),
        Term::IfExpression(c, when_true, when_false) => parses_back(*c) && is_body(*when_true)
            && is_body(*when_false),
        Term::While(c, body) => parses_back(*c) && is_body(*body),
        _ => is_atom(t),
    }
}

/// Whether `t` is a block of at least one term, each of which parses back.
pub open spec fn is_body(t: Term) -> bool
    decreases t,
{
    match t {
        Term::Block(items) => items.len() >= 1 && forall|k: int|
            0 <= k < items.len() ==> parses_back(#[trigger] items[k]),
        _ => false,
    }
}

/// The display forms of the first `k` items of a list, as they stand between
/// its brackets.
pub open spec fn joined(items: Seq<Term>, k: nat) -> Seq<char> {
    render_first(items, k, ", "@, ""@)
}

/// Where the text before item `k` of a list starts whose display form stands
/// at `i`: for the first item at the item itself, for a later one at the
/// space after the comma.
pub open spec fn item_gap(items: Seq<Term>, i: nat, k: nat) -> nat {
    if k == 0 {
        i + 1
    } else {
        i + 1 + joined(items, k).len() + 1
    }
}

/// Where item `k` of a list starts whose display form stands at `i`.
pub open spec fn item_start(items: Seq<Term>, i: nat, k: nat) -> nat {
    if k == 0 {
        i + 1
    } else {
        i + 1 + joined(items, k).len() + 2
    }
}

proof fn lemma_joined_step(items: Seq<Term>, k: nat)
    requires
        k < items.len(),
    ensures
        joined(items, k + 1) =~= if k == 0 {
            render(items[0])
        } else {
            joined(items, k) + seq![',', ' '] + render(items[k as int])
        },
{
    reveal_strlit(", ");
    reveal_strlit("");
    assert(", "@ =~= seq![',', ' ']);
    assert(""@ =~= Seq::<char>::empty());
    if k == 0 {
        assert(joined(items, 1) == render(items[0]) + ""@);
    } else {
        assert(joined(items, k + 1) == joined(items, k) + ", "@ + render(items[k as int]) + ""@);
    }
}

proof fn lemma_joined_prefix(items: Seq<Term>, k: nat, n: nat)
    requires
        k <= n <= items.len(),
    ensures
        joined(items, k).len() <= joined(items, n).len(),
        joined(items, n).subrange(0, joined(items, k).len() as int) == joined(items, k),
    decreases n - k,
{
    if k == n {
        assert(joined(items, n).subrange(0, joined(items, k).len() as int) =~= joined(items, k));
    } else {
        lemma_joined_step(items, k);
        lemma_joined_prefix(items, k + 1, n);
        let longer = joined(items, k + 1);
        let whole = joined(items, n);
        assert(whole.subrange(0, longer.len() as int) == longer);
        assert(joined(items, 0) =~= Seq::<char>::empty());
        assert(longer.subrange(0, joined(items, k).len() as int) =~= joined(items, k));
        assert(whole.subrange(0, joined(items, k).len() as int) =~= whole.subrange(
            0,
            longer.len() as int,
        ).subrange(0, joined(items, k).len() as int));
    }
}

/// Where each part of the display form of a list stands.
proof fn lemma_list_layout(items: Seq<Term>, s: Seq<char>, i: nat, k: nat)
    requires
        stands_at(s, i, render(Term::List(items))),
        k < items.len(),
    ensures
        render(Term::List(items)).len() == joined(items, items.len()).len() + 2,
        s[i as int] == '[',
        s[(i + 1 + joined(items, items.len()).len()) as int] == ']',
        stands_at(s, item_start(items, i, k), render(items[k as int])),
        item_start(items, i, k) + render(items[k as int]).len() == i + 1 + joined(
            items,
            k + 1,
        ).len(),
        joined(items, k + 1).len() <= joined(items, items.len()).len(),
        k > 0 ==> s[item_gap(items, i, k) - 1] == ',' && s[item_gap(items, i, k) as int] == ' ',
        k + 1 < items.len() ==> s[(i + 1 + joined(items, k + 1).len()) as int] == ',',
{
    reveal_strlit("[");
    reveal_strlit("]");
    let n = items.len();
    let whole = joined(items, n);
    let text = render(Term::List(items));
    assert(text == "["@ + whole + "]"@);
    assert(text.len() == whole.len() + 2);
    assert forall|x: int| 0 <= x < text.len() implies s[i + x] == #[trigger] text[x] by {
        assert(s.subrange(i as int, (i + text.len()) as int)[x] == s[i + x]);
    }
    assert(text[0] == '[');
    assert(text[(whole.len() + 1) as int] == ']');
    assert forall|x: int| 0 <= x < whole.len() implies s[i + 1 + x] == #[trigger] whole[x] by {
        assert(text[x + 1] == whole[x]);
    }
    lemma_joined_step(items, k);
    lemma_joined_prefix(items, k + 1, n);
    let upto = joined(items, k + 1);
    assert forall|x: int| 0 <= x < upto.len() implies s[i + 1 + x] == #[trigger] upto[x] by {
        assert(whole.subrange(0, upto.len() as int)[x] == whole[x]);
    }
    let item = render(items[k as int]);
    let st = item_start(items, i, k);
    assert(s.subrange(st as int, (st + item.len()) as int) =~= item) by {
        assert forall|x: int| 0 <= x < item.len() implies s[st + x] == item[x] by {
            if k == 0 {
                assert(upto[x] == item[x]);
            } else {
                assert(upto[joined(items, k).len() + 2 + x] == item[x]);
            }
        }
    }
    if k > 0 {
        assert(upto[joined(items, k).len() as int] == ',');
        assert(upto[(joined(items, k).len() + 1) as int] == ' ');
    }
    if k + 1 < n {
        lemma_joined_step(items, k + 1);
        lemma_joined_prefix(items, k + 2, n);
        let further = joined(items, k + 2);
        assert(further[upto.len() as int] == ',');
        assert(whole.subrange(0, further.len() as int)[upto.len() as int] == whole[upto.len() as int]);
    }
}

/// The token that a punctuation character is read as.
proof fn lemma_lex_punctuation(s: Seq<char>, i: nat, kind: TokenType)
    requires
        i < s.len(),
        punctuation(s[i as int]) == Some(kind),
    ensures
        lex(s, i) == (Ok::<TokenView, SyntaxFault>(bare(kind)), i + 1),
{
    lemma_lex_here(s, i);
}

/// What parsing gives where the display form of `t` stands at position `i`
/// of `s` and the token after it is `next`, read up to position `j`: parsing
/// an expression from `i` gives `t` and leaves `next` read ahead, and so
/// does parsing from the state in which the first token of the display form
/// was read ahead; that first token closes no list and no block.
pub open spec fn parses_at(t: Term, s: Seq<char>, i: nat, next: TokenView, j: nat) -> bool {
    let start = ParserView { source: s, index: i, pending: None };
    let end = ParserView { source: s, index: j, pending: Some(next) };
    let (first, read) = peek(start);
    &&& render(t).len() >= 1
    &&& !is_space(s[i as int]) && s[i as int] != '%'
    &&& parse_expression(start) == (Ok::<Term, SyntaxFault>(t), end)
    &&& first is Ok
    &&& first->Ok_0.token_type != TokenType::RSquareBracket
    &&& first->Ok_0.token_type != TokenType::RCurlyBrace
    &&& first->Ok_0.token_type != TokenType::EOF
    &&& read == (ParserView { source: s, index: read.index, pending: Some(first->Ok_0) })
    &&& i < read.index <= i + render(t).len()
    &&& parse_expression(read) == (Ok::<Term, SyntaxFault>(t), end)
}

/// Where the display form of a term that parses back stands in a source text
/// and ends there, and the token after it is no opening parenthesis, parsing
/// an expression from its start gives the term back and leaves the parser
/// with that next token read ahead; and so does parsing from the state in
/// which the first token of the display form was read ahead.
pub proof fn lemma_parses_back(t: Term, s: Seq<char>, i: nat, next: TokenView, j: nat)
    requires
        parses_back(t),
        stands_at(s, i, render(t)),
        ends_at(s, i + render(t).len()),
        lex(s, i + render(t).len()) == (Ok::<TokenView, SyntaxFault>(next), j),
        next.token_type != TokenType::LParen,
    ensures
        parses_at(t, s, i, next, j),
    decreases t, 1int, 0int,
{
    let n = render(t).len();
    let p = ParserView { source: s, index: i, pending: None };
    let end = ParserView { source: s, index: j, pending: Some(next) };
    match t {
        Term::List(items) => {
            reveal_strlit("[");
            reveal_strlit("]");
            let text = render(t);
            assert(text == "["@ + joined(items, items.len()) + "]"@);
            assert(s[i as int] == s.subrange(i as int, (i + n) as int)[0]);
            assert(s[i as int] == '[');
            lemma_lex_punctuation(s, i, TokenType::LSquareBracket);
            let token = bare(TokenType::LSquareBracket);
            let read = ParserView { source: s, index: i + 1, pending: Some(token) };
            assert(peek(p) == (Ok::<TokenView, SyntaxFault>(token), read));
            assert(peek(read) == (Ok::<TokenView, SyntaxFault>(token), read));
            let inside = ParserView { source: s, index: i + 1, pending: None };
            assert(expect(read, TokenType::LSquareBracket) == (
                Ok::<TokenView, SyntaxFault>(token),
                inside,
            ));
            assert(weight(inside) < weight(read));
            let past = ParserView { source: s, index: i + n, pending: None };
            if items.len() == 0 {
                assert(joined(items, 0) =~= Seq::<char>::empty());
                assert(n == 2);
                assert(s[(i + 1) as int] == s.subrange(i as int, (i + n) as int)[1]);
                assert(s[(i + 1) as int] == ']');
                lemma_lex_punctuation(s, i + 1, TokenType::RSquareBracket);
                assert(accept(inside, TokenType::RSquareBracket) == (
                    Ok::<Option<TokenView>, SyntaxFault>(Some(bare(TokenType::RSquareBracket))),
                    past,
                ));
                assert(items =~= Seq::<Term>::empty());
                assert(parse_list_items(Seq::empty(), true, inside) == (
                    Ok::<Term, SyntaxFault>(t),
                    past,
                ));
            } else {
                lemma_list_layout(items, s, i, 0);
                lemma_parse_list_items(items, 0, s, i);
                assert(items.subrange(0, 0) =~= Seq::<Term>::empty());
            }
            assert(parse_list(read) == (Ok::<Term, SyntaxFault>(t), past));
            assert(weight(past) <= weight(read));
            assert(weight(read) <= weight(p));
            assert(peek(past) == (Ok::<TokenView, SyntaxFault>(next), end));
            assert(parse_calls(t, past) == (Ok::<Term, SyntaxFault>(t), end));
            assert(parse_expression(read) == (Ok::<Term, SyntaxFault>(t), end));
            assert(parse_expression(p) == (Ok::<Term, SyntaxFault>(t), end));
        },
        Term::LetBinding(_, _) => lemma_binding_parses_back(t, s, i, next, j),
        Term::IfExpression(_, _, _) => lemma_conditional_parses_back(t, s, i, next, j),
        Term::While(_, _) => lemma_loop_parses_back(t, s, i, next, j),
        _ => {
            lemma_lex_atom(t, s, i);
            let token = atom_token(t);
            let read = ParserView { source: s, index: i + n, pending: Some(token) };
            assert(peek(p) == (Ok::<TokenView, SyntaxFault>(token), read));
            assert(peek(read) == (Ok::<TokenView, SyntaxFault>(token), read));
            assert(weight(read) <= weight(p));
            let past = advance(read);
            assert(weight(past) <= weight(read));
            match t {
                Term::IntegerValue(v) => {
                    lemma_decimal_digits(v as nat);
                    lemma_decimal_reads_back(v);
                    assert(s[i as int] == s.subrange(i as int, (i + n) as int)[0]);
                    assert(is_digit(s[i as int]));
                },
                Term::BooleanValue(b) => {
                    reveal_strlit("true");
                    reveal_strlit("false");
                    assert(s[i as int] == s.subrange(i as int, (i + n) as int)[0]);
                },
                Term::StringValue(body) => {
                    reveal_strlit("\"");
                    assert(s[i as int] == s.subrange(i as int, (i + n) as int)[0]);
                    assert(render(t)[0] == '"');
                },
                Term::Identifier(name) => {
                    lemma_lex_word(s, i, name);
                },
                _ => {},
            }
            assert(peek(past) == (Ok::<TokenView, SyntaxFault>(next), end));
            assert(parse_calls(t, past) == (Ok::<Term, SyntaxFault>(t), end));
            assert(parse_expression(read) == (Ok::<Term, SyntaxFault>(t), end));
            assert(parse_expression(p) == (Ok::<Term, SyntaxFault>(t), end));
        },
    }
}

/// A binding parses back.
#[verifier::rlimit(30)]
proof fn lemma_binding_parses_back(t: Term, s: Seq<char>, i: nat, next: TokenView, j: nat)
    requires
        parses_back(t),
        stands_at(s, i, render(t)),
        ends_at(s, i + render(t).len()),
        lex(s, i + render(t).len()) == (Ok::<TokenView, SyntaxFault>(next), j),
        next.token_type != TokenType::LParen,
        t is LetBinding,
    ensures
        parses_at(t, s, i, next, j),
    decreases t, 0int, 0int,
{
    let n = render(t).len();
    let p = ParserView { source: s, index: i, pending: None };
    let end = ParserView { source: s, index: j, pending: Some(next) };
    match t {
        Term::LetBinding(name, value) => {
            reveal_strlit("let ");
            reveal_strlit("let");
            reveal_strlit(" = ");
            let opening = "let "@ + name;
            let before = opening + " = "@;
            assert(render(t) == before + render(*value));
            lemma_stands_split(s, i, before, render(*value));
            lemma_stands_split(s, i, opening, " = "@);
            lemma_stands_split(s, i, "let "@, name);
            let ni: nat = i + 4;
            let ne: nat = ni + name.len();
            let vi: nat = ne + 3;
            lemma_stands_char(s, i, "let "@, 0);
            lemma_stands_char(s, i, "let "@, 1);
            lemma_stands_char(s, i, "let "@, 2);
            lemma_stands_char(s, i, "let "@, 3);
            lemma_stands_char(s, ne, " = "@, 0);
            lemma_stands_char(s, ne, " = "@, 1);
            lemma_stands_char(s, ne, " = "@, 2);
            assert(s.subrange(i as int, (i + 3) as int) =~= "let"@);
            lemma_lex_word(s, i, "let"@);
            lemma_lex_word(s, ni, name);
            lemma_lex_gap(s, (i + 3) as nat, ni);
            lemma_lex_punctuation(s, (ne + 1) as nat, TokenType::AssignmentOperator);
            lemma_lex_gap(s, ne, (ne + 1) as nat);
            lemma_parses_back(*value, s, vi, next, j);
            lemma_lex_gap(s, (ne + 2) as nat, vi);
            let token = bare(TokenType::Let);
            let named = TokenView { token_type: TokenType::Identifier, value: name };
            let read = ParserView { source: s, index: (i + 3) as nat, pending: Some(token) };
            let q1 = ParserView { source: s, index: (i + 3) as nat, pending: None };
            let q2 = ParserView { source: s, index: ne, pending: None };
            let q3 = ParserView { source: s, index: (ne + 2) as nat, pending: None };
            assert(peek(p) == (Ok::<TokenView, SyntaxFault>(token), read));
            assert(expect(read, TokenType::Let) == (Ok::<TokenView, SyntaxFault>(token), q1));
            assert(expect(q1, TokenType::Identifier) == (
                Ok::<TokenView, SyntaxFault>(named),
                q2,
            ));
            assert(expect(q2, TokenType::AssignmentOperator) == (
                Ok::<TokenView, SyntaxFault>(bare(TokenType::AssignmentOperator)),
                q3,
            ));
            assert(peek(q3) == peek(ParserView { source: s, index: vi, pending: None }));
            lemma_parse_after_peek(q3);
            assert(parse_expression(q3) == (Ok::<Term, SyntaxFault>(*value), end));
            assert(weight(q3) < weight(read));
            assert(parse_let(read) == (Ok::<Term, SyntaxFault>(t), end));
            lemma_head(token, read);
            assert(parse_head(token, read) == (Ok::<Term, SyntaxFault>(t), end));
            assert(peek(end) == (Ok::<TokenView, SyntaxFault>(next), end));
            assert(parse_calls(t, end) == (Ok::<Term, SyntaxFault>(t), end));
            assert(peek(read) == (Ok::<TokenView, SyntaxFault>(token), read));
            assert(parse_expression(read) == (Ok::<Term, SyntaxFault>(t), end));
            lemma_parse_after_peek(p);
        },
        _ => {},
    }
}

/// A conditional parses back.
#[verifier::rlimit(30)]
proof fn lemma_conditional_parses_back(t: Term, s: Seq<char>, i: nat, next: TokenView, j: nat)
    requires
        parses_back(t),
        stands_at(s, i, render(t)),
        ends_at(s, i + render(t).len()),
        lex(s, i + render(t).len()) == (Ok::<TokenView, SyntaxFault>(next), j),
        next.token_type != TokenType::LParen,
        t is IfExpression,
    ensures
        parses_at(t, s, i, next, j),
    decreases t, 0int, 0int,
{
    let n = render(t).len();
    let p = ParserView { source: s, index: i, pending: None };
    let end = ParserView { source: s, index: j, pending: Some(next) };
    match t {
        Term::IfExpression(c, when_true, when_false) => {
            reveal_strlit("if ");
            reveal_strlit("if");
            reveal_strlit(" ");
            reveal_strlit(" else ");
            reveal_strlit("else");
            reveal_strlit("let");
            reveal_strlit("{ ");
            let x1 = "if "@ + render(*c);
            let x2 = x1 + " "@;
            let x3 = x2 + render(*when_true);
            let x4 = x3 + " else "@;
            assert(render(t) == x4 + render(*when_false));
            lemma_stands_split(s, i, x4, render(*when_false));
            lemma_stands_split(s, i, x3, " else "@);
            lemma_stands_split(s, i, x2, render(*when_true));
            lemma_stands_split(s, i, x1, " "@);
            lemma_stands_split(s, i, "if "@, render(*c));
            let ci: nat = i + 3;
            let ce: nat = ci + render(*c).len();
            let ai: nat = ce + 1;
            let ae: nat = ai + render(*when_true).len();
            let bi: nat = ae + 6;
            lemma_stands_char(s, i, "if "@, 0);
            lemma_stands_char(s, i, "if "@, 1);
            lemma_stands_char(s, i, "if "@, 2);
            lemma_stands_char(s, ce, " "@, 0);
            lemma_stands_char(s, ae, " else "@, 0);
            lemma_stands_char(s, ae, " else "@, 1);
            lemma_stands_char(s, ae, " else "@, 2);
            lemma_stands_char(s, ae, " else "@, 3);
            lemma_stands_char(s, ae, " else "@, 4);
            lemma_stands_char(s, ae, " else "@, 5);
            assert(s.subrange(i as int, (i + 2) as int) =~= "if"@);
            assert(s.subrange((ae + 1) as int, (ae + 5) as int) =~= "else"@);
            lemma_lex_word(s, i, "if"@);
            lemma_lex_word(s, (ae + 1) as nat, "else"@);
            lemma_lex_gap(s, ae, (ae + 1) as nat);
            assert(is_body(*when_true) && is_body(*when_false));
            let items_a = when_true->Block_0;
            let items_b = when_false->Block_0;
            assert(*when_true == Term::Block(items_a));
            assert(*when_false == Term::Block(items_b));
            lemma_body_layout(items_a, s, ai);
            lemma_body_layout(items_b, s, bi);
            lemma_lex_punctuation(s, ai, TokenType::LCurlyBrace);
            lemma_lex_gap(s, ce, ai);
            lemma_lex_punctuation(s, bi, TokenType::LCurlyBrace);
            lemma_lex_gap(s, (ae + 5) as nat, bi);
            let brace = bare(TokenType::LCurlyBrace);
            lemma_parses_back(*c, s, ci, brace, (ai + 1) as nat);
            lemma_lex_gap(s, (i + 2) as nat, ci);
            lemma_parse_block_items(items_a, 0, s, ai);
            lemma_parse_block_items(items_b, 0, s, bi);
            assert(items_a.subrange(0, 0) =~= Seq::<Term>::empty());
            assert(items_b.subrange(0, 0) =~= Seq::<Term>::empty());
            let token = bare(TokenType::If);
            let read = ParserView { source: s, index: (i + 2) as nat, pending: Some(token) };
            let q1 = ParserView { source: s, index: (i + 2) as nat, pending: None };
            let q2 = ParserView { source: s, index: (ai + 1) as nat, pending: Some(brace) };
            let inside_a = ParserView { source: s, index: (ai + 1) as nat, pending: None };
            let q3 = ParserView { source: s, index: ae, pending: None };
            let q4 = ParserView { source: s, index: (ae + 5) as nat, pending: None };
            let inside_b = ParserView { source: s, index: (bi + 1) as nat, pending: None };
            let past = ParserView { source: s, index: (i + n) as nat, pending: None };
            assert(peek(p) == (Ok::<TokenView, SyntaxFault>(token), read));
            assert(expect(read, TokenType::If) == (Ok::<TokenView, SyntaxFault>(token), q1));
            assert(peek(q1) == peek(ParserView { source: s, index: ci, pending: None }));
            lemma_parse_after_peek(q1);
            assert(parse_expression(q1) == (Ok::<Term, SyntaxFault>(*c), q2));
            assert(expect(q2, TokenType::LCurlyBrace) == (
                Ok::<TokenView, SyntaxFault>(brace),
                inside_a,
            ));
            assert(parse_block(q2) == (Ok::<Term, SyntaxFault>(*when_true), q3));
            assert(expect(q3, TokenType::Else) == (
                Ok::<TokenView, SyntaxFault>(bare(TokenType::Else)),
                q4,
            ));
            assert(expect(q4, TokenType::LCurlyBrace) == (
                Ok::<TokenView, SyntaxFault>(brace),
                inside_b,
            ));
            assert(parse_block(q4) == (Ok::<Term, SyntaxFault>(*when_false), past));
            assert(weight(q1) < weight(read));
            assert(weight(q2) < weight(read));
            assert(weight(q4) < weight(read));
            assert(parse_if(read) == (Ok::<Term, SyntaxFault>(t), past));
            assert(parse_head(token, read) == (Ok::<Term, SyntaxFault>(t), past));
            assert(weight(past) <= weight(read));
            assert(peek(past) == (Ok::<TokenView, SyntaxFault>(next), end));
            assert(parse_calls(t, past) == (Ok::<Term, SyntaxFault>(t), end));
            assert(peek(read) == (Ok::<TokenView, SyntaxFault>(token), read));
            assert(parse_expression(read) == (Ok::<Term, SyntaxFault>(t), end));
            lemma_parse_after_peek(p);
        },
        _ => {},
    }
}

/// A loop parses back.
#[verifier::rlimit(30)]
proof fn lemma_loop_parses_back(t: Term, s: Seq<char>, i: nat, next: TokenView, j: nat)
    requires
        parses_back(t),
        stands_at(s, i, render(t)),
        ends_at(s, i + render(t).len()),
        lex(s, i + render(t).len()) == (Ok::<TokenView, SyntaxFault>(next), j),
        next.token_type != TokenType::LParen,
        t is While,
    ensures
        parses_at(t, s, i, next, j),
    decreases t, 0int, 0int,
{
    let n = render(t).len();
    let p = ParserView { source: s, index: i, pending: None };
    let end = ParserView { source: s, index: j, pending: Some(next) };
    match t {
        Term::While(c, body) => {
            reveal_strlit("while ");
            reveal_strlit("while");
            reveal_strlit(" ");
            reveal_strlit("let");
            reveal_strlit("if");
            reveal_strlit("else");
            reveal_strlit("true");
            reveal_strlit("false");
            reveal_strlit("fn");
            let x1 = "while "@ + render(*c);
            let x2 = x1 + " "@;
            assert(render(t) == x2 + render(*body));
            lemma_stands_split(s, i, x2, render(*body));
            lemma_stands_split(s, i, x1, " "@);
            lemma_stands_split(s, i, "while "@, render(*c));
            let ci: nat = i + 6;
            let ce: nat = ci + render(*c).len();
            let ai: nat = ce + 1;
            lemma_stands_char(s, i, "while "@, 0);
            lemma_stands_char(s, i, "while "@, 1);
            lemma_stands_char(s, i, "while "@, 2);
            lemma_stands_char(s, i, "while "@, 3);
            lemma_stands_char(s, i, "while "@, 4);
            lemma_stands_char(s, i, "while "@, 5);
            lemma_stands_char(s, ce, " "@, 0);
            assert(s.subrange(i as int, (i + 5) as int) =~= "while"@);
            assert("while"@[0] != "false"@[0]);
            lemma_lex_word(s, i, "while"@);
            assert(is_body(*body));
            let items = body->Block_0;
            assert(*body == Term::Block(items));
            lemma_body_layout(items, s, ai);
            lemma_lex_punctuation(s, ai, TokenType::LCurlyBrace);
            lemma_lex_gap(s, ce, ai);
            let brace = bare(TokenType::LCurlyBrace);
            lemma_parses_back(*c, s, ci, brace, (ai + 1) as nat);
            lemma_lex_gap(s, (i + 5) as nat, ci);
            lemma_parse_block_items(items, 0, s, ai);
            assert(items.subrange(0, 0) =~= Seq::<Term>::empty());
            let token = bare(TokenType::While);
            let read = ParserView { source: s, index: (i + 5) as nat, pending: Some(token) };
            let q1 = ParserView { source: s, index: (i + 5) as nat, pending: None };
            let q2 = ParserView { source: s, index: (ai + 1) as nat, pending: Some(brace) };
            let inside = ParserView { source: s, index: (ai + 1) as nat, pending: None };
            let past = ParserView { source: s, index: (i + n) as nat, pending: None };
            assert(peek(p) == (Ok::<TokenView, SyntaxFault>(token), read));
            assert(expect(read, TokenType::While) == (Ok::<TokenView, SyntaxFault>(token), q1));
            assert(peek(q1) == peek(ParserView { source: s, index: ci, pending: None }));
            lemma_parse_after_peek(q1);
            assert(parse_expression(q1) == (Ok::<Term, SyntaxFault>(*c), q2));
            assert(expect(q2, TokenType::LCurlyBrace) == (
                Ok::<TokenView, SyntaxFault>(brace),
                inside,
            ));
            assert(parse_block(q2) == (Ok::<Term, SyntaxFault>(*body), past));
            assert(weight(q1) < weight(read));
            assert(weight(q2) < weight(read));
            assert(parse_while(read) == (Ok::<Term, SyntaxFault>(t), past));
            assert(parse_head(token, read) == (Ok::<Term, SyntaxFault>(t), past));
            assert(weight(past) <= weight(read));
            assert(peek(past) == (Ok::<TokenView, SyntaxFault>(next), end));
            assert(parse_calls(t, past) == (Ok::<Term, SyntaxFault>(t), end));
            assert(peek(read) == (Ok::<TokenView, SyntaxFault>(token), read));
            assert(parse_expression(read) == (Ok::<Term, SyntaxFault>(t), end));
            lemma_parse_after_peek(p);
        },
        _ => {},
    }
}

/// The items of a list from the `k`-th on, parsed from where the text before
/// that item starts, complete the list.
proof fn lemma_parse_list_items(items: Seq<Term>, k: nat, s: Seq<char>, i: nat)
    requires
        parses_back(Term::List(items)),
        stands_at(s, i, render(Term::List(items))),
        k < items.len(),
    ensures
        parse_list_items(
            items.subrange(0, k as int),
            true,
            ParserView { source: s, index: item_gap(items, i, k), pending: None },
        ) == (
            Ok::<Term, SyntaxFault>(Term::List(items)),
            ParserView {
                source: s,
                index: i + render(Term::List(items)).len(),
                pending: None,
            },
        ),
    decreases Term::List(items), 0int, items.len() - k,
{
    let n = items.len();
    let item = items[k as int];
    let done = items.subrange(0, k as int);
    let idx = item_gap(items, i, k);
    let st = item_start(items, i, k);
    let en = st + render(item).len();
    let p = ParserView { source: s, index: idx, pending: None };
    let last = k + 1 == n;
    lemma_list_layout(items, s, i, k);
    let follower = if last {
        TokenType::RSquareBracket
    } else {
        TokenType::Comma
    };
    assert(en == i + 1 + joined(items, k + 1).len());
    assert(s[en as int] == if last {
        ']'
    } else {
        ','
    });
    lemma_lex_punctuation(s, en, follower);
    assert(parses_back(item));
    lemma_parses_back(item, s, st, bare(follower), en + 1);
    let (first, read) = peek(ParserView { source: s, index: st, pending: None });
    let token = first->Ok_0;
    // The token read from the gap is the first token of the item.
    assert(skip_spaces(s, st) == st);
    assert(skip_spaces(s, idx) == st) by {
        if k > 0 {
            assert(is_space(s[idx as int]));
            assert(idx + 1 == st);
        }
    }
    assert(lex(s, idx) == lex(s, st)) by {
        reveal(lex);
    }
    assert(peek(p) == (Ok::<TokenView, SyntaxFault>(token), read));
    assert(accept(p, TokenType::RSquareBracket) == (
        Ok::<Option<TokenView>, SyntaxFault>(None),
        read,
    ));
    assert(weight(read) <= weight(p));
    let after = ParserView { source: s, index: en + 1, pending: Some(bare(follower)) };
    assert(parse_expression(read) == (Ok::<Term, SyntaxFault>(item), after));
    assert(peek(after) == (Ok::<TokenView, SyntaxFault>(bare(follower)), after));
    let all = done.push(item);
    assert(all =~= items.subrange(0, (k + 1) as int));
    let past = ParserView { source: s, index: en + 1, pending: None };
    if last {
        assert(accept(after, TokenType::Comma) == (
            Ok::<Option<TokenView>, SyntaxFault>(None),
            after,
        ));
        assert(weight(after) < weight(p));
        assert(accept(after, TokenType::RSquareBracket) == (
            Ok::<Option<TokenView>, SyntaxFault>(Some(bare(follower))),
            past,
        ));
        assert(all =~= items);
        assert(parse_list_items(all, false, after) == (
            Ok::<Term, SyntaxFault>(Term::List(items)),
            past,
        ));
        assert(en + 1 == i + render(Term::List(items)).len());
    } else {
        assert(accept(after, TokenType::Comma) == (
            Ok::<Option<TokenView>, SyntaxFault>(Some(bare(follower))),
            past,
        ));
        assert(weight(past) < weight(p));
        assert(item_gap(items, i, k + 1) == en + 1);
        lemma_parse_list_items(items, k + 1, s, i);
    }
}

/// Where item `k` of a block starts whose display form stands at `ib`; for
/// `k` the number of items, where its closing brace stands. One white space
/// stands before it.
pub open spec fn body_start(items: Seq<Term>, ib: nat, k: nat) -> nat {
    ib + 2 + line_start(items, k)
}

/// Where each part of the display form of a block stands.
proof fn lemma_body_layout(items: Seq<Term>, s: Seq<char>, ib: nat)
    requires
        items.len() >= 1,
        stands_at(s, ib, render(Term::Block(items))),
    ensures
        render(Term::Block(items)).len() == lines(items, items.len()).len() + 4,
        s[ib as int] == '{',
        s[(ib + 1) as int] == ' ',
        stands_at(s, ib + 2, lines(items, items.len())),
        s[(ib + 2 + lines(items, items.len()).len()) as int] == ' ',
        s[(ib + 3 + lines(items, items.len()).len()) as int] == '}',
{
    reveal_strlit("{ ");
    reveal_strlit(" }");
    let whole = lines(items, items.len());
    let opening = "{ "@ + whole;
    assert(render(Term::Block(items)) == opening + " }"@);
    lemma_stands_split(s, ib, opening, " }"@);
    lemma_stands_split(s, ib, "{ "@, whole);
    lemma_stands_char(s, ib, "{ "@, 0);
    lemma_stands_char(s, ib, "{ "@, 1);
    lemma_stands_char(s, ib + 2 + whole.len(), " }"@, 0);
    lemma_stands_char(s, ib + 2 + whole.len(), " }"@, 1);
}

/// The items of a block from the `k`-th on, parsed from the white space
/// before that item, complete the block.
proof fn lemma_parse_block_items(items: Seq<Term>, k: nat, s: Seq<char>, ib: nat)
    requires
        is_body(Term::Block(items)),
        stands_at(s, ib, render(Term::Block(items))),
        k <= items.len(),
    ensures
        parse_block_items(
            items.subrange(0, k as int),
            ParserView {
                source: s,
                index: (body_start(items, ib, k) - 1) as nat,
                pending: None,
            },
        ) == (
            Ok::<Term, SyntaxFault>(Term::Block(items)),
            ParserView {
                source: s,
                index: ib + render(Term::Block(items)).len(),
                pending: None,
            },
        ),
    decreases Term::Block(items), 0int, items.len() - k,
{
    let n = items.len();
    let whole = lines(items, n);
    let base: nat = ib + 2;
    let st: nat = body_start(items, ib, k);
    let g: nat = (st - 1) as nat;
    let p = ParserView { source: s, index: g, pending: None };
    let done = items.subrange(0, k as int);
    lemma_body_layout(items, s, ib);
    if k > 0 {
        lemma_lines_prefix(items, k, n);
    }
    if k == n {
        assert(st == base + whole.len() + 1);
        lemma_lex_punctuation(s, st, TokenType::RCurlyBrace);
        lemma_lex_gap(s, g, st);
        let past = ParserView { source: s, index: (st + 1) as nat, pending: None };
        assert(accept(p, TokenType::RCurlyBrace) == (
            Ok::<Option<TokenView>, SyntaxFault>(Some(bare(TokenType::RCurlyBrace))),
            past,
        ));
        assert(done =~= items);
    } else {
        let item = items[k as int];
        let en: nat = st + render(item).len();
        lemma_program_layout(items, k);
        lemma_stands_within(s, base, whole, line_start(items, k), render(item));
        lemma_stands_char(s, base, whole, (line_start(items, k) + render(item).len()) as int);
        if k > 0 {
            lemma_stands_char(s, base, whole, lines(items, k).len() as int);
        }
        assert(is_space(s[g as int]));
        lemma_lex_punctuation(s, en, TokenType::Semicolon);
        assert(parses_back(item));
        lemma_parses_back(item, s, st, bare(TokenType::Semicolon), (en + 1) as nat);
        let (first, read) = peek(ParserView { source: s, index: st, pending: None });
        let token = first->Ok_0;
        lemma_lex_gap(s, g, st);
        assert(peek(p) == (Ok::<TokenView, SyntaxFault>(token), read));
        assert(accept(p, TokenType::RCurlyBrace) == (
            Ok::<Option<TokenView>, SyntaxFault>(None),
            read,
        ));
        assert(weight(read) <= weight(p));
        let after = ParserView {
            source: s,
            index: (en + 1) as nat,
            pending: Some(bare(TokenType::Semicolon)),
        };
        assert(parse_expression(read) == (Ok::<Term, SyntaxFault>(item), after));
        let past = ParserView { source: s, index: (en + 1) as nat, pending: None };
        assert(peek(after) == (Ok::<TokenView, SyntaxFault>(bare(TokenType::Semicolon)), after));
        assert(expect(after, TokenType::Semicolon) == (
            Ok::<TokenView, SyntaxFault>(bare(TokenType::Semicolon)),
            past,
        ));
        assert(weight(past) < weight(p));
        assert(done.push(item) =~= items.subrange(0, (k + 1) as int));
        assert(body_start(items, ib, k + 1) - 1 == en + 1);
        lemma_parse_block_items(items, k + 1, s, ib);
    }
}

/// Round trip: the display form of a term that parses back, as `parses_back`
/// says, parses back to that term.
pub proof fn lemma_round_trip(t: Term)
    requires
        parses_back(t),
    ensures
        parse_expression(ParserView { source: render(t), index: 0, pending: None }).0 == Ok::<
            Term,
            SyntaxFault,
        >(t),
{
    let s = render(t);
    reveal(lex);
    assert(s.subrange(0, s.len() as int) =~= s);
    assert(skip_spaces(s, s.len()) == s.len());
    assert(lex(s, s.len()) == (Ok::<TokenView, SyntaxFault>(bare(TokenType::EOF)), s.len()));
    lemma_parses_back(t, s, 0, bare(TokenType::EOF), s.len());
}

/// The display forms of the first `k` items of a program, as they stand in
/// the display form of the program.
pub open spec fn lines(items: Seq<Term>, k: nat) -> Seq<char> {
    render_first(items, k, "\n"@, ";"@)
}

/// Where item `k` of a program starts in the display form of the program.
pub open spec fn line_start(items: Seq<Term>, k: nat) -> nat {
    if k == 0 {
        0
    } else {
        lines(items, k).len() + 1
    }
}

proof fn lemma_lines_step(items: Seq<Term>, k: nat)
    requires
        k < items.len(),
    ensures
        lines(items, k + 1) =~= if k == 0 {
            render(items[0]) + seq![';']
        } else {
            lines(items, k) + seq!['\n'] + render(items[k as int]) + seq![';']
        },
{
    reveal_strlit("\n");
    reveal_strlit(";");
    assert("\n"@ =~= seq!['\n']);
    assert(";"@ =~= seq![';']);
    if k == 0 {
        assert(lines(items, 1) == render(items[0]) + ";"@);
    } else {
        assert(lines(items, k + 1) == lines(items, k) + "\n"@ + render(items[k as int]) + ";"@);
    }
}

proof fn lemma_lines_prefix(items: Seq<Term>, k: nat, n: nat)
    requires
        k <= n <= items.len(),
    ensures
        lines(items, k).len() <= lines(items, n).len(),
        lines(items, n).subrange(0, lines(items, k).len() as int) == lines(items, k),
    decreases n - k,
{
    if k == n {
        assert(lines(items, n).subrange(0, lines(items, k).len() as int) =~= lines(items, k));
    } else {
        lemma_lines_step(items, k);
        lemma_lines_prefix(items, k + 1, n);
        let longer = lines(items, k + 1);
        let whole = lines(items, n);
        assert(whole.subrange(0, longer.len() as int) == longer);
        assert(lines(items, 0) =~= Seq::<char>::empty());
        assert(longer.subrange(0, lines(items, k).len() as int) =~= lines(items, k));
        assert(whole.subrange(0, lines(items, k).len() as int) =~= whole.subrange(
            0,
            longer.len() as int,
        ).subrange(0, lines(items, k).len() as int));
    }
}

/// Where each part of the display form of a program stands.
proof fn lemma_program_layout(items: Seq<Term>, k: nat)
    requires
        k < items.len(),
    ensures
        render(Term::Program(items)) == lines(items, items.len()),
        stands_at(lines(items, items.len()), line_start(items, k), render(items[k as int])),
        line_start(items, k) + render(items[k as int]).len() + 1 == lines(items, k + 1).len(),
        lines(items, k + 1).len() <= lines(items, items.len()).len(),
        lines(items, items.len())[(line_start(items, k) + render(items[k as int]).len()) as int] == ';',
        k > 0 ==> lines(items, items.len())[lines(items, k).len() as int] == '\n',
{
    let n = items.len();
    let whole = lines(items, n);
    lemma_lines_step(items, k);
    lemma_lines_prefix(items, k + 1, n);
    let upto = lines(items, k + 1);
    assert forall|x: int| 0 <= x < upto.len() implies whole[x] == #[trigger] upto[x] by {
        assert(whole.subrange(0, upto.len() as int)[x] == whole[x]);
    }
    let item = render(items[k as int]);
    let st = line_start(items, k);
    assert(whole.subrange(st as int, (st + item.len()) as int) =~= item) by {
        assert forall|x: int| 0 <= x < item.len() implies whole[st + x] == item[x] by {
            if k == 0 {
                assert(upto[x] == item[x]);
            } else {
                assert(upto[lines(items, k).len() + 1 + x] == item[x]);
            }
        }
    }
    assert(upto[upto.len() - 1] == ';');
    if k > 0 {
        assert(upto[lines(items, k).len() as int] == '\n');
    }
}

/// The items of a program from the `k`-th on, parsed from where the items
/// before them end, complete the program.
proof fn lemma_parse_program_items(items: Seq<Term>, k: nat)
    requires
        forall|x: int| 0 <= x < items.len() ==> parses_back(#[trigger] items[x]),
        k <= items.len(),
    ensures
        parse_program_items(
            items.subrange(0, k as int),
            ParserView { source: lines(items, items.len()), index: lines(items, k).len(), pending: None },
        ).0 == Ok::<Term, SyntaxFault>(Term::Program(items)),
    decreases items.len() - k,
{
    let n = items.len();
    let s = lines(items, n);
    let idx = lines(items, k).len();
    let p = ParserView { source: s, index: idx, pending: None };
    let done = items.subrange(0, k as int);
    if k == n {
        reveal(lex);
        assert(skip_spaces(s, s.len()) == s.len());
        assert(lex(s, s.len()) == (Ok::<TokenView, SyntaxFault>(bare(TokenType::EOF)), s.len()));
        assert(done =~= items);
        assert(accept(p, TokenType::EOF).0 == Ok::<Option<TokenView>, SyntaxFault>(
            Some(bare(TokenType::EOF)),
        ));
    } else {
        let item = items[k as int];
        let st = line_start(items, k);
        let en = st + render(item).len();
        lemma_program_layout(items, k);
        lemma_lines_prefix(items, k, n);
        lemma_lex_punctuation(s, en, TokenType::Semicolon);
        assert(parses_back(item));
        lemma_parses_back(item, s, st, bare(TokenType::Semicolon), en + 1);
        let (first, read) = peek(ParserView { source: s, index: st, pending: None });
        let token = first->Ok_0;
        assert(skip_spaces(s, st) == st);
        assert(skip_spaces(s, idx) == st) by {
            if k > 0 {
                assert(is_space(s[idx as int]));
                assert(idx + 1 == st);
            } else {
                assert(lines(items, 0) =~= Seq::<char>::empty());
            }
        }
        assert(lex(s, idx) == lex(s, st)) by {
        reveal(lex);
    }
        assert(peek(p) == (Ok::<TokenView, SyntaxFault>(token), read));
        assert(accept(p, TokenType::EOF) == (Ok::<Option<TokenView>, SyntaxFault>(None), read));
        assert(weight(read) <= weight(p));
        let after = ParserView {
            source: s,
            index: en + 1,
            pending: Some(bare(TokenType::Semicolon)),
        };
        assert(parse_expression(read) == (Ok::<Term, SyntaxFault>(item), after));
        let past = ParserView { source: s, index: en + 1, pending: None };
        assert(peek(after) == (Ok::<TokenView, SyntaxFault>(bare(TokenType::Semicolon)), after));
        assert(expect(after, TokenType::Semicolon) == (
            Ok::<TokenView, SyntaxFault>(bare(TokenType::Semicolon)),
            past,
        ));
        assert(weight(past) < weight(p));
        assert(done.push(item) =~= items.subrange(0, (k + 1) as int));
        assert(en + 1 == lines(items, k + 1).len());
        lemma_parse_program_items(items, k + 1);
    }
}

/// Round trip: the display form of a program whose items parse back, as
/// `parses_back` says, parses back to that program.
pub proof fn lemma_program_round_trip(items: Seq<Term>)
    requires
        forall|k: int| 0 <= k < items.len() ==> parses_back(#[trigger] items[k]),
    ensures
        parse_program(
            ParserView { source: render(Term::Program(items)), index: 0, pending: None },
        ).0 == Ok::<Term, SyntaxFault>(Term::Program(items)),
{
    assert(lines(items, 0) =~= Seq::<char>::empty());
    assert(items.subrange(0, 0) =~= Seq::<Term>::empty());
    lemma_parse_program_items(items, 0);
}

} // verus!
