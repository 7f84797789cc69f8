use vstd::prelude::*;
use crate::error::BitwiseError;
use crate::calc::{apply, eval_from, eval_postfix, eval_query, query_result};
use crate::lexer::{
    EOL_CHAR, char_at, lemma_run_end, lemma_scan_prefixed_advances, lex, lex_from, next_pos,
    run_end, scan_prefixed, scan_run, single_symbol,
};
use crate::rpn::{close_paren, drain, flush_for, is_binary, rank, rpn, rpn_from};
use crate::token::{Symbol, Tok, all_digits, digits_value, is_digit, literal_value, unsigned_digits};

verus! {

/// Whether the parentheses of `ts`, up to its `End`, pair up when `depth`
/// of them are already open.
pub open spec fn parens_ok(ts: Seq<Tok>, depth: int) -> bool
    decreases ts.len(),
{
    if ts.len() == 0 {
        depth == 0
    } else {
        let rest = ts.drop_first();
        match ts[0] {
            Tok::End => depth == 0,
            Tok::Sym(Symbol::LPAREN) => parens_ok(rest, depth + 1),
            Tok::Sym(Symbol::RPAREN) => depth > 0 && parens_ok(rest, depth - 1),
            _ => parens_ok(rest, depth),
        }
    }
}

/// Every `)` closes an earlier `(` and every `(` is closed.
pub open spec fn balanced(ts: Seq<Tok>) -> bool {
    parens_ok(ts, 0)
}

/// The number of `(` on an operator stack.
pub open spec fn open_count(stack: Seq<Symbol>) -> int
    decreases stack.len(),
{
    if stack.len() == 0 {
        0
    } else {
        open_count(stack.drop_last()) + if stack.last() == Symbol::LPAREN {
            1int
        } else {
            0int
        }
    }
}

proof fn lemma_open_count_push(stack: Seq<Symbol>, s: Symbol)
    ensures
        open_count(stack.push(s)) == open_count(stack) + if s == Symbol::LPAREN {
            1int
        } else {
            0int
        },
{
    assert(stack.push(s).drop_last() =~= stack);
}

proof fn lemma_open_count_nonneg(stack: Seq<Symbol>)
    ensures
        open_count(stack) >= 0,
    decreases stack.len(),
{
    if stack.len() > 0 {
        lemma_open_count_nonneg(stack.drop_last());
    }
}

proof fn lemma_close_paren(out: Seq<Tok>, stack: Seq<Symbol>)
    ensures
        close_paren(out, stack) is None <==> open_count(stack) == 0,
        close_paren(out, stack) is Some ==> open_count(close_paren(out, stack)->Some_0.1)
            == open_count(stack) - 1,
    decreases stack.len(),
{
    if stack.len() > 0 {
        lemma_open_count_nonneg(stack.drop_last());
        if stack.last() != Symbol::LPAREN {
            lemma_close_paren(out.push(Tok::Sym(stack.last())), stack.drop_last());
        }
    }
}

proof fn lemma_flush_for(out: Seq<Tok>, stack: Seq<Symbol>, s: Symbol)
    ensures
        open_count(flush_for(out, stack, s).1) == open_count(stack),
    decreases stack.len(),
{
    if stack.len() > 0 && is_binary(stack.last()) && rank(stack.last()) >= rank(s) {
        lemma_flush_for(out.push(Tok::Sym(stack.last())), stack.drop_last(), s);
    }
}

proof fn lemma_drain(out: Seq<Tok>, stack: Seq<Symbol>)
    ensures
        drain(out, stack) is Err <==> open_count(stack) > 0,
        drain(out, stack) is Err ==> drain(out, stack) == Err::<Seq<Tok>, BitwiseError>(
            BitwiseError::UnbalancedParentheses,
        ),
    decreases stack.len(),
{
    if stack.len() > 0 {
        lemma_open_count_nonneg(stack.drop_last());
        if stack.last() != Symbol::LPAREN {
            lemma_drain(out.push(Tok::Sym(stack.last())), stack.drop_last());
        }
    }
}

/// The shunting-yard pass fails exactly where the parentheses do not pair
/// up, and then with `UnbalancedParentheses`.
pub proof fn lemma_rpn_from_parens(ts: Seq<Tok>, out: Seq<Tok>, stack: Seq<Symbol>)
    ensures
        rpn_from(ts, out, stack) is Err <==> !parens_ok(ts, open_count(stack)),
        rpn_from(ts, out, stack) is Err ==> rpn_from(ts, out, stack) == Err::<
            Seq<Tok>,
            BitwiseError,
        >(BitwiseError::UnbalancedParentheses),
    decreases ts.len(),
{
    lemma_open_count_nonneg(stack);
    if ts.len() == 0 {
        lemma_drain(out, stack);
    } else {
        let rest = ts.drop_first();
        match ts[0] {
            Tok::End => {
                lemma_drain(out, stack);
            },
            Tok::Lit(_, _) => {
                lemma_rpn_from_parens(rest, out.push(ts[0]), stack);
            },
            Tok::Sym(s) => {
                if s == Symbol::LPAREN {
                    lemma_open_count_push(stack, s);
                    lemma_rpn_from_parens(rest, out, stack.push(s));
                } else if s == Symbol::RPAREN {
                    lemma_close_paren(out, stack);
                    if close_paren(out, stack) is Some {
                        let os = close_paren(out, stack)->Some_0;
                        lemma_rpn_from_parens(rest, os.0, os.1);
                    }
                } else {
                    let os = flush_for(out, stack, s);
                    lemma_flush_for(out, stack, s);
                    lemma_open_count_push(os.1, s);
                    lemma_rpn_from_parens(rest, os.0, os.1.push(s));
                }
            },
        }
    }
}

/// A query whose tokens have parentheses that do not pair up (a `)` with no
/// `(` before it, or a `(` never closed) fails with `UnbalancedParentheses`;
/// one whose parentheses pair up never fails that way.
pub proof fn lemma_unbalanced_parentheses(q: Seq<char>)
    requires
        lex(q) is Ok,
    ensures
        !balanced(lex(q)->Ok_0) ==> eval_query(q) == Err::<u64, BitwiseError>(
            BitwiseError::UnbalancedParentheses,
        ),
        balanced(lex(q)->Ok_0) ==> rpn(lex(q)->Ok_0) is Ok,
{
    lemma_rpn_from_parens(lex(q)->Ok_0, seq![], seq![]);
}

/// Evaluation depends on the query alone: two evaluations of equal queries
/// give equal results.
pub proof fn lemma_evaluate_deterministic(q1: Seq<char>, q2: Seq<char>)
    requires
        q1 == q2,
    ensures
        query_result(q1) == query_result(q2),
{
}

/// The characters before the digits of a prefixed literal: `0x`, `0d`, `0b`,
/// and `0` for octal.
pub open spec fn radix_prefix(radix: nat) -> Seq<char> {
    if radix == 16 {
        seq!['0', 'x']
    } else if radix == 10 {
        seq!['0', 'd']
    } else if radix == 2 {
        seq!['0', 'b']
    } else {
        seq!['0']
    }
}

proof fn lemma_run_to_end(s: Seq<char>, i: int, radix: nat)
    requires
        0 <= i <= s.len(),
        forall|j: int| i <= j < s.len() ==> is_digit(#[trigger] s[j], radix),
    ensures
        run_end(s, i, radix) == s.len(),
    decreases s.len() - i,
{
    if i < s.len() {
        lemma_run_to_end(s, i + 1, radix);
    }
}

/// Lexing, reordering and evaluating one literal token that spans the query.
proof fn lemma_one_literal(s: Seq<char>, radix: nat, digits: Seq<char>)
    requires
        lex(s) == Ok::<Seq<Tok>, BitwiseError>(seq![Tok::Lit(radix, digits), Tok::End]),
        digits.len() > 0,
        radix <= 16,
        all_digits(digits, radix),
        digits_value(digits, radix) <= u64::MAX,
    ensures
        eval_query(s) == Ok::<u64, BitwiseError>(digits_value(digits, radix) as u64),
{
    let lit = Tok::Lit(radix, digits);
    let ts = seq![lit, Tok::End];
    assert(ts.drop_first() =~= seq![Tok::End]);
    assert(seq![Tok::End].drop_first() =~= Seq::<Tok>::empty());
    assert(rpn_from(seq![Tok::End], seq![lit], seq![]) == Ok::<Seq<Tok>, BitwiseError>(seq![lit]));
    assert(seq![].push(lit) =~= seq![lit]);
    assert(rpn(ts) == Ok::<Seq<Tok>, BitwiseError>(seq![lit]));
    assert(is_digit(digits[0], radix));
    assert(unsigned_digits(digits) == digits);
    let v = digits_value(digits, radix) as u64;
    assert(literal_value(digits, radix) == Some(v));
    assert(seq![lit].drop_first() =~= Seq::<Tok>::empty());
    assert(seq![].push(v) =~= seq![v]);
    assert(eval_from(Seq::<Tok>::empty(), seq![v]) == Ok::<u64, BitwiseError>(v));
    assert(eval_postfix(seq![lit]) == Ok::<u64, BitwiseError>(v));
}

/// A query that is a single prefixed literal (`0x`, `0d`, `0b`, or `0` and
/// an octal digit, then digits of that radix) evaluates to the number the
/// digits denote, where it fits in 64 bits.
pub proof fn lemma_prefixed_literal(radix: nat, digits: Seq<char>)
    requires
        radix == 2 || radix == 8 || radix == 10 || radix == 16,
        digits.len() > 0,
        all_digits(digits, radix),
        digits_value(digits, radix) <= u64::MAX,
    ensures
        eval_query(radix_prefix(radix) + digits) == Ok::<u64, BitwiseError>(
            digits_value(digits, radix) as u64,
        ),
{
    let s = radix_prefix(radix) + digits;
    let n = s.len() as int;
    let p = radix_prefix(radix).len() as int;
    assert forall|j: int| p <= j < n implies is_digit(#[trigger] s[j], radix) by {
        assert(s[j] == digits[j - p]);
    }
    lemma_run_to_end(s, p, radix);
    lemma_run_to_end(s, 2, radix);
    assert(s.subrange(p, n) =~= digits);
    let lit = Tok::Lit(radix, digits);
    assert(seq![].push(lit) =~= seq![lit]);
    assert(seq![lit].push(Tok::End) =~= seq![lit, Tok::End]);
    assert(lex_from(s, n, seq![lit]) == Ok::<Seq<Tok>, BitwiseError>(seq![lit, Tok::End]));
    assert(s[0] == '0');
    if radix == 8 {
        assert(s[1] == digits[0]);
    } else {
        assert(s[1] == radix_prefix(radix)[1]);
    }
    assert(scan_prefixed(s, 1) == Ok::<(Tok, int), BitwiseError>((lit, n)));
    assert(lex(s) == Ok::<Seq<Tok>, BitwiseError>(seq![lit, Tok::End]));
    lemma_one_literal(s, radix, digits);
}

/// A query that is a single decimal literal without prefix (a digit from 1
/// to 9, then decimal digits) evaluates to its value, where it fits in 64
/// bits.
pub proof fn lemma_decimal_literal(digits: Seq<char>)
    requires
        digits.len() > 0,
        digits[0] != '0',
        all_digits(digits, 10),
        digits_value(digits, 10) <= u64::MAX,
    ensures
        eval_query(digits) == Ok::<u64, BitwiseError>(digits_value(digits, 10) as u64),
{
    let s = digits;
    let n = s.len() as int;
    lemma_run_to_end(s, 1, 10);
    assert(s.subrange(0, n) =~= digits);
    let lit = Tok::Lit(10, digits);
    assert(seq![].push(lit) =~= seq![lit]);
    assert(seq![lit].push(Tok::End) =~= seq![lit, Tok::End]);
    assert(lex_from(s, n, seq![lit]) == Ok::<Seq<Tok>, BitwiseError>(seq![lit, Tok::End]));
    assert(is_digit(s[0], 10));
    assert(lex(s) == Ok::<Seq<Tok>, BitwiseError>(seq![lit, Tok::End]));
    lemma_one_literal(s, 10, digits);
}

/// A token that may stand before the end of a lexed sequence: an operator,
/// or a literal of radix 2, 8, 10 or 16 with at least one digit, all digits
/// of that radix.
pub open spec fn body_token(t: Tok) -> bool {
    match t {
        Tok::End => false,
        Tok::Sym(_) => true,
        Tok::Lit(r, d) => (r == 2 || r == 8 || r == 10 || r == 16) && d.len() > 0 && all_digits(
            d,
            r,
        ),
    }
}

/// `End` is the last token and the only one; all others are body tokens.
pub open spec fn well_formed_tokens(ts: Seq<Tok>) -> bool {
    &&& ts.len() > 0
    &&& ts.last() == Tok::End
    &&& forall|k: int| 0 <= k < ts.len() - 1 ==> body_token(#[trigger] ts[k])
}

proof fn lemma_run_token(s: Seq<char>, start: int, from: int, radix: nat)
    requires
        0 <= start < from <= s.len(),
        radix == 2 || radix == 8 || radix == 10 || radix == 16,
        forall|k: int| start <= k < from ==> is_digit(#[trigger] s[k], radix),
    ensures
        body_token(scan_run(s, start, from, radix).0),
        from <= scan_run(s, start, from, radix).1 <= s.len(),
{
    lemma_run_end(s, from, radix);
    let e = run_end(s, from, radix);
    let d = s.subrange(start, e);
    assert forall|k: int| 0 <= k < d.len() implies is_digit(#[trigger] d[k], radix) by {
        assert(d[k] == s[start + k]);
    }
}

proof fn lemma_scan_prefixed_token(s: Seq<char>, j: int)
    requires
        0 <= j <= s.len(),
    ensures
        scan_prefixed(s, j) is Ok ==> body_token(scan_prefixed(s, j)->Ok_0.0),
{
    lemma_scan_prefixed_advances(s, j);
    if scan_prefixed(s, j) is Ok {
        let p = s[j];
        if is_digit(p, 8) {
            lemma_run_token(s, j, j + 1, 8);
        } else {
            let r = crate::lexer::prefix_radix(p);
            lemma_run_end(s, j + 1, r);
            lemma_run_token(s, j + 1, j + 2, r);
        }
    }
}

proof fn lemma_lex_from_tokens(s: Seq<char>, i: int, acc: Seq<Tok>)
    requires
        0 <= i <= s.len(),
        forall|k: int| 0 <= k < acc.len() ==> body_token(#[trigger] acc[k]),
    ensures
        lex_from(s, i, acc) is Ok ==> well_formed_tokens(lex_from(s, i, acc)->Ok_0),
    decreases s.len() - i,
{
    let c = char_at(s, i);
    let j = next_pos(s, i);
    if c == EOL_CHAR {
        let r = acc.push(Tok::End);
        assert forall|k: int| 0 <= k < r.len() - 1 implies body_token(#[trigger] r[k]) by {
            assert(r[k] == acc[k]);
        }
    } else if c == ' ' || c == '\t' {
        lemma_lex_from_tokens(s, j, acc);
    } else {
        let t = if c == '0' {
            scan_prefixed(s, j)->Ok_0.0
        } else if is_digit(c, 10) {
            scan_run(s, i, j, 10).0
        } else if single_symbol(c) is Some {
            Tok::Sym(single_symbol(c)->Some_0)
        } else {
            Tok::Sym(if c == '<' { Symbol::LSHIFT } else { Symbol::RSHIFT })
        };
        let n = if c == '0' {
            scan_prefixed(s, j)->Ok_0.1
        } else if is_digit(c, 10) {
            scan_run(s, i, j, 10).1
        } else if single_symbol(c) is Some {
            j
        } else {
            next_pos(s, j)
        };
        if c == '0' {
            lemma_scan_prefixed_token(s, j);
            lemma_scan_prefixed_advances(s, j);
        } else if is_digit(c, 10) {
            lemma_run_end(s, j, 10);
            lemma_run_token(s, i, j, 10);
        }
        let acc2 = acc.push(t);
        if lex_from(s, i, acc) is Ok {
            assert(lex_from(s, i, acc) == lex_from(s, n, acc2));
            assert forall|k: int| 0 <= k < acc2.len() implies body_token(#[trigger] acc2[k]) by {
                if k < acc.len() {
                    assert(acc2[k] == acc[k]);
                }
            }
            lemma_lex_from_tokens(s, n, acc2);
        }
    }
}

/// Every successful lexing ends with `End`, holds it nowhere else, and
/// holds only literals whose digits are valid in their radix.
pub proof fn lemma_lexed_tokens_well_formed(s: Seq<char>, i: int)
    requires
        0 <= i <= s.len(),
    ensures
        lex_from(s, i, seq![]) is Ok ==> well_formed_tokens(lex_from(s, i, seq![])->Ok_0),
{
    lemma_lex_from_tokens(s, i, seq![]);
}

/// A token that may stand in postfix output: a literal or a binary operator.
pub open spec fn postfix_item(t: Tok) -> bool {
    match t {
        Tok::End => false,
        Tok::Sym(s) => is_binary(s),
        Tok::Lit(_, _) => true,
    }
}

pub open spec fn all_postfix_items(ts: Seq<Tok>) -> bool {
    forall|k: int| 0 <= k < ts.len() ==> postfix_item(#[trigger] ts[k])
}

pub open spec fn no_close_paren(stack: Seq<Symbol>) -> bool {
    forall|k: int| 0 <= k < stack.len() ==> #[trigger] stack[k] != Symbol::RPAREN
}

proof fn lemma_push_item(out: Seq<Tok>, t: Tok)
    requires
        all_postfix_items(out),
        postfix_item(t),
    ensures
        all_postfix_items(out.push(t)),
{
    assert forall|k: int| 0 <= k < out.push(t).len() implies postfix_item(
        #[trigger] out.push(t)[k],
    ) by {
        if k < out.len() {
            assert(out.push(t)[k] == out[k]);
        }
    }
}

proof fn lemma_stack_drop_last(stack: Seq<Symbol>)
    requires
        stack.len() > 0,
        no_close_paren(stack),
    ensures
        no_close_paren(stack.drop_last()),
        stack.last() != Symbol::RPAREN,
{
    assert forall|k: int| 0 <= k < stack.drop_last().len() implies #[trigger] stack.drop_last()[k]
        != Symbol::RPAREN by {
        assert(stack.drop_last()[k] == stack[k]);
    }
}

proof fn lemma_close_paren_items(out: Seq<Tok>, stack: Seq<Symbol>)
    requires
        all_postfix_items(out),
        no_close_paren(stack),
    ensures
        close_paren(out, stack) is Some ==> all_postfix_items(close_paren(out, stack)->Some_0.0)
            && no_close_paren(close_paren(out, stack)->Some_0.1),
    decreases stack.len(),
{
    if stack.len() > 0 {
        lemma_stack_drop_last(stack);
        if stack.last() != Symbol::LPAREN {
            lemma_push_item(out, Tok::Sym(stack.last()));
            lemma_close_paren_items(out.push(Tok::Sym(stack.last())), stack.drop_last());
        }
    }
}

proof fn lemma_flush_for_items(out: Seq<Tok>, stack: Seq<Symbol>, s: Symbol)
    requires
        all_postfix_items(out),
        no_close_paren(stack),
    ensures
        all_postfix_items(flush_for(out, stack, s).0),
        no_close_paren(flush_for(out, stack, s).1),
    decreases stack.len(),
{
    if stack.len() > 0 && is_binary(stack.last()) && rank(stack.last()) >= rank(s) {
        lemma_stack_drop_last(stack);
        lemma_push_item(out, Tok::Sym(stack.last()));
        lemma_flush_for_items(out.push(Tok::Sym(stack.last())), stack.drop_last(), s);
    }
}

proof fn lemma_drain_items(out: Seq<Tok>, stack: Seq<Symbol>)
    requires
        all_postfix_items(out),
        no_close_paren(stack),
    ensures
        drain(out, stack) is Ok ==> all_postfix_items(drain(out, stack)->Ok_0),
    decreases stack.len(),
{
    if stack.len() > 0 {
        lemma_stack_drop_last(stack);
        if stack.last() != Symbol::LPAREN {
            lemma_push_item(out, Tok::Sym(stack.last()));
            lemma_drain_items(out.push(Tok::Sym(stack.last())), stack.drop_last());
        }
    }
}

proof fn lemma_rpn_from_items(ts: Seq<Tok>, out: Seq<Tok>, stack: Seq<Symbol>)
    requires
        all_postfix_items(out),
        no_close_paren(stack),
    ensures
        rpn_from(ts, out, stack) is Ok ==> all_postfix_items(rpn_from(ts, out, stack)->Ok_0),
    decreases ts.len(),
{
    if ts.len() == 0 {
        lemma_drain_items(out, stack);
    } else {
        let rest = ts.drop_first();
        match ts[0] {
            Tok::End => {
                lemma_drain_items(out, stack);
            },
            Tok::Lit(_, _) => {
                lemma_push_item(out, ts[0]);
                lemma_rpn_from_items(rest, out.push(ts[0]), stack);
            },
            Tok::Sym(s) => {
                if s == Symbol::RPAREN {
                    lemma_close_paren_items(out, stack);
                    if close_paren(out, stack) is Some {
                        let os = close_paren(out, stack)->Some_0;
                        lemma_rpn_from_items(rest, os.0, os.1);
                    }
                } else {
                    let os = if s == Symbol::LPAREN {
                        (out, stack)
                    } else {
                        flush_for(out, stack, s)
                    };
                    if s != Symbol::LPAREN {
                        lemma_flush_for_items(out, stack, s);
                    }
                    assert forall|k: int| 0 <= k < os.1.push(s).len() implies #[trigger] os.1.push(
                        s,
                    )[k] != Symbol::RPAREN by {
                        if k < os.1.len() {
                            assert(os.1.push(s)[k] == os.1[k]);
                        }
                    }
                    lemma_rpn_from_items(rest, os.0, os.1.push(s));
                }
            },
        }
    }
}

/// The postfix order of any token sequence holds only literals and binary
/// operators: no `End` and no parenthesis.
pub proof fn lemma_rpn_items(ts: Seq<Tok>)
    ensures
        rpn(ts) is Ok ==> all_postfix_items(rpn(ts)->Ok_0),
{
    lemma_rpn_from_items(ts, seq![], seq![]);
}

/// Two binary operators between three literals: where the first binds at
/// least as tightly as the second, it is applied first (so equal ranks group
/// to the left); otherwise the second is applied to the last two literals
/// first.
pub proof fn lemma_two_operators(a: Tok, b: Tok, c: Tok, o1: Symbol, o2: Symbol)
    requires
        a is Lit,
        b is Lit,
        c is Lit,
        is_binary(o1),
        is_binary(o2),
    ensures
        rpn(seq![a, Tok::Sym(o1), b, Tok::Sym(o2), c, Tok::End]) == Ok::<Seq<Tok>, BitwiseError>(
            if rank(o1) >= rank(o2) {
                seq![a, b, Tok::Sym(o1), c, Tok::Sym(o2)]
            } else {
                seq![a, b, c, Tok::Sym(o2), Tok::Sym(o1)]
            },
        ),
{
    let s1 = Tok::Sym(o1);
    let s2 = Tok::Sym(o2);
    let ts0 = seq![a, s1, b, s2, c, Tok::End];
    let ts1 = seq![s1, b, s2, c, Tok::End];
    let ts2 = seq![b, s2, c, Tok::End];
    let ts3 = seq![s2, c, Tok::End];
    let ts4 = seq![c, Tok::End];
    let ts5 = seq![Tok::End];
    assert(ts0.drop_first() =~= ts1);
    assert(ts1.drop_first() =~= ts2);
    assert(ts2.drop_first() =~= ts3);
    assert(ts3.drop_first() =~= ts4);
    assert(ts4.drop_first() =~= ts5);
    let empty_stack = Seq::<Symbol>::empty();
    assert(seq![].push(a) =~= seq![a]);
    assert(seq![a].push(b) =~= seq![a, b]);
    assert(empty_stack.push(o1) =~= seq![o1]);
    assert(seq![o1].drop_last() =~= empty_stack);
    assert(flush_for(seq![a], empty_stack, o1) == (seq![a], empty_stack));
    if rank(o1) >= rank(o2) {
        let out = seq![a, b, s1];
        assert(seq![a, b].push(s1) =~= out);
        assert(empty_stack.push(o2) =~= seq![o2]);
        assert(seq![o2].drop_last() =~= empty_stack);
        assert(out.push(c) =~= seq![a, b, s1, c]);
        assert(seq![a, b, s1, c].push(s2) =~= seq![a, b, s1, c, s2]);
        assert(drain(seq![a, b, s1, c, s2], empty_stack) == Ok::<Seq<Tok>, BitwiseError>(
            seq![a, b, s1, c, s2],
        ));
        assert(drain(seq![a, b, s1, c], seq![o2]) == Ok::<Seq<Tok>, BitwiseError>(
            seq![a, b, s1, c, s2],
        ));
        assert(rpn_from(ts4, out, seq![o2]) == rpn_from(ts5, seq![a, b, s1, c], seq![o2]));
        assert(flush_for(out, empty_stack, o2) == (out, empty_stack));
        assert(flush_for(seq![a, b], seq![o1], o2) == (out, empty_stack));
        assert(rpn_from(ts3, seq![a, b], seq![o1]) == rpn_from(ts4, out, seq![o2]));
    } else {
        assert(seq![o1].push(o2) =~= seq![o1, o2]);
        assert(seq![o1, o2].drop_last() =~= seq![o1]);
        assert(seq![a, b].push(c) =~= seq![a, b, c]);
        assert(seq![a, b, c].push(s2) =~= seq![a, b, c, s2]);
        assert(seq![a, b, c, s2].push(s1) =~= seq![a, b, c, s2, s1]);
        assert(drain(seq![a, b, c, s2, s1], empty_stack) == Ok::<Seq<Tok>, BitwiseError>(
            seq![a, b, c, s2, s1],
        ));
        assert(drain(seq![a, b, c, s2], seq![o1]) == Ok::<Seq<Tok>, BitwiseError>(
            seq![a, b, c, s2, s1],
        ));
        assert(drain(seq![a, b, c], seq![o1, o2]) == Ok::<Seq<Tok>, BitwiseError>(
            seq![a, b, c, s2, s1],
        ));
        assert(rpn_from(ts4, seq![a, b], seq![o1, o2]) == rpn_from(ts5, seq![a, b, c], seq![o1, o2]));
        assert(flush_for(seq![a, b], seq![o1], o2) == (seq![a, b], seq![o1]));
        assert(rpn_from(ts3, seq![a, b], seq![o1]) == rpn_from(ts4, seq![a, b], seq![o1, o2]));
    }
    assert(rpn_from(ts2, seq![a], seq![o1]) == rpn_from(ts3, seq![a, b], seq![o1]));
    assert(rpn_from(ts1, seq![a], empty_stack) == rpn_from(ts2, seq![a], seq![o1]));
    assert(rpn_from(ts0, seq![], empty_stack) == rpn_from(ts1, seq![a], empty_stack));
}

/// The value of `a o1 b o2 c` for three literals that denote `va`, `vb` and
/// `vc`: `(a o1 b) o2 c` where `o1` binds at least as tightly as `o2`, and
/// `a o1 (b o2 c)` otherwise; an operator that fails fails the whole.
pub proof fn lemma_two_operators_value(
    a: Tok,
    b: Tok,
    c: Tok,
    o1: Symbol,
    o2: Symbol,
    va: u64,
    vb: u64,
    vc: u64,
)
    requires
        a is Lit && literal_value(a->Lit_1, a->Lit_0) == Some(va),
        b is Lit && literal_value(b->Lit_1, b->Lit_0) == Some(vb),
        c is Lit && literal_value(c->Lit_1, c->Lit_0) == Some(vc),
        is_binary(o1),
        is_binary(o2),
    ensures
        eval_postfix(rpn(seq![a, Tok::Sym(o1), b, Tok::Sym(o2), c, Tok::End])->Ok_0) == if rank(
            o1,
        ) >= rank(o2) {
            match apply(o1, va, vb) {
                Err(e) => Err(e),
                Ok(x) => apply(o2, x, vc),
            }
        } else {
            match apply(o2, vb, vc) {
                Err(e) => Err(e),
                Ok(y) => apply(o1, va, y),
            }
        },
{
    lemma_two_operators(a, b, c, o1, o2);
    let s1 = Tok::Sym(o1);
    let s2 = Tok::Sym(o2);
    let none = Seq::<Tok>::empty();
    assert(seq![].push(va) =~= seq![va]);
    assert(seq![va].push(vb) =~= seq![va, vb]);
    assert(seq![va, vb].drop_last().drop_last() =~= Seq::<u64>::empty());
    if rank(o1) >= rank(o2) {
        let p = seq![a, b, s1, c, s2];
        assert(p.drop_first() =~= seq![b, s1, c, s2]);
        assert(seq![b, s1, c, s2].drop_first() =~= seq![s1, c, s2]);
        assert(seq![s1, c, s2].drop_first() =~= seq![c, s2]);
        assert(seq![c, s2].drop_first() =~= seq![s2]);
        assert(seq![s2].drop_first() =~= none);
        if let Ok(x) = apply(o1, va, vb) {
            assert(Seq::<u64>::empty().push(x) =~= seq![x]);
            assert(seq![x].push(vc) =~= seq![x, vc]);
            assert(seq![x, vc].drop_last().drop_last() =~= Seq::<u64>::empty());
            if let Ok(z) = apply(o2, x, vc) {
                assert(Seq::<u64>::empty().push(z) =~= seq![z]);
                assert(eval_from(none, seq![z]) == Ok::<u64, BitwiseError>(z));
            }
            assert(eval_from(seq![s2], seq![x, vc]) == match apply(o2, x, vc) {
                Err(e) => Err(e),
                Ok(z) => eval_from(none, seq![z]),
            });
            assert(eval_from(seq![c, s2], seq![x]) == eval_from(seq![s2], seq![x, vc]));
        }
        assert(eval_from(seq![s1, c, s2], seq![va, vb]) == match apply(o1, va, vb) {
            Err(e) => Err(e),
            Ok(x) => eval_from(seq![c, s2], seq![x]),
        });
        assert(eval_from(seq![b, s1, c, s2], seq![va]) == eval_from(seq![s1, c, s2], seq![va, vb]));
        assert(eval_from(p, seq![]) == eval_from(seq![b, s1, c, s2], seq![va]));
    } else {
        let p = seq![a, b, c, s2, s1];
        assert(p.drop_first() =~= seq![b, c, s2, s1]);
        assert(seq![b, c, s2, s1].drop_first() =~= seq![c, s2, s1]);
        assert(seq![c, s2, s1].drop_first() =~= seq![s2, s1]);
        assert(seq![s2, s1].drop_first() =~= seq![s1]);
        assert(seq![s1].drop_first() =~= none);
        assert(seq![va, vb].push(vc) =~= seq![va, vb, vc]);
        assert(seq![va, vb, vc].drop_last().drop_last() =~= seq![va]);
        if let Ok(y) = apply(o2, vb, vc) {
            assert(seq![va].push(y) =~= seq![va, y]);
            assert(seq![va, y].drop_last().drop_last() =~= Seq::<u64>::empty());
            if let Ok(z) = apply(o1, va, y) {
                assert(Seq::<u64>::empty().push(z) =~= seq![z]);
                assert(eval_from(none, seq![z]) == Ok::<u64, BitwiseError>(z));
            }
            assert(eval_from(seq![s1], seq![va, y]) == match apply(o1, va, y) {
                Err(e) => Err(e),
                Ok(z) => eval_from(none, seq![z]),
            });
        }
        assert(eval_from(seq![s2, s1], seq![va, vb, vc]) == match apply(o2, vb, vc) {
            Err(e) => Err(e),
            Ok(y) => eval_from(seq![s1], seq![va, y]),
        });
        assert(eval_from(seq![c, s2, s1], seq![va, vb]) == eval_from(seq![s2, s1], seq![va, vb, vc]));
        assert(eval_from(seq![b, c, s2, s1], seq![va]) == eval_from(seq![c, s2, s1], seq![va, vb]));
        assert(eval_from(p, seq![]) == eval_from(seq![b, c, s2, s1], seq![va]));
    }
}

proof fn lemma_run_to(s: Seq<char>, i: int, e: int, radix: nat)
    requires
        0 <= i <= e <= s.len(),
        forall|j: int| i <= j < e ==> is_digit(#[trigger] s[j], radix),
        e == s.len() || !is_digit(s[e], radix),
    ensures
        run_end(s, i, radix) == e,
    decreases e - i,
{
    if i < e {
        lemma_run_to(s, i + 1, e, radix);
    }
}

/// Reordering and evaluating the tokens of one binary operator between two
/// literals.
proof fn lemma_one_operator(s: Seq<char>, a: Tok, b: Tok, op: Symbol, va: u64, vb: u64)
    requires
        lex(s) == Ok::<Seq<Tok>, BitwiseError>(seq![a, Tok::Sym(op), b, Tok::End]),
        a is Lit && literal_value(a->Lit_1, a->Lit_0) == Some(va),
        b is Lit && literal_value(b->Lit_1, b->Lit_0) == Some(vb),
        is_binary(op),
    ensures
        eval_query(s) == apply(op, va, vb),
{
    let o = Tok::Sym(op);
    let none = Seq::<Tok>::empty();
    let empty_stack = Seq::<Symbol>::empty();
    let ts0 = seq![a, o, b, Tok::End];
    assert(ts0.drop_first() =~= seq![o, b, Tok::End]);
    assert(seq![o, b, Tok::End].drop_first() =~= seq![b, Tok::End]);
    assert(seq![b, Tok::End].drop_first() =~= seq![Tok::End]);
    assert(seq![].push(a) =~= seq![a]);
    assert(seq![a].push(b) =~= seq![a, b]);
    assert(seq![a, b].push(o) =~= seq![a, b, o]);
    assert(empty_stack.push(op) =~= seq![op]);
    assert(seq![op].drop_last() =~= empty_stack);
    assert(flush_for(seq![a], empty_stack, op) == (seq![a], empty_stack));
    assert(drain(seq![a, b, o], empty_stack) == Ok::<Seq<Tok>, BitwiseError>(seq![a, b, o]));
    assert(drain(seq![a, b], seq![op]) == Ok::<Seq<Tok>, BitwiseError>(seq![a, b, o]));
    assert(rpn_from(seq![Tok::End], seq![a, b], seq![op]) == Ok::<Seq<Tok>, BitwiseError>(
        seq![a, b, o],
    ));
    assert(rpn_from(seq![b, Tok::End], seq![a], seq![op]) == Ok::<Seq<Tok>, BitwiseError>(
        seq![a, b, o],
    ));
    assert(rpn_from(seq![o, b, Tok::End], seq![a], empty_stack) == Ok::<Seq<Tok>, BitwiseError>(
        seq![a, b, o],
    ));
    assert(rpn(ts0) == Ok::<Seq<Tok>, BitwiseError>(seq![a, b, o]));
    let p = seq![a, b, o];
    assert(p.drop_first() =~= seq![b, o]);
    assert(seq![b, o].drop_first() =~= seq![o]);
    assert(seq![o].drop_first() =~= none);
    assert(seq![].push(va) =~= seq![va]);
    assert(seq![va].push(vb) =~= seq![va, vb]);
    assert(seq![va, vb].drop_last().drop_last() =~= Seq::<u64>::empty());
    if let Ok(v) = apply(op, va, vb) {
        assert(Seq::<u64>::empty().push(v) =~= seq![v]);
        assert(eval_from(none, seq![v]) == Ok::<u64, BitwiseError>(v));
    }
    assert(eval_from(seq![o], seq![va, vb]) == apply(op, va, vb));
    assert(eval_from(seq![b, o], seq![va]) == eval_from(seq![o], seq![va, vb]));
    assert(eval_from(p, seq![]) == eval_from(seq![b, o], seq![va]));
}

/// The query `0d<a> << 0d<b>` (or with `>>`), for decimal digit strings `a`
/// and `b`.
pub open spec fn shift_query(da: Seq<char>, db: Seq<char>, left: bool) -> Seq<char> {
    let c = if left {
        '<'
    } else {
        '>'
    };
    radix_prefix(10) + da + seq![' ', c, c, ' '] + radix_prefix(10) + db
}

/// A shift of one decimal number by another: a shift by 64 or more fails
/// with `ShiftOverflow` and the amount, whatever the shifted value; a
/// smaller one is the logical shift, bits shifted out to the left dropped.
pub proof fn lemma_shift_query(da: Seq<char>, db: Seq<char>, left: bool)
    requires
        da.len() > 0,
        db.len() > 0,
        all_digits(da, 10),
        all_digits(db, 10),
        digits_value(da, 10) <= u64::MAX,
        digits_value(db, 10) <= u64::MAX,
    ensures
        ({
            let va = digits_value(da, 10) as u64;
            let vb = digits_value(db, 10) as u64;
            &&& vb >= 64 ==> eval_query(shift_query(da, db, left)) == Err::<u64, BitwiseError>(
                BitwiseError::ShiftOverflow(vb),
            )
            &&& vb < 64 && left ==> eval_query(shift_query(da, db, left)) == Ok::<
                u64,
                BitwiseError,
            >(va << vb)
            &&& vb < 64 && !left ==> eval_query(shift_query(da, db, left)) == Ok::<
                u64,
                BitwiseError,
            >(va >> vb)
        }),
{
    let c = if left {
        '<'
    } else {
        '>'
    };
    let op = if left {
        Symbol::LSHIFT
    } else {
        Symbol::RSHIFT
    };
    let s = shift_query(da, db, left);
    let n1 = 2 + da.len() as int;
    let len = s.len() as int;
    assert(len == n1 + 6 + db.len());
    assert(s[0] == '0' && s[1] == 'd');
    assert(s[n1] == ' ' && s[n1 + 1] == c && s[n1 + 2] == c && s[n1 + 3] == ' ');
    assert(s[n1 + 4] == '0' && s[n1 + 5] == 'd');
    assert forall|j: int| 2 <= j < n1 implies is_digit(#[trigger] s[j], 10) by {
        assert(s[j] == da[j - 2]);
    }
    assert forall|j: int| n1 + 6 <= j < len implies is_digit(#[trigger] s[j], 10) by {
        assert(s[j] == db[j - n1 - 6]);
    }
    assert(s.subrange(2, n1) =~= da);
    assert(s.subrange(n1 + 6, len) =~= db);
    lemma_run_to(s, 2, n1, 10);
    lemma_run_to(s, n1 + 6, len, 10);
    let a = Tok::Lit(10, da);
    let b = Tok::Lit(10, db);
    let o = Tok::Sym(op);
    assert(seq![].push(a) =~= seq![a]);
    assert(seq![a].push(o) =~= seq![a, o]);
    assert(seq![a, o].push(b) =~= seq![a, o, b]);
    assert(seq![a, o, b].push(Tok::End) =~= seq![a, o, b, Tok::End]);
    let goal = Ok::<Seq<Tok>, BitwiseError>(seq![a, o, b, Tok::End]);
    assert(lex_from(s, len, seq![a, o, b]) == goal);
    assert(scan_prefixed(s, n1 + 5) == Ok::<(Tok, int), BitwiseError>((b, len)));
    assert(lex_from(s, n1 + 4, seq![a, o]) == goal);
    assert(lex_from(s, n1 + 3, seq![a, o]) == goal);
    assert(lex_from(s, n1 + 1, seq![a]) == goal);
    assert(lex_from(s, n1, seq![a]) == goal);
    assert(scan_prefixed(s, 1) == Ok::<(Tok, int), BitwiseError>((a, n1)));
    assert(lex(s) == goal);
    let va = digits_value(da, 10) as u64;
    let vb = digits_value(db, 10) as u64;
    assert(is_digit(da[0], 10) && is_digit(db[0], 10));
    assert(unsigned_digits(da) == da && unsigned_digits(db) == db);
    assert(literal_value(da, 10) == Some(va));
    assert(literal_value(db, 10) == Some(vb));
    lemma_one_operator(s, a, b, op, va, vb);
}

} // verus!
