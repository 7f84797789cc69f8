use vstd::prelude::*;
use crate::error::BitwiseError;
use crate::lexer::{Lexer, lex};
use crate::rpn::{is_binary, reverse_polish_notation, rpn};
use crate::token::{Symbol, Tok, Token, TokenKind, literal_value, toks};

verus! {

/// `lhs op rhs` for a binary operator. A shift by 64 or more is refused
/// rather than wrapped or saturated.
pub open spec fn apply(op: Symbol, lhs: u64, rhs: u64) -> Result<u64, BitwiseError> {
    match op {
        Symbol::And => Ok(lhs & rhs),
        Symbol::Xor => Ok(lhs ^ rhs),
        Symbol::Or => Ok(lhs | rhs),
        Symbol::LSHIFT => if rhs < 64 {
            Ok(lhs << rhs)
        } else {
            Err(BitwiseError::ShiftOverflow(rhs))
        },
        Symbol::RSHIFT => if rhs < 64 {
            Ok(lhs >> rhs)
        } else {
            Err(BitwiseError::ShiftOverflow(rhs))
        },
        Symbol::LPAREN | Symbol::RPAREN => Ok(rhs),
    }
}

/// The outcome once the tokens are used up: the one value left.
pub open spec fn finish(stack: Seq<u64>) -> Result<u64, BitwiseError> {
    if stack.len() == 1 {
        Ok(stack[0])
    } else {
        Err(BitwiseError::StackImbalance(stack.len() as usize))
    }
}

/// Evaluation of the postfix tokens `ts` on the value stack `stack` (top
/// last). Parentheses are skipped; `End` stops the evaluation.
pub open spec fn eval_from(ts: Seq<Tok>, stack: Seq<u64>) -> Result<u64, BitwiseError>
    decreases ts.len(),
{
    if ts.len() == 0 {
        finish(stack)
    } else {
        let rest = ts.drop_first();
        match ts[0] {
            Tok::End => finish(stack),
            Tok::Lit(radix, digits) => match literal_value(digits, radix) {
                None => Err(BitwiseError::NumberFormat),
                Some(v) => eval_from(rest, stack.push(v)),
            },
            Tok::Sym(s) => if !is_binary(s) {
                eval_from(rest, stack)
            } else if stack.len() < 2 {
                Err(BitwiseError::StackImbalance(stack.len() as usize))
            } else {
                match apply(s, stack[stack.len() - 2], stack.last()) {
                    Err(e) => Err(e),
                    Ok(v) => eval_from(rest, stack.drop_last().drop_last().push(v)),
                }
            },
        }
    }
}

pub open spec fn eval_postfix(ts: Seq<Tok>) -> Result<u64, BitwiseError> {
    eval_from(ts, seq![])
}

/// The value of a query: lexed, put in postfix order, evaluated.
pub open spec fn eval_query(q: Seq<char>) -> Result<u64, BitwiseError> {
    match lex(q) {
        Err(e) => Err(e),
        Ok(ts) => match rpn(ts) {
            Err(e) => Err(e),
            Ok(p) => eval_postfix(p),
        },
    }
}

/// What `evaluate` returns: nothing to compute for an empty query.
pub open spec fn query_result(q: Seq<char>) -> Result<Option<u64>, BitwiseError> {
    if q.len() == 0 {
        Ok(None)
    } else {
        match eval_query(q) {
            Ok(v) => Ok(Some(v)),
            Err(e) => Err(e),
        }
    }
}

/// Applies a binary operator to two operands.
pub fn apply_symbol(op: Symbol, lhs: u64, rhs: u64) -> (r: Result<u64, BitwiseError>)
    requires
        is_binary(op),
    ensures
        r == apply(op, lhs, rhs),
        (op == Symbol::LSHIFT || op == Symbol::RSHIFT) && rhs >= 64 ==> r == Err::<
            u64,
            BitwiseError,
        >(BitwiseError::ShiftOverflow(rhs)),
{
    match op {
        Symbol::And => Ok(lhs & rhs),
        Symbol::Xor => Ok(lhs ^ rhs),
        Symbol::Or => Ok(lhs | rhs),
        Symbol::LSHIFT => if rhs < 64 {
            Ok(lhs << rhs)
        } else {
            Err(BitwiseError::ShiftOverflow(rhs))
        },
        Symbol::RSHIFT => if rhs < 64 {
            Ok(lhs >> rhs)
        } else {
            Err(BitwiseError::ShiftOverflow(rhs))
        },
        Symbol::LPAREN | Symbol::RPAREN => Ok(rhs),
    }
}

/// Evaluates postfix tokens on a value stack.
pub fn evaluate_postfix(tokens: &Vec<Token>) -> (r: Result<u64, BitwiseError>)
    ensures
        r == eval_postfix(toks(tokens@)),
{
    let ghost ts = toks(tokens@);
    let mut calc_stack: Vec<u64> = Vec::new();
    let mut i: usize = 0;
    proof {
        assert(ts.skip(0) =~= ts);
    }
    while i < tokens.len()
        invariant
            ts == toks(tokens@),
            i <= tokens.len(),
            eval_from(ts.skip(i as int), calc_stack@) == eval_postfix(ts),
        decreases tokens.len() - i,
    {
        proof {
            assert(ts.skip(i as int)[0] == tokens@[i as int]@);
            assert(ts.skip(i as int).drop_first() =~= ts.skip(i + 1));
        }
        match &tokens[i].kind {
            TokenKind::EOL => {
                return finish_stack(&calc_stack);
            },
            TokenKind::Value(v) => {
                match v.u64() {
                    Ok(x) => calc_stack.push(x),
                    Err(e) => {
                        return Err(e);
                    },
                }
            },
            TokenKind::Symbol(s) => {
                if *s != Symbol::LPAREN && *s != Symbol::RPAREN {
                    let n = calc_stack.len();
                    if n < 2 {
                        return Err(BitwiseError::StackImbalance(n));
                    }
                    let v1 = calc_stack.pop().unwrap();
                    let v2 = calc_stack.pop().unwrap();
                    match apply_symbol(*s, v2, v1) {
                        Ok(v) => calc_stack.push(v),
                        Err(e) => {
                            return Err(e);
                        },
                    }
                }
            },
        }
        i = i + 1;
    }
    proof {
        assert(ts.skip(i as int) =~= seq![]);
    }
    finish_stack(&calc_stack)
}

/// The single value left on the stack.
fn finish_stack(calc_stack: &Vec<u64>) -> (r: Result<u64, BitwiseError>)
    ensures
        r == finish(calc_stack@),
{
    let n = calc_stack.len();
    if n != 1 {
        return Err(BitwiseError::StackImbalance(n));
    }
    Ok(calc_stack[0])
}

/// Evaluates a query. An empty query is not special here: it has no value
/// and fails with `StackImbalance(0)`; `evaluate` is the entry point that
/// answers it with nothing to compute.
pub fn calculate(query: &str) -> (r: Result<u64, BitwiseError>)
    ensures
        r == eval_query(query@),
{
    let mut lex = Lexer::new(query);
    let tokens = match lex.tokenize() {
        Ok(t) => t,
        Err(e) => {
            return Err(e);
        },
    };
    let tokens = match reverse_polish_notation(tokens) {
        Ok(t) => t,
        Err(e) => {
            return Err(e);
        },
    };
    evaluate_postfix(&tokens)
}

/// Evaluates a query; an empty query has nothing to compute and gives
/// `Ok(None)`.
pub fn evaluate(query: &str) -> (r: Result<Option<u64>, BitwiseError>)
    ensures
        r == query_result(query@),
        query@.len() == 0 ==> r == Ok::<Option<u64>, BitwiseError>(None),
{
    if query.is_empty() {
        return Ok(None);
    }
    match calculate(query) {
        Ok(v) => Ok(Some(v)),
        Err(e) => Err(e),
    }
}

} // verus!
