use vstd::prelude::*;
use crate::error::BitwiseError;
use crate::laws::{all_postfix_items, balanced, lemma_rpn_from_parens, lemma_rpn_items};
use crate::token::{Symbol, Tok, Token, TokenKind, toks, toks_result, lemma_toks_push};

verus! {

/// Binding strength of an operator: `|` lowest, then `^`, `&`, and the two
/// shifts highest. Parentheses are not ranked.
pub open spec fn rank(s: Symbol) -> nat {
    match s {
        Symbol::Or => 1,
        Symbol::Xor => 2,
        Symbol::And => 3,
        Symbol::LSHIFT | Symbol::RSHIFT => 4,
        Symbol::LPAREN | Symbol::RPAREN => 0,
    }
}

pub open spec fn is_binary(s: Symbol) -> bool {
    s != Symbol::LPAREN && s != Symbol::RPAREN
}

/// At a `)`: operators move from the stack's top to the output up to the
/// nearest `(`, which is dropped; none where the stack holds no `(`.
pub open spec fn close_paren(out: Seq<Tok>, stack: Seq<Symbol>) -> Option<(Seq<Tok>, Seq<Symbol>)>
    decreases stack.len(),
{
    if stack.len() == 0 {
        None
    } else if stack.last() == Symbol::LPAREN {
        Some((out, stack.drop_last()))
    } else {
        close_paren(out.push(Tok::Sym(stack.last())), stack.drop_last())
    }
}

/// Before an operator `s` is stacked: the operators on top that bind at
/// least as tightly move to the output, which makes equal ranks group to the
/// left.
pub open spec fn flush_for(out: Seq<Tok>, stack: Seq<Symbol>, s: Symbol) -> (Seq<Tok>, Seq<Symbol>)
    decreases stack.len(),
{
    if stack.len() > 0 && is_binary(stack.last()) && rank(stack.last()) >= rank(s) {
        flush_for(out.push(Tok::Sym(stack.last())), stack.drop_last(), s)
    } else {
        (out, stack)
    }
}

/// At the end of the input: the stack moves to the output, top first; a `(`
/// still on it was never closed.
pub open spec fn drain(out: Seq<Tok>, stack: Seq<Symbol>) -> Result<Seq<Tok>, BitwiseError>
    decreases stack.len(),
{
    if stack.len() == 0 {
        Ok(out)
    } else if stack.last() == Symbol::LPAREN {
        Err(BitwiseError::UnbalancedParentheses)
    } else {
        drain(out.push(Tok::Sym(stack.last())), stack.drop_last())
    }
}

/// The shunting-yard pass over the remaining tokens `ts`, with the output so
/// far and the operator stack (top last).
pub open spec fn rpn_from(ts: Seq<Tok>, out: Seq<Tok>, stack: Seq<Symbol>) -> Result<Seq<Tok>, BitwiseError>
    decreases ts.len(),
{
    if ts.len() == 0 {
        drain(out, stack)
    } else {
        let rest = ts.drop_first();
        match ts[0] {
            Tok::End => drain(out, stack),
            Tok::Lit(_, _) => rpn_from(rest, out.push(ts[0]), stack),
            Tok::Sym(s) => if s == Symbol::LPAREN {
                rpn_from(rest, out, stack.push(s))
            } else if s == Symbol::RPAREN {
                match close_paren(out, stack) {
                    None => Err(BitwiseError::UnbalancedParentheses),
                    Some(os) => rpn_from(rest, os.0, os.1),
                }
            } else {
                let os = flush_for(out, stack, s);
                rpn_from(rest, os.0, os.1.push(s))
            },
        }
    }
}

/// The postfix order of an infix token sequence.
pub open spec fn rpn(ts: Seq<Tok>) -> Result<Seq<Tok>, BitwiseError> {
    rpn_from(ts, seq![], seq![])
}

pub fn rank_of(s: Symbol) -> (r: u8)
    ensures
        r as nat == rank(s),
{
    match s {
        Symbol::Or => 1,
        Symbol::Xor => 2,
        Symbol::And => 3,
        Symbol::LSHIFT | Symbol::RSHIFT => 4,
        Symbol::LPAREN | Symbol::RPAREN => 0,
    }
}

/// Handles a `)`: false where the stack holds no `(`.
fn pop_to_paren(rets: &mut Vec<Token>, stack: &mut Vec<Symbol>) -> (found: bool)
    ensures
        match close_paren(toks(old(rets)@), old(stack)@) {
            None => !found,
            Some(os) => found && toks(final(rets)@) == os.0 && final(stack)@ == os.1,
        },
{
    loop
        invariant
            close_paren(toks(rets@), stack@) == close_paren(toks(old(rets)@), old(stack)@),
        decreases stack.len(),
    {
        match stack.pop() {
            None => {
                return false;
            },
            Some(prev) => {
                if prev == Symbol::LPAREN {
                    return true;
                }
                let t = Token { kind: TokenKind::Symbol(prev) };
                proof {
                    lemma_toks_push(rets@, t);
                }
                rets.push(t);
            },
        }
    }
}

/// Moves to the output the operators on the stack's top that bind at least
/// as tightly as `s`.
fn pop_higher(rets: &mut Vec<Token>, stack: &mut Vec<Symbol>, s: Symbol)
    ensures
        (toks(final(rets)@), final(stack)@) == flush_for(toks(old(rets)@), old(stack)@, s),
{
    let r = rank_of(s);
    loop
        invariant
            flush_for(toks(rets@), stack@, s) == flush_for(toks(old(rets)@), old(stack)@, s),
            r as nat == rank(s),
        decreases stack.len(),
    {
        let n = stack.len();
        if n == 0 {
            return;
        }
        let top = stack[n - 1];
        if top == Symbol::LPAREN || top == Symbol::RPAREN || rank_of(top) < r {
            return;
        }
        let _ = stack.pop();
        let t = Token { kind: TokenKind::Symbol(top) };
        proof {
            lemma_toks_push(rets@, t);
        }
        rets.push(t);
    }
}

/// Appends the stack to the output, top first.
fn drain_stack(out: Vec<Token>, ops: Vec<Symbol>) -> (r: Result<Vec<Token>, BitwiseError>)
    ensures
        toks_result(r) == drain(toks(out@), ops@),
{
    let ghost goal = drain(toks(out@), ops@);
    let mut rets = out;
    let mut stack = ops;
    loop
        invariant
            goal == drain(toks(out@), ops@),
            drain(toks(rets@), stack@) == goal,
        decreases stack.len(),
    {
        match stack.pop() {
            None => {
                return Ok(rets);
            },
            Some(prev) => {
                if prev == Symbol::LPAREN {
                    return Err(BitwiseError::UnbalancedParentheses);
                }
                let t = Token { kind: TokenKind::Symbol(prev) };
                proof {
                    lemma_toks_push(rets@, t);
                }
                rets.push(t);
            },
        }
    }
}

/// Reorders an infix token sequence into postfix order by the
/// shunting-yard method; tokens after `EOL` are ignored, and the result holds
/// no `EOL` and no parentheses.
pub fn reverse_polish_notation(tokens: Vec<Token>) -> (r: Result<Vec<Token>, BitwiseError>)
    ensures
        toks_result(r) == rpn(toks(tokens@)),
        match r {
            Ok(_) => balanced(toks(tokens@)),
            Err(e) => e == BitwiseError::UnbalancedParentheses && !balanced(toks(tokens@)),
        },
        r is Ok ==> all_postfix_items(toks(r->Ok_0@)),
{
    proof {
        lemma_rpn_from_parens(toks(tokens@), seq![], seq![]);
        lemma_rpn_items(toks(tokens@));
    }
    let ghost goal = rpn(toks(tokens@));
    let mut input = tokens;
    let mut rets: Vec<Token> = Vec::new();
    let mut stack: Vec<Symbol> = Vec::new();
    proof {
        assert(toks(rets@) =~= seq![]);
    }
    while input.len() > 0
        invariant
            goal == rpn(toks(tokens@)),
            goal is Err <==> !balanced(toks(tokens@)),
            goal is Ok ==> all_postfix_items(goal->Ok_0),
            goal is Err ==> goal == Err::<Seq<Tok>, BitwiseError>(
                BitwiseError::UnbalancedParentheses,
            ),
            rpn_from(toks(input@), toks(rets@), stack@) == goal,
        decreases input.len(),
    {
        let ghost ts = toks(input@);
        let token = input.remove(0);
        proof {
            assert(ts[0] == token@);
            assert(ts.drop_first() =~= toks(input@));
        }
        match token.kind {
            TokenKind::EOL => {
                return drain_stack(rets, stack);
            },
            TokenKind::Value(_) => {
                proof {
                    lemma_toks_push(rets@, token);
                }
                rets.push(token);
            },
            TokenKind::Symbol(s) => {
                if s == Symbol::LPAREN {
                    stack.push(s);
                } else if s == Symbol::RPAREN {
                    if !pop_to_paren(&mut rets, &mut stack) {
                        return Err(BitwiseError::UnbalancedParentheses);
                    }
                } else {
                    pop_higher(&mut rets, &mut stack, s);
                    stack.push(s);
                }
            },
        }
    }
    drain_stack(rets, stack)
}

} // verus!
