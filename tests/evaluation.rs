use bitwise::{
    calculate, evaluate, reverse_polish_notation, BitwiseError, Lexer, Symbol, Token, TokenKind,
    Value,
};

#[test]
fn test_calculate() {
    let tests = [
        ("123 & 456", 72),
        ("123 & 456 >> 2", 114),
        ("(123 & 456) >> 2", 18),
        ("(0xab & 123) >> 2 | 0b11001010 & 0456 ^ 0d789", 799),
    ];
    for (src, ans) in tests {
        let got = match calculate(src) {
            Ok(v) => v,
            Err(e) => panic!("Error: {:?}", e),
        };
        assert_eq!(got, ans);
    }
}

fn postfix(src: &str) -> Result<Vec<Token>, BitwiseError> {
    let mut lex = Lexer::new(src);
    reverse_polish_notation(lex.tokenize().unwrap())
}

fn dec(s: &str) -> Token {
    Token { kind: TokenKind::Value(Value::Dec(s.to_string())) }
}

fn sym(s: Symbol) -> Token {
    Token { kind: TokenKind::Symbol(s) }
}

#[test]
fn single_literals() {
    assert_eq!(evaluate("0x1ac"), Ok(Some(428)));
    assert_eq!(evaluate("0456"), Ok(Some(302)));
    assert_eq!(evaluate("0b101"), Ok(Some(5)));
    assert_eq!(evaluate("42"), Ok(Some(42)));
    assert_eq!(evaluate("0d0789"), Ok(Some(789)));
    assert_eq!(evaluate("0xffffffffffffffff"), Ok(Some(u64::MAX)));
}

#[test]
fn same_rank_chain_groups_left() {
    assert_eq!(
        postfix("1 & 2 & 3").unwrap(),
        vec![dec("1"), dec("2"), sym(Symbol::And), dec("3"), sym(Symbol::And)]
    );
    assert_eq!(
        postfix("8 >> 1 << 2").unwrap(),
        vec![dec("8"), dec("1"), sym(Symbol::RSHIFT), dec("2"), sym(Symbol::LSHIFT)]
    );
    assert_eq!(calculate("8 >> 1 << 2"), Ok(16));
    assert_eq!(calculate("64 >> 2 >> 1"), Ok(8));
}

#[test]
fn precedence_order() {
    assert_eq!(
        postfix("1 | 2 ^ 3 & 4 << 5").unwrap(),
        vec![
            dec("1"),
            dec("2"),
            dec("3"),
            dec("4"),
            dec("5"),
            sym(Symbol::LSHIFT),
            sym(Symbol::And),
            sym(Symbol::Xor),
            sym(Symbol::Or),
        ]
    );
    assert_eq!(calculate("1 | 6 ^ 3 & 1 << 1"), Ok(5));
    assert_eq!(calculate("1 << 1 & 3 ^ 6 | 1"), Ok(5));
}

#[test]
fn unbalanced_parentheses() {
    assert_eq!(calculate("(1 & 2"), Err(BitwiseError::UnbalancedParentheses));
    assert_eq!(calculate("1 & 2)"), Err(BitwiseError::UnbalancedParentheses));
    assert_eq!(evaluate("((1)"), Err(BitwiseError::UnbalancedParentheses));
    assert_eq!(evaluate(")("), Err(BitwiseError::UnbalancedParentheses));
    assert_eq!(calculate("((1 | 2) & 3)"), Ok(3));
}

#[test]
fn repeated_evaluation() {
    let q = "(0xab & 123) >> 2 | 0b11001010 & 0456 ^ 0d789";
    assert_eq!(evaluate(q), evaluate(q));
    assert_eq!(evaluate(q), Ok(Some(799)));
    assert_eq!(evaluate("1 >> 99"), evaluate("1 >> 99"));
}

#[test]
fn empty_query() {
    assert_eq!(evaluate(""), Ok(None));
    assert_eq!(evaluate(" "), Err(BitwiseError::StackImbalance(0)));
}

#[test]
fn wide_shifts() {
    assert_eq!(calculate("1 << 63"), Ok(1u64 << 63));
    assert_eq!(calculate("1 << 64"), Err(BitwiseError::ShiftOverflow(64)));
    assert_eq!(calculate("0xff >> 63"), Ok(0));
    assert_eq!(calculate("0xff >> 0x40"), Err(BitwiseError::ShiftOverflow(64)));
    assert_eq!(calculate("3 << 1000"), Err(BitwiseError::ShiftOverflow(1000)));
    assert_eq!(calculate("0xffffffffffffffff << 4"), Ok(0xffff_ffff_ffff_fff0));
}

#[test]
fn evaluation_errors() {
    assert_eq!(calculate("1 2"), Err(BitwiseError::StackImbalance(2)));
    assert_eq!(calculate("1 &"), Err(BitwiseError::StackImbalance(1)));
    assert_eq!(calculate("()"), Err(BitwiseError::StackImbalance(0)));
    assert_eq!(calculate("18446744073709551616"), Err(BitwiseError::NumberFormat));
    assert_eq!(calculate("18446744073709551615"), Ok(u64::MAX));
    assert_eq!(evaluate("2 $ 3"), Err(BitwiseError::UnexpectedCharacter('$')));
}

#[test]
fn postfix_drops_parentheses() {
    assert_eq!(
        postfix("((1 | 2) & 3)").unwrap(),
        vec![dec("1"), dec("2"), sym(Symbol::Or), dec("3"), sym(Symbol::And)]
    );
    assert_eq!(postfix("(1"), Err(BitwiseError::UnbalancedParentheses));
    assert_eq!(postfix(")"), Err(BitwiseError::UnbalancedParentheses));
}

#[test]
fn sentinel_in_text_stops_evaluation() {
    assert_eq!(evaluate("1\u{0}2"), Ok(Some(1)));
    assert_eq!(evaluate("6 & 0d3\u{0} | 8"), Ok(Some(2)));
}

#[test]
fn shifts_of_formatted_numbers() {
    for (a, b) in [(1u64, 0u64), (5, 3), (u64::MAX, 63), (12345, 64), (7, 1000), (0, u64::MAX)] {
        let left = calculate(&format!("0d{} << 0d{}", a, b));
        let right = calculate(&format!("0d{} >> 0d{}", a, b));
        if b >= 64 {
            assert_eq!(left, Err(BitwiseError::ShiftOverflow(b)));
            assert_eq!(right, Err(BitwiseError::ShiftOverflow(b)));
        } else {
            assert_eq!(left, Ok(a.wrapping_shl(b as u32)));
            assert_eq!(right, Ok(a >> b));
        }
    }
}
