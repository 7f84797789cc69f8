use bitwise::{BitwiseError, Cursor, Lexer, Symbol, Token, TokenKind, Value, EOL_CHAR};

fn dec(s: &str) -> Token {
    Token { kind: TokenKind::Value(Value::Dec(s.to_string())) }
}

fn sym(s: Symbol) -> Token {
    Token { kind: TokenKind::Symbol(s) }
}

fn eol() -> Token {
    Token { kind: TokenKind::EOL }
}

fn lex(src: &str) -> Result<Vec<Token>, BitwiseError> {
    let mut lex = Lexer::new(src);
    lex.tokenize()
}

#[test]
fn it_works() {
    let tests = [
        ("123", vec![dec("123"), eol()]),
        (
            "(123 & 456) >> 2",
            vec![
                sym(Symbol::LPAREN),
                dec("123"),
                sym(Symbol::And),
                dec("456"),
                sym(Symbol::RPAREN),
                sym(Symbol::RSHIFT),
                dec("2"),
                eol(),
            ],
        ),
    ];
    for (src, tokens) in tests {
        assert_eq!(lex(src).unwrap(), tokens, "Failed in the {:?}", src);
    }
}

#[test]
fn test_tokenize() {
    let tests = [
        ("123", vec![dec("123"), eol()]),
        (
            "0x1ac",
            vec![Token { kind: TokenKind::Value(Value::Hex("1ac".to_string())) }, eol()],
        ),
        (
            "0456",
            vec![Token { kind: TokenKind::Value(Value::Oct("456".to_string())) }, eol()],
        ),
        (
            "(123 & 456) >> 2",
            vec![
                sym(Symbol::LPAREN),
                dec("123"),
                sym(Symbol::And),
                dec("456"),
                sym(Symbol::RPAREN),
                sym(Symbol::RSHIFT),
                dec("2"),
                eol(),
            ],
        ),
    ];
    for (src, tokens) in tests {
        assert_eq!(lex(src).unwrap(), tokens, "Failed in the {:?}", src);
    }
}

#[test]
fn test_value_u64() {
    assert_eq!(Value::Hex("ab".to_string()).u64().unwrap(), 171);
}

#[test]
fn value_radixes() {
    assert_eq!(Value::Dec("789".to_string()).u64(), Ok(789));
    assert_eq!(Value::Oct("456".to_string()).u64(), Ok(302));
    assert_eq!(Value::Bin("11001010".to_string()).u64(), Ok(202));
    assert_eq!(Value::Hex("FfFfFfFfFfFfFfFf".to_string()).u64(), Ok(u64::MAX));
    assert_eq!(Value::Dec("+42".to_string()).u64(), Ok(42));
}

#[test]
fn value_rejects_bad_digits() {
    assert_eq!(Value::Hex("10000000000000000".to_string()).u64(), Err(BitwiseError::NumberFormat));
    assert_eq!(Value::Oct("8".to_string()).u64(), Err(BitwiseError::NumberFormat));
    assert_eq!(Value::Dec("".to_string()).u64(), Err(BitwiseError::NumberFormat));
    assert_eq!(Value::Dec("+".to_string()).u64(), Err(BitwiseError::NumberFormat));
    assert_eq!(Value::Dec("-1".to_string()).u64(), Err(BitwiseError::NumberFormat));
}

#[test]
fn tokenize_radix_prefixes() {
    assert_eq!(
        lex("0b101 ^ 0d9").unwrap(),
        vec![
            Token { kind: TokenKind::Value(Value::Bin("101".to_string())) },
            sym(Symbol::Xor),
            Token { kind: TokenKind::Value(Value::Dec("9".to_string())) },
            eol(),
        ]
    );
    assert_eq!(
        lex("1<<2|\t3").unwrap(),
        vec![dec("1"), sym(Symbol::LSHIFT), dec("2"), sym(Symbol::Or), dec("3"), eol()]
    );
}

#[test]
fn tokenize_errors() {
    assert_eq!(lex("0"), Err(BitwiseError::UnsupportedPrefix(EOL_CHAR)));
    assert_eq!(lex("0z1"), Err(BitwiseError::UnsupportedPrefix('z')));
    assert_eq!(lex("0x"), Err(BitwiseError::EmptyValue));
    assert_eq!(lex("0b2"), Err(BitwiseError::EmptyValue));
    assert_eq!(lex("1 < 2"), Err(BitwiseError::UnexpectedToken('<', ' ')));
    assert_eq!(lex("1 >"), Err(BitwiseError::UnexpectedToken('>', EOL_CHAR)));
    assert_eq!(lex("1 + 2"), Err(BitwiseError::UnexpectedCharacter('+')));
}

#[test]
fn tokenize_empty() {
    assert_eq!(lex("").unwrap(), vec![eol()]);
    assert_eq!(lex("  \t").unwrap(), vec![eol()]);
}

#[test]
fn cursor_steps() {
    let mut c = Cursor::new("ab".to_string());
    assert_eq!(c.unget(), Err(BitwiseError::CursorPosition));
    assert_eq!(c.get(), 'a');
    assert_eq!(c.get(), 'b');
    assert_eq!(c.get(), EOL_CHAR);
    assert_eq!(c.get(), EOL_CHAR);
    assert_eq!(c.unget(), Ok(()));
    assert_eq!(c.get(), 'b');
}

#[test]
fn sentinel_in_text_ends_input() {
    assert_eq!(lex("1\u{0}2").unwrap(), vec![dec("1"), eol()]);
    assert_eq!(
        lex("0x1f\u{0}& 3").unwrap(),
        vec![Token { kind: TokenKind::Value(Value::Hex("1f".to_string())) }, eol()]
    );
    assert_eq!(lex("07\u{0}").unwrap(), vec![Token { kind: TokenKind::Value(Value::Oct("7".to_string())) }, eol()]);
    assert_eq!(lex("2 \u{0}3").unwrap(), vec![dec("2"), eol()]);
}
