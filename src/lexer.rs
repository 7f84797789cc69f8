use vstd::prelude::*;
use crate::error::BitwiseError;
use crate::laws::{lemma_lexed_tokens_well_formed, well_formed_tokens};
use crate::token::{
    Symbol, Tok, Token, TokenKind, Value, is_digit, is_radix_digit, toks, toks_result,
    lemma_toks_push,
};

verus! {

/// What the cursor hands out at the end of its text.
pub const EOL_CHAR: char = '\0';

/// The character at `i`, or the sentinel outside the text.
pub open spec fn char_at(s: Seq<char>, i: int) -> char {
    if 0 <= i < s.len() {
        s[i]
    } else {
        EOL_CHAR
    }
}

/// The position after reading at `i`: the end of the text is never passed.
pub open spec fn next_pos(s: Seq<char>, i: int) -> int {
    if 0 <= i < s.len() {
        i + 1
    } else {
        i
    }
}

/// The end of the longest run of digits of `radix` that starts at `i`.
pub open spec fn run_end(s: Seq<char>, i: int, radix: nat) -> int
    decreases s.len() - i,
{
    if 0 <= i < s.len() && is_digit(s[i], radix) {
        run_end(s, i + 1, radix)
    } else {
        i
    }
}

/// A literal whose digits start at `start` and whose run of `radix` digits is
/// scanned from `from`; the token and the position after it. The character
/// that ends the run is not part of the literal and is read again as the
/// start of the next token.
pub open spec fn scan_run(s: Seq<char>, start: int, from: int, radix: nat) -> (Tok, int) {
    let e = run_end(s, from, radix);
    (Tok::Lit(radix, s.subrange(start, e)), e)
}

pub open spec fn prefix_radix(p: char) -> nat {
    if p == 'x' {
        16
    } else if p == 'd' {
        10
    } else {
        2
    }
}

/// A literal after a leading `0` whose next character is at `j`.
pub open spec fn scan_prefixed(s: Seq<char>, j: int) -> Result<(Tok, int), BitwiseError> {
    let p = char_at(s, j);
    let k = next_pos(s, j);
    if is_digit(p, 8) {
        Ok(scan_run(s, j, k, 8))
    } else if p == 'x' || p == 'd' || p == 'b' {
        if run_end(s, k, prefix_radix(p)) == k {
            Err(BitwiseError::EmptyValue)
        } else {
            Ok(scan_run(s, k, k, prefix_radix(p)))
        }
    } else {
        Err(BitwiseError::UnsupportedPrefix(p))
    }
}

/// The one-character operators and parentheses.
pub open spec fn single_symbol(c: char) -> Option<Symbol> {
    if c == '&' {
        Some(Symbol::And)
    } else if c == '|' {
        Some(Symbol::Or)
    } else if c == '^' {
        Some(Symbol::Xor)
    } else if c == '(' {
        Some(Symbol::LPAREN)
    } else if c == ')' {
        Some(Symbol::RPAREN)
    } else {
        None
    }
}

/// The tokens of `s` from position `i` on, after those already in `acc`.
pub open spec fn lex_from(s: Seq<char>, i: int, acc: Seq<Tok>) -> Result<Seq<Tok>, BitwiseError>
    decreases s.len() - i,
{
    let c = char_at(s, i);
    let j = next_pos(s, i);
    if c == EOL_CHAR {
        Ok(acc.push(Tok::End))
    } else if c == ' ' || c == '\t' {
        lex_from(s, j, acc)
    } else if c == '0' {
        match scan_prefixed(s, j) {
            Err(e) => Err(e),
            Ok(tn) => {
                proof {
                    lemma_scan_prefixed_advances(s, j);
                }
                lex_from(s, tn.1, acc.push(tn.0))
            },
        }
    } else if is_digit(c, 10) {
        let tn = scan_run(s, i, j, 10);
        proof {
            lemma_run_end(s, j, 10);
        }
        lex_from(s, tn.1, acc.push(tn.0))
    } else if single_symbol(c) is Some {
        lex_from(s, j, acc.push(Tok::Sym(single_symbol(c)->Some_0)))
    } else if c == '<' || c == '>' {
        let d = char_at(s, j);
        if d == c {
            lex_from(
                s,
                next_pos(s, j),
                acc.push(Tok::Sym(if c == '<' { Symbol::LSHIFT } else { Symbol::RSHIFT })),
            )
        } else {
            Err(BitwiseError::UnexpectedToken(c, d))
        }
    } else {
        Err(BitwiseError::UnexpectedCharacter(c))
    }
}

/// The tokens of a whole text.
pub open spec fn lex(s: Seq<char>) -> Result<Seq<Tok>, BitwiseError> {
    lex_from(s, 0, seq![])
}

pub proof fn lemma_run_end(s: Seq<char>, i: int, radix: nat)
    requires
        0 <= i <= s.len(),
    ensures
        i <= run_end(s, i, radix) <= s.len(),
        forall|j: int| i <= j < run_end(s, i, radix) ==> is_digit(#[trigger] s[j], radix),
        run_end(s, i, radix) < s.len() ==> !is_digit(s[run_end(s, i, radix)], radix),
    decreases s.len() - i,
{
    if i < s.len() && is_digit(s[i], radix) {
        lemma_run_end(s, i + 1, radix);
    }
}

pub proof fn lemma_scan_prefixed_advances(s: Seq<char>, j: int)
    requires
        0 <= j <= s.len(),
    ensures
        scan_prefixed(s, j) is Ok ==> j < scan_prefixed(s, j)->Ok_0.1 <= s.len(),
{
    if j < s.len() {
        lemma_run_end(s, j + 1, 8);
        lemma_run_end(s, j + 1, prefix_radix(s[j]));
    }
}

/// A scanning position over a text: it reads one character at a time and can
/// step back by one.
pub struct Cursor {
    idx: usize,
    len: usize,
    s: String,
}

impl Cursor {
    pub closed spec fn text(&self) -> Seq<char> {
        self.s@
    }

    pub closed spec fn pos(&self) -> int {
        self.idx as int
    }

    /// The position lies within the text.
    pub closed spec fn wf(&self) -> bool {
        self.len == self.s@.len() && self.idx <= self.len
    }

    pub proof fn lemma_pos_in_text(&self)
        requires
            self.wf(),
        ensures
            0 <= self.pos() <= self.text().len(),
    {
    }

    pub fn new(s: String) -> (c: Cursor)
        ensures
            c.wf(),
            c.text() == s@,
            c.pos() == 0,
    {
        let len = s.as_str().unicode_len();
        Cursor { idx: 0, len, s }
    }

    /// The character at the position, which then moves on by one; at the end
    /// of the text, the sentinel, and the position stays.
    pub fn get(&mut self) -> (c: char)
        requires
            old(self).wf(),
        ensures
            final(self).wf(),
            final(self).text() == old(self).text(),
            c == char_at(old(self).text(), old(self).pos()),
            final(self).pos() == next_pos(old(self).text(), old(self).pos()),
    {
        if self.is_eol() {
            return EOL_CHAR;
        }
        let c = self.s.as_str().get_char(self.idx);
        self.idx = self.idx + 1;
        c
    }

    /// Steps back by one; fails at the start of the text.
    pub fn unget(&mut self) -> (r: Result<(), BitwiseError>)
        requires
            old(self).wf(),
        ensures
            final(self).wf(),
            final(self).text() == old(self).text(),
            old(self).pos() == 0 ==> r == Err::<(), BitwiseError>(BitwiseError::CursorPosition)
                && final(self).pos() == 0,
            old(self).pos() > 0 ==> r == Ok::<(), BitwiseError>(()) && final(self).pos() == old(
                self,
            ).pos() - 1,
    {
        if self.idx == 0 {
            return Err(BitwiseError::CursorPosition);
        }
        self.idx = self.idx - 1;
        Ok(())
    }

    fn is_eol(&self) -> (r: bool)
        requires
            self.wf(),
        ensures
            r == (self.pos() == self.text().len()),
    {
        self.idx == self.len
    }

    pub fn position(&self) -> (r: usize)
        ensures
            r == self.pos(),
    {
        self.idx
    }

    /// The characters of the text from `from` up to `to`.
    pub fn slice(&self, from: usize, to: usize) -> (r: String)
        requires
            self.wf(),
            from <= to <= self.text().len(),
        ensures
            r@ == self.text().subrange(from as int, to as int),
    {
        self.s.as_str().substring_char(from, to).to_owned()
    }
}

/// Splits a text into tokens.
pub struct Lexer {
    csr: Cursor,
}

impl Lexer {
    pub closed spec fn text(&self) -> Seq<char> {
        self.csr.text()
    }

    pub closed spec fn pos(&self) -> int {
        self.csr.pos()
    }

    pub closed spec fn wf(&self) -> bool {
        self.csr.wf()
    }

    pub fn new(src: &str) -> (l: Lexer)
        ensures
            l.wf(),
            l.text() == src@,
            l.pos() == 0,
    {
        Lexer { csr: Cursor::new(src.to_owned()) }
    }

    /// The tokens of the text from the position on, ending with `EOL`.
    pub fn tokenize(&mut self) -> (r: Result<Vec<Token>, BitwiseError>)
        requires
            old(self).wf(),
        ensures
            final(self).wf(),
            final(self).text() == old(self).text(),
            toks_result(r) == lex_from(old(self).text(), old(self).pos(), seq![]),
            r is Ok ==> well_formed_tokens(toks(r->Ok_0@)),
    {
        proof {
            self.csr.lemma_pos_in_text();
            lemma_lexed_tokens_well_formed(self.text(), self.pos());
        }
        let ghost s = self.text();
        let ghost start_pos = self.pos();
        let mut tokens: Vec<Token> = Vec::new();
        proof {
            assert(toks(tokens@) =~= seq![]);
        }
        loop
            invariant
                self.wf(),
                s == old(self).text(),
                start_pos == old(self).pos(),
                self.text() == s,
                lex_from(s, self.pos(), toks(tokens@)) == lex_from(s, start_pos, seq![]),
                lex_from(s, start_pos, seq![]) is Ok ==> well_formed_tokens(
                    lex_from(s, start_pos, seq![])->Ok_0,
                ),
            decreases s.len() - self.pos(),
        {
            proof {
                self.csr.lemma_pos_in_text();
            }
            let ghost i = self.pos();
            let ghost acc = toks(tokens@);
            let c = self.csr.get();
            let kind: TokenKind;
            if c == EOL_CHAR {
                kind = TokenKind::EOL;
            } else if c == ' ' || c == '\t' {
                continue;
            } else if c == '0' {
                proof {
                    lemma_scan_prefixed_advances(s, i + 1);
                }
                match self.read_prefixed_value() {
                    Ok(v) => {
                        kind = TokenKind::Value(v);
                    },
                    Err(e) => {
                        return Err(e);
                    },
                }
            } else if '1' <= c && c <= '9' {
                proof {
                    lemma_run_end(s, i + 1, 10);
                }
                kind = TokenKind::Value(self.read_dec());
            } else if c == '&' {
                kind = TokenKind::Symbol(Symbol::And);
            } else if c == '|' {
                kind = TokenKind::Symbol(Symbol::Or);
            } else if c == '^' {
                kind = TokenKind::Symbol(Symbol::Xor);
            } else if c == '(' {
                kind = TokenKind::Symbol(Symbol::LPAREN);
            } else if c == ')' {
                kind = TokenKind::Symbol(Symbol::RPAREN);
            } else if c == '<' || c == '>' {
                match self.read_shift(c) {
                    Ok(_) => {
                        kind = TokenKind::Symbol(
                            if c == '<' {
                                Symbol::LSHIFT
                            } else {
                                Symbol::RSHIFT
                            },
                        );
                    },
                    Err(e) => {
                        return Err(e);
                    },
                }
            } else {
                return Err(BitwiseError::UnexpectedCharacter(c));
            }
            let t = Token { kind };
            proof {
                lemma_toks_push(tokens@, t);
            }
            tokens.push(t);
            if c == EOL_CHAR {
                return Ok(tokens);
            }
        }
    }

    /// Scans the run of `radix` digits at the position; the result holds the
    /// text from `start` to the end of the run. The character that ends the
    /// run, the sentinel included, is pushed back.
    fn read_value(&mut self, start: usize, radix: u32) -> (r: String)
        requires
            old(self).wf(),
            start <= old(self).pos(),
            radix <= 16,
        ensures
            final(self).wf(),
            final(self).text() == old(self).text(),
            r@ == old(self).text().subrange(
                start as int,
                run_end(old(self).text(), old(self).pos(), radix as nat),
            ),
            final(self).pos() == run_end(old(self).text(), old(self).pos(), radix as nat),
    {
        let ghost s = self.text();
        let ghost e = run_end(s, self.pos(), radix as nat);
        proof {
            self.csr.lemma_pos_in_text();
            lemma_run_end(s, self.pos(), radix as nat);
        }
        loop
            invariant
                self.wf(),
                s == old(self).text(),
                e == run_end(s, old(self).pos(), radix as nat),
                radix <= 16,
                self.text() == s,
                start <= self.pos() <= e <= s.len(),
                run_end(s, self.pos(), radix as nat) == e,
            decreases s.len() - self.pos(),
        {
            let here = self.csr.position();
            let c = self.csr.get();
            if !is_radix_digit(c, radix) {
                if self.csr.position() > here {
                    let _ = self.csr.unget();
                }
                return self.csr.slice(start, here);
            }
            proof {
                lemma_run_end(s, here + 1, radix as nat);
            }
        }
    }

    /// A decimal literal whose first digit was just read.
    fn read_dec(&mut self) -> (r: Value)
        requires
            old(self).wf(),
            old(self).pos() >= 1,
        ensures
            final(self).wf(),
            final(self).text() == old(self).text(),
            (Tok::Lit(r.radix(), r.digits()), final(self).pos()) == scan_run(
                old(self).text(),
                old(self).pos() - 1,
                old(self).pos(),
                10,
            ),
    {
        let start = self.csr.position() - 1;
        Value::Dec(self.read_value(start, 10))
    }

    /// A literal whose leading `0` was just read: a radix prefix and its
    /// digits, or octal digits.
    fn read_prefixed_value(&mut self) -> (r: Result<Value, BitwiseError>)
        requires
            old(self).wf(),
        ensures
            final(self).wf(),
            final(self).text() == old(self).text(),
            match r {
                Ok(v) => scan_prefixed(old(self).text(), old(self).pos()) == Ok::<
                    (Tok, int),
                    BitwiseError,
                >((Tok::Lit(v.radix(), v.digits()), final(self).pos())),
                Err(e) => scan_prefixed(old(self).text(), old(self).pos()) == Err::<
                    (Tok, int),
                    BitwiseError,
                >(e),
            },
    {
        let ghost s = self.text();
        proof {
            self.csr.lemma_pos_in_text();
        }
        let j = self.csr.position();
        let prefix = self.csr.get();
        if is_radix_digit(prefix, 8) {
            return Ok(Value::Oct(self.read_value(j, 8)));
        }
        if prefix != 'x' && prefix != 'd' && prefix != 'b' {
            return Err(BitwiseError::UnsupportedPrefix(prefix));
        }
        let radix: u32 = if prefix == 'x' {
            16
        } else if prefix == 'd' {
            10
        } else {
            2
        };
        let k = self.csr.position();
        let cs = self.read_value(k, radix);
        proof {
            lemma_run_end(s, k as int, radix as nat);
        }
        if cs.as_str().unicode_len() == 0 {
            return Err(BitwiseError::EmptyValue);
        }
        if prefix == 'x' {
            Ok(Value::Hex(cs))
        } else if prefix == 'd' {
            Ok(Value::Dec(cs))
        } else {
            Ok(Value::Bin(cs))
        }
    }

    /// Reads the second character of a shift operator whose first was `c0`.
    fn read_shift(&mut self, c0: char) -> (r: Result<(), BitwiseError>)
        requires
            old(self).wf(),
        ensures
            final(self).wf(),
            final(self).text() == old(self).text(),
            final(self).pos() == next_pos(old(self).text(), old(self).pos()),
            r == if char_at(old(self).text(), old(self).pos()) == c0 {
                Ok::<(), BitwiseError>(())
            } else {
                Err(BitwiseError::UnexpectedToken(c0, char_at(old(self).text(), old(self).pos())))
            },
    {
        let c1 = self.csr.get();
        if c0 != c1 {
            return Err(BitwiseError::UnexpectedToken(c0, c1));
        }
        Ok(())
    }
}

} // verus!
