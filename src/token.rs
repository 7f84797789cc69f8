use vstd::prelude::*;
use crate::error::BitwiseError;

verus! {

/// Operators and parentheses.
#[derive(Debug, Clone, Copy, PartialEq, Eq, Structural)]
pub enum Symbol {
    /// `(`
    LPAREN,
    /// `)`
    RPAREN,
    /// `<<`
    LSHIFT,
    /// `>>`
    RSHIFT,
    /// `&`
    And,
    /// `^`
    Xor,
    /// `|`
    Or,
}

/// A literal: its radix, given by the variant, and its digits.
#[derive(Debug, Clone, PartialEq, Eq)]
pub enum Value {
    Hex(String),
    Dec(String),
    Oct(String),
    Bin(String),
}

#[derive(Debug, Clone, PartialEq, Eq)]
pub enum TokenKind {
    /// End of input: the last token of every lexed sequence.
    EOL,
    Symbol(Symbol),
    Value(Value),
}

#[derive(Debug, Clone, PartialEq, Eq)]
pub struct Token {
    pub kind: TokenKind,
}

/// The mathematical content of a token.
pub enum Tok {
    End,
    Sym(Symbol),
    /// A radix and a digit string.
    Lit(nat, Seq<char>),
}

impl Value {
    pub open spec fn radix(&self) -> nat {
        match self {
            Value::Hex(_) => 16,
            Value::Dec(_) => 10,
            Value::Oct(_) => 8,
            Value::Bin(_) => 2,
        }
    }

    pub open spec fn digits(&self) -> Seq<char> {
        match self {
            Value::Hex(s) => s@,
            Value::Dec(s) => s@,
            Value::Oct(s) => s@,
            Value::Bin(s) => s@,
        }
    }
}

impl View for Token {
    type V = Tok;

    open spec fn view(&self) -> Tok {
        match self.kind {
            TokenKind::EOL => Tok::End,
            TokenKind::Symbol(s) => Tok::Sym(s),
            TokenKind::Value(v) => Tok::Lit(v.radix(), v.digits()),
        }
    }
}

/// The views of a sequence of tokens.
pub open spec fn toks(v: Seq<Token>) -> Seq<Tok> {
    v.map_values(|t: Token| t@)
}

/// The value of a character read as a digit: `0`-`9`, then letters from 10
/// on in either case; 36 for any other character.
pub open spec fn digit_val(c: char) -> nat {
    if '0' <= c && c <= '9' {
        (c as nat - '0' as nat) as nat
    } else if 'a' <= c && c <= 'z' {
        (c as nat - 'a' as nat + 10) as nat
    } else if 'A' <= c && c <= 'Z' {
        (c as nat - 'A' as nat + 10) as nat
    } else {
        36
    }
}

pub open spec fn is_digit(c: char, radix: nat) -> bool {
    digit_val(c) < radix
}

pub open spec fn all_digits(ds: Seq<char>, radix: nat) -> bool {
    forall|i: int| 0 <= i < ds.len() ==> is_digit(#[trigger] ds[i], radix)
}

/// The number that a digit string denotes in a radix, most significant first.
pub open spec fn digits_value(ds: Seq<char>, radix: nat) -> nat
    decreases ds.len(),
{
    if ds.len() == 0 {
        0
    } else {
        digits_value(ds.drop_last(), radix) * radix + digit_val(ds.last())
    }
}

/// The digits of an unsigned number text: one leading `+` is allowed.
pub open spec fn unsigned_digits(s: Seq<char>) -> Seq<char> {
    if s.len() > 0 && s[0] == '+' {
        s.drop_first()
    } else {
        s
    }
}

/// What a literal denotes as a `u64`, if anything: a non-empty run of digits
/// of the radix, after an optional `+`, whose value fits in 64 bits.
pub open spec fn literal_value(s: Seq<char>, radix: nat) -> Option<u64> {
    let ds = unsigned_digits(s);
    if ds.len() > 0 && all_digits(ds, radix) && digits_value(ds, radix) <= u64::MAX {
        Some(digits_value(ds, radix) as u64)
    } else {
        None
    }
}

/// The value of `c` as a digit, 36 where it is none.
pub fn digit_of(c: char) -> (d: u32)
    ensures
        d as nat == digit_val(c),
{
    if '0' <= c && c <= '9' {
        c as u32 - '0' as u32
    } else if 'a' <= c && c <= 'z' {
        c as u32 - 'a' as u32 + 10
    } else if 'A' <= c && c <= 'Z' {
        c as u32 - 'A' as u32 + 10
    } else {
        36
    }
}

/// Whether `c` is a digit in `radix`.
pub fn is_radix_digit(c: char, radix: u32) -> (r: bool)
    ensures
        r == is_digit(c, radix as nat),
{
    digit_of(c) < radix
}

/// A prefix of a digit string denotes no more than the whole string.
pub proof fn lemma_digits_value_prefix(ds: Seq<char>, radix: nat, j: int)
    requires
        0 <= j <= ds.len(),
        radix >= 1,
    ensures
        digits_value(ds.take(j), radix) <= digits_value(ds, radix),
    decreases ds.len(),
{
    if j < ds.len() {
        let front = ds.drop_last();
        lemma_digits_value_prefix(front, radix, j);
        assert(front.take(j) =~= ds.take(j));
        let x = digits_value(front, radix);
        assert(x * radix >= x) by (nonlinear_arith)
            requires
                radix >= 1,
        ;
    } else {
        assert(ds.take(j) =~= ds);
    }
}

impl Value {
    /// The radix of the literal as a machine integer.
    pub fn radix_u32(&self) -> (r: u32)
        ensures
            r as nat == self.radix(),
    {
        match self {
            Value::Hex(_) => 16,
            Value::Dec(_) => 10,
            Value::Oct(_) => 8,
            Value::Bin(_) => 2,
        }
    }

    /// The digit string of the literal.
    pub fn text(&self) -> (r: &String)
        ensures
            r@ == self.digits(),
    {
        match self {
            Value::Hex(s) => s,
            Value::Dec(s) => s,
            Value::Oct(s) => s,
            Value::Bin(s) => s,
        }
    }

    /// The number the literal denotes, read as `u64::from_str_radix` reads it.
    pub fn u64(&self) -> (r: Result<u64, BitwiseError>)
        ensures
            r == match literal_value(self.digits(), self.radix()) {
                Some(v) => Ok::<u64, BitwiseError>(v),
                None => Err(BitwiseError::NumberFormat),
            },
    {
        let radix = self.radix_u32();
        let s = self.text().as_str();
        let n = s.unicode_len();
        if n == 0 {
            return Err(BitwiseError::NumberFormat);
        }
        let start: usize = if s.get_char(0) == '+' { 1 } else { 0 };
        let ghost ds = unsigned_digits(s@);
        assert(ds =~= s@.skip(start as int));
        if start == n {
            return Err(BitwiseError::NumberFormat);
        }
        let mut acc: u64 = 0;
        let mut i: usize = start;
        while i < n
            invariant
                start <= i <= n,
                n == s@.len(),
                ds == s@.skip(start as int),
                ds == unsigned_digits(self.digits()),
                radix as nat == self.radix(),
                s@ == self.digits(),
                radix <= 16,
                all_digits(ds.take(i - start), radix as nat),
                acc as nat == digits_value(ds.take(i - start), radix as nat),
            decreases n - i,
        {
            let c = s.get_char(i);
            let d = digit_of(c);
            let ghost k = i - start;
            assert(ds[k] == c);
            assert(ds.take(k + 1).drop_last() =~= ds.take(k));
            if d >= radix {
                assert(!is_digit(ds[k], radix as nat));
                return Err(BitwiseError::NumberFormat);
            }
            assert(acc as u128 * radix as u128 <= 0xffff_ffff_ffff_ffff_u128 * 16) by (nonlinear_arith)
                requires
                    acc <= 0xffff_ffff_ffff_ffff_u64,
                    radix <= 16,
            ;
            let t: u128 = acc as u128 * radix as u128 + d as u128;
            assert(t == digits_value(ds.take(k + 1), radix as nat));
            if t > u64::MAX as u128 {
                proof {
                    if all_digits(ds, radix as nat) {
                        lemma_digits_value_prefix(ds, radix as nat, k + 1);
                    }
                }
                return Err(BitwiseError::NumberFormat);
            }
            acc = t as u64;
            i = i + 1;
            assert forall|j: int| 0 <= j < ds.take(i - start).len() implies is_digit(
                #[trigger] ds.take(i - start)[j],
                radix as nat,
            ) by {
                if j < k {
                    assert(ds.take(k)[j] == ds.take(i - start)[j]);
                }
            }
        }
        assert(ds.take(n - start) =~= ds);
        Ok(acc)
    }
}

} // verus!

verus! {

/// The views of a lexing or reordering result.
pub open spec fn toks_result(r: Result<Vec<Token>, BitwiseError>) -> Result<Seq<Tok>, BitwiseError> {
    match r {
        Ok(v) => Ok(toks(v@)),
        Err(e) => Err(e),
    }
}

pub proof fn lemma_toks_push(v: Seq<Token>, t: Token)
    ensures
        toks(v.push(t)) == toks(v).push(t@),
{
    assert(toks(v.push(t)) =~= toks(v).push(t@));
}

} // verus!
