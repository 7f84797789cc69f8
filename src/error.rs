use vstd::prelude::*;

verus! {

/// Every way in which a query can fail.
#[derive(Debug, Clone, Copy, PartialEq, Eq, Structural)]
pub enum BitwiseError {
    /// A character that starts no token.
    UnexpectedCharacter(char),
    /// `0` followed by something that is neither an octal digit nor `x`, `d`, `b`.
    UnsupportedPrefix(char),
    /// A radix prefix with no digit after it.
    EmptyValue,
    /// `<` or `>` not doubled: the first character and the one after it.
    UnexpectedToken(char, char),
    /// A `)` without its `(`, or a `(` never closed.
    UnbalancedParentheses,
    /// A literal whose digits do not denote a `u64` in its radix.
    NumberFormat,
    /// A shift by the given amount, which is at least the width of `u64`.
    ShiftOverflow(u64),
    /// The value stack did not hold the operands it needed, or did not end
    /// with exactly one value; the count it held.
    StackImbalance(usize),
    /// A cursor asked to step back from the start of its text.
    CursorPosition,
}

} // verus!
