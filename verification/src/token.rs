//! The instruction tokens of the base instruction set.
use vstd::prelude::*;
use crate::encoder::{op_code, Mnemonic};
use crate::text::{chars_eq, chars_of};

verus! {

/// The base instructions of the machine.
#[derive(Clone, Copy, Debug, PartialEq, Eq, Structural)]
pub enum Token {
    Nop,
    Sta,
    Lda,
    Add,
    Or,
    And,
    Not,
    Jmp,
    Jn,
    Jz,
    Hlt,
}

/// The token that a word names; an unknown word names `Nop`.
pub open spec fn token_of(s: Seq<char>) -> Token {
    if s == seq!['n', 'o', 'p'] {
        Token::Nop
    } else if s == seq!['s', 't', 'a'] {
        Token::Sta
    } else if s == seq!['l', 'd', 'a'] {
        Token::Lda
    } else if s == seq!['a', 'd', 'd'] {
        Token::Add
    } else if s == seq!['o', 'r'] {
        Token::Or
    } else if s == seq!['a', 'n', 'd'] {
        Token::And
    } else if s == seq!['n', 'o', 't'] {
        Token::Not
    } else if s == seq!['j', 'm', 'p'] {
        Token::Jmp
    } else if s == seq!['j', 'n'] {
        Token::Jn
    } else if s == seq!['j', 'z'] {
        Token::Jz
    } else if s == seq!['h', 'l', 't'] {
        Token::Hlt
    } else {
        Token::Nop
    }
}

/// The mnemonic of the same name as the token.
pub open spec fn token_mnemonic(t: Token) -> Mnemonic {
    match t {
        Token::Nop => Mnemonic::Nop,
        Token::Sta => Mnemonic::Sta,
        Token::Lda => Mnemonic::Lda,
        Token::Add => Mnemonic::Add,
        Token::Or => Mnemonic::Or,
        Token::And => Mnemonic::And,
        Token::Not => Mnemonic::Not,
        Token::Jmp => Mnemonic::Jmp,
        Token::Jn => Mnemonic::Jn,
        Token::Jz => Mnemonic::Jz,
        Token::Hlt => Mnemonic::Hlt,
    }
}

/// The four-bit code of a token: that of the instruction of the same name.
pub open spec fn token_code(t: Token) -> nat {
    op_code(token_mnemonic(t))
}

/// Different tokens have different codes, each the code of the mnemonic of
/// the same name.
pub proof fn lemma_token_codes(a: Token, b: Token)
    ensures
        a != b ==> token_code(a) != token_code(b),
        token_code(a) == op_code(token_mnemonic(a)),
        token_code(a) < 16,
{
}

impl Token {
    /// The token named by a word; an unknown word gives `Nop`.
    pub fn from_text(s: &str) -> (t: Token)
        ensures
            t == token_of(s@),
    {
        let v = chars_of(s);
        let w = v.as_slice();
        if chars_eq(w, &['n', 'o', 'p']) {
            Token::Nop
        } else if chars_eq(w, &['s', 't', 'a']) {
            Token::Sta
        } else if chars_eq(w, &['l', 'd', 'a']) {
            Token::Lda
        } else if chars_eq(w, &['a', 'd', 'd']) {
            Token::Add
        } else if chars_eq(w, &['o', 'r']) {
            Token::Or
        } else if chars_eq(w, &['a', 'n', 'd']) {
            Token::And
        } else if chars_eq(w, &['n', 'o', 't']) {
            Token::Not
        } else if chars_eq(w, &['j', 'm', 'p']) {
            Token::Jmp
        } else if chars_eq(w, &['j', 'n']) {
            Token::Jn
        } else if chars_eq(w, &['j', 'z']) {
            Token::Jz
        } else if chars_eq(w, &['h', 'l', 't']) {
            Token::Hlt
        } else {
            Token::Nop
        }
    }

    /// The operation byte of the token: its code in the high four bits.
    pub fn to_opcode(&self) -> (b: u8)
        ensures
            b == 16 * token_code(*self),
    {
        16 * match self {
            Token::Nop => 0b0000,
            Token::Sta => 0b0001,
            Token::Lda => 0b0010,
            Token::Add => 0b0011,
            Token::Or => 0b0100,
            Token::And => 0b0101,
            Token::Not => 0b0110,
            Token::Jmp => 0b1000,
            Token::Jn => 0b1001,
            Token::Jz => 0b1010,
            Token::Hlt => 0b1111,
        }
    }
}

} // verus!
