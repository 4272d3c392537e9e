//! The tokens that the router's automaton consumes.

use crate::automaton::Token;
use crate::router::method::Method;
use vstd::prelude::*;

verus! {

/// One input token: a character of the path, or the request's method, which
/// is the last token of every request.
#[derive(Clone, Copy, Debug, PartialEq, Eq, Structural, Hash)]
pub enum InputToken {
    Char(char),
    Method(Method),
}

/// The first key that stands for a method: one more than the largest
/// character.
pub const METHOD_KEY_BASE: u64 = 0x11_0000;

/// The key of a token: a character's scalar value, or the method's number
/// above all characters.
pub open spec fn token_key(token: InputToken) -> u64 {
    match token {
        InputToken::Char(c) => c as u64,
        InputToken::Method(m) => (METHOD_KEY_BASE + m.ordinal()) as u64,
    }
}

/// Tokens with one key are one token.
pub proof fn lemma_token_key_injective(a: InputToken, b: InputToken)
    requires
        token_key(a) == token_key(b),
    ensures
        a == b,
{
}

impl Token for InputToken {
    open spec fn key(self) -> u64 {
        token_key(self)
    }

    fn to_key(&self) -> (k: u64) {
        match self {
            InputToken::Char(c) => *c as u64,
            InputToken::Method(m) => METHOD_KEY_BASE + m.to_ordinal(),
        }
    }

    proof fn key_is_injective(a: Self, b: Self) {
        lemma_token_key_injective(a, b);
    }
}

/// A character as a token.
pub open spec fn char_token(c: char) -> InputToken {
    InputToken::Char(c)
}

/// The path's characters as tokens, in their order.
pub open spec fn char_tokens(path: Seq<char>) -> Seq<InputToken> {
    Seq::new(path.len(), |i: int| char_token(path[i]))
}

/// The tokens of a request: the path's characters, then the method.
pub open spec fn request_tokens(method: Method, path: Seq<char>) -> Seq<InputToken> {
    char_tokens(path).push(InputToken::Method(method))
}

} // verus!
