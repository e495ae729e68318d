//! Identifiers as contract tokens: an identifier's bytes, filled up with
//! zeros to 64, in two halves of 32.

use vstd::prelude::*;
use crate::cid::{cid_bytes, cid_from_bytes, Cid};

verus! {

/// The length of a token's bytes, and of each of its halves.
pub const TOKEN_LEN: usize = 64;

pub const HALF_LEN: usize = 32;

/// A value of a contract's interface, as far as identifiers use them: a
/// fixed number of bytes, a fixed array of values, or something else.
#[derive(Debug, PartialEq, Eq)]
pub enum Token {
    FixedBytes(Vec<u8>),
    FixedArray(Vec<Token>),
    Other,
}

/// Why a token is no identifier.
#[derive(Debug, PartialEq, Eq)]
pub struct InvalidOutputType(pub String);

/// An identifier on its way into or out of a contract.
#[derive(Debug, PartialEq, Eq)]
pub struct CidToken(pub Cid);

/// The first 64 of the bytes of `bytes` and then zeros.
pub open spec fn padded(bytes: Seq<u8>) -> Seq<u8> {
    Seq::new(TOKEN_LEN as nat, |i: int| if i < bytes.len() { bytes[i] } else { 0u8 })
}

/// Whether a token is the two halves of `bytes`.
pub open spec fn is_halves(token: Token, bytes: Seq<u8>) -> bool {
    &&& token is FixedArray
    &&& token->FixedArray_0@.len() == 2
    &&& token->FixedArray_0@[0] is FixedBytes
    &&& token->FixedArray_0@[1] is FixedBytes
    &&& token->FixedArray_0@[0]->FixedBytes_0@ == bytes.take(HALF_LEN as int)
    &&& token->FixedArray_0@[1]->FixedBytes_0@ == bytes.skip(HALF_LEN as int)
}

/// The two byte strings of a token that is an array of two byte strings.
pub open spec fn two_halves(token: Token) -> Option<(Seq<u8>, Seq<u8>)> {
    if token is FixedArray && token->FixedArray_0@.len() == 2 && token->FixedArray_0@[0] is FixedBytes
        && token->FixedArray_0@[1] is FixedBytes {
        Some((token->FixedArray_0@[0]->FixedBytes_0@, token->FixedArray_0@[1]->FixedBytes_0@))
    } else {
        None
    }
}

/// The words that say why a token is no identifier.
pub open spec fn refusal_words(token: Token) -> Seq<char> {
    if !(token is FixedArray) {
        "Invalid Array -- no parse"@
    } else if token->FixedArray_0@.len() != 2 {
        "Invalid Array -- wrong len"@
    } else if !(token->FixedArray_0@[0] is FixedBytes) {
        "Invalid Bytes -- ind 0"@
    } else if !(token->FixedArray_0@[1] is FixedBytes) {
        "Invalid Bytes -- ind 1"@
    } else {
        "Invalid CID -- no parse"@
    }
}

impl CidToken {
    /// The identifier.
    pub fn into_cid(self) -> (r: Cid)
        ensures
            r == self.0,
    {
        self.0
    }

    /// The token of the identifier: its bytes, filled up with zeros to 64,
    /// in two halves.
    pub fn into_token(self) -> (r: Token)
        ensures
            is_halves(r, padded(cid_bytes(self.0@))),
    {
        let bytes = self.0.to_bytes();
        let mut first: Vec<u8> = Vec::new();
        let mut second: Vec<u8> = Vec::new();
        let ghost all = padded(bytes@);
        let mut i: usize = 0;
        while i < TOKEN_LEN
            invariant
                i <= TOKEN_LEN,
                all == padded(bytes@),
                first@ == all.take(if i < HALF_LEN { i as int } else { HALF_LEN as int }),
                second@ == all.subrange(HALF_LEN as int, if i < HALF_LEN { HALF_LEN as int } else { i as int }),
            decreases TOKEN_LEN - i,
        {
            let byte: u8 = if i < bytes.len() {
                bytes[i]
            } else {
                0
            };
            if i < HALF_LEN {
                first.push(byte);
                proof {
                    assert(first@ =~= all.take(i as int + 1));
                    assert(all.subrange(HALF_LEN as int, HALF_LEN as int) =~= Seq::<u8>::empty());
                }
            } else {
                second.push(byte);
                proof {
                    assert(second@ =~= all.subrange(HALF_LEN as int, i as int + 1));
                }
            }
            i = i + 1;
        }
        proof {
            assert(second@ =~= all.skip(HALF_LEN as int));
        }
        let mut halves: Vec<Token> = Vec::new();
        halves.push(Token::FixedBytes(first));
        halves.push(Token::FixedBytes(second));
        Token::FixedArray(halves)
    }

    /// The identifier of a token: the identifier that stands at the front
    /// of the token's two byte strings, one after the other.
    pub fn from_token(token: &Token) -> (r: Result<CidToken, InvalidOutputType>)
        ensures
            match two_halves(*token) {
                Some((first, second)) => match cid_from_bytes(first + second) {
                    Some(cid) => r is Ok && r->Ok_0.0@ == cid,
                    None => r is Err && r->Err_0.0@ == refusal_words(*token),
                },
                None => r is Err && r->Err_0.0@ == refusal_words(*token),
            },
    {
        let array = match token {
            Token::FixedArray(array) => array,
            _ => {
                return Err(InvalidOutputType("Invalid Array -- no parse".to_string()));
            },
        };
        if array.len() != 2 {
            return Err(InvalidOutputType("Invalid Array -- wrong len".to_string()));
        }
        let first = match &array[0] {
            Token::FixedBytes(bytes) => bytes,
            _ => {
                return Err(InvalidOutputType("Invalid Bytes -- ind 0".to_string()));
            },
        };
        let second = match &array[1] {
            Token::FixedBytes(bytes) => bytes,
            _ => {
                return Err(InvalidOutputType("Invalid Bytes -- ind 1".to_string()));
            },
        };
        let mut all = first.clone();
        let mut tail = second.clone();
        all.append(&mut tail);
        match Cid::from_bytes(&all) {
            Ok(cid) => Ok(CidToken(cid)),
            Err(_) => Err(InvalidOutputType("Invalid CID -- no parse".to_string())),
        }
    }
}

} // verus!
