//! JSON tokenization for a guest that a host drives through integers alone: the tokenizer,
//! and the descriptor through which the host finds the tokens.
use vstd::prelude::*;

pub mod tokenize;

use crate::tokenize::{tokens_from, Token, TokenizeError, Tokenizer};

verus! {

/// Every token of a text, in order, or the error that rejects it.
pub fn tokenize(s: &str) -> (r: Result<Vec<Token>, TokenizeError>)
    ensures
        match tokens_from(vstd::utf8::encode_utf8(s@), 0) {
            Ok(ts) => r matches Ok(v) && v@.map_values(|t: Token| t@) == ts,
            Err(e) => r == Err::<Vec<Token>, TokenizeError>(e),
        },
{
    let mut tokenizer = Tokenizer::new_from_string(s.to_owned());
    tokenizer.all()
}

/// The descriptor handed back across the memory boundary: the address of the first token
/// in the upper 32 bits, the number of tokens in the lower 32 bits.
pub fn pack_descriptor(ptr: u32, count: u32) -> (r: u64)
    ensures
        r as int == ptr as int * 0x1_0000_0000 + count as int,
        r >> 32u64 == ptr as u64,
        r & 0xFFFF_FFFFu64 == count as u64,
{
    let r = ((ptr as u64) << 32u64) | (count as u64);
    assert(r as int == ptr as int * 0x1_0000_0000 + count as int
        && r >> 32u64 == ptr as u64 && r & 0xFFFF_FFFFu64 == count as u64) by (bit_vector)
        requires
            r == ((ptr as u64) << 32u64) | (count as u64),
    ;
    r
}

} // verus!
