use vstd::prelude::*;
use crate::consts::{hash, html};
use crate::text::{chars_of, concat, hex, hex_chars, string_from};

verus! {

/// One step of the string hash: the running hash times `A`, xor the
/// character's code point times `B`, both modulo 2^64.
pub open spec fn hash_step(h: u64, c: char) -> u64 {
    vstd::wrapping::u64_specs::wrapping_mul(h, hash::A as u64)
        ^ vstd::wrapping::u64_specs::wrapping_mul(c as u64, hash::B as u64)
}

/// The hash of a character sequence: a left fold of `hash_step` from `FIRST`.
pub open spec fn spec_hash(s: Seq<char>) -> u64
    decreases s.len(),
{
    if s.len() == 0 {
        hash::FIRST as u64
    } else {
        hash_step(spec_hash(s.drop_last()), s.last())
    }
}

/// Hashes a string character by character.
pub fn hash_str(input: String) -> (h: u64)
    ensures
        h == spec_hash(input@),
{
    let mut h: u64 = hash::FIRST as u64;
    let s = input.as_str();
    for c in it: s.chars()
        invariant
            it.seq() == s@,
            h == spec_hash(s@.take(it.index() as int)),
    {
        assert(s@.take(it.index() + 1).drop_last() =~= s@.take(it.index() as int));
        h = h.wrapping_mul(hash::A as u64) ^ (c as u64).wrapping_mul(hash::B as u64);
    }
    assert(s@.take(s@.len() as int) =~= s@);
    h
}


/// The lowercase hexadecimal hash of `secret` followed by `id`.
pub open spec fn secret_digest(secret: Seq<char>, id: Seq<char>) -> Seq<char> {
    hex(spec_hash(secret + id) as nat)
}

/// The token that proves a connection was authenticated: the digest of
/// both shared secrets followed by the connection id.
pub open spec fn auth_token(id: Seq<char>) -> Seq<char> {
    secret_digest(html::ID_HASH@ + html::PW_HASH@, id)
}

/// The lowercase hexadecimal hash of `secret` followed by `id`.
pub fn secret_digest_chars(secret: &Vec<char>, id: &Vec<char>) -> (r: Vec<char>)
    ensures
        r@ == secret_digest(secret@, id@),
{
    let joined = concat(secret, id);
    let h = hash_str(string_from(&joined));
    hex_chars(h)
}

/// The authentication token of a connection id.
pub fn auth_token_chars(id: &Vec<char>) -> (r: Vec<char>)
    ensures
        r@ == auth_token(id@),
{
    let secret = concat(&chars_of(html::ID_HASH), &chars_of(html::PW_HASH));
    secret_digest_chars(&secret, id)
}

} // verus!
