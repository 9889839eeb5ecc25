//! The hash that picks a name's bucket.

use vstd::prelude::*;

verus! {

broadcast use vstd::string::axiom_spec_iter;

/// The value the hash starts from before the first character.
pub const HASH_SEED: u64 = 5381;

/// One step of the hash: the running value times 33, modulo 2^64,
/// exclusive-or the character's code point.
pub open spec fn hash_step(h: u64, c: char) -> u64 {
    (((h as nat) * 33) % 0x1_0000_0000_0000_0000) as u64 ^ (c as u64)
}

/// The hash of a sequence of characters, folded from the first to the last.
pub open spec fn hash_chars(s: Seq<char>) -> u64
    decreases s.len(),
{
    if s.len() == 0 {
        HASH_SEED
    } else {
        hash_step(hash_chars(s.drop_last()), s.last())
    }
}

/// The hash of no characters is the seed, and every further character
/// multiplies the running value by 33, modulo 2^64, and then exclusive-ors
/// in the character's code point, however long the string already is.
pub proof fn lemma_hash_steps(s: Seq<char>, c: char)
    ensures
        hash_chars(Seq::<char>::empty()) == 5381,
        hash_chars(s.push(c)) == (((hash_chars(s) as nat) * 33) % 0x1_0000_0000_0000_0000) as u64 ^ (c as u64),
{
    assert(s.push(c).drop_last() =~= s);
}

/// Hashes the characters of `s` (not its bytes).
pub fn hash(s: &str) -> (h: u64)
    ensures
        h == hash_chars(s@),
{
    let mut h: u64 = HASH_SEED;
    for c in it: s.chars()
        invariant
            it.seq() == s@,
            h == hash_chars(s@.take(it.index() as int)),
    {
        assert(s@.take(it.index() + 1).drop_last() =~= s@.take(it.index() as int));
        h = h.wrapping_mul(33) ^ (c as u64);
    }
    assert(s@.take(s@.len() as int) =~= s@);
    h
}

} // verus!
