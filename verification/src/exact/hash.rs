//! The hash by which a station is put into a slot.
use vstd::prelude::*;
use std::hash::BuildHasher;
use rapidhash::fast::RandomState;
use crate::swar;

verus! {

/// `rapidhash::inner::RandomState`, of which `rapidhash::fast::RandomState` is one: the seed of a
/// hasher, drawn once when it is made.
#[verifier::external_type_specification]
#[verifier::external_body]
pub struct ExRandomState<
    const AVALANCHE: bool,
    const SPONGE: bool,
    const COMPACT: bool,
    const PROTECTED: bool,
>(rapidhash::inner::RandomState<AVALANCHE, SPONGE, COMPACT, PROTECTED>);

/// `RandomState::default` of `rapidhash`: a new seed. Nothing is claimed of it, since it is drawn
/// at random.
#[verifier::external_body]
pub(crate) fn new_state() -> (state: RandomState) {
    RandomState::default()
}

/// `BuildHasher::hash_one` of `RandomState` on a byte string. Nothing is claimed of the hash, since
/// it depends on the seed; not even that the same one comes again, on which no search relies.
#[verifier::external_body]
pub(crate) fn hash_bytes(state: &RandomState, bytes: &[u8]) -> (h: u64) {
    state.hash_one(bytes)
}

/// `BuildHasher::hash_one` of `RandomState` on two words. Nothing is claimed of the hash, since it
/// depends on the seed; not even that the same one comes again, on which no search relies.
#[verifier::external_body]
pub(crate) fn hash_words(state: &RandomState, first: u64, last: u64) -> (h: u64) {
    state.hash_one((first, last))
}

/// What is hashed of a name.
#[derive(Clone, Copy)]
pub enum HashKey<'a> {
    /// All its bytes.
    Bytes(&'a [u8]),
    /// Its first and its last eight bytes.
    Words(u64, u64),
}

/// What is hashed of a name: of a short one all its bytes, of a longer one its first and its last
/// eight.
pub fn hash_key<'a>(name: &'a [u8]) -> (k: HashKey<'a>)
    ensures
        match k {
            HashKey::Bytes(b) => name.len() < 16 && b == name,
            HashKey::Words(first, last) => {
                &&& name.len() >= 16
                &&& first == swar::word_le(name@, 0)
                &&& last == swar::word_le(name@, name.len() - 8)
            },
        },
{
    if name.len() < 16 {
        HashKey::Bytes(name)
    } else {
        HashKey::Words(swar::word_at(name, 0), swar::word_at(name, name.len() - 8))
    }
}

/// The hasher may give this hash for the name: for all bytes of a short one, for the first and the last
/// eight of a longer one.
pub closed spec fn may_hash(state: RandomState, name: Seq<u8>, h: u64) -> bool {
    if name.len() < 16 {
        exists|b: &[u8]| #[trigger] b@ == name && call_ensures(hash_bytes, (&state, b), h)
    } else {
        call_ensures(
            hash_words,
            (&state, swar::word_le(name, 0), swar::word_le(name, name.len() - 8)),
            h,
        )
    }
}

/// The hash of a name: what the hasher gives for all bytes of a short name, and for the first and the
/// last eight of a longer one. Its value is left open, since the seed is drawn at random; it only says
/// where the search for a station starts.
pub(crate) fn hash_name(state: &RandomState, name: &[u8]) -> (h: u64)
    ensures
        name.len() < 16 ==> call_ensures(hash_bytes, (state, name), h),
        name.len() >= 16 ==> call_ensures(
            hash_words,
            (state, swar::word_le(name@, 0), swar::word_le(name@, name.len() - 8)),
            h,
        ),
        may_hash(*state, name@, h),
{
    match hash_key(name) {
        HashKey::Bytes(b) => hash_bytes(state, b),
        HashKey::Words(first, last) => hash_words(state, first, last),
    }
}

} // verus!
