//! Stable hashes of strings.

use std::collections::hash_map::DefaultHasher;
use std::hash::Hasher;
use vstd::prelude::*;

verus! {

/// What a hasher is fed for a string: its bytes, and a byte that no string holds.
pub open spec fn fed(s: Seq<char>) -> Seq<Seq<u8>> {
    seq![vstd::utf8::encode_utf8(s), seq![0xffu8]]
}

/// The hash of the writes `w`, by the hasher that is the same in every process.
pub open spec fn finish(w: Seq<Seq<u8>>) -> u64 {
    <DefaultHasher as vstd::std_specs::hash::DefaultHasherAdditionalSpecFns>::spec_finish(w)
}

fn feed(hasher: &mut DefaultHasher, s: &str)
    ensures
        final(hasher)@ == old(hasher)@ + fed(s@),
{
    let end: Vec<u8> = vec![0xff];
    hasher.write(s.as_bytes());
    hasher.write(end.as_slice());
    assert(end@ =~= seq![0xffu8]);
    assert(hasher@ =~= old(hasher)@ + fed(s@));
}

/// The hash of one string.
pub fn hash_one(s: &str) -> (r: u64)
    ensures
        r == finish(fed(s@)),
{
    let mut hasher = DefaultHasher::new();
    feed(&mut hasher, s);
    assert(hasher@ =~= fed(s@));
    hasher.finish()
}

/// The hash of two strings.
pub fn hash_two(a: &str, b: &str) -> (r: u64)
    ensures
        r == finish(fed(a@) + fed(b@)),
{
    let mut hasher = DefaultHasher::new();
    feed(&mut hasher, a);
    feed(&mut hasher, b);
    assert(hasher@ =~= fed(a@) + fed(b@));
    hasher.finish()
}

}
