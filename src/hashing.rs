//! Eight table-index lanes drawn from one SHA-512 digest of a key's bytes.

use sha2::{Digest, Sha512};
use vstd::prelude::*;

verus! {

/// Number of lanes (and so of table probes) per key.
pub const LANES: usize = 8;

/// Number of digest bytes folded into one lane.
pub const LANE_BYTES: usize = 8;

/// The SHA-512 digest of `data`.
pub uninterp spec fn sha512_of(data: Seq<u8>) -> Seq<u8>;

/// Relies on sha2::Sha512::digest: the 64-byte SHA-512 digest of `data`,
/// which depends on the bytes alone.
#[verifier::external_body]
fn sha512_digest(data: &[u8]) -> (r: Vec<u8>)
    ensures
        r@ == sha512_of(data@),
        r@.len() == 64,
{
    Sha512::digest(data).to_vec()
}

/// The bytes read as one big-endian number.
pub open spec fn fold_be(s: Seq<u8>) -> nat
    decreases s.len(),
{
    if s.len() == 0 {
        0
    } else {
        fold_be(s.drop_last()) * 256 + s.last() as nat
    }
}

pub open spec fn pow256(n: nat) -> nat
    decreases n,
{
    if n == 0 {
        1
    } else {
        256 * pow256((n - 1) as nat)
    }
}

proof fn lemma_fold_be_bound(s: Seq<u8>)
    ensures
        fold_be(s) < pow256(s.len()),
    decreases s.len(),
{
    if s.len() > 0 {
        lemma_fold_be_bound(s.drop_last());
    }
}

proof fn lemma_pow256_monotone(a: nat, b: nat)
    requires
        a <= b,
    ensures
        pow256(a) <= pow256(b),
    decreases b,
{
    if a < b {
        lemma_pow256_monotone(a, (b - 1) as nat);
    }
}

/// Lane `i` of a 64-byte digest: its bytes `8i .. 8i + 8` read big-endian.
pub open spec fn lane_of(digest: Seq<u8>, i: int) -> u64 {
    fold_be(digest.subrange(i * 8, i * 8 + 8)) as u64
}

/// The eight lanes of a digest.
pub open spec fn lanes_of(digest: Seq<u8>) -> Seq<u64> {
    Seq::new(8, |i: int| lane_of(digest, i))
}

/// The eight lanes that a key's bytes hash to.
pub open spec fn hash_lanes_spec(key: Seq<u8>) -> Seq<u64> {
    lanes_of(sha512_of(key))
}

/// Splits a 64-byte digest into eight lanes of eight bytes, each read as a
/// big-endian `u64` by successive shift-and-add.
pub fn lanes_from_digest(digest: &[u8]) -> (r: [u64; 8])
    requires
        digest@.len() == 64,
    ensures
        r@ == lanes_of(digest@),
{
    let mut lanes: [u64; 8] = [0; 8];
    let mut i: usize = 0;
    while i < LANES
        invariant
            i <= 8,
            digest@.len() == 64,
            forall|k: int| 0 <= k < i ==> #[trigger] lanes@[k] == lane_of(digest@, k),
        decreases 8 - i,
    {
        let mut acc: u64 = 0;
        let mut j: usize = 0;
        while j < LANE_BYTES
            invariant
                i < 8,
                j <= 8,
                digest@.len() == 64,
                acc as nat == fold_be(digest@.subrange(i * 8, i * 8 + j)),
                forall|k: int| 0 <= k < i ==> #[trigger] lanes@[k] == lane_of(digest@, k),
            decreases 8 - j,
        {
            let ghost prev = digest@.subrange(i * 8, i * 8 + j);
            let ghost next = digest@.subrange(i * 8, i * 8 + j + 1);
            proof {
                assert(next.drop_last() =~= prev);
                lemma_fold_be_bound(prev);
                lemma_pow256_monotone(j as nat, 7);
                reveal_with_fuel(pow256, 9);
            }
            acc = acc * 256 + digest[i * 8 + j] as u64;
            j = j + 1;
        }
        lanes[i] = acc;
        i = i + 1;
    }
    assert(lanes@ =~= lanes_of(digest@));
    lanes
}

/// The eight lanes of the SHA-512 digest of `key`.
pub fn hash_lanes(key: &[u8]) -> (r: [u64; 8])
    ensures
        r@ == hash_lanes_spec(key@),
{
    let digest = sha512_digest(key);
    lanes_from_digest(digest.as_slice())
}

/// Hashing is a function of the bytes alone: equal inputs give equal lanes.
pub proof fn lemma_hash_lanes_deterministic(a: Seq<u8>, b: Seq<u8>)
    requires
        a == b,
    ensures
        hash_lanes_spec(a) == hash_lanes_spec(b),
        hash_lanes_spec(a).len() == LANES,
{
}

} // verus!
