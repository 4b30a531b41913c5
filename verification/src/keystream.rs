//! The keyed layer: bytes are XOR'd with a SHA-256 counter-mode keystream.
//! The seed is `SHA256("FQEncoder.v1:" ++ key)`, and block `c` of the
//! keystream is `SHA256(seed ++ c as 8 little-endian bytes)`.

use vstd::prelude::*;
use vstd::utf8::*;
use sha2::Digest;
use crate::text::lemma_encode_utf8_concat;

verus! {

/// What SHA-256 gives for a byte string.
pub uninterp spec fn sha256(data: Seq<u8>) -> Seq<u8>;

/// Calls `sha2::Sha256::digest` on `data`.
/// Trusted: the result is SHA-256 of `data` (named `sha256`) and is 32 bytes long.
#[verifier::external_body]
fn sha256_digest(data: &[u8]) -> (out: Vec<u8>)
    ensures
        out@ == sha256(data@),
        out@.len() == 32,
{
    sha2::Sha256::digest(data).to_vec()
}

/// The label in front of the key when the seed is derived.
pub open spec fn seed_label() -> Seq<char> {
    seq!['F', 'Q', 'E', 'n', 'c', 'o', 'd', 'e', 'r', '.', 'v', '1', ':']
}

/// The seed that a key gives.
pub open spec fn seed_of(key: Seq<char>) -> Seq<u8> {
    sha256(encode_utf8(seed_label() + key))
}

/// The eight little-endian bytes of `n`.
pub open spec fn le_bytes(n: nat) -> Seq<u8> {
    seq![
        (n % 0x100) as u8,
        ((n / 0x100) % 0x100) as u8,
        ((n / 0x1_0000) % 0x100) as u8,
        ((n / 0x100_0000) % 0x100) as u8,
        ((n / 0x1_0000_0000) % 0x100) as u8,
        ((n / 0x100_0000_0000) % 0x100) as u8,
        ((n / 0x1_0000_0000_0000) % 0x100) as u8,
        ((n / 0x100_0000_0000_0000) % 0x100) as u8,
    ]
}

/// Byte `i` of the keystream drawn from `seed`.
pub open spec fn keystream_byte(seed: Seq<u8>, i: nat) -> u8 {
    sha256(seed + le_bytes(i / 32))[(i % 32) as int]
}

/// `bytes` XOR'd with the keystream of `key`.
pub open spec fn keystream_xor(bytes: Seq<u8>, key: Seq<char>) -> Seq<u8> {
    Seq::new(bytes.len(), |i: int| bytes[i] ^ keystream_byte(seed_of(key), i as nat))
}

/// The eight little-endian bytes of `counter`.
fn counter_bytes(counter: u64) -> (out: Vec<u8>)
    ensures
        out@ == le_bytes(counter as nat),
{
    let out = vec![
        (counter % 0x100) as u8,
        ((counter / 0x100) % 0x100) as u8,
        ((counter / 0x1_0000) % 0x100) as u8,
        ((counter / 0x100_0000) % 0x100) as u8,
        ((counter / 0x1_0000_0000) % 0x100) as u8,
        ((counter / 0x100_0000_0000) % 0x100) as u8,
        ((counter / 0x1_0000_0000_0000) % 0x100) as u8,
        ((counter / 0x100_0000_0000_0000) % 0x100) as u8,
    ];
    assert(out@ =~= le_bytes(counter as nat));
    out
}

/// The seed for `key`: SHA-256 of the label followed by the key's UTF-8 bytes.
pub fn derive_seed(key: &str) -> (seed: Vec<u8>)
    ensures
        seed@ == seed_of(key@),
        seed@.len() == 32,
{
    let label = "FQEncoder.v1:";
    proof {
        reveal_strlit("FQEncoder.v1:");
        assert(label@ =~= seed_label());
        lemma_encode_utf8_concat(seed_label(), key@);
    }
    let mut input: Vec<u8> = Vec::new();
    input.extend_from_slice(label.as_bytes());
    input.extend_from_slice(key.as_bytes());
    assert(input@ =~= encode_utf8(seed_label() + key@));
    sha256_digest(input.as_slice())
}

/// `bytes` with the positions from `start` up to `end` XOR'd with `block`,
/// position `k` with `block[k - start]`.
pub open spec fn xor_block_spec(bytes: Seq<u8>, start: int, end: int, block: Seq<u8>) -> Seq<u8> {
    Seq::new(
        bytes.len(),
        |k: int| if start <= k < end { bytes[k] ^ block[k - start] } else { bytes[k] },
    )
}

/// XORs the bytes from `start` on with the bytes of `block`, as far as both
/// reach, and returns the position after the last byte changed.
pub fn xor_block(bytes: &mut [u8], start: usize, block: &[u8]) -> (end: usize)
    requires
        start <= old(bytes)@.len(),
    ensures
        end == if start + block@.len() <= old(bytes)@.len() {
            start + block@.len()
        } else {
            old(bytes)@.len() as int
        },
        final(bytes)@ == xor_block_spec(old(bytes)@, start as int, end as int, block@),
{
    let ghost orig = bytes@;
    let n = bytes.len();
    let mut produced = start;
    let mut j: usize = 0;
    while j < block.len() && produced < n
        invariant
            n == bytes@.len(),
            n == orig.len(),
            start <= produced <= n,
            produced == start + j,
            j <= block@.len(),
            bytes@ == xor_block_spec(orig, start as int, produced as int, block@),
        decreases block@.len() - j,
    {
        bytes[produced] = bytes[produced] ^ block[j];
        produced = produced + 1;
        j = j + 1;
        assert(bytes@ =~= xor_block_spec(orig, start as int, produced as int, block@));
    }
    produced
}

/// XORs `bytes` in place with the keystream of `key`. Applying it twice
/// restores the input.
pub fn apply_keystream(bytes: &mut [u8], key: &str)
    ensures
        final(bytes)@ == keystream_xor(old(bytes)@, key@),
{
    let n = bytes.len();
    if n == 0 {
        assert(final(bytes)@ =~= keystream_xor(old(bytes)@, key@));
        return;
    }
    let ghost orig = bytes@;
    let seed = derive_seed(key);
    let mut produced: usize = 0;
    let mut counter: u64 = 0;
    while produced < n
        invariant
            n == bytes@.len(),
            n == orig.len(),
            seed@ == seed_of(key@),
            produced <= n,
            produced < n ==> produced == 32 * counter,
            forall|k: int| 0 <= k < produced ==> bytes@[k] == orig[k] ^ keystream_byte(seed@, k as nat),
            forall|k: int| produced <= k < n ==> bytes@[k] == orig[k],
        decreases n - produced,
    {
        let mut block_input: Vec<u8> = Vec::new();
        block_input.extend_from_slice(seed.as_slice());
        let le = counter_bytes(counter);
        block_input.extend_from_slice(le.as_slice());
        assert(block_input@ =~= seed@ + le_bytes(counter as nat));
        let block = sha256_digest(block_input.as_slice());
        proof {
            assert forall|k: int| produced <= k < n && k < produced + 32 implies
                #[trigger] keystream_byte(seed@, k as nat) == block@[k - produced] by {
                lemma_block_position(counter as int, k - produced);
            }
        }
        produced = xor_block(bytes, produced, block.as_slice());
        if produced < n {
            counter = counter.wrapping_add(1);
        }
    }
    assert(bytes@ =~= keystream_xor(orig, key@));
}

proof fn lemma_block_position(c: int, j: int)
    requires
        0 <= c,
        0 <= j < 32,
    ensures
        (32 * c + j) / 32 == c,
        (32 * c + j) % 32 == j,
{
    assert((32 * c + j) / 32 == c && (32 * c + j) % 32 == j) by (nonlinear_arith)
        requires
            0 <= c,
            0 <= j < 32,
    ;
}

proof fn lemma_xor_twice(x: u8, k: u8)
    ensures
        (x ^ k) ^ k == x,
{
    assert((x ^ k) ^ k == x) by (bit_vector);
}

/// XOR with the same keystream twice is the identity.
pub proof fn lemma_keystream_involution(bytes: Seq<u8>, key: Seq<char>)
    ensures
        keystream_xor(keystream_xor(bytes, key), key) == bytes,
{
    let once = keystream_xor(bytes, key);
    assert forall|i: int| 0 <= i < bytes.len() implies keystream_xor(once, key)[i] == bytes[i] by {
        lemma_xor_twice(bytes[i], keystream_byte(seed_of(key), i as nat));
    }
    assert(keystream_xor(once, key) =~= bytes);
}

/// Counter mode: byte `i` of any byte string is XOR'd with byte `i % 32` of
/// SHA-256 of the seed followed by the block counter `i / 32` as eight
/// little-endian bytes, where the seed is SHA-256 of `FQEncoder.v1:` and
/// the key. The counter grows by one every 32 bytes and never restarts.
pub proof fn lemma_counter_mode(bytes: Seq<u8>, key: Seq<char>, i: int)
    requires
        0 <= i < bytes.len(),
    ensures
        ({
            let c = i / 32;
            let seed = sha256(
                encode_utf8(seq!['F', 'Q', 'E', 'n', 'c', 'o', 'd', 'e', 'r', '.', 'v', '1', ':'] + key),
            );
            let counter = seq![
                (c % 256) as u8,
                ((c / 256) % 256) as u8,
                ((c / 65536) % 256) as u8,
                ((c / 16777216) % 256) as u8,
                ((c / 4294967296) % 256) as u8,
                ((c / 1099511627776) % 256) as u8,
                ((c / 281474976710656) % 256) as u8,
                ((c / 72057594037927936) % 256) as u8,
            ];
            keystream_xor(bytes, key)[i] == bytes[i] ^ sha256(seed + counter)[i % 32]
        }),
{
    let c = i / 32;
    assert(seed_label() =~= seq!['F', 'Q', 'E', 'n', 'c', 'o', 'd', 'e', 'r', '.', 'v', '1', ':']);
    assert(le_bytes(c as nat) =~= seq![
        (c % 256) as u8,
        ((c / 256) % 256) as u8,
        ((c / 65536) % 256) as u8,
        ((c / 16777216) % 256) as u8,
        ((c / 4294967296) % 256) as u8,
        ((c / 1099511627776) % 256) as u8,
        ((c / 281474976710656) % 256) as u8,
        ((c / 72057594037927936) % 256) as u8,
    ]);
}

} // verus!
