//! Page hashing: a page is folded, block by block, through the SHA-256
//! compression function.
//!
//! The compression function itself is not part of this library. It is called
//! through [`compress`], and contracts speak of its result by the name
//! [`sha256_compress`].

use vstd::prelude::*;
use crate::digest::Digest;

verus! {

/// What the SHA-256 compression function returns for a state and the two
/// halves of one block, each given as the 32 bytes that represent it in memory.
pub uninterp spec fn sha256_compress(state: Seq<u8>, half1: Seq<u8>, half2: Seq<u8>) -> Seq<u8>;

/// The standard SHA-256 initialization vector: its eight words, most
/// significant byte first.
pub open spec fn sha256_init_bytes() -> Seq<u8> {
    seq![
        0x6au8, 0x09u8, 0xe6u8, 0x67u8,
        0xbbu8, 0x67u8, 0xaeu8, 0x85u8,
        0x3cu8, 0x6eu8, 0xf3u8, 0x72u8,
        0xa5u8, 0x4fu8, 0xf5u8, 0x3au8,
        0x51u8, 0x0eu8, 0x52u8, 0x7fu8,
        0x9bu8, 0x05u8, 0x68u8, 0x8cu8,
        0x1fu8, 0x83u8, 0xd9u8, 0xabu8,
        0x5bu8, 0xe0u8, 0xcdu8, 0x19u8,
    ]
}

/// The digest of a page: starting from the initialization vector, each whole
/// block of 64 bytes, left to right, is compressed into the state as two
/// halves of 32 bytes. Bytes after the last whole block do not count.
pub open spec fn page_digest(page: Seq<u8>) -> Seq<u8>
    decreases page.len(),
{
    if page.len() < 64 {
        sha256_init_bytes()
    } else {
        let n = (page.len() / 64 - 1) * 64;
        sha256_compress(
            page_digest(page.subrange(0, n)),
            page.subrange(n, n + 32),
            page.subrange(n + 32, n + 64),
        )
    }
}

/// Calls `compress` of `risc0_zkp::core::hash::sha::cpu::Impl`, the SHA-256
/// compression function on one block given as two half blocks.
///
/// Trusted: the result is a function of the three arguments' bytes alone, and
/// is named [`sha256_compress`]. Nothing else is claimed of it.
#[verifier::external_body]
pub(crate) fn compress(state: &Digest, half1: &Digest, half2: &Digest) -> (out: Digest)
    ensures
        out@ == sha256_compress(state@, half1@, half2@),
{
    let s = risc0_zkp::core::digest::Digest::from(state.bytes);
    let a = risc0_zkp::core::digest::Digest::from(half1.bytes);
    let b = risc0_zkp::core::digest::Digest::from(half2.bytes);
    let out = <risc0_zkp::core::hash::sha::cpu::Impl as risc0_zkp::core::hash::sha::Sha256>::compress(&s, &a, &b);
    Digest { bytes: (*out).into() }
}

/// Reads `risc0_zkp::core::hash::sha::SHA256_INIT`.
///
/// Trusted: its bytes in memory are those of the standard initialization
/// vector, each word with its most significant byte first.
#[verifier::external_body]
pub(crate) fn initial_state() -> (out: Digest)
    ensures
        out@ == sha256_init_bytes(),
{
    Digest { bytes: risc0_zkp::core::hash::sha::SHA256_INIT.into() }
}

/// Copies the 32 bytes at `at` out of `buf`.
pub fn digest_at(buf: &[u8], at: usize) -> (d: Digest)
    requires
        at + 32 <= buf@.len(),
    ensures
        d@ == buf@.subrange(at as int, at + 32),
{
    let size: usize = buf.len();
    let mut bytes: [u8; 32] = [0u8; 32];
    let mut i: usize = 0;
    while i < 32
        invariant
            i <= 32,
            size == buf@.len(),
            at + 32 <= buf@.len(),
            forall|j: int| 0 <= j < i ==> bytes@[j] == buf@[at + j],
        decreases 32 - i,
    {
        bytes[i] = buf[at + i];
        i += 1;
    }
    assert(bytes@ =~= buf@.subrange(at as int, at + 32));
    Digest { bytes }
}

/// The digest of the `len` bytes of `buf` that start at `start`.
pub fn hash_range(buf: &[u8], start: usize, len: usize) -> (d: Digest)
    requires
        start + len <= buf@.len(),
        len % 64 == 0,
    ensures
        d@ == page_digest(buf@.subrange(start as int, start + len)),
{
    let ghost page = buf@.subrange(start as int, start + len);
    let size: usize = buf.len();
    let mut state = initial_state();
    let mut done: usize = 0;
    while done < len
        invariant
            size == buf@.len(),
            start + len <= buf@.len(),
            len % 64 == 0,
            done % 64 == 0,
            done <= len,
            page == buf@.subrange(start as int, start + len),
            state@ == page_digest(page.subrange(0, done as int)),
        decreases len - done,
    {
        let half1 = digest_at(buf, start + done);
        let half2 = digest_at(buf, start + done + 32);
        state = compress(&state, &half1, &half2);
        proof {
            let next = page.subrange(0, done + 64);
            assert(next.len() == done + 64);
            assert((done + 64) / 64 - 1 == done as int / 64);
            assert((done as int / 64) * 64 == done);
            assert(next.subrange(0, done as int) =~= page.subrange(0, done as int));
            assert(next.subrange(done as int, done + 32) =~= half1@);
            assert(next.subrange(done + 32, done + 64) =~= half2@);
        }
        done += 64;
    }
    assert(page.subrange(0, len as int) =~= page);
    state
}

/// The digest of a page, which must be a whole number of blocks.
pub fn hash_page(page: &[u8]) -> (d: Digest)
    requires
        page@.len() % 64 == 0,
    ensures
        d@ == page_digest(page@),
{
    assert(page@.subrange(0, page@.len() as int) =~= page@);
    hash_range(page, 0, page.len())
}

} // verus!
