//! The 32-byte digest that commits to a page, and the sizes that go with it.

use vstd::prelude::*;

verus! {

/// Bytes in a machine word of the guest.
pub const WORD_SIZE: usize = 4;

/// Bytes in a double word, the width of a guest register.
pub const DOUBLE_WORD_SIZE: usize = 8;

/// Bytes in a digest.
pub const DIGEST_BYTES: usize = 32;

/// Bytes in one block of the compression function: two digests.
pub const BLOCK_BYTES: usize = 64;

/// A 256-bit hash value, held as the 32 bytes that represent it in memory.
#[derive(Clone, Copy, Debug)]
pub struct Digest {
    pub bytes: [u8; 32],
}

impl View for Digest {
    type V = Seq<u8>;

    open spec fn view(&self) -> Seq<u8> {
        self.bytes@
    }
}

impl PartialEq for Digest {
    fn eq(&self, other: &Digest) -> (r: bool) {
        let mut i: usize = 0;
        while i < 32
            invariant
                i <= 32,
                forall|j: int| 0 <= j < i ==> self.bytes@[j] == other.bytes@[j],
            decreases 32 - i,
        {
            if self.bytes[i] != other.bytes[i] {
                return false;
            }
            i += 1;
        }
        assert(self.bytes@ =~= other.bytes@);
        true
    }
}

impl Eq for Digest {

}

impl vstd::std_specs::cmp::PartialEqSpecImpl for Digest {
    open spec fn obeys_eq_spec() -> bool {
        true
    }

    open spec fn eq_spec(&self, other: &Digest) -> bool {
        self.bytes@ == other.bytes@
    }
}

} // verus!
