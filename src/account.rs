use vstd::prelude::*;

verus! {

/// A quantity of the ledger's single asset.
pub type Balance = u128;

/// An opaque 32-byte identifier of a participant in the ledger.
#[derive(Clone, Copy, Debug, PartialEq, Eq, Hash)]
pub struct AccountId {
    pub bytes: [u8; 32],
}

impl AccountId {
    /// Builds an identifier from its 32 bytes.
    pub fn from_bytes(bytes: [u8; 32]) -> (r: AccountId)
        ensures
            r.bytes == bytes,
    {
        AccountId { bytes }
    }

    /// Tells whether two identifiers name the same account.
    pub fn same_as(&self, other: &AccountId) -> (r: bool)
        ensures
            r == (*self == *other),
    {
        let mut i: usize = 0;
        while i < 32
            invariant
                i <= 32,
                forall|j: int| 0 <= j < i ==> self.bytes@[j] == other.bytes@[j],
            decreases 32 - i,
        {
            if self.bytes[i] != other.bytes[i] {
                return false;
            }
            i += 1;
        }
        assert(self.bytes =~= other.bytes);
        true
    }
}

} // verus!
