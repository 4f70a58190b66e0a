//! Account identifiers, the keys built from them, and the custody accounts.
use crate::storage::StorageKey;
use frame_support::PalletId;
use sp_runtime::traits::AccountIdConversion;
use vstd::prelude::*;

verus! {

/// An account: its 32 bytes, as two little-endian halves.
#[derive(Clone, Copy, Debug, PartialEq, Eq, Structural)]
pub struct AccountId {
    pub lo: u128,
    pub hi: u128,
}

/// A coldkey on a subnet.
#[derive(Clone, Copy, Debug, PartialEq, Eq, Structural)]
pub struct OwnerKey {
    pub netuid: u16,
    pub coldkey: AccountId,
}

/// The stake of a coldkey at a hotkey on a subnet.
#[derive(Clone, Copy, Debug, PartialEq, Eq, Structural)]
pub struct StakeKey {
    pub netuid: u16,
    pub hotkey: AccountId,
    pub coldkey: AccountId,
}

/// Where a call comes from.
#[derive(Clone, Copy, Debug, PartialEq, Eq, Structural)]
pub enum Origin {
    /// A call signed by the account.
    Signed(AccountId),
    /// A call of the system itself.
    Root,
    /// A call that nobody signed.
    Unsigned,
}

impl StorageKey for AccountId {
    fn same(&self, other: &Self) -> (r: bool) {
        *self == *other
    }
}

impl StorageKey for OwnerKey {
    fn same(&self, other: &Self) -> (r: bool) {
        *self == *other
    }
}

impl StorageKey for StakeKey {
    fn same(&self, other: &Self) -> (r: bool) {
        *self == *other
    }
}

/// The account of the module `pallet_id` for a four-letter tag and a subnet: the letters `modl`,
/// the eight bytes of the module, the tag behind its length as a byte, the subnet in two bytes,
/// and zeros.
pub open spec fn tagged_account(pallet_id: u64, tag: Seq<char>, netuid: u16) -> AccountId {
    AccountId {
        lo: (0x6c64_6f6d + pallet_id * 0x1_0000_0000 + 0x10 * 0x1_0000_0000_0000_0000_0000_0000
            + (tag[0] as int) * 0x100_0000_0000_0000_0000_0000_0000 + (tag[1] as int)
            * 0x1_0000_0000_0000_0000_0000_0000_0000 + (tag[2] as int)
            * 0x100_0000_0000_0000_0000_0000_0000_0000) as u128,
        hi: (tag[3] as int + netuid * 0x100) as u128,
    }
}

/// `AccountIdConversion::into_sub_account_truncating` of `frame_support::PalletId`, with a tag
/// and a subnet as the seed and 32 bytes as the account. The account holds the encodings of the
/// type identifier `modl`, the module and the seed, then zeros; a text is encoded as its length
/// times four, in one byte, and its bytes. Nothing is cut off: the parts take 19 bytes.
#[verifier::external_body]
fn sub_account(pallet_id: u64, tag: &str, netuid: u16) -> (r: AccountId)
    requires
        tag@.len() == 4,
        forall|i: int| 0 <= i < 4 ==> (#[trigger] tag@[i] as u32) < 0x80,
    ensures
        r == tagged_account(pallet_id, tag@, netuid),
{
    let bytes: [u8; 32] = PalletId(pallet_id.to_le_bytes()).into_sub_account_truncating((tag, netuid));
    let mut lo = [0u8; 16];
    let mut hi = [0u8; 16];
    lo.copy_from_slice(&bytes[..16]);
    hi.copy_from_slice(&bytes[16..]);
    AccountId { lo: u128::from_le_bytes(lo), hi: u128::from_le_bytes(hi) }
}

/// The custody account of a subnet.
pub open spec fn custody_of(pallet_id: u64, netuid: u16) -> AccountId {
    tagged_account(pallet_id, seq!['s', 'h', 'r', 't'], netuid)
}

/// The account that holds what is parked for the shorts of a subnet.
pub fn custody_account(pallet_id: u64, netuid: u16) -> (r: AccountId)
    ensures
        r == custody_of(pallet_id, netuid),
{
    proof {
        reveal_strlit("shrt");
        assert("shrt"@ =~= seq!['s', 'h', 'r', 't']);
    }
    sub_account(pallet_id, "shrt", netuid)
}

} // verus!
