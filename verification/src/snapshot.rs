//! The state of an account at one moment.
use crate::memory;
use vstd::prelude::*;

verus! {

/// The state of an account, as read from its slot.
pub struct ShmAccountSnapshot {
    pub owner: [u8; 32],
    pub lamports: u64,
    pub data: Vec<u8>,
    pub executable: bool,
    pub solana_slot: u64,
}

/// The state of an account.
#[verifier::ext_equal]
pub struct AccountModel {
    pub owner: Seq<u8>,
    pub lamports: u64,
    pub data: Seq<u8>,
    pub executable: bool,
    pub solana_slot: u64,
}

impl View for ShmAccountSnapshot {
    type V = AccountModel;

    open spec fn view(&self) -> AccountModel {
        AccountModel {
            owner: self.owner@,
            lamports: self.lamports,
            data: self.data@,
            executable: self.executable,
            solana_slot: self.solana_slot,
        }
    }
}

/// The version of the slot at `base`.
pub open spec fn version_at(mem: Seq<u8>, base: int) -> u64 {
    memory::u64_at(mem, base)
}

/// The length of the data in the slot at `base`.
pub open spec fn data_len_at(mem: Seq<u8>, base: int) -> u32 {
    memory::u32_at(mem, base + 56)
}

/// The account in the slot at `base`.
pub open spec fn account_at(mem: Seq<u8>, base: int) -> AccountModel {
    AccountModel {
        owner: mem.subrange(base + 16, base + 48),
        lamports: memory::u64_at(mem, base + 48),
        data: mem.subrange(base + 64, base + 64 + data_len_at(mem, base)),
        executable: mem[base + 60] != 0,
        solana_slot: memory::u64_at(mem, base + 8),
    }
}

} // verus!
