//! What a region says about itself: its header and its offset table.
use crate::error::{IoErrorKind, ShmError};
use crate::index::PubkeyIndex;
use crate::layout;
use crate::layout::{
    OffsetTableEntry, ShmHeader, ShmLayout, OFFSET_ENTRY_SIZE, SHM_FORMAT_VERSION, SHM_HEADER_SIZE,
    SHM_MAGIC,
};
use crate::memory;
use vstd::prelude::*;

verus! {

/// The number of slots that the header gives.
pub open spec fn num_slots(mem: Seq<u8>) -> u32 {
    memory::u32_at(mem, 16)
}

/// The account of slot `i` by the offset table.
pub open spec fn entry_key(mem: Seq<u8>, i: int) -> Seq<u8> {
    mem.subrange(layout::entry_offset(i), layout::entry_offset(i) + 32)
}

/// The offset of the data of slot `i` by the offset table.
pub open spec fn entry_data_offset(mem: Seq<u8>, i: int) -> u64 {
    memory::u64_at(mem, layout::entry_offset(i) + 32)
}

/// The capacity of slot `i` by the offset table.
pub open spec fn entry_capacity(mem: Seq<u8>, i: int) -> u32 {
    memory::u32_at(mem, layout::entry_offset(i) + 40)
}

/// The accounts of the first `n` entries of the offset table.
pub open spec fn table_keys(mem: Seq<u8>, n: nat) -> Seq<Seq<u8>> {
    Seq::new(n, |i: int| entry_key(mem, i))
}

/// The capacities of the first `n` entries of the offset table.
pub open spec fn table_capacities(mem: Seq<u8>, n: nat) -> Seq<u32> {
    Seq::new(n, |i: int| entry_capacity(mem, i))
}

/// The region has room for an offset table of `n` entries.
pub open spec fn table_fits(mem: Seq<u8>, n: int) -> bool {
    n == 0 || layout::entry_offset(n) <= mem.len()
}

/// What is wrong with the header, if anything.
pub open spec fn header_error(mem: Seq<u8>) -> Option<ShmError> {
    if memory::u64_at(mem, 0) != SHM_MAGIC {
        Some(
            ShmError::InvalidMagic { expected: SHM_MAGIC, actual: memory::u64_at(mem, 0) },
        )
    } else if memory::u64_at(mem, 8) != SHM_FORMAT_VERSION {
        Some(
            ShmError::VersionMismatch {
                expected: SHM_FORMAT_VERSION,
                actual: memory::u64_at(mem, 8),
            },
        )
    } else {
        None
    }
}

/// The table entry of slot `i` gives the offset at which the layout has the
/// data of the slot.
pub open spec fn offset_agrees(
    mem: Seq<u8>,
    data_region_start: int,
    capacities: Seq<u32>,
    i: int,
) -> bool {
    entry_data_offset(mem, i) == data_region_start + layout::slots_room(capacities.take(i)) + 64
}

/// Every table entry gives the offset at which the layout has the data of its
/// slot.
pub open spec fn all_agree(mem: Seq<u8>, data_region_start: int, capacities: Seq<u32>) -> bool {
    forall|i: int|
        0 <= i < capacities.len() ==> #[trigger] offset_agrees(
            mem,
            data_region_start,
            capacities,
            i,
        )
}

/// The table entries that the region holds give the offsets at which the layout
/// has the data of their slots.
pub open spec fn held_agree(mem: Seq<u8>, data_region_start: int, capacities: Seq<u32>) -> bool {
    forall|i: int|
        0 <= i < capacities.len() && table_fits(mem, i + 1) ==> #[trigger] offset_agrees(
            mem,
            data_region_start,
            capacities,
            i,
        )
}

/// The error for a table that the region cuts off.
pub open spec fn is_cut_off(error: ShmError) -> bool {
    error.is_io(IoErrorKind::UnexpectedEof, "offset table entry out of bounds"@)
}

/// The error for a table that contradicts the layout.
pub open spec fn is_contradiction(error: ShmError) -> bool {
    error.is_io(IoErrorKind::InvalidData, "offset table does not match computed layout"@)
}

/// Checks magic number and format version.
pub fn validate_header(mem: &[u8]) -> (result: Result<(), ShmError>)
    requires
        128 <= mem@.len(),
    ensures
        match header_error(mem@) {
            Some(error) => result == Err::<(), ShmError>(error),
            None => result is Ok,
        },
{
    let header = ShmHeader::decode(mem);
    if header.magic != SHM_MAGIC {
        return Err(ShmError::InvalidMagic { expected: SHM_MAGIC, actual: header.magic });
    }
    if header.format_version != SHM_FORMAT_VERSION {
        return Err(
            ShmError::VersionMismatch {
                expected: SHM_FORMAT_VERSION,
                actual: header.format_version,
            },
        );
    }
    Ok(())
}

/// Reads the table entry of slot `slot_index`.
pub fn offset_entry(mem: &[u8], slot_index: usize) -> (result: Result<OffsetTableEntry, ShmError>)
    ensures
        match result {
            Ok(entry) => table_fits(mem@, slot_index + 1) && entry.is_at(
                mem@,
                layout::entry_offset(slot_index as int),
            ),
            Err(error) => !table_fits(mem@, slot_index + 1) && is_cut_off(error),
        },
{
    let len: usize = mem.len();
    if len < SHM_HEADER_SIZE || slot_index >= (len - SHM_HEADER_SIZE) / OFFSET_ENTRY_SIZE {
        return Err(ShmError::io(IoErrorKind::UnexpectedEof, "offset table entry out of bounds"));
    }
    Ok(OffsetTableEntry::decode(mem, SHM_HEADER_SIZE + slot_index * OFFSET_ENTRY_SIZE))
}

/// Reads the capacities of the first `num_slots` slots.
pub fn read_capacities(mem: &[u8], num_slots: usize) -> (result: Result<Vec<u32>, ShmError>)
    ensures
        match result {
            Ok(capacities) => table_fits(mem@, num_slots as int) && capacities@
                == table_capacities(mem@, num_slots as nat),
            Err(error) => !table_fits(mem@, num_slots as int) && is_cut_off(error),
        },
{
    let mut capacities: Vec<u32> = Vec::new();
    let mut slot_index: usize = 0;
    while slot_index < num_slots
        invariant
            slot_index <= num_slots,
            table_fits(mem@, slot_index as int),
            capacities@ == table_capacities(mem@, slot_index as nat),
        decreases num_slots - slot_index,
    {
        match offset_entry(mem, slot_index) {
            Ok(entry) => {
                capacities.push(entry.data_capacity);
            },
            Err(error) => {
                return Err(error);
            },
        }
        slot_index = slot_index + 1;
        assert(capacities@ =~= table_capacities(mem@, slot_index as nat));
    }
    Ok(capacities)
}

/// Checks the offset table against the layout: every entry has to give the
/// offset that the layout computes for its slot.
pub fn validate_offsets(mem: &[u8], layout: &ShmLayout, capacities: &[u32]) -> (result: Result<
    (),
    ShmError,
>)
    requires
        layout.offset_table_start == SHM_HEADER_SIZE,
        layout.data_region_start + layout::slots_room(capacities@) <= usize::MAX,
    ensures
        match result {
            Ok(_) => {
                &&& table_fits(mem@, capacities@.len() as int)
                &&& all_agree(mem@, layout.data_region_start as int, capacities@)
            },
            Err(error) => {
                ||| is_contradiction(error) && exists|i: int|
                    0 <= i < capacities@.len() && table_fits(mem@, i + 1)
                        && !#[trigger] offset_agrees(
                        mem@,
                        layout.data_region_start as int,
                        capacities@,
                        i,
                    )
                ||| is_cut_off(error) && !table_fits(mem@, capacities@.len() as int)
                    && held_agree(mem@, layout.data_region_start as int, capacities@)
            },
        },
{
    let count: usize = capacities.len();
    let mut slot_index: usize = 0;
    while slot_index < count
        invariant
            slot_index <= count,
            count == capacities@.len(),
            layout.data_region_start + layout::slots_room(capacities@) <= usize::MAX,
            table_fits(mem@, slot_index as int),
            forall|i: int|
                0 <= i < slot_index ==> #[trigger] offset_agrees(
                    mem@,
                    layout.data_region_start as int,
                    capacities@,
                    i,
                ),
        decreases count - slot_index,
    {
        match offset_entry(mem, slot_index) {
            Ok(entry) => {
                proof {
                    layout::lemma_slots_room_prefix(capacities@, slot_index as int);
                    layout::lemma_slots_room_prefix(capacities@, slot_index + 1);
                }
                let expected: u64 = layout.slot_data_offset(slot_index, capacities) as u64;
                if entry.data_offset != expected {
                    assert(!offset_agrees(
                        mem@,
                        layout.data_region_start as int,
                        capacities@,
                        slot_index as int,
                    ));
                    return Err(
                        ShmError::io(
                            IoErrorKind::InvalidData,
                            "offset table does not match computed layout",
                        ),
                    );
                }
            },
            Err(error) => {
                return Err(error);
            },
        }
        slot_index = slot_index + 1;
    }
    Ok(())
}

/// Indexes the accounts of the first `num_slots` table entries.
pub fn build_index_from_entries(mem: &[u8], num_slots: usize) -> (result: Result<
    PubkeyIndex,
    ShmError,
>)
    ensures
        match result {
            Ok(index) => {
                &&& table_fits(mem@, num_slots as int)
                &&& index.wf()
                &&& index@ == table_keys(mem@, num_slots as nat)
            },
            Err(error) => !table_fits(mem@, num_slots as int) && is_cut_off(error),
        },
{
    let mut index = PubkeyIndex::new();
    let mut slot_index: usize = 0;
    assert(index@ =~= table_keys(mem@, 0));
    while slot_index < num_slots
        invariant
            slot_index <= num_slots,
            table_fits(mem@, slot_index as int),
            index.wf(),
            index@ == table_keys(mem@, slot_index as nat),
        decreases num_slots - slot_index,
    {
        match offset_entry(mem, slot_index) {
            Ok(entry) => {
                index.insert(entry.pubkey);
            },
            Err(error) => {
                return Err(error);
            },
        }
        slot_index = slot_index + 1;
        assert(index@ =~= table_keys(mem@, slot_index as nat));
    }
    Ok(index)
}

} // verus!
