//! The slots of an open region.
use crate::error::ShmError;
use crate::index;
use crate::index::PubkeyIndex;
use crate::layout;
use crate::layout::{ShmHeader, ShmLayout};
use crate::region;
use vstd::prelude::*;

verus! {

/// The region can be addressed on this machine, as far as its header and its
/// table say where its slots lie.
pub open spec fn addressable(mem: Seq<u8>) -> bool {
    let n = region::num_slots(mem);
    region::header_error(mem) is None && region::table_fits(mem, n as int) ==> layout::region_size(
        n as int,
        region::table_capacities(mem, n as nat),
    ) <= usize::MAX
}

/// Every table entry gives the offset that the layout computes.
pub open spec fn offsets_agree(mem: Seq<u8>) -> bool {
    let n = region::num_slots(mem);
    forall|i: int|
        0 <= i < n ==> #[trigger] region::offset_agrees(
            mem,
            layout::data_start(n as int),
            region::table_capacities(mem, n as nat),
            i,
        )
}

/// The region has a valid header and a complete table that agrees with the
/// layout.
pub open spec fn valid_region(mem: Seq<u8>) -> bool {
    &&& region::header_error(mem) is None
    &&& region::table_fits(mem, region::num_slots(mem) as int)
    &&& offsets_agree(mem)
}

/// The error with which opening a region fails.
pub open spec fn is_open_error(mem: Seq<u8>, error: ShmError) -> bool {
    match region::header_error(mem) {
        Some(e) => error == e,
        None => if !region::table_fits(mem, region::num_slots(mem) as int) {
            region::is_cut_off(error)
        } else {
            !offsets_agree(mem) && region::is_contradiction(error)
        },
    }
}

/// Whether [`SlotTable::open`] may be called on the region.
pub fn can_open(mem: &[u8]) -> (can: bool)
    ensures
        can == (128 <= mem@.len() && addressable(mem@)),
{
    if mem.len() < 128 {
        return false;
    }
    if region::validate_header(mem).is_err() {
        return true;
    }
    let header = ShmHeader::decode(mem);
    match region::read_capacities(mem, header.num_slots as usize) {
        Ok(capacities) => ShmLayout::fits(header.num_slots, capacities.as_slice()),
        Err(_) => true,
    }
}

/// The slots of an open region: their accounts, capacities and offsets.
pub struct SlotTable {
    layout: ShmLayout,
    index: PubkeyIndex,
    capacities: Vec<u32>,
}

impl SlotTable {
    /// The accounts by slot.
    pub closed spec fn keys(&self) -> Seq<Seq<u8>> {
        self.index@
    }

    /// The capacities by slot.
    pub closed spec fn capacities(&self) -> Seq<u32> {
        self.capacities@
    }

    /// The layout is that of the capacities. (The accounts may be those of
    /// another region after they were read anew.)
    pub closed spec fn wf(&self) -> bool {
        &&& self.index.wf()
        &&& self.capacities@.len() <= u32::MAX
        &&& layout::region_size(self.capacities@.len() as int, self.capacities@) <= usize::MAX
        &&& self.layout.describes(self.capacities@.len() as int, self.capacities@)
    }

    /// The slot of account `key`.
    pub open spec fn slot_of(&self, key: Seq<u8>) -> Option<usize> {
        index::last_position(self.keys(), key)
    }

    /// Offset of the header of slot `i`.
    pub open spec fn offset_of(&self, i: int) -> int {
        layout::slot_offset(self.capacities(), i)
    }

    /// Size of the region.
    pub open spec fn size(&self) -> int {
        layout::region_size(self.capacities().len() as int, self.capacities())
    }

    /// What the contracts of a table that is in order imply.
    pub proof fn lemma_wf(&self)
        requires
            self.wf(),
        ensures
            self.keys().len() <= usize::MAX,
            self.capacities().len() <= u32::MAX,
            self.size() <= usize::MAX,
    {
        self.index.lemma_len();
    }

    /// A table of the given accounts, each with its capacity.
    pub fn new(accounts: &Vec<[u8; 32]>, capacities: &Vec<u32>) -> (table: Self)
        requires
            accounts@.len() == capacities@.len(),
            accounts@.len() <= u32::MAX,
            layout::region_size(capacities@.len() as int, capacities@) <= usize::MAX,
        ensures
            table.wf(),
            table.keys() == accounts@.map_values(|key: [u8; 32]| key@),
            table.capacities() == capacities@,
    {
        let count: usize = accounts.len();
        let mut index = PubkeyIndex::new();
        let mut slot_index: usize = 0;
        let ghost keys = accounts@.map_values(|key: [u8; 32]| key@);
        while slot_index < count
            invariant
                slot_index <= count,
                count == accounts@.len(),
                keys == accounts@.map_values(|key: [u8; 32]| key@),
                index.wf(),
                index@ == keys.take(slot_index as int),
            decreases count - slot_index,
        {
            index.insert(accounts[slot_index]);
            slot_index = slot_index + 1;
            assert(index@ =~= keys.take(slot_index as int));
        }
        assert(keys.take(count as int) =~= keys);
        let copied: Vec<u32> = capacities.clone();
        assert(copied@ =~= capacities@);
        SlotTable {
            layout: ShmLayout::new(count as u32, capacities.as_slice()),
            index,
            capacities: copied,
        }
    }

    /// Reads the table of a region.
    pub fn open(mem: &[u8]) -> (result: Result<Self, ShmError>)
        requires
            128 <= mem@.len(),
            addressable(mem@),
        ensures
            match result {
                Ok(table) => {
                    &&& valid_region(mem@)
                    &&& table.wf()
                    &&& table.keys() == region::table_keys(mem@, region::num_slots(mem@) as nat)
                    &&& table.capacities() == region::table_capacities(
                        mem@,
                        region::num_slots(mem@) as nat,
                    )
                },
                Err(error) => !valid_region(mem@) && is_open_error(mem@, error),
            },
    {
        match region::validate_header(mem) {
            Ok(_) => {},
            Err(error) => {
                return Err(error);
            },
        }
        let header = ShmHeader::decode(mem);
        let num_slots: usize = header.num_slots as usize;
        let capacities: Vec<u32> = match region::read_capacities(mem, num_slots) {
            Ok(capacities) => capacities,
            Err(error) => {
                return Err(error);
            },
        };
        let layout = ShmLayout::new(header.num_slots, capacities.as_slice());
        match region::validate_offsets(mem, &layout, capacities.as_slice()) {
            Ok(_) => {},
            Err(error) => {
                return Err(error);
            },
        }
        match region::build_index_from_entries(mem, num_slots) {
            Ok(index) => Ok(SlotTable { layout, index, capacities }),
            Err(error) => Err(error),
        }
    }

    /// Reads the accounts anew, from the region as it is now.
    pub fn build_index(&mut self, mem: &[u8]) -> (result: Result<(), ShmError>)
        requires
            old(self).wf(),
            128 <= mem@.len(),
        ensures
            final(self).wf(),
            final(self).capacities() == old(self).capacities(),
            match result {
                Ok(_) => {
                    &&& region::table_fits(mem@, region::num_slots(mem@) as int)
                    &&& final(self).keys() == region::table_keys(
                        mem@,
                        region::num_slots(mem@) as nat,
                    )
                },
                Err(error) => {
                    &&& !region::table_fits(mem@, region::num_slots(mem@) as int)
                    &&& region::is_cut_off(error)
                    &&& *final(self) == *old(self)
                },
            },
    {
        let header = ShmHeader::decode(mem);
        match region::build_index_from_entries(mem, header.num_slots as usize) {
            Ok(index) => {
                self.index = index;
                Ok(())
            },
            Err(error) => Err(error),
        }
    }

    /// The slot of an account.
    pub fn lookup(&self, pubkey: &[u8; 32]) -> (slot: Option<usize>)
        requires
            self.wf(),
        ensures
            slot == self.slot_of(pubkey@),
    {
        self.index.get(pubkey)
    }

    /// How many slots there are.
    pub fn num_slots(&self) -> (n: usize)
        ensures
            n == self.capacities().len(),
    {
        self.capacities.len()
    }

    /// The capacity of a slot.
    pub fn capacity(&self, slot_index: usize) -> (capacity: u32)
        requires
            slot_index < self.capacities().len(),
        ensures
            capacity == self.capacities()[slot_index as int],
    {
        self.capacities[slot_index]
    }

    /// Size of the region.
    pub fn total_size(&self) -> (size: usize)
        requires
            self.wf(),
        ensures
            size == self.size(),
    {
        self.layout.total_size
    }

    /// Offset of the header of a slot.
    pub fn slot_header_offset(&self, slot_index: usize) -> (offset: usize)
        requires
            self.wf(),
            slot_index < self.capacities().len(),
        ensures
            offset == self.offset_of(slot_index as int),
    {
        proof {
            layout::lemma_slots_room_prefix(self.capacities(), slot_index as int);
        }
        self.layout.slot_header_offset(slot_index, self.capacities.as_slice())
    }

    /// Offset of the data of a slot.
    pub fn slot_data_offset(&self, slot_index: usize) -> (offset: usize)
        requires
            self.wf(),
            slot_index < self.capacities().len(),
        ensures
            offset == self.offset_of(slot_index as int) + 64,
    {
        proof {
            layout::lemma_slots_room_prefix(self.capacities(), slot_index as int);
            layout::lemma_slots_room_prefix(self.capacities(), slot_index + 1);
        }
        self.layout.slot_data_offset(slot_index, self.capacities.as_slice())
    }
}

} // verus!
