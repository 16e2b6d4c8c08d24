//! The writer of a region.
use crate::error::{IoErrorKind, ShmError};
use crate::layout;
use crate::layout::{
    AccountSlotHeader, OffsetTableEntry, ShmConfig, ShmHeader, GLOBAL_SLOT_OFFSET,
    HEARTBEAT_OFFSET, OFFSET_ENTRY_SIZE, READY_OFFSET, SHM_FORMAT_VERSION, SHM_HEADER_SIZE,
    SHM_MAGIC, WRITER_PID_OFFSET,
};
use crate::memory;
use crate::memory::{Store, Value};
use crate::records;
use crate::region;
use crate::seqlock;
use crate::snapshot::AccountModel;
use crate::table;
use crate::table::SlotTable;
use vstd::prelude::*;

verus! {

/// The stores of a heartbeat.
pub open spec fn heartbeat_plan(now: u64, pid: u32) -> Seq<memory::StoreModel> {
    seq![memory::store_u64(32, now, true), memory::store_u32(40, pid, true)]
}

/// The stores of a new global slot number.
pub open spec fn global_slot_plan(slot: u64, now: u64, pid: u32) -> Seq<memory::StoreModel> {
    seq![memory::store_u64(24, slot, true)] + heartbeat_plan(now, pid)
}

/// The stores with which a writer takes over a region.
pub open spec fn attach_plan(now: u64, pid: u32) -> Seq<memory::StoreModel> {
    heartbeat_plan(now, pid) + seq![memory::store_u32(40, pid, true)]
}

/// The bytes of the header of a new region.
pub open spec fn fresh_header_bytes(num_slots: u32) -> Seq<u8> {
    records::shm_header_bytes(
        SHM_MAGIC,
        SHM_FORMAT_VERSION,
        num_slots,
        0,
        0,
        0,
        0,
        0,
        memory::zeros(83),
    )
}

/// The store of the table entry of slot `i`.
pub open spec fn entry_store(
    keys: Seq<Seq<u8>>,
    capacities: Seq<u32>,
    i: int,
) -> memory::StoreModel {
    memory::store_bytes(
        layout::entry_offset(i),
        records::offset_entry_bytes(
            keys[i],
            (layout::slot_offset(capacities, i) + 64) as u64,
            capacities[i],
            0,
        ),
    )
}

/// The stores of the first `n` table entries.
pub open spec fn entries_plan(keys: Seq<Seq<u8>>, capacities: Seq<u32>, n: nat) -> Seq<
    memory::StoreModel,
> {
    Seq::new(n, |i: int| entry_store(keys, capacities, i))
}

/// The stores that create a region: all zeros, then the header, then the
/// table, then the writer takes over.
pub open spec fn create_plan(
    keys: Seq<Seq<u8>>,
    capacities: Seq<u32>,
    now: u64,
    pid: u32,
) -> Seq<memory::StoreModel> {
    seq![
        memory::store_bytes(
            0,
            memory::zeros(layout::region_size(capacities.len() as int, capacities) as nat),
        ),
        memory::store_bytes(0, fresh_header_bytes(capacities.len() as u32)),
    ] + entries_plan(keys, capacities, capacities.len()) + attach_plan(now, pid)
}

/// The stores that replace the account in the slot at `base`: the version
/// turns odd, the account is copied in and the rest of the slot zeroed, the
/// region header is updated, and the version turns even.
pub open spec fn write_plan(
    base: int,
    capacity: u32,
    version: u64,
    account: AccountModel,
    now: u64,
    pid: u32,
) -> Seq<memory::StoreModel> {
    seq![
        memory::store_u64(base, seqlock::next_version(version), true),
        memory::store_u64(base + 8, account.solana_slot, false),
        memory::store_bytes(base + 16, account.owner),
        memory::store_u64(base + 48, account.lamports, false),
        memory::store_u32(base + 56, account.data.len() as u32, false),
        memory::store_u8(base + 60, if account.executable { 1 } else { 0 }, false),
        memory::store_bytes(base + 64, account.data),
        memory::store_bytes(
            base + 64 + account.data.len(),
            memory::zeros((capacity - account.data.len()) as nat),
        ),
    ] + global_slot_plan(account.solana_slot, now, pid) + seq![
        memory::store_u64(
            base,
            seqlock::next_version(seqlock::next_version(version)),
            true,
        ),
    ]
}

/// The length that an error reports: the largest one that fits where the true
/// one does not.
pub open spec fn saturated_len(len: nat) -> u32 {
    if len > u32::MAX {
        u32::MAX
    } else {
        len as u32
    }
}

/// The length to report in an error.
pub fn reported_len(len: usize) -> (reported: u32)
    ensures
        reported == saturated_len(len as nat),
{
    if len > u32::MAX as usize {
        u32::MAX
    } else {
        len as u32
    }
}

/// The length that an error reports is the true one where that fits, and it
/// exceeds every capacity that the true one exceeds, but for the largest
/// capacity, which no reported length can exceed.
pub proof fn lemma_reported_len_exceeds_capacity(len: nat, capacity: u32)
    ensures
        len <= u32::MAX ==> saturated_len(len) == len,
        len > capacity && capacity < u32::MAX ==> saturated_len(len) > capacity,
        len > capacity ==> saturated_len(len) >= capacity,
{
}

/// Makes a store.
fn store(offset: usize, value: Value, publish: bool) -> (store: Store)
    ensures
        store@ == (memory::StoreModel { offset: offset as int, bytes: value.bytes(), publish }),
        store.value == value,
        store.publish == publish,
{
    Store { offset, value, publish }
}

/// Checks that every account has a capacity.
pub fn validate_config(config: &ShmConfig) -> (result: Result<(), ShmError>)
    ensures
        match result {
            Ok(_) => config.accounts@.len() == config.capacities@.len(),
            Err(error) => config.accounts@.len() != config.capacities@.len() && error.is_io(
                IoErrorKind::InvalidInput,
                "accounts and capacities length mismatch"@,
            ),
        },
{
    if config.accounts.len() != config.capacities.len() {
        return Err(
            ShmError::io(IoErrorKind::InvalidInput, "accounts and capacities length mismatch"),
        );
    }
    Ok(())
}

/// The store of the header of a new region.
fn write_shm_header(num_slots: u32) -> (header: Store)
    ensures
        header@ == memory::store_bytes(0, fresh_header_bytes(num_slots)),
        header.publishes_word(),
{
    let header = ShmHeader {
        magic: SHM_MAGIC,
        format_version: SHM_FORMAT_VERSION,
        num_slots,
        _pad0: 0,
        global_solana_slot: 0,
        writer_heartbeat: 0,
        writer_pid: 0,
        ready: 0,
        _reserved: [0u8; 83],
    };
    assert(header._reserved@ =~= memory::zeros(83));
    store(0, Value::Bytes(header.to_bytes()), false)
}

/// The store of a table entry.
fn write_offset_entry(slot_index: usize, entry: &OffsetTableEntry) -> (written: Store)
    requires
        layout::entry_offset(slot_index + 1) <= usize::MAX,
    ensures
        written@ == memory::store_bytes(layout::entry_offset(slot_index as int), entry.bytes()),
        written.publishes_word(),
{
    let offset: usize = SHM_HEADER_SIZE + slot_index * OFFSET_ENTRY_SIZE;
    store(offset, Value::Bytes(entry.to_bytes()), false)
}

/// The writer of a region.
///
/// It knows the slots of the region and computes the stores that change it.
/// Whoever maps the region performs them, in order.
pub struct ShmWriter {
    table: SlotTable,
}

impl ShmWriter {
    /// The slots of the region.
    pub closed spec fn table(&self) -> SlotTable {
        self.table
    }

    /// Every slot has an account and a capacity.
    pub open spec fn wf(&self) -> bool {
        &&& self.table().wf()
        &&& self.table().keys().len() == self.table().capacities().len()
    }

    /// Creates a region for the accounts of `config`: the writer, and the
    /// stores that turn a file of the right size into the region.
    pub fn create(config: &ShmConfig, now: u64, pid: u32) -> (result: Result<
        (Self, Vec<Store>),
        ShmError,
    >)
        requires
            config.accounts@.len() == config.capacities@.len() ==> config.accounts@.len()
                <= u32::MAX && layout::region_size(
                config.capacities@.len() as int,
                config.capacities@,
            ) <= usize::MAX,
        ensures
            match result {
                Ok((writer, stores)) => {
                    let keys = config.accounts@.map_values(|key: [u8; 32]| key@);
                    &&& config.accounts@.len() == config.capacities@.len()
                    &&& writer.wf()
                    &&& writer.table().keys() == keys
                    &&& writer.table().capacities() == config.capacities@
                    &&& memory::plan_of(stores@) == create_plan(
                        keys,
                        config.capacities@,
                        now,
                        pid,
                    )
                    &&& memory::publish_words(stores@)
                },
                Err(error) => config.accounts@.len() != config.capacities@.len() && error.is_io(
                    IoErrorKind::InvalidInput,
                    "accounts and capacities length mismatch"@,
                ),
            },
    {
        match validate_config(config) {
            Ok(_) => {},
            Err(error) => {
                return Err(error);
            },
        }
        let ghost keys = config.accounts@.map_values(|key: [u8; 32]| key@);
        let ghost caps = config.capacities@;
        let table = SlotTable::new(&config.accounts, &config.capacities);
        let count: usize = config.accounts.len();
        let mut stores: Vec<Store> = Vec::new();
        stores.push(store(0, Value::Zeros(table.total_size()), false));
        stores.push(write_shm_header(count as u32));
        let ghost head = memory::plan_of(stores@);
        let mut slot_index: usize = 0;
        assert(head + entries_plan(keys, caps, 0) =~= head);
        while slot_index < count
            invariant
                slot_index <= count,
                count == config.accounts@.len(),
                count == config.capacities@.len(),
                caps == config.capacities@,
                keys == config.accounts@.map_values(|key: [u8; 32]| key@),
                table.wf(),
                table.capacities() == caps,
                memory::plan_of(stores@) == head + entries_plan(keys, caps, slot_index as nat),
                memory::publish_words(stores@),
            decreases count - slot_index,
        {
            let entry = OffsetTableEntry {
                pubkey: config.accounts[slot_index],
                data_offset: table.slot_data_offset(slot_index) as u64,
                data_capacity: config.capacities[slot_index],
                _pad: 0,
            };
            proof {
                table.lemma_wf();
                layout::lemma_table_precedes_slots(caps);
            }
            let ghost before = stores@;
            stores.push(write_offset_entry(slot_index, &entry));
            slot_index = slot_index + 1;
            proof {
                assert(stores@.last()@ == entry_store(keys, caps, slot_index - 1));
                assert(memory::plan_of(stores@) =~= memory::plan_of(before).push(stores@.last()@));
                assert(memory::plan_of(stores@) =~= head + entries_plan(
                    keys,
                    caps,
                    slot_index as nat,
                ));
            }
        }
        let writer = ShmWriter { table };
        let mut attach = writer.attach(now, pid);
        let ghost before = stores@;
        let ghost tail = attach@;
        stores.append(&mut attach);
        assert(memory::plan_of(stores@) =~= memory::plan_of(before) + memory::plan_of(tail));
        assert(memory::plan_of(stores@) =~= create_plan(keys, caps, now, pid));
        Ok((writer, stores))
    }

    /// Opens a region that exists: the writer, and the stores with which it
    /// takes over.
    pub fn open(mem: &[u8], now: u64, pid: u32) -> (result: Result<(Self, Vec<Store>), ShmError>)
        requires
            128 <= mem@.len(),
            table::addressable(mem@),
        ensures
            match result {
                Ok((writer, stores)) => {
                    let n = region::num_slots(mem@) as nat;
                    &&& table::valid_region(mem@)
                    &&& writer.wf()
                    &&& writer.table().keys() == region::table_keys(mem@, n)
                    &&& writer.table().capacities() == region::table_capacities(mem@, n)
                    &&& memory::plan_of(stores@) == attach_plan(now, pid)
                    &&& memory::publish_words(stores@)
                },
                Err(error) => !table::valid_region(mem@) && table::is_open_error(mem@, error),
            },
    {
        match SlotTable::open(mem) {
            Ok(table) => {
                let writer = ShmWriter { table };
                let stores = writer.attach(now, pid);
                Ok((writer, stores))
            },
            Err(error) => Err(error),
        }
    }

    /// The stores with which the writer takes over the region.
    fn attach(&self, now: u64, pid: u32) -> (stores: Vec<Store>)
        ensures
            memory::plan_of(stores@) == attach_plan(now, pid),
            memory::publish_words(stores@),
    {
        let mut stores: Vec<Store> = self.update_heartbeat(now, pid);
        let ghost before = stores@;
        stores.push(store(WRITER_PID_OFFSET, Value::U32(pid), true));
        assert(memory::plan_of(stores@) =~= memory::plan_of(before).push(stores@.last()@));
        assert(memory::plan_of(stores@) =~= attach_plan(now, pid));
        stores
    }

    /// Replaces an account: the stores that do it, given the current version
    /// of its slot.
    pub fn write_account(
        &self,
        pubkey: &[u8; 32],
        owner: &[u8; 32],
        lamports: u64,
        executable: bool,
        _rent_epoch: u64,
        data: &[u8],
        slot: u64,
        version: u64,
        now: u64,
        pid: u32,
    ) -> (result: Result<Vec<Store>, ShmError>)
        requires
            self.wf(),
        ensures
            match self.table().slot_of(pubkey@) {
                None => result == Err::<Vec<Store>, ShmError>(ShmError::PubkeyNotFound),
                Some(i) => {
                    let capacity = self.table().capacities()[i as int];
                    if data@.len() > capacity {
                        result == Err::<Vec<Store>, ShmError>(
                            ShmError::SlotOverflow {
                                actual: saturated_len(data@.len()),
                                capacity,
                            },
                        )
                    } else {
                        result matches Ok(stores) && memory::plan_of(stores@) == write_plan(
                            self.table().offset_of(i as int),
                            capacity,
                            version,
                            AccountModel {
                                owner: owner@,
                                lamports,
                                data: data@,
                                executable,
                                solana_slot: slot,
                            },
                            now,
                            pid,
                        ) && memory::publish_words(stores@)
                    }
                },
            },
    {
        let slot_index: usize = match self.lookup(pubkey) {
            Some(slot_index) => slot_index,
            None => {
                return Err(ShmError::PubkeyNotFound);
            },
        };
        let capacity: u32 = self.table.capacity(slot_index);
        if data.len() > capacity as usize {
            return Err(ShmError::SlotOverflow { actual: reported_len(data.len()), capacity });
        }
        let base: usize = self.table.slot_header_offset(slot_index);
        let data_offset: usize = self.table.slot_data_offset(slot_index);
        proof {
            let caps = self.table().capacities();
            self.table.lemma_wf();
            layout::lemma_slot_in_region(caps, slot_index as int);
        }
        let mut header = AccountSlotHeader {
            seqlock_ver: version,
            solana_slot: slot,
            owner: *owner,
            lamports,
            data_len: data.len() as u32,
            executable: if executable {
                1
            } else {
                0
            },
            _pad: [0u8; 3],
        };
        let mut stores: Vec<Store> = Vec::new();
        seqlock::seqlock_write_begin(&mut header);
        stores.push(store(base, Value::U64(header.seqlock_ver), true));
        stores.push(store(base + 8, Value::U64(header.solana_slot), false));
        stores.push(store(base + 16, Value::Key(header.owner), false));
        stores.push(store(base + 48, Value::U64(header.lamports), false));
        stores.push(store(base + 56, Value::U32(header.data_len), false));
        stores.push(store(base + 60, Value::U8(header.executable), false));
        stores.push(store(data_offset, Value::Bytes(vstd::slice::slice_to_vec(data)), false));
        stores.push(
            store(
                data_offset + data.len(),
                Value::Zeros(capacity as usize - data.len()),
                false,
            ),
        );
        let ghost front = stores@;
        let mut published = self.update_global_slot(slot, now, pid);
        let ghost middle = published@;
        stores.append(&mut published);
        seqlock::seqlock_write_end(&mut header);
        stores.push(store(base, Value::U64(header.seqlock_ver), true));
        proof {
            let account = AccountModel {
                owner: owner@,
                lamports,
                data: data@,
                executable,
                solana_slot: slot,
            };
            assert(memory::plan_of(stores@) =~= memory::plan_of(front) + memory::plan_of(middle)
                + seq![stores@.last()@]);
            assert(memory::plan_of(stores@) =~= write_plan(
                base as int,
                capacity,
                version,
                account,
                now,
                pid,
            ));
        }
        Ok(stores)
    }

    /// The stores that renew the heartbeat.
    pub fn update_heartbeat(&self, now: u64, pid: u32) -> (stores: Vec<Store>)
        ensures
            memory::plan_of(stores@) == heartbeat_plan(now, pid),
            memory::publish_words(stores@),
    {
        let mut stores: Vec<Store> = Vec::new();
        stores.push(store(HEARTBEAT_OFFSET, Value::U64(now), true));
        stores.push(store(WRITER_PID_OFFSET, Value::U32(pid), true));
        assert(memory::plan_of(stores@) =~= heartbeat_plan(now, pid));
        stores
    }

    /// The stores that give a new global slot number.
    pub fn update_global_slot(&self, slot: u64, now: u64, pid: u32) -> (stores: Vec<Store>)
        ensures
            memory::plan_of(stores@) == global_slot_plan(slot, now, pid),
            memory::publish_words(stores@),
    {
        let mut stores: Vec<Store> = Vec::new();
        stores.push(store(GLOBAL_SLOT_OFFSET, Value::U64(slot), true));
        let mut heartbeat = self.update_heartbeat(now, pid);
        let ghost tail = heartbeat@;
        let ghost front = stores@;
        stores.append(&mut heartbeat);
        assert(memory::plan_of(stores@) =~= memory::plan_of(front) + memory::plan_of(tail));
        assert(memory::plan_of(stores@) =~= global_slot_plan(slot, now, pid));
        stores
    }

    /// The store that declares the region ready.
    pub fn set_ready(&self) -> (ready: Store)
        ensures
            ready@ == memory::store_u8(44, 1, true),
            ready.publishes_word(),
    {
        store(READY_OFFSET, Value::U8(1), true)
    }

    /// The slot of an account.
    pub fn lookup(&self, pubkey: &[u8; 32]) -> (slot: Option<usize>)
        requires
            self.wf(),
        ensures
            slot == self.table().slot_of(pubkey@),
            slot matches Some(i) ==> i < self.table().capacities().len(),
    {
        proof {
            self.table.lemma_wf();
            crate::index::lemma_last_position(self.table.keys(), pubkey@);
        }
        self.table.lookup(pubkey)
    }

    /// Offset of the version word of a slot.
    pub fn version_offset(&self, slot_index: usize) -> (offset: usize)
        requires
            self.wf(),
            slot_index < self.table().capacities().len(),
        ensures
            offset == self.table().offset_of(slot_index as int),
    {
        self.table.slot_header_offset(slot_index)
    }

    /// Size of the region.
    pub fn region_size(&self) -> (size: usize)
        requires
            self.wf(),
        ensures
            size == self.table().size(),
    {
        self.table.total_size()
    }
}

} // verus!
