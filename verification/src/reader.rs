//! Readers of a region.
//!
//! A reader loads words and bytes of the region while the writer may be
//! changing them. What it does next depends on what it loaded: the functions
//! here take the decisions, and whoever maps the region performs the loads.
use crate::error::ShmError;
use crate::layout::{AccountSlotHeader, GLOBAL_SLOT_OFFSET};
use crate::region;
use crate::seqlock;
use crate::seqlock::{ReadBegin, WriterHealth};
use crate::snapshot::{AccountModel, ShmAccountSnapshot};
use crate::table;
use crate::table::SlotTable;
use vstd::prelude::*;

verus! {

/// What a reader does next to obtain a snapshot.
pub enum ReadStage {
    /// Load the version word of the slot, with `spins` odd versions seen.
    LoadVersion { spins: u32 },
    /// Load the writer's heartbeat and process id, and read the clock.
    CheckWriter,
    /// Ask the system whether process `target` exists.
    ProbeWriter { pid: u32, target: i32 },
    /// Load the header of the slot.
    LoadHeader { start_version: u64 },
    /// Copy as many bytes of the slot's data as the header says.
    CopyData { start_version: u64, header: AccountSlotHeader },
    /// Load the version word of the slot again.
    ReloadVersion { start_version: u64, snapshot: ShmAccountSnapshot },
    /// Nothing: the snapshot is consistent.
    Done { snapshot: ShmAccountSnapshot },
    /// Nothing: there is no snapshot.
    Failed { error: ShmError },
}

/// What a reader saw.
pub enum Observed {
    /// The version word of the slot.
    Version(u64),
    /// The writer's heartbeat and process id, and the time.
    Writer { heartbeat: u64, now: u64, pid: u32 },
    /// Whether the writer's process exists.
    Probe { exists: bool },
    /// The header of the slot.
    Header(AccountSlotHeader),
    /// The data of the slot.
    Data(Vec<u8>),
}

/// The account that a slot header and the data behind it make up.
pub open spec fn account_of(header: AccountSlotHeader, data: Seq<u8>) -> AccountModel {
    AccountModel {
        owner: header.owner@,
        lamports: header.lamports,
        data,
        executable: header.executable != 0,
        solana_slot: header.solana_slot,
    }
}

/// A read of one account that is under way.
pub struct AccountRead {
    /// Offset of the header of the slot.
    pub header_offset: usize,
    /// Offset of the data of the slot.
    pub data_offset: usize,
    /// Capacity of the slot.
    pub capacity: u32,
    /// What to do next.
    pub stage: ReadStage,
}

impl AccountRead {
    /// What was seen is what the stage asks for.
    pub open spec fn expects(self, seen: Observed) -> bool {
        match (self.stage, seen) {
            (ReadStage::LoadVersion { .. }, Observed::Version(_)) => true,
            (ReadStage::CheckWriter, Observed::Writer { .. }) => true,
            (ReadStage::ProbeWriter { .. }, Observed::Probe { .. }) => true,
            (ReadStage::LoadHeader { .. }, Observed::Header(_)) => true,
            (ReadStage::CopyData { header, .. }, Observed::Data(data)) => data@.len()
                == header.data_len,
            (ReadStage::ReloadVersion { .. }, Observed::Version(_)) => true,
            _ => false,
        }
    }

    /// Where the read stands after `seen`.
    pub open spec fn leads_to(self, seen: Observed, next: ReadStage) -> bool {
        match (self.stage, seen) {
            (ReadStage::LoadVersion { spins }, Observed::Version(version)) => {
                match seqlock::read_begin(version, spins) {
                    ReadBegin::Stable(start_version) => next == (ReadStage::LoadHeader {
                        start_version,
                    }),
                    ReadBegin::Spin(spins) => next == (ReadStage::LoadVersion { spins }),
                    ReadBegin::CheckWriter => next == ReadStage::CheckWriter,
                }
            },
            (ReadStage::CheckWriter, Observed::Writer { heartbeat, now, pid }) => {
                match seqlock::writer_health(heartbeat, now, pid) {
                    WriterHealth::Alive => next == (ReadStage::LoadVersion { spins: 0 }),
                    WriterHealth::Probe { pid, target } => next == (ReadStage::ProbeWriter {
                        pid,
                        target,
                    }),
                    WriterHealth::Dead(pid) => next == (ReadStage::Failed {
                        error: ShmError::WriterDead(pid),
                    }),
                    WriterHealth::Stale => next == (ReadStage::Failed {
                        error: ShmError::WriterStale,
                    }),
                }
            },
            (ReadStage::ProbeWriter { pid, .. }, Observed::Probe { exists }) => {
                if exists {
                    next == (ReadStage::Failed { error: ShmError::WriterStale })
                } else {
                    next == (ReadStage::Failed { error: ShmError::WriterDead(pid) })
                }
            },
            (ReadStage::LoadHeader { start_version }, Observed::Header(header)) => {
                if header.data_len > self.capacity {
                    next == (ReadStage::Failed {
                        error: ShmError::SlotOverflow {
                            actual: header.data_len,
                            capacity: self.capacity,
                        },
                    })
                } else {
                    next == (ReadStage::CopyData { start_version, header })
                }
            },
            (ReadStage::CopyData { start_version, header }, Observed::Data(data)) => {
                next matches ReadStage::ReloadVersion { start_version: v, snapshot } && v
                    == start_version && snapshot@ == account_of(header, data@)
            },
            (ReadStage::ReloadVersion { start_version, snapshot }, Observed::Version(version)) => {
                if version == start_version {
                    next == (ReadStage::Done { snapshot })
                } else {
                    next == (ReadStage::LoadVersion { spins: 0 })
                }
            },
            _ => false,
        }
    }

    /// Goes on with what was seen.
    pub fn step(self, seen: Observed) -> (next: Self)
        requires
            self.expects(seen),
        ensures
            next.header_offset == self.header_offset,
            next.data_offset == self.data_offset,
            next.capacity == self.capacity,
            self.leads_to(seen, next.stage),
    {
        let AccountRead { header_offset, data_offset, capacity, stage } = self;
        let next: ReadStage = match (stage, seen) {
            (ReadStage::LoadVersion { spins }, Observed::Version(version)) => {
                match seqlock::seqlock_read_begin(version, spins) {
                    ReadBegin::Stable(start_version) => ReadStage::LoadHeader { start_version },
                    ReadBegin::Spin(spins) => ReadStage::LoadVersion { spins },
                    ReadBegin::CheckWriter => ReadStage::CheckWriter,
                }
            },
            (ReadStage::CheckWriter, Observed::Writer { heartbeat, now, pid }) => {
                match seqlock::check_writer_health(heartbeat, now, pid) {
                    WriterHealth::Alive => ReadStage::LoadVersion { spins: 0 },
                    WriterHealth::Probe { pid, target } => ReadStage::ProbeWriter { pid, target },
                    WriterHealth::Dead(pid) => ReadStage::Failed {
                        error: ShmError::WriterDead(pid),
                    },
                    WriterHealth::Stale => ReadStage::Failed { error: ShmError::WriterStale },
                }
            },
            (ReadStage::ProbeWriter { pid, .. }, Observed::Probe { exists }) => {
                ReadStage::Failed { error: seqlock::judge_probe(pid, exists) }
            },
            (ReadStage::LoadHeader { start_version }, Observed::Header(header)) => {
                if header.data_len > capacity {
                    ReadStage::Failed {
                        error: ShmError::SlotOverflow { actual: header.data_len, capacity },
                    }
                } else {
                    ReadStage::CopyData { start_version, header }
                }
            },
            (ReadStage::CopyData { start_version, header }, Observed::Data(data)) => {
                let snapshot = ShmAccountSnapshot {
                    owner: header.owner,
                    lamports: header.lamports,
                    data,
                    executable: header.executable != 0,
                    solana_slot: header.solana_slot,
                };
                ReadStage::ReloadVersion { start_version, snapshot }
            },
            (ReadStage::ReloadVersion { start_version, snapshot }, Observed::Version(version)) => {
                if seqlock::seqlock_read_validate(version, start_version) {
                    ReadStage::Done { snapshot }
                } else {
                    ReadStage::LoadVersion { spins: 0 }
                }
            },
            (stage, _) => stage,
        };
        AccountRead { header_offset, data_offset, capacity, stage: next }
    }
}

/// What a reader does next while it waits for the region to become ready.
#[derive(Debug)]
pub enum WaitStep {
    /// Nothing: the region is ready.
    Ready,
    /// Sleep for so many milliseconds and look again.
    Sleep(u64),
    /// Nothing: time is up.
    TimedOut(ShmError),
}

/// How many milliseconds a reader sleeps between two looks at the ready flag.
pub const READY_POLL_MS: u64 = 1;

/// What a reader does that waits for the region to be ready, by the ready flag
/// and by whether it still has time.
pub open spec fn ready_step(before_deadline: bool, ready: u8) -> WaitStep {
    if !before_deadline {
        WaitStep::TimedOut(ShmError::NotReady)
    } else if ready == 1 {
        WaitStep::Ready
    } else {
        WaitStep::Sleep(READY_POLL_MS)
    }
}

/// A reader of a region.
pub struct ShmReader {
    table: SlotTable,
}

impl ShmReader {
    /// The slots of the region.
    pub closed spec fn table(&self) -> SlotTable {
        self.table
    }

    /// The slots are in order.
    pub open spec fn wf(&self) -> bool {
        self.table().wf()
    }

    /// The slot of account `key`, if there is one, has a capacity. (It need
    /// not after the accounts were read anew from a region with more slots.)
    pub open spec fn covers(&self, key: Seq<u8>) -> bool {
        self.table().slot_of(key) matches Some(i) ==> i < self.table().capacities().len()
    }

    /// Whether account `pubkey` can be read: see [`ShmReader::covers`].
    pub fn can_read(&self, pubkey: &[u8; 32]) -> (can: bool)
        requires
            self.wf(),
        ensures
            can == self.covers(pubkey@),
    {
        match self.table.lookup(pubkey) {
            Some(slot_index) => slot_index < self.table.num_slots(),
            None => true,
        }
    }

    /// Opens a region.
    pub fn open(mem: &[u8]) -> (result: Result<Self, ShmError>)
        requires
            128 <= mem@.len(),
            table::addressable(mem@),
        ensures
            match result {
                Ok(reader) => {
                    let n = region::num_slots(mem@) as nat;
                    &&& table::valid_region(mem@)
                    &&& reader.wf()
                    &&& reader.table().keys() == region::table_keys(mem@, n)
                    &&& reader.table().capacities() == region::table_capacities(mem@, n)
                    &&& forall|key: Seq<u8>| #[trigger] reader.covers(key)
                },
                Err(error) => !table::valid_region(mem@) && table::is_open_error(mem@, error),
            },
    {
        match SlotTable::open(mem) {
            Ok(table) => {
                let reader = ShmReader { table };
                proof {
                    table.lemma_wf();
                    assert forall|key: Seq<u8>| #[trigger] reader.covers(key) by {
                        crate::index::lemma_last_position(reader.table().keys(), key);
                    }
                }
                Ok(reader)
            },
            Err(error) => Err(error),
        }
    }

    /// Decides, with the ready flag loaded, whether to wait on. Once the
    /// deadline has passed the flag does not matter.
    pub fn wait_ready(&self, before_deadline: bool, ready: u8) -> (step: WaitStep)
        ensures
            step == ready_step(before_deadline, ready),
    {
        if !before_deadline {
            return WaitStep::TimedOut(ShmError::NotReady);
        }
        if ready == 1 {
            return WaitStep::Ready;
        }
        WaitStep::Sleep(READY_POLL_MS)
    }

    /// Starts to read an account.
    pub fn read_account(&self, pubkey: &[u8; 32]) -> (result: Result<AccountRead, ShmError>)
        requires
            self.wf(),
            self.covers(pubkey@),
        ensures
            match self.table().slot_of(pubkey@) {
                None => result == Err::<AccountRead, ShmError>(ShmError::PubkeyNotFound),
                Some(i) => result == Ok::<AccountRead, ShmError>(
                    AccountRead {
                        header_offset: self.table().offset_of(i as int) as usize,
                        data_offset: (self.table().offset_of(i as int) + 64) as usize,
                        capacity: self.table().capacities()[i as int],
                        stage: ReadStage::LoadVersion { spins: 0 },
                    },
                ) && self.table().offset_of(i as int) + 64 <= usize::MAX,
            },
    {
        match self.table.lookup(pubkey) {
            Some(slot_index) => Ok(
                AccountRead {
                    header_offset: self.table.slot_header_offset(slot_index),
                    data_offset: self.table.slot_data_offset(slot_index),
                    capacity: self.table.capacity(slot_index),
                    stage: ReadStage::LoadVersion { spins: 0 },
                },
            ),
            None => Err(ShmError::PubkeyNotFound),
        }
    }

    /// The version of an account's slot, which `load` loads from the offset of
    /// the version word.
    pub fn read_version<F: Fn(usize) -> u64>(&self, pubkey: &[u8; 32], load: F) -> (result: Result<
        u64,
        ShmError,
    >)
        requires
            self.wf(),
            self.covers(pubkey@),
            self.table().slot_of(pubkey@) matches Some(i) ==> call_requires(
                load,
                (self.table().offset_of(i as int) as usize,),
            ),
        ensures
            match self.table().slot_of(pubkey@) {
                None => result == Err::<u64, ShmError>(ShmError::PubkeyNotFound),
                Some(i) => {
                    &&& self.table().offset_of(i as int) <= usize::MAX
                    &&& result is Ok
                    &&& call_ensures(
                        load,
                        (self.table().offset_of(i as int) as usize,),
                        result->Ok_0,
                    )
                },
            },
    {
        match self.table.lookup(pubkey) {
            Some(slot_index) => Ok(load(self.table.slot_header_offset(slot_index))),
            None => Err(ShmError::PubkeyNotFound),
        }
    }

    /// The global slot number, which `load` loads from its offset.
    pub fn global_solana_slot<F: Fn(usize) -> u64>(&self, load: F) -> (slot: u64)
        requires
            call_requires(load, (24usize,)),
        ensures
            call_ensures(load, (24usize,), slot),
    {
        load(GLOBAL_SLOT_OFFSET)
    }

    /// Reads the accounts anew, from the region as it is now.
    pub fn build_index(&mut self, mem: &[u8]) -> (result: Result<(), ShmError>)
        requires
            old(self).wf(),
            128 <= mem@.len(),
        ensures
            final(self).wf(),
            final(self).table().capacities() == old(self).table().capacities(),
            match result {
                Ok(_) => {
                    &&& region::table_fits(mem@, region::num_slots(mem@) as int)
                    &&& final(self).table().keys() == region::table_keys(
                        mem@,
                        region::num_slots(mem@) as nat,
                    )
                },
                Err(error) => {
                    &&& !region::table_fits(mem@, region::num_slots(mem@) as int)
                    &&& region::is_cut_off(error)
                    &&& *final(self) == *old(self)
                },
            },
    {
        self.table.build_index(mem)
    }
}

/// A reader that waits for a writer with an old heartbeat gives up: without a
/// process id the writer is stale, with one that no process can have it is
/// dead, and else it is stale if its process exists and dead if it does not.
pub proof fn lemma_old_heartbeat_ends_read(
    check: AccountRead,
    heartbeat: u64,
    now: u64,
    pid: u32,
    next: AccountRead,
    exists: bool,
    end: ReadStage,
)
    requires
        check.stage is CheckWriter,
        now - heartbeat > seqlock::HEARTBEAT_TIMEOUT_NS,
        check.leads_to(Observed::Writer { heartbeat, now, pid }, next.stage),
        next.stage is ProbeWriter ==> next.leads_to(Observed::Probe { exists }, end),
    ensures
        pid == 0 ==> next.stage == (ReadStage::Failed { error: ShmError::WriterStale }),
        pid > i32::MAX ==> next.stage == (ReadStage::Failed { error: ShmError::WriterDead(pid) }),
        0 < pid <= i32::MAX ==> {
            &&& next.stage == (ReadStage::ProbeWriter { pid, target: pid as i32 })
            &&& end == (ReadStage::Failed {
                error: if exists {
                    ShmError::WriterStale
                } else {
                    ShmError::WriterDead(pid)
                },
            })
        },
{
}

} // verus!
