//! What is read back of what was written.
use crate::consistency;
use crate::error::ShmError;
use crate::layout;
use crate::layout::{AccountSlotHeader, ShmConfig};
use crate::laws::lookup;
use crate::laws::opening;
use crate::laws::opening::ReaderAnswers;
use crate::laws::places;
use crate::laws::protocol;
use crate::laws::words;
use crate::laws::writing;
use crate::laws::writing::{WriteCall, WriterAnswers};
use crate::memory::Store;
use crate::reader::{AccountRead, Observed, ReadStage, ShmReader};
use crate::snapshot::ShmAccountSnapshot;
use crate::writer::ShmWriter;
use vstd::prelude::*;

verus! {

/// The snapshot shows what stands in the slot at `base`.
pub open spec fn shows(mem: Seq<u8>, base: int, snapshot: ShmAccountSnapshot) -> bool {
    &&& snapshot.solana_slot == words::word64(mem, base + 8)
    &&& forall|k: int| 0 <= k < 32 ==> mem[base + 16 + k] == #[trigger] snapshot.owner@[k]
    &&& snapshot.lamports == words::word64(mem, base + 48)
    &&& snapshot.data@.len() == words::word32(mem, base + 56)
    &&& forall|k: int|
        0 <= k < snapshot.data@.len() ==> mem[base + 64 + k] == #[trigger] snapshot.data@[k]
    &&& snapshot.executable <==> mem[base + 60] != 0
}

/// The four sights of an attempt at a slot that stays as it is in `mem`: the
/// version, the header, the data, and the version again.
pub open spec fn sees_slot(mem: Seq<u8>, base: int, sights: Seq<Observed>, from: int) -> bool {
    let version = sights[from];
    let header = sights[from + 1];
    let data = sights[from + 2];
    let reloaded = sights[from + 3];
    &&& version is Version && version->Version_0 == words::word64(mem, base)
    &&& header is Header && words::slot_header_stands(mem, base, header->Header_0)
    &&& data is Data && data->Data_0@.len() == words::word32(mem, base + 56)
    &&& forall|k: int|
        0 <= k < data->Data_0@.len() ==> mem[base + 64 + k] == #[trigger] data->Data_0@[k]
    &&& reloaded is Version && reloaded->Version_0 == words::word64(mem, base)
}

/// From any start of an attempt, a slot that nobody changes meanwhile is read
/// in four steps, if its version is even and its data is no longer than its
/// capacity: the read is done and shows what stands in the slot.
pub proof fn law_undisturbed_attempt(
    mem: Seq<u8>,
    reads: Seq<AccountRead>,
    sights: Seq<Observed>,
    from: int,
)
    requires
        protocol::follows(reads, sights),
        0 <= from,
        from + 4 <= sights.len(),
        reads[from].stage is LoadVersion,
        sees_slot(mem, reads[from].header_offset as int, sights, from),
        words::word64(mem, reads[from].header_offset as int) % 2 == 0,
        words::word32(mem, reads[from].header_offset + 56) <= reads[from].capacity,
    ensures
        reads[from + 4].stage is Done,
        shows(
            mem,
            reads[from].header_offset as int,
            reads[from + 4].stage->Done_snapshot,
        ),
{
    let base = reads[from].header_offset as int;
    assert(call_ensures(AccountRead::step, (reads[from], sights[from]), reads[from + 1]));
    assert(call_ensures(
        AccountRead::step,
        (reads[from + 1], sights[from + 1]),
        reads[from + 1 + 1],
    ));
    assert(call_ensures(
        AccountRead::step,
        (reads[from + 2], sights[from + 2]),
        reads[from + 2 + 1],
    ));
    assert(call_ensures(
        AccountRead::step,
        (reads[from + 3], sights[from + 3]),
        reads[from + 3 + 1],
    ));
    let header = sights[from + 1]->Header_0;
    let data = sights[from + 2]->Data_0;
    let version = sights[from]->Version_0;
    assert(reads[from + 1].stage == (ReadStage::LoadHeader { start_version: version }));
    assert(reads[from + 2].stage == (ReadStage::CopyData { start_version: version, header }));
    protocol::law_step_data(reads[from + 2], version, header, data, reads[from + 3]);
}

/// An attempt that is disturbed is given up, and the next one that is not
/// disturbed succeeds: whatever version the reader meets at the end of the
/// first attempt, odd or even, it goes on to the second and shows what then
/// stands in the slot.
pub proof fn law_disturbed_attempt_is_repeated(
    mem: Seq<u8>,
    reads: Seq<AccountRead>,
    sights: Seq<Observed>,
    version: u64,
    header: AccountSlotHeader,
    data: Vec<u8>,
    moved: u64,
)
    requires
        protocol::follows(reads, sights),
        sights.len() == 8,
        reads[0].stage is LoadVersion,
        sights[0] == Observed::Version(version),
        version % 2 == 0,
        sights[1] == Observed::Header(header),
        header.data_len <= reads[0].capacity,
        sights[2] == Observed::Data(data),
        sights[3] == Observed::Version(moved),
        moved != version,
        sees_slot(mem, reads[0].header_offset as int, sights, 4),
        words::word64(mem, reads[0].header_offset as int) % 2 == 0,
        words::word32(mem, reads[0].header_offset + 56) <= reads[0].capacity,
    ensures
        reads[4].stage == (ReadStage::LoadVersion { spins: 0 }),
        reads[8].stage is Done,
        shows(mem, reads[0].header_offset as int, reads[8].stage->Done_snapshot),
{
    assert(call_ensures(AccountRead::step, (reads[0], sights[0]), reads[0int + 1]));
    assert(call_ensures(AccountRead::step, (reads[1], sights[1]), reads[1int + 1]));
    assert(call_ensures(AccountRead::step, (reads[2], sights[2]), reads[2int + 1]));
    assert(call_ensures(AccountRead::step, (reads[3], sights[3]), reads[3int + 1]));
    assert(reads[1].stage == (ReadStage::LoadHeader { start_version: version }));
    assert(reads[2].stage == (ReadStage::CopyData { start_version: version, header }));
    law_undisturbed_attempt(mem, reads, sights, 4);
}

/// The snapshot is the account that was written.
pub open spec fn is_account(call: WriteCall, snapshot: ShmAccountSnapshot) -> bool {
    &&& snapshot.owner@ == call.owner@
    &&& snapshot.lamports == call.lamports
    &&& snapshot.data@ == call.data@
    &&& snapshot.executable == call.executable
    &&& snapshot.solana_slot == call.slot
}

/// What shows an account that stands in a slot is that account.
pub proof fn law_shown_account(
    call: WriteCall,
    mem: Seq<u8>,
    base: int,
    capacity: int,
    snapshot: ShmAccountSnapshot,
)
    requires
        call.stands(mem, base, capacity),
        shows(mem, base, snapshot),
    ensures
        is_account(call, snapshot),
{
    assert(snapshot.owner@ =~= call.owner@) by {
        assert forall|k: int| 0 <= k < 32 implies snapshot.owner@[k] == call.owner@[k] by {
            assert(mem[base + 16 + k] == call.owner@[k]);
        }
    }
    assert(snapshot.data@ =~= call.data@) by {
        assert forall|k: int| 0 <= k < call.data@.len() implies snapshot.data@[k]
            == call.data@[k] by {
            assert(mem[base + 64 + k] == snapshot.data@[k]);
        }
    }
}

/// A read that a write disturbs ends with the account of that write: the first
/// attempt begins under the old version and ends under whatever version the
/// write had reached, and the second sees the slot after the write.
pub proof fn law_read_disturbed_by_write(
    call: WriteCall,
    stores: Seq<Store>,
    states: Seq<Seq<u8>>,
    reads: Seq<AccountRead>,
    sights: Seq<Observed>,
    header: AccountSlotHeader,
    data: Vec<u8>,
    reached: int,
)
    requires
        call.writes(
            stores,
            states,
            reads[0].header_offset as int,
            reads[0].capacity as int,
        ),
        call.version % 2 == 0,
        call.data@.len() <= reads[0].capacity,
        0 < reached < states.len(),
        protocol::follows(reads, sights),
        sights.len() == 8,
        reads[0].stage is LoadVersion,
        sights[0] == Observed::Version(call.version),
        sights[1] == Observed::Header(header),
        header.data_len <= reads[0].capacity,
        sights[2] == Observed::Data(data),
        sights[3] is Version,
        sights[3]->Version_0 == words::word64(states[reached], reads[0].header_offset as int),
        sees_slot(states.last(), reads[0].header_offset as int, sights, 4),
    ensures
        reads[4].stage == (ReadStage::LoadVersion { spins: 0 }),
        reads[8].stage is Done,
        is_account(call, reads[8].stage->Done_snapshot),
{
    let base = reads[0].header_offset as int;
    assert(call.version + 1 <= u64::MAX);
    law_disturbed_attempt_is_repeated(
        states.last(),
        reads,
        sights,
        call.version,
        header,
        data,
        sights[3]->Version_0,
    );
    law_shown_account(
        call,
        states.last(),
        base,
        reads[0].capacity as int,
        reads[8].stage->Done_snapshot,
    );
}

/// What a reader loads that loads each byte at a moment of its own.
pub open spec fn mixed(states: Seq<Seq<u8>>, moments: spec_fn(int) -> int) -> Seq<u8> {
    Seq::new(states[0].len(), |k: int| states[moments(k)][k])
}

/// No read is torn by a write: if an attempt succeeds whose loads fall anywhere
/// among the stores of a write, each byte at a moment of its own, then it
/// shows the slot as it was before the write, or as it was after it.
pub proof fn law_no_torn_read(
    call: WriteCall,
    stores: Seq<Store>,
    states: Seq<Seq<u8>>,
    reads: Seq<AccountRead>,
    sights: Seq<Observed>,
    t0: int,
    t1: int,
    moments: spec_fn(int) -> int,
)
    requires
        call.writes(
            stores,
            states,
            reads[0].header_offset as int,
            reads[0].capacity as int,
        ),
        call.version % 2 == 0,
        call.version == words::word64(states[0], reads[0].header_offset as int),
        forall|t: int| 0 <= t < states.len() ==> (#[trigger] states[t]).len() == states[0].len(),
        reads[0].header_offset + 64 + reads[0].capacity <= states[0].len(),
        protocol::follows(reads, sights),
        sights.len() == 4,
        reads[0].stage is LoadVersion,
        0 <= t0 <= t1 < states.len(),
        forall|k: int|
            reads[0].header_offset <= k < reads[0].header_offset + 64 + reads[0].capacity ==> t0
                <= #[trigger] moments(k) <= t1,
        sights[0] is Version,
        sights[0]->Version_0 == words::word64(states[t0], reads[0].header_offset as int),
        sights[1] is Header,
        words::slot_header_stands(
            mixed(states, moments),
            reads[0].header_offset as int,
            sights[1]->Header_0,
        ),
        sights[2] is Data,
        sights[2]->Data_0@.len() == sights[1]->Header_0.data_len,
        forall|k: int|
            0 <= k < sights[2]->Data_0@.len() ==> mixed(
                states,
                moments,
            )[reads[0].header_offset + 64 + k] == #[trigger] sights[2]->Data_0@[k],
        sights[3] is Version,
        sights[3]->Version_0 == words::word64(states[t1], reads[0].header_offset as int),
        reads[4].stage is Done,
    ensures
        t0 == t1,
        t0 == 0 || t0 == states.len() - 1,
        shows(states[t0], reads[0].header_offset as int, reads[4].stage->Done_snapshot),
        t0 > 0 ==> is_account(call, reads[4].stage->Done_snapshot),
{
    let base = reads[0].header_offset as int;
    let last = states.len() - 1;
    let seen = mixed(states, moments);
    let limit = base + 64 + reads[0].capacity;
    assert(call_ensures(AccountRead::step, (reads[0], sights[0]), reads[0int + 1]));
    assert(call_ensures(AccountRead::step, (reads[1], sights[1]), reads[1int + 1]));
    assert(call_ensures(AccountRead::step, (reads[2], sights[2]), reads[2int + 1]));
    assert(call_ensures(AccountRead::step, (reads[3], sights[3]), reads[3int + 1]));
    protocol::law_done_means_validated(reads[3], sights[3], reads[4]);
    let header = sights[1]->Header_0;
    let data = sights[2]->Data_0;
    let version = sights[0]->Version_0;
    assert(version % 2 == 0);
    assert(reads[1].stage == (ReadStage::LoadHeader { start_version: version }));
    assert(reads[2].stage == (ReadStage::CopyData { start_version: version, header }));
    assert(header.data_len <= reads[0].capacity);
    assert(data@.len() == header.data_len);
    if 0 < t0 < last {
        assert(words::word64(states[t0], base) == call.version + 1);
    }
    if t0 == 0 && t1 > 0 {
        if t1 < last {
            assert(words::word64(states[t1], base) == call.version + 1);
        }
    }
    assert(t0 == t1);
    let mem = states[t0];
    assert forall|k: int| base <= k < limit implies #[trigger] seen[k] == mem[k] by {
        assert(moments(k) == t0);
    }
    words::lemma_same_words(seen, mem, base);
    words::lemma_same_words(seen, mem, base + 8);
    words::lemma_same_words(seen, mem, base + 48);
    words::lemma_same_words(seen, mem, base + 56);
    assert forall|k: int| 0 <= k < 32 implies mem[base + 16 + k] == #[trigger] header.owner@[k] by {
        assert(seen[base + 16 + k] == header.owner@[k]);
    }
    assert forall|k: int| 0 <= k < 3 implies mem[base + 61 + k] == #[trigger] header._pad@[k] by {
        assert(seen[base + 61 + k] == header._pad@[k]);
    }
    assert(seen[base + 60] == mem[base + 60]);
    assert forall|k: int| 0 <= k < data@.len() implies mem[base + 64 + k] == #[trigger] data@[k] by {
        assert(seen[base + 64 + k] == data@[k]);
    }
    assert(sees_slot(mem, base, sights, 0));
    law_undisturbed_attempt(mem, reads, sights, 0);
    if t0 > 0 {
        law_shown_account(
            call,
            mem,
            base,
            reads[0].capacity as int,
            reads[4].stage->Done_snapshot,
        );
    }
}

/// Calls of [`AccountRead::step`] make an attempt, and so what holds of attempts
/// holds of them.
pub proof fn law_calls_make_attempts(attempt: consistency::Attempt)
    requires
        attempt.start.stage is LoadVersion,
        call_ensures(
            AccountRead::step,
            (attempt.start, Observed::Version(attempt.version)),
            attempt.at_header,
        ),
        call_ensures(
            AccountRead::step,
            (attempt.at_header, Observed::Header(attempt.header)),
            attempt.at_data,
        ),
        call_ensures(
            AccountRead::step,
            (attempt.at_data, Observed::Data(attempt.data)),
            attempt.at_reload,
        ),
        call_ensures(
            AccountRead::step,
            (attempt.at_reload, Observed::Version(attempt.reloaded)),
            attempt.end,
        ),
    ensures
        attempt.follows_steps(),
{
}

/// A write to one account leaves the slots of all others alone, at every moment.
pub proof fn law_write_keeps_other_slots(
    keys: Seq<Seq<u8>>,
    capacities: Seq<u32>,
    starts: Seq<int>,
    call: WriteCall,
    stores: Vec<Store>,
    states: Seq<Seq<u8>>,
    i: usize,
    j: int,
    t: int,
    at: int,
)
    requires
        places::placed(capacities.len() as int, capacities, starts),
        writing::is_right_write(keys, capacities, starts, call, Ok(stores), states, Some(i)),
        states[0].len() >= starts[capacities.len() as int],
        0 <= j < capacities.len(),
        j != i,
        0 <= t < states.len(),
        starts[j] <= at < starts[j] + 64 + capacities[j],
    ensures
        states[t][at] == states[0][at],
{
    if i < j {
        places::law_slots_apart(capacities, starts, i as int, j);
    } else {
        places::law_slots_apart(capacities, starts, j, i as int);
    }
}

/// The region was created and then underwent one write.
pub struct History<'a> {
    pub config: ShmConfig,
    pub now: u64,
    pub pid: u32,
    pub writer: ShmWriter,
    pub created: Vec<Store>,
    pub birth: Seq<Seq<u8>>,
    pub call: WriteCall<'a>,
    pub stores: Vec<Store>,
    pub states: Seq<Seq<u8>>,
}

impl<'a> History<'a> {
    /// The stores are what the writer returned, and the states what they led
    /// through; the write was called with the version that stood in the slot.
    pub open spec fn happened(self, starts: Seq<int>, i: int) -> bool {
        let n = self.config.capacities@.len() as int;
        &&& call_ensures(
            ShmWriter::create,
            (&self.config, self.now, self.pid),
            Ok((self.writer, self.created)),
        )
        &&& self.config.accounts@.len() <= u32::MAX
        &&& places::placed(n, self.config.capacities@, starts)
        &&& starts[n] <= usize::MAX
        &&& words::passes_through(self.created@, self.birth)
        &&& self.birth[0].len() >= starts[n]
        &&& self.call.returned(self.writer, Ok(self.stores))
        &&& words::passes_through(self.stores@, self.states)
        &&& self.states[0] == self.birth.last()
        &&& 0 <= i < n
        &&& self.call.key@ == self.config.accounts@[i]@
        &&& forall|j: int|
            i < j < n ==> (#[trigger] self.config.accounts@[j])@ != self.call.key@
        &&& self.call.version == words::word64(self.states[0], starts[i])
    }
}

/// The creation made a new region, and the write was one to slot `i`.
proof fn lemma_happened(history: History, starts: Seq<int>, i: int, answers: WriterAnswers)
    requires
        history.happened(starts, i),
        answers.come_from(history.writer),
    ensures
        writing::is_new_region(
            history.states[0],
            places::keys_of(history.config.accounts@),
            history.config.capacities@,
            starts,
            history.now,
            history.pid,
        ),
        writing::is_right_write(
            places::keys_of(history.config.accounts@),
            history.config.capacities@,
            starts,
            history.call,
            Ok(history.stores),
            history.states,
            Some(i as usize),
        ),
        history.states[0].len() >= starts[history.config.capacities@.len() as int],
        history.config.accounts@.len() == history.config.capacities@.len(),
{
    let config = history.config;
    let keys = places::keys_of(config.accounts@);
    writing::law_create(
        config,
        history.now,
        history.pid,
        Ok((history.writer, history.created)),
        starts,
        history.birth,
        answers,
    );
    let slot = writing::law_write_after_create(
        config,
        history.now,
        history.pid,
        history.writer,
        history.created,
        starts,
        history.call,
        Ok(history.stores),
        history.states,
    );
    lemma_slot_is(keys, config.accounts@, history.call.key@, slot, i);
}

/// An account is found at the position behind which it does not occur again.
proof fn lemma_slot_is(
    keys: Seq<Seq<u8>>,
    accounts: Seq<[u8; 32]>,
    key: Seq<u8>,
    slot: Option<usize>,
    i: int,
)
    requires
        keys == places::keys_of(accounts),
        lookup::found_last(keys, key, slot),
        0 <= i < accounts.len() <= u32::MAX,
        accounts[i]@ == key,
        forall|j: int| i < j < accounts.len() ==> (#[trigger] accounts[j])@ != key,
    ensures
        slot == Some(i as usize),
{
    assert(keys[i] == key);
    if slot is Some && slot->0 > i {
        assert(accounts[slot->0 as int]@ == keys[slot->0 as int]);
    }
}

/// A region that agrees with a new one on its table, and on its header but for
/// the words that change, has a right header and a right table.
proof fn lemma_table_kept(
    created: Seq<u8>,
    after: Seq<u8>,
    keys: Seq<Seq<u8>>,
    capacities: Seq<u32>,
    starts: Seq<int>,
    now: u64,
    pid: u32,
)
    requires
        writing::is_new_region(created, keys, capacities, starts, now, pid),
        keys.len() == capacities.len(),
        after.len() == created.len(),
        128 + 48 * capacities.len() <= created.len(),
        forall|k: int|
            0 <= k < 24 || 44 <= k < 128 + 48 * capacities.len() ==> #[trigger] after[k]
                == created[k],
    ensures
        opening::header_is_right(after),
        opening::count_in(after) == capacities.len(),
        opening::capacities_in(after, capacities.len() as int) == capacities,
        opening::keys_in(after, capacities.len() as int) == keys,
        opening::table_is_right(after, capacities.len() as int, starts),
{
    let n = capacities.len() as int;
    words::lemma_same_words(after, created, 0);
    words::lemma_same_words(after, created, 8);
    words::lemma_same_words(after, created, 16);
    assert forall|j: int| 0 <= j < n implies {
        &&& #[trigger] opening::capacity_in(after, j) == capacities[j]
        &&& opening::keys_in(after, n)[j] == keys[j]
        &&& words::word64(after, 128 + 48 * j + 32) == starts[j] + 64
    } by {
        assert(keys[j] == created.subrange(128 + 48 * j, 128 + 48 * j + 32));
        assert(after.subrange(128 + 48 * j, 128 + 48 * j + 32) =~= created.subrange(
            128 + 48 * j,
            128 + 48 * j + 32,
        ));
        words::lemma_same_words(after, created, 128 + 48 * j + 32);
        words::lemma_same_words(after, created, 128 + 48 * j + 40);
    }
    assert forall|j: int| 0 <= j < n implies opening::capacities_in(after, n)[j]
        == capacities[j] by {
        assert(opening::capacity_in(after, j) == capacities[j]);
    }
    assert(opening::capacities_in(after, n) =~= capacities);
    assert forall|j: int| 0 <= j < n implies opening::keys_in(after, n)[j] == keys[j] by {
        assert(opening::capacity_in(after, j) == capacities[j]);
    }
    assert(opening::keys_in(after, n) =~= keys);
    assert forall|j: int| 0 <= j < n implies words::word64(after, 128 + 48 * j + 32)
        == #[trigger] starts[j] + 64 by {
        assert(opening::capacity_in(after, j) == capacities[j]);
    }
}

/// What a region holds that was created and then underwent one write: header
/// and table are those of its creation, but for slot number, heartbeat and
/// process id; the slot of the account holds what was written, under version
/// two, and every other slot is zero.
proof fn lemma_history(history: History, starts: Seq<int>, i: int, answers: WriterAnswers)
    requires
        history.happened(starts, i),
        answers.come_from(history.writer),
    ensures
        ({
            let after = history.states.last();
            let caps = history.config.capacities@;
            let n = caps.len() as int;
            &&& after.len() >= starts[n]
            &&& history.config.accounts@.len() == n
            &&& opening::header_is_right(after)
            &&& opening::count_in(after) == n
            &&& opening::capacities_in(after, n) == caps
            &&& opening::keys_in(after, n) == places::keys_of(history.config.accounts@)
            &&& opening::table_is_right(after, n, starts)
            &&& history.call.stands(after, starts[i], caps[i] as int)
            &&& words::word64(after, starts[i]) == 2
            &&& history.call.data@.len() <= caps[i]
        }),
{
    let caps = history.config.capacities@;
    let n = caps.len() as int;
    let keys = places::keys_of(history.config.accounts@);
    let created = history.states[0];
    let after = history.states.last();
    let last = history.states.len() - 1;
    lemma_happened(history, starts, i, answers);
    lemma_bounds(caps, starts, i);
    assert forall|k: int| 0 <= k < 24 || 44 <= k < 128 + 48 * n implies #[trigger] after[k]
        == created[k] by {
        assert(history.states[last][k] == created[k]);
    }
    lemma_table_kept(created, after, keys, caps, starts, history.now, history.pid);
    words::lemma_same_words(created, created, starts[i]);
}

/// Slot `i` lies behind the table and within the region.
proof fn lemma_bounds(capacities: Seq<u32>, starts: Seq<int>, i: int)
    requires
        places::placed(capacities.len() as int, capacities, starts),
        0 <= i < capacities.len(),
    ensures
        128 + 48 * capacities.len() <= starts[i],
        starts[i] + 64 + capacities[i] <= starts[capacities.len() as int],
{
    places::lemma_placed(capacities, starts);
    layout::lemma_table_precedes_slots(capacities);
    layout::lemma_slot_in_region(capacities, i);
    assert(starts[i] == layout::slot_offset(capacities, i));
}

/// A slot that was not written is zero.
proof fn lemma_other_slot(
    history: History,
    starts: Seq<int>,
    i: int,
    answers: WriterAnswers,
    j: int,
)
    requires
        history.happened(starts, i),
        answers.come_from(history.writer),
        0 <= j < history.config.capacities@.len(),
        j != i,
    ensures
        forall|at: int|
            starts[j] <= at < starts[j] + 64 + history.config.capacities@[j]
                ==> #[trigger] history.states.last()[at] == 0,
{
    let caps = history.config.capacities@;
    let after = history.states.last();
    lemma_happened(history, starts, i, answers);
    lemma_bounds(caps, starts, j);
    assert forall|at: int| starts[j] <= at < starts[j] + 64 + caps[j] implies #[trigger] after[at]
        == 0 by {
        law_write_keeps_other_slots(
            places::keys_of(history.config.accounts@),
            caps,
            starts,
            history.call,
            history.stores,
            history.states,
            i as usize,
            j,
            history.states.len() - 1,
            at,
        );
        assert(history.states[0][at] == 0);
    }
}

/// What was written is what is read, and nothing else changes: a reader opens a
/// region that was created and then underwent one write, and reads each account
/// at its own place. An undisturbed attempt at the account that was written
/// gives what was written; one at any other account gives an empty account.
pub proof fn law_create_write_read(
    history: History,
    starts: Seq<int>,
    i: int,
    known: WriterAnswers,
    mem: &[u8],
    opened: Result<ShmReader, ShmError>,
    answers: ReaderAnswers,
    j: int,
    reads: Seq<AccountRead>,
    sights: Seq<Observed>,
)
    requires
        history.happened(starts, i),
        known.come_from(history.writer),
        mem@ == history.states.last(),
        call_ensures(ShmReader::open, (mem,), opened),
        opened matches Ok(reader) ==> answers.come_from(reader),
        0 <= j < history.config.capacities@.len(),
        answers.key@ == history.config.accounts@[j]@,
        forall|l: int|
            j < l < history.config.capacities@.len() ==> (#[trigger] history.config.accounts@[l])@
                != answers.key@,
        protocol::follows(reads, sights),
        sights.len() == 4,
        answers.read matches Ok(read) ==> reads[0] == read && sees_slot(
            mem@,
            read.header_offset as int,
            sights,
            0,
        ),
    ensures
        opened is Ok,
        answers.can_read,
        answers.read is Ok,
        answers.read->Ok_0.header_offset == starts[j],
        answers.read->Ok_0.data_offset == starts[j] + 64,
        reads[4].stage is Done,
        j == i ==> is_account(history.call, reads[4].stage->Done_snapshot),
        j != i ==> {
            let snapshot = reads[4].stage->Done_snapshot;
            &&& forall|k: int| 0 <= k < 32 ==> #[trigger] snapshot.owner@[k] == 0
            &&& snapshot.lamports == 0
            &&& snapshot.data@.len() == 0
            &&& !snapshot.executable
            &&& snapshot.solana_slot == 0
        },
{
    let caps = history.config.capacities@;
    let keys = places::keys_of(history.config.accounts@);
    lemma_history(history, starts, i, known);
    lemma_bounds(caps, starts, j);
    let slot = opening::law_open_reader(mem, starts, opened, answers);
    lemma_slot_is(keys, history.config.accounts@, answers.key@, slot, j);
    if j != i {
        lemma_other_slot(history, starts, i, known, j);
        words::lemma_same_words(mem@, mem@, starts[j]);
        words::lemma_same_words(mem@, mem@, starts[j] + 8);
        words::lemma_same_words(mem@, mem@, starts[j] + 48);
        words::lemma_same_words(mem@, mem@, starts[j] + 56);
    }
    law_undisturbed_attempt(mem@, reads, sights, 0);
    let snapshot = reads[4].stage->Done_snapshot;
    if j == i {
        law_shown_account(history.call, mem@, starts[i], caps[i] as int, snapshot);
    } else {
        assert forall|k: int| 0 <= k < 32 implies #[trigger] snapshot.owner@[k] == 0 by {
            assert(mem@[starts[j] + 16 + k] == 0);
        }
    }
}

} // verus!
