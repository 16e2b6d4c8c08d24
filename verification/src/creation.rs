//! What a new region looks like.
use crate::bytes;
use crate::consistency;
use crate::layout;
use crate::layout::{OffsetTableEntry, SHM_FORMAT_VERSION, SHM_MAGIC};
use crate::memory;
use crate::operations;
use crate::records;
use crate::region;
use crate::snapshot;
use crate::table;
use crate::writer;
use vstd::prelude::*;

verus! {

/// The stores that create a region, by position.
pub proof fn lemma_create_plan_shape(
    keys: Seq<Seq<u8>>,
    capacities: Seq<u32>,
    now: u64,
    pid: u32,
    size: int,
)
    requires
        keys.len() == capacities.len(),
        forall|i: int| 0 <= i < keys.len() ==> (#[trigger] keys[i]).len() == 32,
        size == layout::region_size(capacities.len() as int, capacities),
    ensures
        ({
            let plan = writer::create_plan(keys, capacities, now, pid);
            let n = capacities.len();
            &&& plan.len() == n + 5
            &&& plan[0] == memory::store_bytes(0, memory::zeros(size as nat))
            &&& plan[1] == memory::store_bytes(0, writer::fresh_header_bytes(n as u32))
            &&& plan[1].bytes.len() == 128
            &&& forall|i: int|
                0 <= i < n ==> #[trigger] plan[i + 2] == writer::entry_store(keys, capacities, i)
                    && plan[i + 2].bytes.len() == 48
            &&& plan[n as int + 2] == memory::store_u64(32, now, true)
            &&& plan[n as int + 3] == memory::store_u32(40, pid, true)
            &&& plan[n as int + 4] == memory::store_u32(40, pid, true)
            &&& plan[n as int + 2].bytes.len() == 8
            &&& plan[n as int + 3].bytes.len() == 4
        }),
{
    let plan = writer::create_plan(keys, capacities, now, pid);
    let n = capacities.len();
    records::lemma_word_lengths();
    layout::lemma_table_precedes_slots(capacities);
    assert forall|i: int| 0 <= i < n implies #[trigger] plan[i + 2] == writer::entry_store(
        keys,
        capacities,
        i,
    ) && plan[i + 2].bytes.len() == 48 by {
        assert(keys[i].len() == 32);
    }
}

/// Every store that creates a region lies within the region, and those that
/// publish are aligned words.
pub proof fn lemma_create_stores_in_place(
    keys: Seq<Seq<u8>>,
    capacities: Seq<u32>,
    now: u64,
    pid: u32,
    k: int,
)
    requires
        keys.len() == capacities.len(),
        forall|i: int| 0 <= i < keys.len() ==> (#[trigger] keys[i]).len() == 32,
        0 <= k < writer::create_plan(keys, capacities, now, pid).len(),
    ensures
        writer::create_plan(keys, capacities, now, pid)[k].within(
            layout::region_size(capacities.len() as int, capacities),
        ),
        writer::create_plan(keys, capacities, now, pid)[k].word_aligned(),
{
    let plan = writer::create_plan(keys, capacities, now, pid);
    let n = capacities.len();
    let size = layout::region_size(n as int, capacities);
    layout::lemma_table_precedes_slots(capacities);
    lemma_create_plan_shape(keys, capacities, now, pid, size);
    if 2 <= k < n + 2 {
        assert(plan[k - 2 + 2] == writer::entry_store(keys, capacities, k - 2));
    }
}

/// What the stores of [`writer::create_plan`] make of any memory that is large
/// enough: a region that can be opened, with the given accounts and capacities,
/// whose slots are all zero and quiet, which is not ready, and which has the
/// writer's heartbeat. What lies behind the region stays.
pub proof fn lemma_create_then_open(
    mem: Seq<u8>,
    keys: Seq<Seq<u8>>,
    capacities: Seq<u32>,
    now: u64,
    pid: u32,
)
    requires
        keys.len() == capacities.len(),
        capacities.len() <= u32::MAX,
        forall|i: int| 0 <= i < keys.len() ==> (#[trigger] keys[i]).len() == 32,
        mem.len() >= layout::region_size(capacities.len() as int, capacities),
        layout::region_size(capacities.len() as int, capacities) <= usize::MAX,
    ensures
        ({
            let after = memory::applied(mem, writer::create_plan(keys, capacities, now, pid));
            let n = capacities.len();
            let size = layout::region_size(n as int, capacities);
            &&& after.len() == mem.len()
            &&& table::valid_region(after)
            &&& table::addressable(after)
            &&& region::num_slots(after) == n
            &&& region::table_keys(after, n) == keys
            &&& region::table_capacities(after, n) == capacities
            &&& memory::u64_at(after, 24) == 0
            &&& memory::u64_at(after, 32) == now
            &&& memory::u32_at(after, 40) == pid
            &&& after[44] == 0
            &&& memory::u32_at(after, 20) == 0
            &&& after.subrange(45, 128) == memory::zeros(83)
            &&& forall|i: int|
                0 <= i < n ==> #[trigger] memory::u32_at(after, layout::entry_offset(i) + 44) == 0
            &&& forall|i: int|
                0 <= i < n ==> #[trigger] region::entry_data_offset(after, i)
                    == layout::slot_offset(capacities, i) + 64
            &&& operations::quiet(after, capacities)
            &&& forall|k: int|
                layout::entry_offset(n as int) <= k < size ==> #[trigger] after[k] == 0
            &&& after.skip(size) == mem.skip(size)
        }),
{
    let plan = writer::create_plan(keys, capacities, now, pid);
    let after = memory::applied(mem, plan);
    let n = capacities.len();
    let size = layout::region_size(n as int, capacities);
    let table_end = layout::entry_offset(n as int);
    layout::lemma_table_precedes_slots(capacities);
    lemma_create_plan_shape(keys, capacities, now, pid, size);
    memory::lemma_applied_len(mem, plan);
    // Behind the first two stores only the table and three words change.
    let first = plan.take(2);
    let second = plan.skip(2);
    let mid = memory::applied(mem, first);
    assert(first + second =~= plan);
    memory::lemma_applied_concat(mem, first, second);
    memory::lemma_applied_len(mem, first);
    memory::lemma_applied_next(mem, plan, 0);
    memory::lemma_applied_next(mem, plan, 1);
    assert(plan.take(0) =~= Seq::<memory::StoreModel>::empty());
    let header_bytes = writer::fresh_header_bytes(n as u32);
    assert(mid.subrange(0, 128) =~= header_bytes);
    assert(mid.subrange(table_end, size) =~= memory::zeros((size - table_end) as nat));
    records::lemma_shm_header_round_trip(
        mid,
        SHM_MAGIC,
        SHM_FORMAT_VERSION,
        n as u32,
        0,
        0,
        0,
        0,
        0,
        memory::zeros(83),
    );
    assert forall|k: int| 0 <= k < second.len() implies (#[trigger] second[k]).avoids(0, 32)
        && second[k].avoids(44, 128) && second[k].avoids(table_end, mem.len() as int) by {
        assert(second[k] == plan[k + 2]);
        if k < n {
            assert(plan[k + 2] == writer::entry_store(keys, capacities, k));
        }
    }
    memory::lemma_applied_avoids(mid, second, 0, 32);
    memory::lemma_applied_avoids(mid, second, 44, 128);
    memory::lemma_applied_avoids(mid, second, table_end, mem.len() as int);
    consistency::lemma_same_part(after, mid, table_end, mem.len() as int, table_end, size);
    consistency::lemma_same_part(
        after,
        mid,
        table_end,
        mem.len() as int,
        size,
        mem.len() as int,
    );
    assert(mid.skip(size) =~= mem.skip(size));
    assert(after.skip(size) =~= after.subrange(size, mem.len() as int));
    assert(mid.skip(size) =~= mid.subrange(size, mem.len() as int));
    consistency::lemma_same_part(after, mid, 0, 32, 0, 8);
    consistency::lemma_same_part(after, mid, 0, 32, 8, 16);
    consistency::lemma_same_part(after, mid, 0, 32, 16, 20);
    consistency::lemma_same_part(after, mid, 0, 32, 20, 24);
    consistency::lemma_same_part(after, mid, 0, 32, 24, 32);
    consistency::lemma_same_part(after, mid, 44, 128, 45, 128);
    assert(after[44] == after.subrange(44, 128)[0]);
    assert(mid[44] == mid.subrange(44, 128)[0]);
    // The words of the heartbeat.
    memory::lemma_store_survives(mem, plan, n as int + 2);
    memory::lemma_store_survives(mem, plan, n as int + 4);
    memory::lemma_word_reads_back(after, 32, now, 0);
    memory::lemma_word_reads_back(after, 40, 0, pid);
    // The table.
    assert forall|i: int| 0 <= i < n implies region::entry_key(after, i) == keys[i]
        && region::entry_capacity(after, i) == capacities[i]
        && #[trigger] region::entry_data_offset(after, i) == layout::slot_offset(capacities, i)
        + 64 && memory::u32_at(after, layout::entry_offset(i) + 44) == 0 by {
        let at = layout::entry_offset(i);
        assert(plan[i + 2] == writer::entry_store(keys, capacities, i));
        assert forall|j: int| i + 2 < j < plan.len() implies (#[trigger] plan[j]).avoids(
            at,
            at + 48,
        ) by {
            if j < n + 2 {
                assert(plan[j - 2 + 2] == writer::entry_store(keys, capacities, j - 2));
            }
        }
        memory::lemma_store_survives(mem, plan, i + 2);
        layout::lemma_slot_in_region(capacities, i);
        records::lemma_offset_entry_round_trip(
            after,
            at,
            keys[i],
            (layout::slot_offset(capacities, i) + 64) as u64,
            capacities[i],
            0,
        );
    }
    assert forall|i: int| 0 <= i < n implies region::entry_key(after, i) == keys[i]
        && region::entry_capacity(after, i) == capacities[i] by {
        assert(region::entry_data_offset(after, i) == layout::slot_offset(capacities, i) + 64);
    }
    assert forall|i: int| 0 <= i < n implies #[trigger] memory::u32_at(
        after,
        layout::entry_offset(i) + 44,
    ) == 0 by {
        assert(region::entry_data_offset(after, i) == layout::slot_offset(capacities, i) + 64);
    }
    assert(region::table_keys(after, n) =~= keys);
    assert(region::table_capacities(after, n) =~= capacities);
    assert forall|i: int| 0 <= i < n implies #[trigger] region::offset_agrees(
        after,
        layout::data_start(n as int),
        capacities,
        i,
    ) by {
        assert(region::entry_data_offset(after, i) == layout::slot_offset(capacities, i) + 64);
    }
    // The slots.
    assert forall|k: int| table_end <= k < size implies #[trigger] after[k] == 0 by {
        assert(after[k] == after.subrange(table_end, size)[k - table_end]);
    }
    assert forall|i: int| 0 <= i < n implies #[trigger] snapshot::version_at(
        after,
        layout::slot_offset(capacities, i),
    ) % 2 == 0 by {
        layout::lemma_slot_in_region(capacities, i);
        let base = layout::slot_offset(capacities, i);
        assert(after.subrange(base, base + 8) =~= memory::zeros(8));
        lemma_zeros_value(8);
    }
}

/// A header that was stored is read back: after the store of
/// [`writer::write_shm_header`] the region has a valid header with the given
/// number of slots and zeros for the rest, and everything behind it is as it
/// was.
pub proof fn lemma_header_store_reads_back(mem: Seq<u8>, num_slots: u32)
    requires
        128 <= mem.len(),
    ensures
        ({
            let after = memory::store_bytes(0, writer::fresh_header_bytes(num_slots)).applied(mem);
            &&& after.len() == mem.len()
            &&& region::header_error(after) is None
            &&& memory::u64_at(after, 0) == SHM_MAGIC
            &&& memory::u64_at(after, 8) == SHM_FORMAT_VERSION
            &&& region::num_slots(after) == num_slots
            &&& memory::u64_at(after, 24) == 0
            &&& memory::u64_at(after, 32) == 0
            &&& memory::u32_at(after, 40) == 0
            &&& after[44] == 0
            &&& after.subrange(20, 128) == memory::zeros(108)
            &&& after.skip(128) == mem.skip(128)
        }),
{
    let header = writer::fresh_header_bytes(num_slots);
    let after = memory::store_bytes(0, header).applied(mem);
    records::lemma_word_lengths();
    assert(after.subrange(0, 128) =~= header);
    records::lemma_shm_header_round_trip(
        after,
        SHM_MAGIC,
        SHM_FORMAT_VERSION,
        num_slots,
        0,
        0,
        0,
        0,
        0,
        memory::zeros(83),
    );
    lemma_zero_word(8);
    lemma_zero_word(4);
    assert(header.skip(20) =~= memory::zeros(108));
    assert forall|k: int| 20 <= k < 128 implies after[k] == 0 by {
        assert(after[k] == after.subrange(0, 128)[k]);
        assert(header[k] == header.skip(20)[k - 20]);
    }
    assert(after.subrange(20, 128) =~= memory::zeros(108));
    assert(after.skip(128) =~= mem.skip(128));
}

/// A table entry that was stored is read back: after the store of
/// [`writer::write_offset_entry`] the entry of the slot is the one given, and
/// the header, every other entry and everything behind the entry are as they
/// were.
pub proof fn lemma_entry_store_reads_back(mem: Seq<u8>, slot_index: int, entry: OffsetTableEntry)
    requires
        0 <= slot_index,
        layout::entry_offset(slot_index + 1) <= mem.len(),
    ensures
        ({
            let at = layout::entry_offset(slot_index);
            let after = memory::store_bytes(at, entry.bytes()).applied(mem);
            &&& after.len() == mem.len()
            &&& region::table_fits(after, slot_index + 1)
            &&& entry.is_at(after, at)
            &&& after.take(at) == mem.take(at)
            &&& after.skip(at + 48) == mem.skip(at + 48)
            &&& forall|j: int, other: OffsetTableEntry|
                0 <= j && j != slot_index && layout::entry_offset(j + 1) <= mem.len() ==> (
                #[trigger] other.is_at(after, layout::entry_offset(j))) == other.is_at(
                    mem,
                    layout::entry_offset(j),
                )
        }),
{
    let at = layout::entry_offset(slot_index);
    let after = memory::store_bytes(at, entry.bytes()).applied(mem);
    records::lemma_word_lengths();
    assert(after.subrange(at, at + 48) =~= entry.bytes());
    records::lemma_offset_entry_round_trip(
        after,
        at,
        entry.pubkey@,
        entry.data_offset,
        entry.data_capacity,
        entry._pad,
    );
    assert(after.take(at) =~= mem.take(at));
    assert(after.skip(at + 48) =~= mem.skip(at + 48));
    assert forall|j: int, other: OffsetTableEntry|
        0 <= j && j != slot_index && layout::entry_offset(j + 1) <= mem.len() implies (
    #[trigger] other.is_at(after, layout::entry_offset(j))) == other.is_at(
        mem,
        layout::entry_offset(j),
    ) by {
        let o = layout::entry_offset(j);
        assert(after.subrange(o, o + 32) =~= mem.subrange(o, o + 32));
        assert(after.subrange(o + 32, o + 40) =~= mem.subrange(o + 32, o + 40));
        assert(after.subrange(o + 40, o + 44) =~= mem.subrange(o + 40, o + 44));
        assert(after.subrange(o + 44, o + 48) =~= mem.subrange(o + 44, o + 48));
    }
}

/// The word zero is made of zeros.
proof fn lemma_zero_word(n: nat)
    ensures
        bytes::le_bytes(0, n) == memory::zeros(n),
    decreases n,
{
    if n > 0 {
        lemma_zero_word((n - 1) as nat);
    }
    assert(bytes::le_bytes(0, n) =~= memory::zeros(n));
}

/// Zeros stand for the integer zero.
pub proof fn lemma_zeros_value(n: nat)
    ensures
        bytes::le_value(memory::zeros(n)) == 0,
    decreases n,
{
    if n > 0 {
        lemma_zeros_value((n - 1) as nat);
        assert(memory::zeros(n).drop_first() =~= memory::zeros((n - 1) as nat));
    }
}

} // verus!
