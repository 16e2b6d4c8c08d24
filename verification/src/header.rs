//! What the writer's operations do to the words of the region header, and when
//! readers find the region ready.
use crate::bytes;
use crate::creation;
use crate::layout;
use crate::memory;
use crate::operations;
use crate::reader;
use crate::reader::WaitStep;
use crate::runs;
use crate::runs::Operation;
use crate::snapshot;
use crate::writer;
use vstd::prelude::*;

verus! {

/// The global slot number that an operation gives, if it gives one.
pub open spec fn number_given(op: Operation) -> Option<u64> {
    match op {
        Operation::Write { account, .. } => Some(account.solana_slot),
        Operation::GlobalSlot { number, .. } => Some(number),
        _ => None,
    }
}

/// The heartbeat and the process id that an operation gives, if it gives them.
pub open spec fn beat_given(op: Operation) -> Option<(u64, u32)> {
    match op {
        Operation::Write { now, pid, .. } => Some((now, pid)),
        Operation::Heartbeat { now, pid } => Some((now, pid)),
        Operation::GlobalSlot { now, pid, .. } => Some((now, pid)),
        Operation::Attach { now, pid } => Some((now, pid)),
        Operation::Ready => None,
    }
}

/// The global slot number after `ops`, where it was `number` before.
pub open spec fn last_number(number: u64, ops: Seq<Operation>) -> u64
    decreases ops.len(),
{
    if ops.len() == 0 {
        number
    } else {
        match number_given(ops.last()) {
            Some(given) => given,
            None => last_number(number, ops.drop_last()),
        }
    }
}

/// The heartbeat and the process id after `ops`, where they were `beat` before.
pub open spec fn last_beat(beat: (u64, u32), ops: Seq<Operation>) -> (u64, u32)
    decreases ops.len(),
{
    if ops.len() == 0 {
        beat
    } else {
        match beat_given(ops.last()) {
            Some(given) => given,
            None => last_beat(beat, ops.drop_last()),
        }
    }
}

/// One of the operations declares the region ready.
pub open spec fn declares_ready(ops: Seq<Operation>) -> bool {
    exists|k: int| 0 <= k < ops.len() && #[trigger] ops[k] is Ready
}

/// The heartbeat and the process id in the header of a region.
pub open spec fn beat_at(mem: Seq<u8>) -> (u64, u32) {
    (memory::u64_at(mem, 32), memory::u32_at(mem, 40))
}

/// The ready flag while an operation is under way: nothing but the store of
/// [`Operation::Ready`] changes it.
pub proof fn lemma_flag_during_operation(
    mem: Seq<u8>,
    capacities: Seq<u32>,
    op: Operation,
    s: int,
)
    requires
        runs::admissible(capacities, op),
        mem.len() >= layout::region_size(capacities.len() as int, capacities),
        0 <= s <= runs::operation_plan(mem, capacities, op).len(),
    ensures
        memory::applied(mem, runs::operation_plan(mem, capacities, op).take(s))[44] == if op is Ready
            && s > 0 {
            1
        } else {
            mem[44]
        },
{
    let plan = runs::operation_plan(mem, capacities, op);
    let part = plan.take(s);
    let after = memory::applied(mem, part);
    layout::lemma_table_precedes_slots(capacities);
    memory::lemma_applied_len(mem, part);
    if op is Ready && s > 0 {
        memory::lemma_store_survives(mem, part, 0);
        assert(after[44] == after.subrange(44, 45)[0]);
    } else {
        assert forall|k: int| 0 <= k < part.len() implies (#[trigger] part[k]).avoids(44, 45) by {
            match op {
                Operation::Write { slot, account, now, pid } => {
                    layout::lemma_slot_in_region(capacities, slot);
                    let base = layout::slot_offset(capacities, slot);
                    operations::lemma_write_stores_in_place(
                        base,
                        capacities[slot],
                        snapshot::version_at(mem, base),
                        account,
                        now,
                        pid,
                        mem.len() as int,
                        k,
                    );
                },
                _ => {
                    lemma_word_lengths_of(op);
                },
            }
        }
        memory::lemma_applied_avoids(mem, part, 44, 45);
        assert(after[44] == after.subrange(44, 45)[0]);
        assert(mem[44] == mem.subrange(44, 45)[0]);
    }
}

/// The words that an operation gives have the length of words.
pub proof fn lemma_word_lengths_of(op: Operation)
    ensures
        number_given(op) matches Some(number) ==> bytes::le_bytes(number as nat, 8).len() == 8,
        beat_given(op) matches Some(beat) ==> {
            &&& bytes::le_bytes(beat.0 as nat, 8).len() == 8
            &&& bytes::le_bytes(beat.1 as nat, 4).len() == 4
        },
{
    if let Some(number) = number_given(op) {
        bytes::lemma_le_bytes_len(number as nat, 8);
    }
    if let Some(beat) = beat_given(op) {
        bytes::lemma_le_bytes_len(beat.0 as nat, 8);
        bytes::lemma_le_bytes_len(beat.1 as nat, 4);
    }
}

/// An operation puts the words that it gives into the header, and leaves the
/// others as they were.
pub proof fn lemma_operation_header_words(mem: Seq<u8>, capacities: Seq<u32>, op: Operation)
    requires
        runs::admissible(capacities, op),
        mem.len() >= layout::region_size(capacities.len() as int, capacities),
    ensures
        ({
            let after = memory::applied(mem, runs::operation_plan(mem, capacities, op));
            &&& memory::u64_at(after, 24) == match number_given(op) {
                Some(number) => number,
                None => memory::u64_at(mem, 24),
            }
            &&& beat_at(after) == match beat_given(op) {
                Some(beat) => beat,
                None => beat_at(mem),
            }
            &&& after[44] == if op is Ready {
                1
            } else {
                mem[44]
            }
        }),
{
    let plan = runs::operation_plan(mem, capacities, op);
    let after = memory::applied(mem, plan);
    layout::lemma_table_precedes_slots(capacities);
    memory::lemma_applied_len(mem, plan);
    lemma_word_lengths_of(op);
    lemma_flag_during_operation(mem, capacities, op, plan.len() as int);
    assert(plan.take(plan.len() as int) =~= plan);
    match op {
        Operation::Write { slot, account, now, pid } => {
            layout::lemma_slot_in_region(capacities, slot);
            let base = layout::slot_offset(capacities, slot);
            operations::lemma_write_then_read(
                mem,
                base,
                capacities[slot],
                snapshot::version_at(mem, base),
                account,
                now,
                pid,
            );
        },
        Operation::Heartbeat { now, pid } => {
            memory::lemma_applied_avoids(mem, plan, 24, 32);
            memory::lemma_store_survives(mem, plan, 0);
            memory::lemma_store_survives(mem, plan, 1);
            memory::lemma_word_reads_back(after, 32, now, 0);
            memory::lemma_word_reads_back(after, 40, 0, pid);
        },
        Operation::GlobalSlot { number, now, pid } => {
            memory::lemma_store_survives(mem, plan, 0);
            memory::lemma_store_survives(mem, plan, 1);
            memory::lemma_store_survives(mem, plan, 2);
            memory::lemma_word_reads_back(after, 24, number, 0);
            memory::lemma_word_reads_back(after, 32, now, 0);
            memory::lemma_word_reads_back(after, 40, 0, pid);
        },
        Operation::Ready => {
            memory::lemma_applied_avoids(mem, plan, 24, 32);
            memory::lemma_applied_avoids(mem, plan, 32, 40);
            memory::lemma_applied_avoids(mem, plan, 40, 44);
        },
        Operation::Attach { now, pid } => {
            memory::lemma_applied_avoids(mem, plan, 24, 32);
            memory::lemma_store_survives(mem, plan, 0);
            memory::lemma_store_survives(mem, plan, 2);
            memory::lemma_word_reads_back(after, 32, now, 0);
            memory::lemma_word_reads_back(after, 40, 0, pid);
        },
    }
}

/// After any run of operations the header has the global slot number of the
/// last operation that gave one, the heartbeat and the process id of the last
/// operation that gave them, and the ready flag if an operation set it.
pub proof fn lemma_run_header_words(mem: Seq<u8>, capacities: Seq<u32>, ops: Seq<Operation>)
    requires
        operations::quiet(mem, capacities),
        forall|k: int| 0 <= k < ops.len() ==> runs::admissible(capacities, #[trigger] ops[k]),
    ensures
        ({
            let after = runs::run_history(mem, capacities, ops).last();
            &&& memory::u64_at(after, 24) == last_number(memory::u64_at(mem, 24), ops)
            &&& beat_at(after) == last_beat(beat_at(mem), ops)
            &&& after[44] == if declares_ready(ops) {
                1
            } else {
                mem[44]
            }
        }),
    decreases ops.len(),
{
    if ops.len() > 0 {
        let front = ops.drop_last();
        runs::lemma_run_extended(mem, capacities, ops);
        runs::lemma_run_follows_protocol(mem, capacities, front);
        lemma_run_header_words(mem, capacities, front);
        let state = runs::run_history(mem, capacities, front).last();
        lemma_operation_header_words(state, capacities, ops.last());
        if declares_ready(front) {
            let k = choose|k: int| 0 <= k < front.len() && #[trigger] front[k] is Ready;
            assert(ops[k] is Ready);
        }
        if declares_ready(ops) && ops.last() !is Ready {
            let k = choose|k: int| 0 <= k < ops.len() && #[trigger] ops[k] is Ready;
            assert(front[k] is Ready);
        }
        if ops.last() is Ready {
            assert(ops[ops.len() - 1] is Ready);
        }
    }
}

/// Once the region was declared ready it stays ready: whatever operations
/// follow, at every moment after the declaration a reader that still has time
/// finds it ready.
pub proof fn lemma_ready_stays(
    mem: Seq<u8>,
    capacities: Seq<u32>,
    ops: Seq<Operation>,
    k: int,
    t: int,
)
    requires
        operations::quiet(mem, capacities),
        forall|j: int| 0 <= j < ops.len() ==> runs::admissible(capacities, #[trigger] ops[j]),
        0 <= k < ops.len(),
        ops[k] is Ready,
        runs::run_history(mem, capacities, ops.take(k + 1)).len() - 1 <= t
            < runs::run_history(mem, capacities, ops).len(),
    ensures
        runs::run_history(mem, capacities, ops)[t][44] == 1,
        reader::ready_step(true, runs::run_history(mem, capacities, ops)[t][44])
            == WaitStep::Ready,
    decreases ops.len(),
{
    let front = ops.drop_last();
    let h = runs::run_history(mem, capacities, front);
    runs::lemma_run_extended(mem, capacities, ops);
    if k + 1 == ops.len() {
        assert(ops.take(k + 1) =~= ops);
        lemma_run_header_words(mem, capacities, ops);
    } else {
        assert(front[k] is Ready);
        assert(front.take(k + 1) =~= ops.take(k + 1));
        if t < h.len() {
            lemma_ready_stays(mem, capacities, front, k, t);
        } else {
            lemma_run_header_words(mem, capacities, front);
            runs::lemma_run_follows_protocol(mem, capacities, front);
            lemma_flag_during_operation(h.last(), capacities, ops.last(), t - h.len() + 1);
        }
    }
}

/// Nothing but the declaration makes a region ready: while no operation
/// declares it, the flag is at every moment what it was before.
pub proof fn lemma_ready_only_when_declared(
    mem: Seq<u8>,
    capacities: Seq<u32>,
    ops: Seq<Operation>,
    t: int,
)
    requires
        operations::quiet(mem, capacities),
        forall|j: int| 0 <= j < ops.len() ==> runs::admissible(capacities, #[trigger] ops[j]),
        !declares_ready(ops),
        0 <= t < runs::run_history(mem, capacities, ops).len(),
    ensures
        runs::run_history(mem, capacities, ops)[t][44] == mem[44],
    decreases ops.len(),
{
    if ops.len() > 0 {
        let front = ops.drop_last();
        let h = runs::run_history(mem, capacities, front);
        runs::lemma_run_extended(mem, capacities, ops);
        assert(ops[ops.len() - 1] !is Ready);
        if declares_ready(front) {
            let k = choose|k: int| 0 <= k < front.len() && #[trigger] front[k] is Ready;
            assert(ops[k] is Ready);
        }
        if t < h.len() {
            lemma_ready_only_when_declared(mem, capacities, front, t);
        } else {
            lemma_run_header_words(mem, capacities, front);
            runs::lemma_run_follows_protocol(mem, capacities, front);
            lemma_flag_during_operation(h.last(), capacities, ops.last(), t - h.len() + 1);
        }
    }
}

/// The header of a region that was created and then underwent any run of
/// operations: the global slot number is the last one given, or zero; the
/// heartbeat and the process id are the last ones given, those of the creation
/// included; and the region is ready if it was declared ready since.
pub proof fn lemma_created_region_header(
    mem: Seq<u8>,
    keys: Seq<Seq<u8>>,
    capacities: Seq<u32>,
    now: u64,
    pid: u32,
    ops: Seq<Operation>,
)
    requires
        keys.len() == capacities.len(),
        capacities.len() <= u32::MAX,
        forall|j: int| 0 <= j < keys.len() ==> (#[trigger] keys[j]).len() == 32,
        mem.len() >= layout::region_size(capacities.len() as int, capacities),
        layout::region_size(capacities.len() as int, capacities) <= usize::MAX,
        forall|k: int| 0 <= k < ops.len() ==> runs::admissible(capacities, #[trigger] ops[k]),
    ensures
        ({
            let created = memory::applied(mem, writer::create_plan(keys, capacities, now, pid));
            let after = runs::run_history(created, capacities, ops).last();
            &&& memory::u64_at(after, 24) == last_number(0, ops)
            &&& beat_at(after) == last_beat((now, pid), ops)
            &&& after[44] == if declares_ready(ops) {
                1u8
            } else {
                0u8
            }
        }),
{
    let created = memory::applied(mem, writer::create_plan(keys, capacities, now, pid));
    creation::lemma_create_then_open(mem, keys, capacities, now, pid);
    lemma_run_header_words(created, capacities, ops);
}

} // verus!
