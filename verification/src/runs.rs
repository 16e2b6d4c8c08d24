//! What runs of the writer's operations do to a region, and what readers get
//! to see of it.
use crate::bytes;
use crate::consistency;
use crate::creation;
use crate::layout;
use crate::layout::AccountSlotHeader;
use crate::memory;
use crate::operations;
use crate::reader::{AccountRead, Observed, ReadStage};
use crate::region;
use crate::seqlock;
use crate::snapshot;
use crate::snapshot::AccountModel;
use crate::table;
use crate::writer;
use vstd::prelude::*;

verus! {

/// An operation of the writer on a region whose slots have given capacities.
pub enum Operation {
    /// Replace the account of a slot.
    Write { slot: int, account: AccountModel, now: u64, pid: u32 },
    /// Renew the heartbeat.
    Heartbeat { now: u64, pid: u32 },
    /// Give a new global slot number.
    GlobalSlot { number: u64, now: u64, pid: u32 },
    /// Declare the region ready.
    Ready,
    /// Take over the region.
    Attach { now: u64, pid: u32 },
}

/// The operation can be carried out.
pub open spec fn admissible(capacities: Seq<u32>, op: Operation) -> bool {
    match op {
        Operation::Write { slot, account, .. } => 0 <= slot < capacities.len() && operations::storable(
            account,
            capacities[slot],
        ),
        _ => true,
    }
}

/// The stores of an operation on region `mem`.
pub open spec fn operation_plan(mem: Seq<u8>, capacities: Seq<u32>, op: Operation) -> Seq<
    memory::StoreModel,
> {
    match op {
        Operation::Write { slot, account, now, pid } => {
            let base = layout::slot_offset(capacities, slot);
            writer::write_plan(
                base,
                capacities[slot],
                snapshot::version_at(mem, base),
                account,
                now,
                pid,
            )
        },
        Operation::Heartbeat { now, pid } => writer::heartbeat_plan(now, pid),
        Operation::GlobalSlot { number, now, pid } => writer::global_slot_plan(number, now, pid),
        Operation::Ready => seq![memory::store_u8(44, 1, true)],
        Operation::Attach { now, pid } => writer::attach_plan(now, pid),
    }
}

/// Operations other than writes only touch the words from 24 to 45 of the
/// region header, and each of their stores is one aligned word.
pub proof fn lemma_header_operation(mem: Seq<u8>, capacities: Seq<u32>, op: Operation, k: int)
    requires
        op !is Write,
        0 <= k < operation_plan(mem, capacities, op).len(),
    ensures
        24 <= operation_plan(mem, capacities, op)[k].offset,
        operation_plan(mem, capacities, op)[k].offset + operation_plan(
            mem,
            capacities,
            op,
        )[k].bytes.len() <= 45,
        operation_plan(mem, capacities, op)[k].word_aligned(),
{
    match op {
        Operation::Write { .. } => {},
        Operation::Heartbeat { now, pid } => {
            bytes::lemma_le_bytes_len(now as nat, 8);
            bytes::lemma_le_bytes_len(pid as nat, 4);
        },
        Operation::GlobalSlot { number, now, pid } => {
            bytes::lemma_le_bytes_len(number as nat, 8);
            bytes::lemma_le_bytes_len(now as nat, 8);
            bytes::lemma_le_bytes_len(pid as nat, 4);
        },
        Operation::Ready => {},
        Operation::Attach { now, pid } => {
            bytes::lemma_le_bytes_len(now as nat, 8);
            bytes::lemma_le_bytes_len(pid as nat, 4);
        },
    }
}

/// The slot that an operation writes, if it writes one.
pub open spec fn written_slot(op: Operation) -> Option<int> {
    match op {
        Operation::Write { slot, .. } => Some(slot),
        _ => None,
    }
}

/// Every store of an operation avoids every slot but the one that the operation
/// writes.
pub proof fn lemma_operation_avoids_other_slots(
    mem: Seq<u8>,
    capacities: Seq<u32>,
    op: Operation,
    i: int,
    k: int,
)
    requires
        admissible(capacities, op),
        0 <= i < capacities.len(),
        written_slot(op) != Some(i),
        0 <= k < operation_plan(mem, capacities, op).len(),
    ensures
        operation_plan(mem, capacities, op)[k].avoids(
            layout::slot_offset(capacities, i),
            layout::slot_offset(capacities, i) + 64 + capacities[i],
        ),
{
    layout::lemma_slot_in_region(capacities, i);
    match op {
        Operation::Write { slot, account, now, pid } => {
            layout::lemma_slot_in_region(capacities, slot);
            if slot < i {
                layout::lemma_slots_disjoint(capacities, slot, i);
            } else {
                layout::lemma_slots_disjoint(capacities, i, slot);
            }
            let base = layout::slot_offset(capacities, slot);
            operations::lemma_write_stores_in_place(
                base,
                capacities[slot],
                snapshot::version_at(mem, base),
                account,
                now,
                pid,
                layout::region_size(capacities.len() as int, capacities),
                k,
            );
        },
        _ => {
            lemma_header_operation(mem, capacities, op, k);
        },
    }
}

/// Every operation on a quiet region leads to a quiet region, and on the way
/// every slot follows the protocol.
pub proof fn lemma_operation_follows_protocol(
    mem: Seq<u8>,
    capacities: Seq<u32>,
    op: Operation,
    i: int,
)
    requires
        admissible(capacities, op),
        operations::quiet(mem, capacities),
        0 <= i < capacities.len(),
    ensures
        ({
            let plan = operation_plan(mem, capacities, op);
            let base = layout::slot_offset(capacities, i);
            &&& consistency::slot_history(
                operations::plan_history(mem, plan),
                base,
                base + 64 + capacities[i],
            )
            &&& operations::plan_history(mem, plan)[0] == mem
            &&& operations::plan_history(mem, plan).last() == memory::applied(mem, plan)
            &&& snapshot::version_at(memory::applied(mem, plan), base) % 2 == 0
        }),
{
    let plan = operation_plan(mem, capacities, op);
    let base = layout::slot_offset(capacities, i);
    let end = base + 64 + capacities[i];
    layout::lemma_slot_in_region(capacities, i);
    assert(snapshot::version_at(mem, base) % 2 == 0);
    assert(plan.take(0) =~= Seq::<memory::StoreModel>::empty());
    if written_slot(op) == Some(i) {
        match op {
            Operation::Write { slot, account, now, pid } => {
                let version = snapshot::version_at(mem, base);
                operations::lemma_write_follows_protocol(
                    mem,
                    base,
                    capacities[i],
                    version,
                    account,
                    now,
                    pid,
                );
                operations::lemma_write_then_read(mem, base, capacities[i], version, account, now, pid);
                seqlock::lemma_write_changes_version(version);
            },
            _ => {},
        }
    } else {
        assert forall|k: int| 0 <= k < plan.len() implies (#[trigger] plan[k]).avoids(
            base,
            end,
        ) by {
            lemma_operation_avoids_other_slots(mem, capacities, op, i, k);
        }
        operations::lemma_avoiding_history(mem, plan, base, end);
        memory::lemma_applied_len(mem, plan);
        consistency::lemma_same_part(
            memory::applied(mem, plan),
            mem,
            base,
            end,
            base,
            base + 8,
        );
    }
}

/// The states of a region through a run of operations, store by store.
pub open spec fn run_history(mem: Seq<u8>, capacities: Seq<u32>, ops: Seq<Operation>) -> Seq<
    Seq<u8>,
>
    decreases ops.len(),
{
    if ops.len() == 0 {
        seq![mem]
    } else {
        let h = run_history(mem, capacities, ops.drop_last());
        h + operations::plan_history(
            h.last(),
            operation_plan(h.last(), capacities, ops.last()),
        ).drop_first()
    }
}

/// A run has at least one state.
proof fn lemma_run_has_states(mem: Seq<u8>, capacities: Seq<u32>, ops: Seq<Operation>)
    ensures
        run_history(mem, capacities, ops).len() > 0,
    decreases ops.len(),
{
    if ops.len() > 0 {
        lemma_run_has_states(mem, capacities, ops.drop_last());
    }
}

/// The last operation of a run: the states of the run are those of the
/// operations before it, followed by those that its stores lead through.
pub proof fn lemma_run_extended(mem: Seq<u8>, capacities: Seq<u32>, ops: Seq<Operation>)
    requires
        ops.len() > 0,
        forall|k: int| 0 <= k < ops.len() ==> admissible(capacities, #[trigger] ops[k]),
    ensures
        ({
            let front = ops.drop_last();
            let h = run_history(mem, capacities, front);
            let plan = operation_plan(h.last(), capacities, ops.last());
            let g = operations::plan_history(h.last(), plan);
            let all = run_history(mem, capacities, ops);
            &&& forall|k: int| 0 <= k < front.len() ==> admissible(capacities, #[trigger] front[k])
            &&& admissible(capacities, ops.last())
            &&& h.len() > 0
            &&& g[0] == h.last()
            &&& all.len() == h.len() + plan.len()
            &&& forall|t: int| 0 <= t < h.len() ==> #[trigger] all[t] == h[t]
            &&& forall|t: int| h.len() <= t < all.len() ==> #[trigger] all[t] == g[t - h.len() + 1]
            &&& all.last() == memory::applied(h.last(), plan)
        }),
{
    let front = ops.drop_last();
    let h = run_history(mem, capacities, front);
    let plan = operation_plan(h.last(), capacities, ops.last());
    lemma_run_has_states(mem, capacities, front);
    assert(admissible(capacities, ops[ops.len() - 1]));
    assert forall|k: int| 0 <= k < front.len() implies admissible(
        capacities,
        #[trigger] front[k],
    ) by {
        assert(front[k] == ops[k]);
    }
    assert(plan.take(0) =~= Seq::<memory::StoreModel>::empty());
    assert(plan.take(plan.len() as int) =~= plan);
}

/// Whatever operations a writer carries out on a quiet region, every slot
/// follows the protocol throughout, and the region is quiet again at the end.
/// With [`consistency::lemma_no_torn_read`]: no reader ever keeps a torn copy.
pub proof fn lemma_run_follows_protocol(
    mem: Seq<u8>,
    capacities: Seq<u32>,
    ops: Seq<Operation>,
)
    requires
        operations::quiet(mem, capacities),
        forall|k: int| 0 <= k < ops.len() ==> admissible(capacities, #[trigger] ops[k]),
    ensures
        run_history(mem, capacities, ops).len() > 0,
        run_history(mem, capacities, ops)[0] == mem,
        operations::quiet(run_history(mem, capacities, ops).last(), capacities),
        forall|i: int|
            0 <= i < capacities.len() ==> consistency::slot_history(
                run_history(mem, capacities, ops),
                #[trigger] layout::slot_offset(capacities, i),
                layout::slot_offset(capacities, i) + 64 + capacities[i],
            ),
    decreases ops.len(),
{
    if ops.len() == 0 {
        assert forall|i: int| 0 <= i < capacities.len() implies consistency::slot_history(
            run_history(mem, capacities, ops),
            #[trigger] layout::slot_offset(capacities, i),
            layout::slot_offset(capacities, i) + 64 + capacities[i],
        ) by {
            layout::lemma_slot_in_region(capacities, i);
        }
    } else {
        let front = ops.drop_last();
        lemma_run_extended(mem, capacities, ops);
        lemma_run_follows_protocol(mem, capacities, front);
        let h = run_history(mem, capacities, front);
        let state = h.last();
        let op = ops.last();
        let plan = operation_plan(state, capacities, op);
        let g = operations::plan_history(state, plan);
        let all = run_history(mem, capacities, ops);
        memory::lemma_applied_len(state, plan);
        assert forall|i: int| 0 <= i < capacities.len() implies #[trigger] snapshot::version_at(
            all.last(),
            layout::slot_offset(capacities, i),
        ) % 2 == 0 by {
            lemma_operation_follows_protocol(state, capacities, op, i);
        }
        assert forall|i: int| 0 <= i < capacities.len() implies consistency::slot_history(
            all,
            #[trigger] layout::slot_offset(capacities, i),
            layout::slot_offset(capacities, i) + 64 + capacities[i],
        ) by {
            let base = layout::slot_offset(capacities, i);
            let end = base + 64 + capacities[i];
            lemma_operation_follows_protocol(state, capacities, op, i);
            assert(consistency::slot_history(h, base, end));
            assert forall|t: int| 0 <= t < all.len() implies end <= (#[trigger] all[t]).len() by {
                if t < h.len() {
                    assert(all[t] == h[t]);
                } else {
                    assert(all[t] == g[t - h.len() + 1]);
                }
            }
            assert forall|t: int| 0 <= t < all.len() - 1 implies consistency::slot_step(
                #[trigger] all[t],
                all[t + 1],
                base,
                end,
            ) by {
                if t + 1 < h.len() {
                    assert(all[t] == h[t]);
                    assert(all[t + 1] == h[t + 1]);
                } else {
                    let s = t - h.len() + 1;
                    assert(all[t] == g[s]);
                    assert(all[t + 1] == g[s + 1]);
                }
            }
        }
    }
}

/// The first operations of a run pass through the first of its states.
pub proof fn lemma_run_prefix(
    mem: Seq<u8>,
    capacities: Seq<u32>,
    ops: Seq<Operation>,
    m: int,
)
    requires
        forall|k: int| 0 <= k < ops.len() ==> admissible(capacities, #[trigger] ops[k]),
        0 <= m <= ops.len(),
    ensures
        ({
            let h = run_history(mem, capacities, ops.take(m));
            let all = run_history(mem, capacities, ops);
            &&& h.len() <= all.len()
            &&& all.take(h.len() as int) == h
        }),
    decreases ops.len(),
{
    let h = run_history(mem, capacities, ops.take(m));
    let all = run_history(mem, capacities, ops);
    if m == ops.len() {
        assert(ops.take(m) =~= ops);
        assert(all.take(h.len() as int) =~= h);
    } else {
        let front = ops.drop_last();
        lemma_run_extended(mem, capacities, ops);
        lemma_run_prefix(mem, capacities, front, m);
        assert(front.take(m) =~= ops.take(m));
        let most = run_history(mem, capacities, front);
        assert forall|t: int| 0 <= t < h.len() implies all[t] == h[t] by {
            assert(all[t] == most[t]);
            assert(most[t] == most.take(h.len() as int)[t]);
        }
        assert(all.take(h.len() as int) =~= h);
    }
}

/// Operations keep the magic number, the format version and the offset table:
/// whoever could open the region still can, and finds the same accounts and
/// capacities.
pub proof fn lemma_operation_keeps_table(mem: Seq<u8>, capacities: Seq<u32>, op: Operation)
    requires
        admissible(capacities, op),
        mem.len() >= layout::region_size(capacities.len() as int, capacities),
        region::num_slots(mem) == capacities.len(),
    ensures
        ({
            let after = memory::applied(mem, operation_plan(mem, capacities, op));
            let n = capacities.len();
            &&& region::header_error(after) == region::header_error(mem)
            &&& region::num_slots(after) == region::num_slots(mem)
            &&& region::table_keys(after, n) == region::table_keys(mem, n)
            &&& region::table_capacities(after, n) == region::table_capacities(mem, n)
            &&& table::valid_region(after) == table::valid_region(mem)
        }),
{
    let plan = operation_plan(mem, capacities, op);
    let after = memory::applied(mem, plan);
    let n = capacities.len();
    let table_end = layout::entry_offset(n as int);
    layout::lemma_table_precedes_slots(capacities);
    memory::lemma_applied_len(mem, plan);
    assert forall|k: int| 0 <= k < plan.len() implies (#[trigger] plan[k]).avoids(0, 24)
        && plan[k].avoids(128, table_end) by {
        match op {
            Operation::Write { slot, account, now, pid } => {
                layout::lemma_slot_in_region(capacities, slot);
                let base = layout::slot_offset(capacities, slot);
                operations::lemma_write_stores_in_place(
                    base,
                    capacities[slot],
                    snapshot::version_at(mem, base),
                    account,
                    now,
                    pid,
                    mem.len() as int,
                    k,
                );
            },
            _ => {
                lemma_header_operation(mem, capacities, op, k);
            },
        }
    }
    memory::lemma_applied_avoids(mem, plan, 0, 24);
    memory::lemma_applied_avoids(mem, plan, 128, table_end);
    consistency::lemma_same_part(after, mem, 0, 24, 0, 8);
    consistency::lemma_same_part(after, mem, 0, 24, 8, 16);
    consistency::lemma_same_part(after, mem, 0, 24, 16, 20);
    lemma_same_table(after, mem, n);
    let start = layout::data_start(n as int);
    let caps = region::table_capacities(mem, n);
    assert forall|i: int| 0 <= i < n implies #[trigger] region::offset_agrees(
        after,
        start,
        caps,
        i,
    ) == region::offset_agrees(mem, start, caps, i) by {
        assert(region::entry_data_offset(after, i) == region::entry_data_offset(mem, i));
    }
    if table::offsets_agree(mem) {
        assert forall|i: int| 0 <= i < n implies #[trigger] region::offset_agrees(
            after,
            start,
            caps,
            i,
        ) by {
            assert(region::offset_agrees(mem, start, caps, i));
        }
    }
    if table::offsets_agree(after) {
        assert forall|i: int| 0 <= i < n implies #[trigger] region::offset_agrees(
            mem,
            start,
            caps,
            i,
        ) by {
            assert(region::offset_agrees(after, start, caps, i));
        }
    }
}

/// Regions that agree on the bytes of the table agree on what it says.
proof fn lemma_same_table(a: Seq<u8>, b: Seq<u8>, n: nat)
    requires
        layout::entry_offset(n as int) <= a.len(),
        a.len() == b.len(),
        a.subrange(128, layout::entry_offset(n as int)) == b.subrange(
            128,
            layout::entry_offset(n as int),
        ),
    ensures
        region::table_keys(a, n) == region::table_keys(b, n),
        region::table_capacities(a, n) == region::table_capacities(b, n),
        forall|i: int|
            0 <= i < n ==> #[trigger] region::entry_data_offset(a, i) == region::entry_data_offset(
                b,
                i,
            ),
{
    let end = layout::entry_offset(n as int);
    assert forall|i: int| 0 <= i < n implies region::entry_key(a, i) == region::entry_key(b, i)
        && region::entry_capacity(a, i) == region::entry_capacity(b, i)
        && #[trigger] region::entry_data_offset(a, i) == region::entry_data_offset(b, i) by {
        let at = layout::entry_offset(i);
        assert(at + 48 <= end);
        consistency::lemma_same_part(a, b, 128, end, at, at + 32);
        consistency::lemma_same_part(a, b, 128, end, at + 32, at + 40);
        consistency::lemma_same_part(a, b, 128, end, at + 40, at + 44);
    }
    assert forall|i: int| 0 <= i < n implies region::entry_key(a, i) == region::entry_key(
        b,
        i,
    ) && region::entry_capacity(a, i) == region::entry_capacity(b, i) by {
        assert(region::entry_data_offset(a, i) == region::entry_data_offset(b, i));
    }
    assert(region::table_keys(a, n) =~= region::table_keys(b, n));
    assert(region::table_capacities(a, n) =~= region::table_capacities(b, n));
}

/// The account that the last write to slot `i` among `ops` stored.
pub open spec fn last_written(ops: Seq<Operation>, i: int) -> Option<AccountModel>
    decreases ops.len(),
{
    if ops.len() == 0 {
        None
    } else {
        match ops.last() {
            Operation::Write { slot, account, .. } if slot == i => Some(account),
            _ => last_written(ops.drop_last(), i),
        }
    }
}

/// What slot `i` holds after operations `ops` on region `mem`: the account of
/// the last write to it, or what it held before.
pub open spec fn content(
    mem: Seq<u8>,
    capacities: Seq<u32>,
    ops: Seq<Operation>,
    i: int,
) -> AccountModel {
    match last_written(ops, i) {
        Some(account) => account,
        None => snapshot::account_at(mem, layout::slot_offset(capacities, i)),
    }
}

/// After any run of operations a slot holds the account that the last write to
/// it stored; a slot that was not written holds what it held before.
pub proof fn lemma_run_keeps_last_write(
    mem: Seq<u8>,
    capacities: Seq<u32>,
    ops: Seq<Operation>,
    i: int,
)
    requires
        operations::quiet(mem, capacities),
        forall|k: int| 0 <= k < ops.len() ==> admissible(capacities, #[trigger] ops[k]),
        0 <= i < capacities.len(),
        snapshot::data_len_at(mem, layout::slot_offset(capacities, i)) <= capacities[i],
    ensures
        ({
            let after = run_history(mem, capacities, ops).last();
            let base = layout::slot_offset(capacities, i);
            &&& snapshot::data_len_at(after, base) <= capacities[i]
            &&& snapshot::account_at(after, base) == content(mem, capacities, ops, i)
        }),
    decreases ops.len(),
{
    if ops.len() > 0 {
        let front = ops.drop_last();
        lemma_run_extended(mem, capacities, ops);
        lemma_run_keeps_last_write(mem, capacities, front, i);
        lemma_run_follows_protocol(mem, capacities, front);
        let h = run_history(mem, capacities, front);
        let state = h.last();
        let op = ops.last();
        let plan = operation_plan(state, capacities, op);
        let after = memory::applied(state, plan);
        let base = layout::slot_offset(capacities, i);
        let end = base + 64 + capacities[i];
        layout::lemma_slot_in_region(capacities, i);
        memory::lemma_applied_len(state, plan);
        if written_slot(op) == Some(i) {
            match op {
                Operation::Write { slot, account, now, pid } => {
                    operations::lemma_write_then_read(
                        state,
                        base,
                        capacities[i],
                        snapshot::version_at(state, base),
                        account,
                        now,
                        pid,
                    );
                },
                _ => {},
            }
        } else {
            assert forall|k: int| 0 <= k < plan.len() implies (#[trigger] plan[k]).avoids(
                base,
                end,
            ) by {
                lemma_operation_avoids_other_slots(state, capacities, op, i, k);
            }
            memory::lemma_applied_avoids(state, plan, base, end);
            lemma_same_account(after, state, base, capacities[i]);
        }
    }
}

/// How many of the operations write slot `i`.
pub open spec fn writes_to(ops: Seq<Operation>, i: int) -> nat
    decreases ops.len(),
{
    if ops.len() == 0 {
        0
    } else {
        writes_to(ops.drop_last(), i) + if written_slot(ops.last()) == Some(i) {
            1nat
        } else {
            0nat
        }
    }
}

/// An operation advances the version of the slot that it writes by two, modulo
/// the range of the word, and leaves the other versions as they are.
pub proof fn lemma_operation_advances_version(
    mem: Seq<u8>,
    capacities: Seq<u32>,
    op: Operation,
    i: int,
)
    requires
        admissible(capacities, op),
        mem.len() >= layout::region_size(capacities.len() as int, capacities),
        0 <= i < capacities.len(),
    ensures
        ({
            let after = memory::applied(mem, operation_plan(mem, capacities, op));
            let base = layout::slot_offset(capacities, i);
            snapshot::version_at(after, base) == if written_slot(op) == Some(i) {
                (snapshot::version_at(mem, base) + 2) % 0x1_0000_0000_0000_0000
            } else {
                snapshot::version_at(mem, base) as int
            }
        }),
{
    let plan = operation_plan(mem, capacities, op);
    let after = memory::applied(mem, plan);
    let base = layout::slot_offset(capacities, i);
    let end = base + 64 + capacities[i];
    layout::lemma_slot_in_region(capacities, i);
    memory::lemma_applied_len(mem, plan);
    if written_slot(op) == Some(i) {
        match op {
            Operation::Write { slot, account, now, pid } => {
                operations::lemma_write_then_read(
                    mem,
                    base,
                    capacities[i],
                    snapshot::version_at(mem, base),
                    account,
                    now,
                    pid,
                );
            },
            _ => {},
        }
    } else {
        assert forall|k: int| 0 <= k < plan.len() implies (#[trigger] plan[k]).avoids(
            base,
            end,
        ) by {
            lemma_operation_avoids_other_slots(mem, capacities, op, i, k);
        }
        memory::lemma_applied_avoids(mem, plan, base, end);
        consistency::lemma_same_part(after, mem, base, end, base, base + 8);
    }
}

/// Every write advances the version of its slot by two, modulo the range of the
/// word, and nothing else does: after any run of operations the version of a
/// slot has grown by twice the number of writes to it.
#[verifier::spinoff_prover]
pub proof fn lemma_run_counts_writes(
    mem: Seq<u8>,
    capacities: Seq<u32>,
    ops: Seq<Operation>,
    i: int,
)
    requires
        operations::quiet(mem, capacities),
        forall|k: int| 0 <= k < ops.len() ==> admissible(capacities, #[trigger] ops[k]),
        0 <= i < capacities.len(),
    ensures
        ({
            let after = run_history(mem, capacities, ops).last();
            let base = layout::slot_offset(capacities, i);
            snapshot::version_at(after, base) == (snapshot::version_at(mem, base) + 2 * writes_to(
                ops,
                i,
            )) % 0x1_0000_0000_0000_0000
        }),
    decreases ops.len(),
{
    if ops.len() > 0 {
        let front = ops.drop_last();
        lemma_run_extended(mem, capacities, ops);
        lemma_run_counts_writes(mem, capacities, front, i);
        lemma_run_follows_protocol(mem, capacities, front);
        let state = run_history(mem, capacities, front).last();
        let base = layout::slot_offset(capacities, i);
        lemma_operation_advances_version(state, capacities, ops.last(), i);
        lemma_one_more_write(
            snapshot::version_at(mem, base) as int,
            writes_to(front, i) as int,
        );
    }
}

/// Adding two, modulo the range of the word, counts one more write.
proof fn lemma_one_more_write(version: int, writes: int)
    ensures
        ((version + 2 * writes) % 0x1_0000_0000_0000_0000 + 2) % 0x1_0000_0000_0000_0000 == (version
            + 2 * (writes + 1)) % 0x1_0000_0000_0000_0000,
{
    vstd::arithmetic::div_mod::lemma_add_mod_noop(
        version + 2 * writes,
        2,
        0x1_0000_0000_0000_0000,
    );
}

/// Equal slots hold equal accounts.
proof fn lemma_same_account(a: Seq<u8>, b: Seq<u8>, base: int, capacity: u32)
    requires
        0 <= base,
        base + 64 + capacity <= a.len(),
        base + 64 + capacity <= b.len(),
        a.subrange(base, base + 64 + capacity) == b.subrange(base, base + 64 + capacity),
        snapshot::data_len_at(b, base) <= capacity,
    ensures
        snapshot::account_at(a, base) == snapshot::account_at(b, base),
        snapshot::data_len_at(a, base) == snapshot::data_len_at(b, base),
{
    let end = base + 64 + capacity;
    consistency::lemma_same_part(a, b, base, end, base + 8, base + 16);
    consistency::lemma_same_part(a, b, base, end, base + 16, base + 48);
    consistency::lemma_same_part(a, b, base, end, base + 48, base + 56);
    consistency::lemma_same_part(a, b, base, end, base + 56, base + 60);
    consistency::lemma_same_part(a, b, base, end, base + 60, base + 61);
    assert(a[base + 60] == a.subrange(base + 60, base + 61)[0]);
    assert(b[base + 60] == b.subrange(base + 60, base + 61)[0]);
    consistency::lemma_same_part(
        a,
        b,
        base,
        end,
        base + 64,
        base + 64 + snapshot::data_len_at(b, base),
    );
}

/// Runs of operations keep the magic number, the format version and the offset
/// table.
pub proof fn lemma_run_keeps_table(mem: Seq<u8>, capacities: Seq<u32>, ops: Seq<Operation>)
    requires
        operations::quiet(mem, capacities),
        region::num_slots(mem) == capacities.len(),
        forall|k: int| 0 <= k < ops.len() ==> admissible(capacities, #[trigger] ops[k]),
    ensures
        ({
            let after = run_history(mem, capacities, ops).last();
            let n = capacities.len();
            &&& region::header_error(after) == region::header_error(mem)
            &&& region::num_slots(after) == region::num_slots(mem)
            &&& region::table_keys(after, n) == region::table_keys(mem, n)
            &&& region::table_capacities(after, n) == region::table_capacities(mem, n)
            &&& table::valid_region(after) == table::valid_region(mem)
        }),
    decreases ops.len(),
{
    if ops.len() > 0 {
        let front = ops.drop_last();
        lemma_run_extended(mem, capacities, ops);
        lemma_run_keeps_table(mem, capacities, front);
        lemma_run_follows_protocol(mem, capacities, front);
        let state = run_history(mem, capacities, front).last();
        let op = ops.last();
        lemma_operation_keeps_table(state, capacities, op);
    }
}

/// At every moment of a run at which the version of a slot is even, the slot
/// holds what it holds after the first `m` operations, for some `m`: a write
/// is seen as a whole or not at all.
pub proof fn lemma_even_version_complete_write(
    mem: Seq<u8>,
    capacities: Seq<u32>,
    ops: Seq<Operation>,
    i: int,
    t: int,
) -> (m: int)
    requires
        operations::quiet(mem, capacities),
        forall|k: int| 0 <= k < ops.len() ==> admissible(capacities, #[trigger] ops[k]),
        0 <= i < capacities.len(),
        snapshot::data_len_at(mem, layout::slot_offset(capacities, i)) <= capacities[i],
        0 <= t < run_history(mem, capacities, ops).len(),
        snapshot::version_at(
            run_history(mem, capacities, ops)[t],
            layout::slot_offset(capacities, i),
        ) % 2 == 0,
    ensures
        0 <= m <= ops.len(),
        snapshot::account_at(
            run_history(mem, capacities, ops)[t],
            layout::slot_offset(capacities, i),
        ) == content(mem, capacities, ops.take(m), i),
    decreases ops.len(),
{
    let base = layout::slot_offset(capacities, i);
    let end = base + 64 + capacities[i];
    let all = run_history(mem, capacities, ops);
    if ops.len() == 0 {
        assert(ops.take(0) =~= ops);
        0
    } else {
        let front = ops.drop_last();
        lemma_run_extended(mem, capacities, ops);
        let h = run_history(mem, capacities, front);
        let state = h.last();
        let op = ops.last();
        let plan = operation_plan(state, capacities, op);
        let g = operations::plan_history(state, plan);
        lemma_run_follows_protocol(mem, capacities, front);
        lemma_run_keeps_last_write(mem, capacities, front, i);
        layout::lemma_slot_in_region(capacities, i);
        if t < h.len() {
            assert(all[t] == h[t]);
            let m = lemma_even_version_complete_write(mem, capacities, front, i, t);
            assert(ops.take(m) =~= front.take(m));
            m
        } else {
            let s = t - h.len() + 1;
            assert(all[t] == g[s]);
            assert(ops.take(ops.len() as int) =~= ops);
            assert(ops.take(front.len() as int) =~= front);
            if written_slot(op) == Some(i) {
                match op {
                    Operation::Write { slot, account, now, pid } => {
                        let version = snapshot::version_at(state, base);
                        assert(version % 2 == 0);
                        operations::lemma_write_follows_protocol(
                            state,
                            base,
                            capacities[i],
                            version,
                            account,
                            now,
                            pid,
                        );
                        seqlock::lemma_write_changes_version(version);
                        assert(s == plan.len());
                        operations::lemma_write_then_read(
                            state,
                            base,
                            capacities[i],
                            version,
                            account,
                            now,
                            pid,
                        );
                    },
                    _ => {},
                }
                ops.len() as int
            } else {
                let part = plan.take(s);
                assert forall|k: int| 0 <= k < part.len() implies (#[trigger] part[k]).avoids(
                    base,
                    end,
                ) by {
                    lemma_operation_avoids_other_slots(state, capacities, op, i, k);
                }
                memory::lemma_applied_avoids(state, part, base, end);
                memory::lemma_applied_len(state, part);
                lemma_same_account(g[s], state, base, capacities[i]);
                front.len() as int
            }
        }
    }
}

/// Whatever a reader gets from a slot while a writer carries out operations is
/// what the slot holds after the first `m` of them, for some `m`.
pub proof fn lemma_reads_during_run(
    mem: Seq<u8>,
    capacities: Seq<u32>,
    ops: Seq<Operation>,
    i: int,
    t0: int,
    t1: int,
    moments: spec_fn(int) -> int,
    attempt: consistency::Attempt,
) -> (m: int)
    requires
        operations::quiet(mem, capacities),
        forall|k: int| 0 <= k < ops.len() ==> admissible(capacities, #[trigger] ops[k]),
        0 <= i < capacities.len(),
        snapshot::data_len_at(mem, layout::slot_offset(capacities, i)) <= capacities[i],
        attempt.start.capacity == capacities[i],
        attempt.follows_steps(),
        attempt.sees(
            run_history(mem, capacities, ops),
            layout::slot_offset(capacities, i),
            t0,
            t1,
            moments,
        ),
        consistency::changes(
            run_history(mem, capacities, ops),
            layout::slot_offset(capacities, i),
            t0,
            t1,
        ) < 0x1_0000_0000_0000_0000,
        attempt.end.stage is Done,
    ensures
        0 <= m <= ops.len(),
        attempt.end.stage->Done_snapshot@ == content(mem, capacities, ops.take(m), i),
{
    lemma_run_follows_protocol(mem, capacities, ops);
    let h = run_history(mem, capacities, ops);
    let base = layout::slot_offset(capacities, i);
    assert(consistency::slot_history(h, base, base + 64 + capacities[i]));
    consistency::lemma_no_torn_read(h, base, t0, t1, moments, attempt);
    lemma_even_version_complete_write(mem, capacities, ops, i, t0)
}

/// After operations on a region a read gives back what was last written to the
/// slot.
pub proof fn lemma_read_after_run(
    mem: Seq<u8>,
    capacities: Seq<u32>,
    ops: Seq<Operation>,
    i: int,
    moments: spec_fn(int) -> int,
    attempt: consistency::Attempt,
)
    requires
        operations::quiet(mem, capacities),
        forall|k: int| 0 <= k < ops.len() ==> admissible(capacities, #[trigger] ops[k]),
        0 <= i < capacities.len(),
        snapshot::data_len_at(mem, layout::slot_offset(capacities, i)) <= capacities[i],
        attempt.start.capacity == capacities[i],
        attempt.follows_steps(),
        attempt.sees(
            seq![run_history(mem, capacities, ops).last()],
            layout::slot_offset(capacities, i),
            0,
            0,
            moments,
        ),
    ensures
        attempt.end.stage is Done,
        attempt.end.stage->Done_snapshot@ == content(mem, capacities, ops, i),
{
    lemma_run_follows_protocol(mem, capacities, ops);
    lemma_run_keeps_last_write(mem, capacities, ops, i);
    layout::lemma_slot_in_region(capacities, i);
    let after = run_history(mem, capacities, ops).last();
    assert(snapshot::version_at(after, layout::slot_offset(capacities, i)) % 2 == 0);
    consistency::lemma_quiet_read_succeeds(
        after,
        layout::slot_offset(capacities, i),
        moments,
        attempt,
    );
}

/// The account in a slot that was never written.
pub open spec fn empty_account() -> AccountModel {
    AccountModel {
        owner: memory::zeros(32),
        lamports: 0,
        data: Seq::empty(),
        executable: false,
        solana_slot: 0,
    }
}

/// A region that was created for accounts `keys` and then underwent any run of
/// operations opens with the same accounts and capacities, and the slot of
/// every account holds what was last written to it, under a version that is
/// twice the number of writes to it, modulo the range of its word.
pub proof fn lemma_created_region_round_trip(
    mem: Seq<u8>,
    keys: Seq<Seq<u8>>,
    capacities: Seq<u32>,
    now: u64,
    pid: u32,
    ops: Seq<Operation>,
    i: int,
)
    requires
        keys.len() == capacities.len(),
        capacities.len() <= u32::MAX,
        forall|j: int| 0 <= j < keys.len() ==> (#[trigger] keys[j]).len() == 32,
        mem.len() >= layout::region_size(capacities.len() as int, capacities),
        layout::region_size(capacities.len() as int, capacities) <= usize::MAX,
        forall|k: int| 0 <= k < ops.len() ==> admissible(capacities, #[trigger] ops[k]),
        0 <= i < capacities.len(),
    ensures
        ({
            let created = memory::applied(mem, writer::create_plan(keys, capacities, now, pid));
            let after = run_history(created, capacities, ops).last();
            let n = capacities.len();
            let base = layout::slot_offset(capacities, i);
            &&& table::valid_region(after)
            &&& region::num_slots(after) == n
            &&& region::table_keys(after, n) == keys
            &&& region::table_capacities(after, n) == capacities
            &&& snapshot::version_at(after, base) == (2 * writes_to(ops, i))
                % 0x1_0000_0000_0000_0000
            &&& snapshot::version_at(after, base) % 2 == 0
            &&& snapshot::data_len_at(after, base) <= capacities[i]
            &&& snapshot::account_at(after, base) == match last_written(ops, i) {
                Some(account) => account,
                None => empty_account(),
            }
        }),
{
    let created = memory::applied(mem, writer::create_plan(keys, capacities, now, pid));
    let base = layout::slot_offset(capacities, i);
    creation::lemma_create_then_open(mem, keys, capacities, now, pid);
    layout::lemma_slot_in_region(capacities, i);
    assert(created.subrange(base + 8, base + 16) =~= memory::zeros(8));
    assert(created.subrange(base + 16, base + 48) =~= memory::zeros(32));
    assert(created.subrange(base + 48, base + 56) =~= memory::zeros(8));
    assert(created.subrange(base + 56, base + 60) =~= memory::zeros(4));
    creation::lemma_zeros_value(8);
    creation::lemma_zeros_value(4);
    assert(snapshot::account_at(created, base) =~= empty_account());
    lemma_run_follows_protocol(created, capacities, ops);
    lemma_run_keeps_table(created, capacities, ops);
    lemma_run_keeps_last_write(created, capacities, ops, i);
    lemma_run_counts_writes(created, capacities, ops, i);
    assert(created.subrange(base, base + 8) =~= memory::zeros(8));
    let after = run_history(created, capacities, ops).last();
    assert(snapshot::version_at(after, layout::slot_offset(capacities, i)) % 2 == 0);
}

/// What was written to a region since its creation is what reads give back: the
/// account of the last write to the slot, or the empty account.
pub proof fn lemma_created_region_read(
    mem: Seq<u8>,
    keys: Seq<Seq<u8>>,
    capacities: Seq<u32>,
    now: u64,
    pid: u32,
    ops: Seq<Operation>,
    i: int,
    moments: spec_fn(int) -> int,
    attempt: consistency::Attempt,
)
    requires
        keys.len() == capacities.len(),
        capacities.len() <= u32::MAX,
        forall|j: int| 0 <= j < keys.len() ==> (#[trigger] keys[j]).len() == 32,
        mem.len() >= layout::region_size(capacities.len() as int, capacities),
        layout::region_size(capacities.len() as int, capacities) <= usize::MAX,
        forall|k: int| 0 <= k < ops.len() ==> admissible(capacities, #[trigger] ops[k]),
        0 <= i < capacities.len(),
        attempt.start.capacity == capacities[i],
        attempt.follows_steps(),
        attempt.sees(
            seq![
                run_history(
                    memory::applied(mem, writer::create_plan(keys, capacities, now, pid)),
                    capacities,
                    ops,
                ).last(),
            ],
            layout::slot_offset(capacities, i),
            0,
            0,
            moments,
        ),
    ensures
        attempt.end.stage is Done,
        attempt.end.stage->Done_snapshot@ == match last_written(ops, i) {
            Some(account) => account,
            None => empty_account(),
        },
{
    let created = memory::applied(mem, writer::create_plan(keys, capacities, now, pid));
    creation::lemma_create_then_open(mem, keys, capacities, now, pid);
    lemma_created_region_round_trip(mem, keys, capacities, now, pid, Seq::empty(), i);
    assert(run_history(created, capacities, Seq::empty()).last() == created);
    lemma_read_after_run(created, capacities, ops, i, moments, attempt);
}

} // verus!
