//! What a write does to a region.
use crate::bytes;
use crate::consistency;
use crate::layout;
use crate::memory;
use crate::seqlock;
use crate::snapshot;
use crate::snapshot::AccountModel;
use crate::writer;
use vstd::prelude::*;

verus! {

/// The slot at `base` fits into a region of `size` bytes, behind the region
/// header.
pub open spec fn slot_fits(base: int, capacity: u32, size: int) -> bool {
    128 <= base && base + 64 + capacity <= size
}

/// The account can be stored in a slot of this capacity.
pub open spec fn storable(account: AccountModel, capacity: u32) -> bool {
    account.owner.len() == 32 && account.data.len() <= capacity
}

/// The stores of a write, by position.
pub proof fn lemma_write_plan_shape(
    base: int,
    capacity: u32,
    version: u64,
    account: AccountModel,
    now: u64,
    pid: u32,
)
    requires
        storable(account, capacity),
    ensures
        ({
            let plan = writer::write_plan(base, capacity, version, account, now, pid);
            &&& plan.len() == 12
            &&& plan[0] == memory::store_u64(base, seqlock::next_version(version), true)
            &&& plan[1] == memory::store_u64(base + 8, account.solana_slot, false)
            &&& plan[2] == memory::store_bytes(base + 16, account.owner)
            &&& plan[3] == memory::store_u64(base + 48, account.lamports, false)
            &&& plan[4] == memory::store_u32(base + 56, account.data.len() as u32, false)
            &&& plan[5] == memory::store_u8(
                base + 60,
                if account.executable {
                    1
                } else {
                    0
                },
                false,
            )
            &&& plan[6] == memory::store_bytes(base + 64, account.data)
            &&& plan[7] == memory::store_bytes(
                base + 64 + account.data.len(),
                memory::zeros((capacity - account.data.len()) as nat),
            )
            &&& plan[8] == memory::store_u64(24, account.solana_slot, true)
            &&& plan[9] == memory::store_u64(32, now, true)
            &&& plan[10] == memory::store_u32(40, pid, true)
            &&& plan[11] == memory::store_u64(
                base,
                seqlock::next_version(seqlock::next_version(version)),
                true,
            )
            &&& plan[0].bytes.len() == 8
            &&& plan[1].bytes.len() == 8
            &&& plan[3].bytes.len() == 8
            &&& plan[4].bytes.len() == 4
            &&& plan[8].bytes.len() == 8
            &&& plan[9].bytes.len() == 8
            &&& plan[10].bytes.len() == 4
            &&& plan[11].bytes.len() == 8
        }),
{
    bytes::lemma_le_bytes_len(seqlock::next_version(version) as nat, 8);
    bytes::lemma_le_bytes_len(account.solana_slot as nat, 8);
    bytes::lemma_le_bytes_len(account.lamports as nat, 8);
    bytes::lemma_le_bytes_len((account.data.len() as u32) as nat, 4);
    bytes::lemma_le_bytes_len(now as nat, 8);
    bytes::lemma_le_bytes_len(pid as nat, 4);
    bytes::lemma_le_bytes_len(
        seqlock::next_version(seqlock::next_version(version)) as nat,
        8,
    );
}

/// A write stays within its slot and the three words of the region header that
/// it updates, and each store that publishes is one aligned word.
pub proof fn lemma_write_stores_in_place(
    base: int,
    capacity: u32,
    version: u64,
    account: AccountModel,
    now: u64,
    pid: u32,
    size: int,
    k: int,
)
    requires
        storable(account, capacity),
        slot_fits(base, capacity, size),
        base % 64 == 0,
        0 <= k < writer::write_plan(base, capacity, version, account, now, pid).len(),
    ensures
        ({
            let store = writer::write_plan(base, capacity, version, account, now, pid)[k];
            &&& store.within(size)
            &&& store.word_aligned()
            &&& base <= store.offset && store.offset + store.bytes.len() <= base + 64 + capacity
                || 24 <= store.offset && store.offset + store.bytes.len() <= 44
        }),
{
    lemma_write_plan_shape(base, capacity, version, account, now, pid);
}

/// What was written is what is read: after the stores of a write the slot
/// holds the account, under a version two further on, with zeros behind the
/// data, and the region header has the slot number and the heartbeat.
pub proof fn lemma_write_then_read(
    mem: Seq<u8>,
    base: int,
    capacity: u32,
    version: u64,
    account: AccountModel,
    now: u64,
    pid: u32,
)
    requires
        storable(account, capacity),
        slot_fits(base, capacity, mem.len() as int),
    ensures
        ({
            let after = memory::applied(
                mem,
                writer::write_plan(base, capacity, version, account, now, pid),
            );
            &&& after.len() == mem.len()
            &&& snapshot::account_at(after, base) == account
            &&& snapshot::data_len_at(after, base) == account.data.len()
            &&& snapshot::version_at(after, base) == seqlock::next_version(
                seqlock::next_version(version),
            )
            &&& after.subrange(base + 64 + account.data.len(), base + 64 + capacity)
                == memory::zeros((capacity - account.data.len()) as nat)
            &&& memory::u64_at(after, 24) == account.solana_slot
            &&& memory::u64_at(after, 32) == now
            &&& memory::u32_at(after, 40) == pid
        }),
{
    let plan = writer::write_plan(base, capacity, version, account, now, pid);
    let after = memory::applied(mem, plan);
    lemma_write_plan_shape(base, capacity, version, account, now, pid);
    memory::lemma_applied_len(mem, plan);
    memory::lemma_store_survives(mem, plan, 1);
    memory::lemma_store_survives(mem, plan, 2);
    memory::lemma_store_survives(mem, plan, 3);
    memory::lemma_store_survives(mem, plan, 4);
    memory::lemma_store_survives(mem, plan, 5);
    memory::lemma_store_survives(mem, plan, 6);
    memory::lemma_store_survives(mem, plan, 7);
    memory::lemma_store_survives(mem, plan, 8);
    memory::lemma_store_survives(mem, plan, 9);
    memory::lemma_store_survives(mem, plan, 10);
    memory::lemma_store_survives(mem, plan, 11);
    let last = seqlock::next_version(seqlock::next_version(version));
    memory::lemma_word_reads_back(after, base, last, 0);
    memory::lemma_word_reads_back(after, base + 8, account.solana_slot, 0);
    memory::lemma_word_reads_back(after, base + 48, account.lamports, 0);
    memory::lemma_word_reads_back(after, base + 56, 0, account.data.len() as u32);
    memory::lemma_word_reads_back(after, 24, account.solana_slot, 0);
    memory::lemma_word_reads_back(after, 32, now, 0);
    memory::lemma_word_reads_back(after, 40, 0, pid);
    assert(after[base + 60] == after.subrange(base + 60, base + 61)[0]);
    assert(snapshot::account_at(after, base) =~= account);
}

/// A write leaves alone every range outside its slot and outside the three
/// words of the region header that it updates.
pub proof fn lemma_write_leaves_rest(
    mem: Seq<u8>,
    base: int,
    capacity: u32,
    version: u64,
    account: AccountModel,
    now: u64,
    pid: u32,
    start: int,
    end: int,
)
    requires
        storable(account, capacity),
        slot_fits(base, capacity, mem.len() as int),
        0 <= start <= end <= mem.len(),
        end <= 24 || 44 <= start,
        end <= base || base + 64 + capacity <= start,
    ensures
        memory::applied(
            mem,
            writer::write_plan(base, capacity, version, account, now, pid),
        ).subrange(start, end) == mem.subrange(start, end),
{
    let plan = writer::write_plan(base, capacity, version, account, now, pid);
    lemma_write_plan_shape(base, capacity, version, account, now, pid);
    memory::lemma_applied_avoids(mem, plan, start, end);
}

/// The states of the region before, between and after the stores of a plan.
pub open spec fn plan_history(mem: Seq<u8>, plan: Seq<memory::StoreModel>) -> Seq<Seq<u8>> {
    Seq::new(plan.len() + 1, |k: int| memory::applied(mem, plan.take(k)))
}

/// A plan that avoids a slot does not disturb its history.
pub proof fn lemma_avoiding_history(
    mem: Seq<u8>,
    plan: Seq<memory::StoreModel>,
    base: int,
    end: int,
)
    requires
        0 <= base,
        base + 8 <= end <= mem.len(),
        forall|k: int| 0 <= k < plan.len() ==> (#[trigger] plan[k]).avoids(base, end),
    ensures
        consistency::slot_history(plan_history(mem, plan), base, end),
        plan_history(mem, plan).last() == memory::applied(mem, plan),
        memory::applied(mem, plan).subrange(base, end) == mem.subrange(base, end),
{
    let h = plan_history(mem, plan);
    assert forall|t: int| 0 <= t < h.len() implies end <= (#[trigger] h[t]).len() by {
        memory::lemma_applied_len(mem, plan.take(t));
    }
    assert forall|t: int| 0 <= t < h.len() - 1 implies consistency::slot_step(
        #[trigger] h[t],
        h[t + 1],
        base,
        end,
    ) by {
        memory::lemma_applied_next(mem, plan, t);
        assert(plan[t].avoids(base, end));
        assert(end <= h[t].len());
        assert(h[t + 1].subrange(base, end) =~= h[t].subrange(base, end));
    }
    assert(plan.take(plan.len() as int) =~= plan);
    memory::lemma_applied_avoids(mem, plan, base, end);
}

/// From its first store to its last a write keeps the version of its slot odd,
/// and it changes nothing else of the slot while the version is even.
pub proof fn lemma_write_follows_protocol(
    mem: Seq<u8>,
    base: int,
    capacity: u32,
    version: u64,
    account: AccountModel,
    now: u64,
    pid: u32,
)
    requires
        storable(account, capacity),
        slot_fits(base, capacity, mem.len() as int),
        version == snapshot::version_at(mem, base),
        version % 2 == 0,
    ensures
        ({
            let plan = writer::write_plan(base, capacity, version, account, now, pid);
            let h = plan_history(mem, plan);
            &&& consistency::slot_history(h, base, base + 64 + capacity)
            &&& h[0] == mem
            &&& h.last() == memory::applied(mem, plan)
            &&& forall|k: int|
                0 < k < plan.len() ==> snapshot::version_at(#[trigger] h[k], base)
                    == seqlock::next_version(version)
        }),
{
    let plan = writer::write_plan(base, capacity, version, account, now, pid);
    let end = base + 64 + capacity;
    let h = plan_history(mem, plan);
    let odd = seqlock::next_version(version);
    lemma_write_plan_shape(base, capacity, version, account, now, pid);
    assert(plan.take(0) =~= Seq::<memory::StoreModel>::empty());
    assert(plan.take(plan.len() as int) =~= plan);
    assert forall|t: int| 0 <= t < h.len() implies end <= (#[trigger] h[t]).len() by {
        memory::lemma_applied_len(mem, plan.take(t));
    }
    assert forall|k: int| 0 < k < plan.len() implies snapshot::version_at(
        #[trigger] h[k],
        base,
    ) == odd by {
        lemma_version_after_stores(mem, plan, base, odd, k);
    }
    assert forall|t: int| 0 <= t < h.len() - 1 implies consistency::slot_step(
        #[trigger] h[t],
        h[t + 1],
        base,
        end,
    ) by {
        let a = h[t];
        let b = h[t + 1];
        memory::lemma_applied_next(mem, plan, t);
        assert(b == plan[t].applied(a));
        if t == 0 {
            assert(snapshot::version_at(h[1], base) == odd);
            assert(b.subrange(base + 8, end) =~= a.subrange(base + 8, end));
        } else if t == 11 {
            lemma_write_then_read(mem, base, capacity, version, account, now, pid);
            assert(b.subrange(base + 8, end) =~= a.subrange(base + 8, end));
        } else {
            assert(snapshot::version_at(h[t], base) == odd);
            assert(snapshot::version_at(h[t + 1], base) == odd);
        }
    }
}

/// Once the first store of a plan has set the version, stores that avoid the
/// version word keep it.
pub proof fn lemma_version_after_stores(
    mem: Seq<u8>,
    plan: Seq<memory::StoreModel>,
    base: int,
    version: u64,
    k: int,
)
    requires
        0 < k <= plan.len(),
        0 <= base,
        base + 8 <= mem.len(),
        plan[0] == memory::store_u64(base, version, true),
        forall|j: int| 0 < j < k ==> (#[trigger] plan[j]).avoids(base, base + 8),
    ensures
        snapshot::version_at(memory::applied(mem, plan.take(k)), base) == version,
{
    let front = plan.take(k);
    bytes::lemma_le_bytes_len(version as nat, 8);
    assert forall|j: int| 0 < j < front.len() implies (#[trigger] front[j]).avoids(
        base,
        base + 8,
    ) by {
        assert(front[j] == plan[j]);
    }
    memory::lemma_store_survives(mem, front, 0);
    memory::lemma_applied_len(mem, front);
    memory::lemma_word_reads_back(memory::applied(mem, front), base, version, 0);
}

/// The region has the size for slots of the given capacities, and none of them
/// is being written.
pub open spec fn quiet(mem: Seq<u8>, capacities: Seq<u32>) -> bool {
    &&& mem.len() >= layout::region_size(capacities.len() as int, capacities)
    &&& forall|i: int|
        0 <= i < capacities.len() ==> #[trigger] snapshot::version_at(
            mem,
            layout::slot_offset(capacities, i),
        ) % 2 == 0
}

} // verus!
