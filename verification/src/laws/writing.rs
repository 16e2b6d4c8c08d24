//! What the stores of a writer make of a region.
use crate::creation;
use crate::error::{IoErrorKind, ShmError};
use crate::header;
use crate::layout;
use crate::layout::ShmConfig;
use crate::laws::lookup;
use crate::laws::opening;
use crate::laws::places;
use crate::laws::words;
use crate::memory;
use crate::memory::{Store, Value};
use crate::operations;
use crate::records;
use crate::region;
use crate::runs;
use crate::runs::Operation;
use crate::seqlock;
use crate::snapshot;
use crate::snapshot::AccountModel;
use crate::writer;
use crate::writer::ShmWriter;
use vstd::prelude::*;

verus! {

/// A store that publishes stores one aligned word.
pub open spec fn publishes_aligned_word(store: Store) -> bool {
    store.publish ==> match store.value {
        Value::U64(_) => store.offset % 8 == 0,
        Value::U32(_) => store.offset % 4 == 0,
        Value::U8(_) => true,
        _ => false,
    }
}

/// Every store ends at or before `limit`, and every store that publishes stores
/// one aligned word.
pub open spec fn performable(stores: Seq<Store>, limit: int) -> bool {
    forall|k: int|
        0 <= k < stores.len() ==> publishes_aligned_word(#[trigger] stores[k]) && stores[k].offset
            + words::size_of(stores[k].value) <= limit
}

/// Every store publishes.
pub open spec fn all_publish(stores: Seq<Store>) -> bool {
    forall|k: int| 0 <= k < stores.len() ==> (#[trigger] stores[k]).publish
}

/// No store to the header does anything but give the slot number, if there is
/// one, the heartbeat or the process id.
pub open spec fn gives_only(
    stores: Seq<Store>,
    number: Option<u64>,
    now: u64,
    pid: u32,
) -> bool {
    forall|k: int|
        0 <= k < stores.len() && (#[trigger] stores[k]).offset < 128 ==> {
            ||| number is Some && stores[k].offset == 24 && stores[k].value == Value::U64(number->0)
            ||| stores[k].offset == 32 && stores[k].value == Value::U64(now)
            ||| stores[k].offset == 40 && stores[k].value == Value::U32(pid)
        }
}

/// The regions agree on every byte outside `from..to`.
pub open spec fn same_outside(a: Seq<u8>, b: Seq<u8>, from: int, to: int) -> bool {
    &&& a.len() == b.len()
    &&& forall|k: int| 0 <= k < a.len() && !(from <= k < to) ==> #[trigger] a[k] == b[k]
}

/// A store whose model lies within a limit and is word-aligned is performable.
proof fn lemma_performable(store: Store, limit: int)
    requires
        store@.within(limit),
        store@.word_aligned(),
        store.publishes_word(),
    ensures
        publishes_aligned_word(store),
        store.offset + words::size_of(store.value) <= limit,
{
    words::lemma_value_bytes(store.value);
}

/// The value of a store that publishes a word is that word.
proof fn lemma_published_value(store: Store, offset: int, a: u64, b: u32)
    requires
        store.publishes_word(),
    ensures
        store@ == memory::store_u64(offset, a, true) ==> store.offset == offset && store.value
            == Value::U64(a),
        store@ == memory::store_u32(offset, b, true) ==> store.offset == offset && store.value
            == Value::U32(b),
{
    words::lemma_value_bytes(store.value);
    words::lemma_value_bytes(Value::U64(a));
    words::lemma_value_bytes(Value::U32(b));
}

/// A byte that no store touches is the same in every state.
proof fn lemma_kept(
    stores: Seq<Store>,
    states: Seq<Seq<u8>>,
    plan: Seq<memory::StoreModel>,
    at: int,
    t: int,
)
    requires
        words::passes_through(stores, states),
        memory::plan_of(stores) == plan,
        0 <= at < states[0].len(),
        0 <= t < states.len(),
        forall|k: int| 0 <= k < plan.len() ==> (#[trigger] plan[k]).avoids(at, at + 1),
    ensures
        states[t][at] == states[0][at],
{
    let part = plan.take(t);
    words::lemma_passed_states(stores, states, t);
    assert forall|k: int| 0 <= k < part.len() implies (#[trigger] part[k]).avoids(at, at + 1) by {
        assert(part[k] == plan[k]);
    }
    memory::lemma_applied_avoids(states[0], part, at, at + 1);
    assert(states[t][at] == states[t].subrange(at, at + 1)[0]);
    assert(states[0][at] == states[0].subrange(at, at + 1)[0]);
}

/// The final state is what the contracts say that the plan makes of the region.
proof fn lemma_final_state(stores: Seq<Store>, states: Seq<Seq<u8>>)
    requires
        words::passes_through(stores, states),
    ensures
        states.last() == memory::applied(states[0], memory::plan_of(stores)),
        states.last().len() == states[0].len(),
{
    let plan = memory::plan_of(stores);
    words::lemma_passed_states(stores, states, stores.len() as int);
    assert(plan.take(plan.len() as int) =~= plan);
}

/// A length is reported as it is, or as the largest one that can be reported.
pub proof fn law_reported_len(len: usize, reported: u32)
    requires
        call_ensures(writer::reported_len, (len,), reported),
    ensures
        len <= 0xffff_ffff ==> reported == len,
        len > 0xffff_ffff ==> reported == 0xffff_ffff,
{
}

/// A configuration is accepted exactly if it has as many capacities as accounts.
pub proof fn law_validate_config(config: ShmConfig, result: Result<(), ShmError>)
    requires
        call_ensures(writer::validate_config, (&config,), result),
    ensures
        result is Ok <==> config.accounts@.len() == config.capacities@.len(),
        result matches Err(error) ==> says_mismatch(error),
{
}

/// The error says that accounts and capacities do not match.
pub open spec fn says_mismatch(error: ShmError) -> bool {
    error matches ShmError::Io(e) && e.kind == IoErrorKind::InvalidInput && e.message@
        == "accounts and capacities length mismatch"@
}

/// What a writer answers.
pub struct WriterAnswers {
    pub key: [u8; 32],
    pub found: Option<usize>,
    pub slot: usize,
    pub offset: usize,
    pub size: usize,
}

impl WriterAnswers {
    /// The writer gives these answers.
    pub open spec fn come_from(self, writer: ShmWriter) -> bool {
        &&& call_ensures(ShmWriter::lookup, (&writer, &self.key), self.found)
        &&& call_ensures(ShmWriter::version_offset, (&writer, self.slot), self.offset)
        &&& call_ensures(ShmWriter::region_size, (&writer,), self.size)
    }

    /// The answers are right for slots with these accounts, capacities and
    /// starts.
    pub open spec fn are_right(
        self,
        keys: Seq<Seq<u8>>,
        capacities: Seq<u32>,
        starts: Seq<int>,
    ) -> bool {
        &&& lookup::found_last(keys, self.key@, self.found)
        &&& self.slot < capacities.len() ==> self.offset == starts[self.slot as int]
        &&& self.size == starts[capacities.len() as int]
    }
}

/// A writer in order answers by its accounts and capacities.
proof fn lemma_writer_answers(writer: ShmWriter, starts: Seq<int>, answers: WriterAnswers)
    requires
        writer.wf(),
        places::placed(
            writer.table().capacities().len() as int,
            writer.table().capacities(),
            starts,
        ),
        answers.come_from(writer),
    ensures
        answers.are_right(writer.table().keys(), writer.table().capacities(), starts),
        call_requires(ShmWriter::lookup, (&writer, &answers.key)),
        call_requires(ShmWriter::region_size, (&writer,)),
        answers.slot < writer.table().capacities().len() ==> call_requires(
            ShmWriter::version_offset,
            (&writer, answers.slot),
        ),
{
    let caps = writer.table().capacities();
    writer.table().lemma_wf();
    places::lemma_placed(caps, starts);
    lookup::lemma_found_last(writer.table().keys(), answers.key@);
    if answers.slot < caps.len() {
        assert(starts[answers.slot as int] == layout::slot_offset(caps, answers.slot as int));
    }
}

/// The region is new: its header has the magic number, the format version, the
/// number of slots and the writer's heartbeat, its table gives every slot its
/// account, place and capacity, and everything else up to its end is zero.
pub open spec fn is_new_region(
    mem: Seq<u8>,
    keys: Seq<Seq<u8>>,
    capacities: Seq<u32>,
    starts: Seq<int>,
    now: u64,
    pid: u32,
) -> bool {
    let n = capacities.len();
    &&& words::word64(mem, 0) == 0x53_4F4C_5348_4D01
    &&& words::word64(mem, 8) == 1
    &&& words::word32(mem, 16) == n
    &&& words::word32(mem, 20) == 0
    &&& words::word64(mem, 24) == 0
    &&& words::word64(mem, 32) == now
    &&& words::word32(mem, 40) == pid
    &&& forall|k: int| 44 <= k < 128 ==> #[trigger] mem[k] == 0
    &&& forall|i: int|
        #![trigger keys[i]]
        0 <= i < n ==> {
            &&& mem.subrange(128 + 48 * i, 128 + 48 * i + 32) == keys[i]
            &&& words::word64(mem, 128 + 48 * i + 32) == starts[i] + 64
            &&& words::word32(mem, 128 + 48 * i + 40) == capacities[i]
            &&& words::word32(mem, 128 + 48 * i + 44) == 0
        }
    &&& forall|k: int| 128 + 48 * n <= k < starts[n as int] ==> #[trigger] mem[k] == 0
}

/// The states of a creation: all zeros at first, and never ready.
proof fn lemma_creation_states(
    stores: Seq<Store>,
    states: Seq<Seq<u8>>,
    keys: Seq<Seq<u8>>,
    capacities: Seq<u32>,
    now: u64,
    pid: u32,
)
    requires
        words::passes_through(stores, states),
        memory::plan_of(stores) == writer::create_plan(keys, capacities, now, pid),
        keys.len() == capacities.len(),
        forall|k: int| 0 <= k < keys.len() ==> (#[trigger] keys[k]).len() == 32,
        states[0].len() >= layout::region_size(capacities.len() as int, capacities),
    ensures
        forall|k: int|
            0 <= k < layout::region_size(capacities.len() as int, capacities)
                ==> #[trigger] states[1][k] == 0,
        forall|t: int, k: int|
            1 <= t < states.len() && (k == 44 || 128 + 48 * capacities.len() <= k
                < layout::region_size(capacities.len() as int, capacities))
                ==> #[trigger] states[t][k] == 0,
{
    let plan = writer::create_plan(keys, capacities, now, pid);
    let n = capacities.len() as int;
    let size = layout::region_size(n, capacities);
    creation::lemma_create_plan_shape(keys, capacities, now, pid, size);
    layout::lemma_table_precedes_slots(capacities);
    words::lemma_passed_states(stores, states, 1);
    memory::lemma_applied_next(states[0], plan, 0);
    assert(plan.take(0) =~= Seq::<memory::StoreModel>::empty());
    assert forall|t: int, k: int|
        1 <= t < states.len() && (k == 44 || 128 + 48 * n <= k
            < size) implies #[trigger] states[t][k] == 0 by {
        lemma_creation_byte(stores, states, keys, capacities, now, pid, t, k);
    }
}

/// A byte that creation leaves zero, by induction over its stores.
proof fn lemma_creation_byte(
    stores: Seq<Store>,
    states: Seq<Seq<u8>>,
    keys: Seq<Seq<u8>>,
    capacities: Seq<u32>,
    now: u64,
    pid: u32,
    t: int,
    k: int,
)
    requires
        words::passes_through(stores, states),
        memory::plan_of(stores) == writer::create_plan(keys, capacities, now, pid),
        keys.len() == capacities.len(),
        forall|k: int| 0 <= k < keys.len() ==> (#[trigger] keys[k]).len() == 32,
        states[0].len() >= layout::region_size(capacities.len() as int, capacities),
        1 <= t < states.len(),
        k == 44 || 128 + 48 * capacities.len() <= k < layout::region_size(
            capacities.len() as int,
            capacities,
        ),
    ensures
        states[t][k] == 0,
    decreases t,
{
    let plan = writer::create_plan(keys, capacities, now, pid);
    let n = capacities.len() as int;
    creation::lemma_create_plan_shape(
        keys,
        capacities,
        now,
        pid,
        layout::region_size(n, capacities),
    );
    layout::lemma_table_precedes_slots(capacities);
    words::lemma_passed_states(stores, states, t - 1);
    words::lemma_passed_states(stores, states, t);
    memory::lemma_applied_next(states[0], plan, t - 1);
    assert(states[t] == plan[t - 1].applied(states[t - 1]));
    if t > 1 {
        lemma_creation_byte(stores, states, keys, capacities, now, pid, t - 1, k);
    }
    if t == 2 && k == 44 {
        records::lemma_word_lengths();
        assert(writer::fresh_header_bytes(n as u32)[44] == 0);
    }
    if 2 < t <= n + 2 {
        assert(plan[t - 3 + 2] == writer::entry_store(keys, capacities, t - 3));
    }
}

/// A region is created exactly if there are as many capacities as accounts. Its
/// stores make a new region of any memory that is large enough, whatever was
/// in it, and touch nothing behind its end: they zero it first, and from then
/// on it is not ready and its slots are empty. The writer knows its slots.
pub proof fn law_create(
    config: ShmConfig,
    now: u64,
    pid: u32,
    result: Result<(ShmWriter, Vec<Store>), ShmError>,
    starts: Seq<int>,
    states: Seq<Seq<u8>>,
    answers: WriterAnswers,
)
    requires
        call_ensures(ShmWriter::create, (&config, now, pid), result),
        config.accounts@.len() <= u32::MAX,
        places::placed(config.capacities@.len() as int, config.capacities@, starts),
        starts[config.capacities@.len() as int] <= usize::MAX,
        result matches Ok((writer, stores)) ==> {
            &&& answers.come_from(writer)
            &&& words::passes_through(stores@, states)
            &&& states[0].len() >= starts[config.capacities@.len() as int]
        },
    ensures
        call_requires(ShmWriter::create, (&config, now, pid)),
        result is Ok <==> config.accounts@.len() == config.capacities@.len(),
        result matches Err(error) ==> says_mismatch(error),
        result matches Ok((writer, stores)) ==> {
            let end = starts[config.capacities@.len() as int];
            &&& performable(stores@, end)
            &&& states.last().len() == states[0].len()
            &&& is_new_region(
                states.last(),
                places::keys_of(config.accounts@),
                config.capacities@,
                starts,
                now,
                pid,
            )
            &&& states.last().skip(end) == states[0].skip(end)
            &&& forall|k: int| 0 <= k < end ==> #[trigger] states[1][k] == 0
            &&& forall|t: int, k: int|
                1 <= t < states.len() && (k == 44 || 128 + 48 * config.capacities@.len() <= k < end)
                    ==> #[trigger] states[t][k] == 0
            &&& answers.are_right(
                places::keys_of(config.accounts@),
                config.capacities@,
                starts,
            )
        },
{
    let caps = config.capacities@;
    let n = caps.len() as int;
    let keys = places::keys_of(config.accounts@);
    places::lemma_placed(caps, starts);
    if let Ok((writer, stores)) = result {
        assert(keys =~= config.accounts@.map_values(|key: [u8; 32]| key@));
        let mem = states[0];
        let after = states.last();
        let plan = writer::create_plan(keys, caps, now, pid);
        lemma_writer_answers(writer, starts, answers);
        lemma_final_state(stores@, states);
        assert forall|k: int| 0 <= k < keys.len() implies (#[trigger] keys[k]).len() == 32 by {}
        creation::lemma_create_then_open(mem, keys, caps, now, pid);
        layout::lemma_table_precedes_slots(caps);
        assert forall|k: int| 0 <= k < stores@.len() implies publishes_aligned_word(
            #[trigger] stores@[k],
        ) && stores@[k].offset + words::size_of(stores@[k].value) <= starts[n] by {
            creation::lemma_create_stores_in_place(keys, caps, now, pid, k);
            assert(plan[k] == stores@[k]@);
            lemma_performable(stores@[k], starts[n]);
        }
        lemma_creation_states(stores@, states, keys, caps, now, pid);
        opening::lemma_header(after);
        words::lemma_words(after, 20);
        words::lemma_words(after, 24);
        words::lemma_words(after, 32);
        words::lemma_words(after, 40);
        assert forall|k: int| 44 <= k < 128 implies #[trigger] after[k] == 0 by {
            if k > 44 {
                assert(after[k] == after.subrange(45, 128)[k - 45]);
            }
        }
        assert forall|i: int|
            #![trigger keys[i]]
            0 <= i < n implies {
            &&& after.subrange(128 + 48 * i, 128 + 48 * i + 32) == keys[i]
            &&& words::word64(after, 128 + 48 * i + 32) == starts[i] + 64
            &&& words::word32(after, 128 + 48 * i + 40) == caps[i]
            &&& words::word32(after, 128 + 48 * i + 44) == 0
        } by {
            words::lemma_words(after, 128 + 48 * i + 32);
            words::lemma_words(after, 128 + 48 * i + 40);
            words::lemma_words(after, 128 + 48 * i + 44);
            assert(region::table_keys(after, n as nat)[i] == keys[i]);
            assert(region::table_capacities(after, n as nat)[i] == caps[i]);
            assert(region::entry_data_offset(after, i) == layout::slot_offset(caps, i) + 64);
            assert(memory::u32_at(after, layout::entry_offset(i) + 44) == 0);
            assert(starts[i] == layout::slot_offset(caps, i));
        }
    }
}

/// A writer opens a region exactly if header and table are right; it then knows
/// the slots, and its stores do no more than put its heartbeat and its process
/// id into the header.
pub proof fn law_open_writer(
    mem: &[u8],
    now: u64,
    pid: u32,
    starts: Seq<int>,
    result: Result<(ShmWriter, Vec<Store>), ShmError>,
    states: Seq<Seq<u8>>,
    answers: WriterAnswers,
)
    requires
        128 <= mem@.len(),
        places::placed(
            opening::count_in(mem@),
            opening::capacities_in(mem@, opening::count_in(mem@)),
            starts,
        ),
        call_ensures(ShmWriter::open, (mem, now, pid), result),
        result matches Ok((writer, stores)) ==> {
            &&& answers.come_from(writer)
            &&& words::passes_through(stores@, states)
            &&& states[0].len() >= 128
        },
    ensures
        opening::judged(mem@, starts, opening::error_of(result)),
        result matches Ok((writer, stores)) ==> {
            &&& answers.are_right(
                opening::keys_in(mem@, opening::count_in(mem@)),
                opening::capacities_in(mem@, opening::count_in(mem@)),
                starts,
            )
            &&& performable(stores@, 128)
            &&& all_publish(stores@)
            &&& words::word64(states.last(), 32) == now
            &&& words::word32(states.last(), 40) == pid
            &&& gives_only(stores@, None, now, pid)
            &&& forall|t: int|
                0 <= t < states.len() ==> same_outside(#[trigger] states[t], states[0], 32, 44)
        },
{
    opening::lemma_judged(mem@, starts, opening::error_of(result));
    if let Ok((writer, stores)) = result {
        opening::lemma_header(mem@);
        opening::lemma_table(mem@, opening::count_in(mem@));
        lemma_writer_answers(writer, starts, answers);
        lemma_header_stores(stores@, states, Operation::Attach { now, pid }, Seq::empty());
    }
}

/// What the operations on the header do, in terms of the words there.
proof fn lemma_header_stores(
    stores: Seq<Store>,
    states: Seq<Seq<u8>>,
    op: Operation,
    capacities: Seq<u32>,
)
    requires
        op !is Write,
        op !is Ready,
        words::passes_through(stores, states),
        states[0].len() >= 128,
        memory::plan_of(stores) == runs::operation_plan(states[0], capacities, op),
        memory::publish_words(stores),
        capacities.len() == 0,
    ensures
        performable(stores, 128),
        all_publish(stores),
        words::word64(states.last(), 24) == match header::number_given(op) {
            Some(number) => number as int,
            None => words::word64(states[0], 24),
        },
        words::word64(states.last(), 32) == match header::beat_given(op) {
            Some(beat) => beat.0 as int,
            None => words::word64(states[0], 32),
        },
        words::word32(states.last(), 40) == match header::beat_given(op) {
            Some(beat) => beat.1 as int,
            None => words::word32(states[0], 40),
        },
        forall|t: int|
            0 <= t < states.len() ==> same_outside(
                #[trigger] states[t],
                states[0],
                if op is GlobalSlot {
                    24
                } else {
                    32
                },
                44,
            ),
        header::beat_given(op) matches Some(beat) ==> gives_only(
            stores,
            header::number_given(op),
            beat.0,
            beat.1,
        ),
{
    let plan = runs::operation_plan(states[0], capacities, op);
    let after = states.last();
    let before = states[0];
    lemma_final_state(stores, states);
    assert forall|k: int| 0 <= k < stores.len() implies publishes_aligned_word(#[trigger] stores[k])
        && stores[k].offset + words::size_of(stores[k].value) <= 128 && stores[k].publish by {
        runs::lemma_header_operation(before, capacities, op, k);
        assert(plan[k] == stores[k]@);
        lemma_performable(stores[k], 128);
    }
    assert(layout::region_size(0, capacities) == 128);
    header::lemma_operation_header_words(before, capacities, op);
    words::lemma_words(after, 24);
    words::lemma_words(after, 32);
    words::lemma_words(after, 40);
    words::lemma_words(before, 24);
    words::lemma_words(before, 32);
    words::lemma_words(before, 40);
    header::lemma_word_lengths_of(op);
    let from: int = if op is GlobalSlot {
        24
    } else {
        32
    };
    assert forall|t: int| 0 <= t < states.len() implies same_outside(
        #[trigger] states[t],
        before,
        from,
        44,
    ) by {
        words::lemma_passed_states(stores, states, t);
        assert forall|k: int| 0 <= k < before.len() && !(from <= k < 44) implies #[trigger] states[t][k]
            == before[k] by {
            assert forall|j: int| 0 <= j < plan.len() implies (#[trigger] plan[j]).avoids(
                k,
                k + 1,
            ) by {}
            lemma_kept(stores, states, plan, k, t);
        }
    }
    if let Some(beat) = header::beat_given(op) {
        assert forall|k: int| 0 <= k < stores.len() && (#[trigger] stores[k]).offset < 128 implies {
            ||| header::number_given(op) is Some && stores[k].offset == 24 && stores[k].value
                == Value::U64(header::number_given(op)->0)
            ||| stores[k].offset == 32 && stores[k].value == Value::U64(beat.0)
            ||| stores[k].offset == 40 && stores[k].value == Value::U32(beat.1)
        } by {
            assert(plan[k] == stores[k]@);
            lemma_published_value(stores[k], 24, header::number_given(op)->0, 0);
            lemma_published_value(stores[k], 32, beat.0, 0);
            lemma_published_value(stores[k], 40, 0, beat.1);
        }
    }
}

/// A heartbeat puts time and process id into the header, and does nothing else.
pub proof fn law_update_heartbeat(
    writer: ShmWriter,
    now: u64,
    pid: u32,
    stores: Vec<Store>,
    states: Seq<Seq<u8>>,
)
    requires
        call_ensures(ShmWriter::update_heartbeat, (&writer, now, pid), stores),
        words::passes_through(stores@, states),
        states[0].len() >= 128,
    ensures
        call_requires(ShmWriter::update_heartbeat, (&writer, now, pid)),
        performable(stores@, 128),
        all_publish(stores@),
        words::word64(states.last(), 32) == now,
        words::word32(states.last(), 40) == pid,
        gives_only(stores@, None, now, pid),
        forall|t: int|
            0 <= t < states.len() ==> same_outside(#[trigger] states[t], states[0], 32, 44),
{
    lemma_header_stores(stores@, states, Operation::Heartbeat { now, pid }, Seq::empty());
}

/// A new global slot number goes into the header, together with a heartbeat, and
/// nothing else changes.
pub proof fn law_update_global_slot(
    writer: ShmWriter,
    number: u64,
    now: u64,
    pid: u32,
    stores: Vec<Store>,
    states: Seq<Seq<u8>>,
)
    requires
        call_ensures(ShmWriter::update_global_slot, (&writer, number, now, pid), stores),
        words::passes_through(stores@, states),
        states[0].len() >= 128,
    ensures
        call_requires(ShmWriter::update_global_slot, (&writer, number, now, pid)),
        performable(stores@, 128),
        all_publish(stores@),
        words::word64(states.last(), 24) == number,
        words::word64(states.last(), 32) == now,
        words::word32(states.last(), 40) == pid,
        gives_only(stores@, Some(number), now, pid),
        forall|t: int|
            0 <= t < states.len() ==> same_outside(#[trigger] states[t], states[0], 24, 44),
{
    lemma_header_stores(
        stores@,
        states,
        Operation::GlobalSlot { number, now, pid },
        Seq::empty(),
    );
}

/// Declaring the region ready sets the flag to one, in one published byte.
pub proof fn law_set_ready(writer: ShmWriter, ready: Store, before: Seq<u8>, after: Seq<u8>)
    requires
        call_ensures(ShmWriter::set_ready, (&writer,), ready),
        words::performed(before, ready, after),
    ensures
        call_requires(ShmWriter::set_ready, (&writer,)),
        ready.publish,
        publishes_aligned_word(ready),
        ready.offset == 44,
        words::size_of(ready.value) == 1,
        after[44] == 1,
        same_outside(after, before, 44, 45),
{
    words::lemma_performed_applied(before, ready, after);
    lemma_performable(ready, 45);
}

/// What a write is called with, but for the writer.
pub struct WriteCall<'a> {
    pub key: [u8; 32],
    pub owner: [u8; 32],
    pub lamports: u64,
    pub executable: bool,
    pub rent_epoch: u64,
    pub data: &'a [u8],
    pub slot: u64,
    pub version: u64,
    pub now: u64,
    pub pid: u32,
}

impl<'a> WriteCall<'a> {
    /// The writer returned `result`.
    pub open spec fn returned(
        self,
        writer: ShmWriter,
        result: Result<Vec<Store>, ShmError>,
    ) -> bool {
        call_ensures(
            ShmWriter::write_account,
            (
                &writer,
                &self.key,
                &self.owner,
                self.lamports,
                self.executable,
                self.rent_epoch,
                self.data,
                self.slot,
                self.version,
                self.now,
                self.pid,
            ),
            result,
        )
    }

    /// The call may be made.
    pub open spec fn allowed(self, writer: ShmWriter) -> bool {
        call_requires(
            ShmWriter::write_account,
            (
                &writer,
                &self.key,
                &self.owner,
                self.lamports,
                self.executable,
                self.rent_epoch,
                self.data,
                self.slot,
                self.version,
                self.now,
                self.pid,
            ),
        )
    }

    /// The slot at `base` holds the account.
    pub open spec fn stands(self, mem: Seq<u8>, base: int, capacity: int) -> bool {
        &&& words::word64(mem, base + 8) == self.slot
        &&& forall|k: int| 0 <= k < 32 ==> mem[base + 16 + k] == #[trigger] self.owner@[k]
        &&& words::word64(mem, base + 48) == self.lamports
        &&& words::word32(mem, base + 56) == self.data@.len()
        &&& mem[base + 60] == if self.executable {
            1u8
        } else {
            0u8
        }
        &&& forall|k: int|
            0 <= k < self.data@.len() ==> mem[base + 64 + k] == #[trigger] self.data@[k]
        &&& forall|k: int|
            base + 64 + self.data@.len() <= k < base + 64 + capacity ==> #[trigger] mem[k] == 0
    }

    /// The account as the contracts have it.
    pub open spec fn account(self) -> AccountModel {
        AccountModel {
            owner: self.owner@,
            lamports: self.lamports,
            data: self.data@,
            executable: self.executable,
            solana_slot: self.slot,
        }
    }

    /// The states are those of a write to the slot at `base`. It begins and
    /// ends with stores that move the version on by one and publish it, and
    /// change nothing else; in between the version stays. In the end the slot
    /// holds the account, and the header has slot number, heartbeat and process
    /// id; everything else is at every moment as it was.
    pub open spec fn writes(
        self,
        stores: Seq<Store>,
        states: Seq<Seq<u8>>,
        base: int,
        capacity: int,
    ) -> bool {
        let last = states.len() - 1;
        let before = states[0];
        let after = states[last];
        &&& last >= 2
        &&& stores[0].publish && stores[last - 1].publish
        &&& same_outside(states[1], before, base, base + 8)
        &&& same_outside(after, states[last - 1], base, base + 8)
        &&& forall|t: int|
            0 < t < last ==> words::word64(#[trigger] states[t], base) == (self.version + 1)
                % 0x1_0000_0000_0000_0000
        &&& words::word64(after, base) == (self.version + 2) % 0x1_0000_0000_0000_0000
        &&& self.stands(after, base, capacity)
        &&& words::word64(after, 24) == self.slot
        &&& words::word64(after, 32) == self.now
        &&& words::word32(after, 40) == self.pid
        &&& after.len() == before.len()
        &&& forall|t: int, k: int|
            0 <= t <= last && 0 <= k < before.len() && !(24 <= k < 44) && !(base <= k < base + 61)
                && !(base + 64 <= k < base + 64 + capacity) ==> #[trigger] states[t][k]
                == before[k]
        &&& forall|k: int|
            0 <= k < stores.len() && (#[trigger] stores[k]).offset < 128 ==> stores[k].publish
        &&& gives_only(stores, Some(self.slot), self.now, self.pid)
    }
}

/// The stores are those of a write to the slot at `base`, in a region of `end`
/// bytes.
pub open spec fn are_write_stores(
    stores: Seq<Store>,
    base: int,
    capacity: u32,
    call: WriteCall,
    end: int,
) -> bool {
    &&& memory::plan_of(stores) == writer::write_plan(
        base,
        capacity,
        call.version,
        call.account(),
        call.now,
        call.pid,
    )
    &&& memory::publish_words(stores)
    &&& call.data@.len() <= capacity
    &&& 128 <= base
    &&& base % 64 == 0
    &&& base + 64 + capacity <= end
}

/// The stores of a write can be performed, and those to the header publish.
proof fn lemma_write_performable(
    stores: Seq<Store>,
    base: int,
    capacity: u32,
    call: WriteCall,
    end: int,
)
    requires
        are_write_stores(stores, base, capacity, call, end),
    ensures
        performable(stores, end),
        stores.len() == 12,
        stores[0].publish,
        stores[11].publish,
        stores[0].offset == base,
        stores[11].offset == base,
        words::size_of(stores[0].value) == 8,
        words::size_of(stores[11].value) == 8,
        forall|k: int|
            0 <= k < stores.len() && (#[trigger] stores[k]).offset < 128 ==> stores[k].publish,
        gives_only(stores, Some(call.slot), call.now, call.pid),
{
    let account = call.account();
    let plan = writer::write_plan(base, capacity, call.version, account, call.now, call.pid);
    operations::lemma_write_plan_shape(
        base,
        capacity,
        call.version,
        account,
        call.now,
        call.pid,
    );
    assert forall|k: int| 0 <= k < stores.len() implies publishes_aligned_word(#[trigger] stores[k])
        && stores[k].offset + words::size_of(stores[k].value) <= end by {
        operations::lemma_write_stores_in_place(
            base,
            capacity,
            call.version,
            account,
            call.now,
            call.pid,
            end,
            k,
        );
        assert(plan[k] == stores[k]@);
        lemma_performable(stores[k], end);
    }
    assert forall|k: int| 0 <= k < stores.len() && (#[trigger] stores[k]).offset < 128 implies
    stores[k].publish && {
        ||| stores[k].offset == 24 && stores[k].value == Value::U64(call.slot)
        ||| stores[k].offset == 32 && stores[k].value == Value::U64(call.now)
        ||| stores[k].offset == 40 && stores[k].value == Value::U32(call.pid)
    } by {
        assert(plan[k] == stores[k]@);
        lemma_published_value(stores[k], 24, call.slot, 0);
        lemma_published_value(stores[k], 32, call.now, 0);
        lemma_published_value(stores[k], 40, 0, call.pid);
    }
    assert(plan[0] == stores[0]@);
    assert(plan[11] == stores[11]@);
    words::lemma_value_bytes(stores[0].value);
    words::lemma_value_bytes(stores[11].value);
}

/// The version through the states of a write.
proof fn lemma_write_versions(
    stores: Seq<Store>,
    states: Seq<Seq<u8>>,
    base: int,
    capacity: u32,
    call: WriteCall,
    end: int,
)
    requires
        are_write_stores(stores, base, capacity, call, end),
        words::passes_through(stores, states),
        states[0].len() >= end,
    ensures
        forall|t: int|
            0 < t < 12 ==> words::word64(#[trigger] states[t], base) == (call.version + 1)
                % 0x1_0000_0000_0000_0000,
{
    let account = call.account();
    let plan = writer::write_plan(base, capacity, call.version, account, call.now, call.pid);
    operations::lemma_write_plan_shape(
        base,
        capacity,
        call.version,
        account,
        call.now,
        call.pid,
    );
    assert forall|t: int| 0 < t < 12 implies words::word64(#[trigger] states[t], base) == (
    call.version + 1) % 0x1_0000_0000_0000_0000 by {
        words::lemma_passed_states(stores, states, t);
        operations::lemma_version_after_stores(
            states[0],
            plan,
            base,
            seqlock::next_version(call.version),
            t,
        );
        words::lemma_words(states[t], base);
    }
}

/// What stands in the slot and in the header after a write.
proof fn lemma_write_stands(
    stores: Seq<Store>,
    states: Seq<Seq<u8>>,
    base: int,
    capacity: u32,
    call: WriteCall,
    end: int,
)
    requires
        are_write_stores(stores, base, capacity, call, end),
        words::passes_through(stores, states),
        states[0].len() >= end,
    ensures
        words::word64(states.last(), base) == (call.version + 2) % 0x1_0000_0000_0000_0000,
        call.stands(states.last(), base, capacity as int),
        words::word64(states.last(), 24) == call.slot,
        words::word64(states.last(), 32) == call.now,
        words::word32(states.last(), 40) == call.pid,
        states.last().len() == states[0].len(),
{
    let account = call.account();
    let before = states[0];
    let after = states.last();
    let plan = writer::write_plan(base, capacity, call.version, account, call.now, call.pid);
    lemma_final_state(stores, states);
    operations::lemma_write_plan_shape(
        base,
        capacity,
        call.version,
        account,
        call.now,
        call.pid,
    );
    operations::lemma_write_then_read(
        before,
        base,
        capacity,
        call.version,
        account,
        call.now,
        call.pid,
    );
    words::lemma_words(after, base);
    words::lemma_words(after, base + 8);
    words::lemma_words(after, base + 48);
    words::lemma_words(after, base + 56);
    words::lemma_words(after, 24);
    words::lemma_words(after, 32);
    words::lemma_words(after, 40);
    let held = snapshot::account_at(after, base);
    assert forall|k: int| 0 <= k < 32 implies after[base + 16 + k] == #[trigger] call.owner@[k] by {
        assert(held.owner[k] == after[base + 16 + k]);
    }
    assert forall|k: int| 0 <= k < call.data@.len() implies after[base + 64 + k]
        == #[trigger] call.data@[k] by {
        assert(held.data[k] == after[base + 64 + k]);
    }
    memory::lemma_store_survives(before, plan, 5);
    assert(after[base + 60] == after.subrange(base + 60, base + 61)[0]);
    let rest = after.subrange(base + 64 + call.data@.len(), base + 64 + capacity);
    assert forall|k: int|
        base + 64 + call.data@.len() <= k < base + 64 + capacity implies #[trigger] after[k]
        == 0 by {
        assert(after[k] == rest[k - (base + 64 + call.data@.len())]);
    }
}

/// What a write leaves alone.
proof fn lemma_write_keeps(
    stores: Seq<Store>,
    states: Seq<Seq<u8>>,
    base: int,
    capacity: u32,
    call: WriteCall,
    end: int,
)
    requires
        are_write_stores(stores, base, capacity, call, end),
        words::passes_through(stores, states),
        states[0].len() >= end,
    ensures
        forall|t: int, k: int|
            0 <= t <= 12 && 0 <= k < states[0].len() && !(24 <= k < 44) && !(base <= k < base + 61)
                && !(base + 64 <= k < base + 64 + capacity) ==> #[trigger] states[t][k]
                == states[0][k],
{
    let account = call.account();
    let plan = writer::write_plan(base, capacity, call.version, account, call.now, call.pid);
    operations::lemma_write_plan_shape(
        base,
        capacity,
        call.version,
        account,
        call.now,
        call.pid,
    );
    assert forall|t: int, k: int|
        0 <= t <= 12 && 0 <= k < states[0].len() && !(24 <= k < 44) && !(base <= k < base + 61)
            && !(base + 64 <= k < base + 64 + capacity) implies #[trigger] states[t][k]
        == states[0][k] by {
        assert forall|j: int| 0 <= j < plan.len() implies (#[trigger] plan[j]).avoids(
            k,
            k + 1,
        ) by {}
        lemma_kept(stores, states, plan, k, t);
    }
}

/// The stores of a write do what a write does.
proof fn lemma_write_effect(
    stores: Seq<Store>,
    states: Seq<Seq<u8>>,
    base: int,
    capacity: u32,
    call: WriteCall,
    end: int,
)
    requires
        are_write_stores(stores, base, capacity, call, end),
        words::passes_through(stores, states),
        states[0].len() >= end,
    ensures
        performable(stores, end),
        call.writes(stores, states, base, capacity as int),
{
    lemma_write_performable(stores, base, capacity, call, end);
    lemma_write_versions(stores, states, base, capacity, call, end);
    lemma_write_stands(stores, states, base, capacity, call, end);
    lemma_write_keeps(stores, states, base, capacity, call, end);
    assert(words::performed(states[0], stores[0], states[0int + 1]));
    assert(words::performed(states[11], stores[11], states[11int + 1]));
}

/// What a writer in order returns for a write is right, and its stores do what
/// a write does.
pub proof fn lemma_write(
    writer: ShmWriter,
    starts: Seq<int>,
    call: WriteCall,
    result: Result<Vec<Store>, ShmError>,
    states: Seq<Seq<u8>>,
) -> (slot: Option<usize>)
    requires
        writer.wf(),
        places::placed(
            writer.table().capacities().len() as int,
            writer.table().capacities(),
            starts,
        ),
        call.returned(writer, result),
        result matches Ok(stores) ==> {
            &&& words::passes_through(stores@, states)
            &&& states[0].len() >= starts[writer.table().capacities().len() as int]
        },
    ensures
        call.allowed(writer),
        is_right_write(
            writer.table().keys(),
            writer.table().capacities(),
            starts,
            call,
            result,
            states,
            slot,
        ),
{
    let caps = writer.table().capacities();
    let keys = writer.table().keys();
    writer.table().lemma_wf();
    places::lemma_placed(caps, starts);
    lookup::lemma_found_last(keys, call.key@);
    let slot = writer.table().slot_of(call.key@);
    if slot is Some && result is Ok {
        let i = slot->0 as int;
        let stores = result->Ok_0@;
        let base = starts[i];
        let capacity = caps[i];
        let end = starts[caps.len() as int];
        assert(base == layout::slot_offset(caps, i));
        layout::lemma_slot_in_region(caps, i);
        assert(are_write_stores(stores, base, capacity, call, end));
        lemma_write_effect(stores, states, base, capacity, call, end);
        words::lemma_words(states[0], base);
    }
    slot
}

/// An account without a slot is not found. One with more data than its slot can
/// hold is refused, with both sizes. Every other is written to the place of its
/// slot, by the stores of [`Operation::Write`].
pub open spec fn is_right_write(
    keys: Seq<Seq<u8>>,
    capacities: Seq<u32>,
    starts: Seq<int>,
    call: WriteCall,
    result: Result<Vec<Store>, ShmError>,
    states: Seq<Seq<u8>>,
    slot: Option<usize>,
) -> bool {
    &&& lookup::found_last(keys, call.key@, slot)
    &&& slot is None ==> (result matches Err(error) && error is PubkeyNotFound)
    &&& slot matches Some(i) ==> {
        let capacity = capacities[i as int];
        &&& i < capacities.len()
        &&& result is Ok <==> call.data@.len() <= capacity
        &&& result matches Err(error) ==> (error matches ShmError::SlotOverflow {
            actual,
            capacity: c,
        } && c == capacity && (call.data@.len() <= 0xffff_ffff ==> actual == call.data@.len()) && (
        call.data@.len() > 0xffff_ffff ==> actual == 0xffff_ffff))
        &&& result matches Ok(stores) ==> {
            &&& performable(stores@, starts[capacities.len() as int])
            &&& call.writes(stores@, states, starts[i as int], capacity as int)
            &&& (call.version == words::word64(states[0], starts[i as int]) ==> memory::plan_of(
                stores@,
            ) == runs::operation_plan(
                states[0],
                capacities,
                Operation::Write {
                    slot: i as int,
                    account: call.account(),
                    now: call.now,
                    pid: call.pid,
                },
            ))
        }
    }
}

/// The writer of a region that it created writes every account to the place of
/// its slot, and leaves everything else alone.
pub proof fn law_write_after_create(
    config: ShmConfig,
    now: u64,
    pid: u32,
    writer: ShmWriter,
    created: Vec<Store>,
    starts: Seq<int>,
    call: WriteCall,
    result: Result<Vec<Store>, ShmError>,
    states: Seq<Seq<u8>>,
) -> (slot: Option<usize>)
    requires
        call_ensures(ShmWriter::create, (&config, now, pid), Ok((writer, created))),
        places::placed(config.capacities@.len() as int, config.capacities@, starts),
        call.returned(writer, result),
        result matches Ok(stores) ==> {
            &&& words::passes_through(stores@, states)
            &&& states[0].len() >= starts[config.capacities@.len() as int]
        },
    ensures
        call.allowed(writer),
        is_right_write(
            places::keys_of(config.accounts@),
            config.capacities@,
            starts,
            call,
            result,
            states,
            slot,
        ),
{
    assert(places::keys_of(config.accounts@) =~= config.accounts@.map_values(
        |key: [u8; 32]| key@,
    ));
    lemma_write(writer, starts, call, result, states)
}

/// The writer of a region that it opened writes every account to the place that
/// the table of the region gives, and leaves everything else alone.
pub proof fn law_write_after_open(
    mem: &[u8],
    now: u64,
    pid: u32,
    writer: ShmWriter,
    attached: Vec<Store>,
    starts: Seq<int>,
    call: WriteCall,
    result: Result<Vec<Store>, ShmError>,
    states: Seq<Seq<u8>>,
) -> (slot: Option<usize>)
    requires
        128 <= mem@.len(),
        places::placed(
            opening::count_in(mem@),
            opening::capacities_in(mem@, opening::count_in(mem@)),
            starts,
        ),
        call_ensures(ShmWriter::open, (mem, now, pid), Ok((writer, attached))),
        call.returned(writer, result),
        result matches Ok(stores) ==> {
            &&& words::passes_through(stores@, states)
            &&& states[0].len() >= starts[opening::count_in(mem@)]
        },
    ensures
        call.allowed(writer),
        is_right_write(
            opening::keys_in(mem@, opening::count_in(mem@)),
            opening::capacities_in(mem@, opening::count_in(mem@)),
            starts,
            call,
            result,
            states,
            slot,
        ),
        slot matches Some(i) ==> starts[i as int] + 64 == words::word64(
            mem@,
            128 + 48 * i + 32,
        ),
{
    opening::lemma_header(mem@);
    opening::lemma_judged(mem@, starts, None);
    opening::lemma_table(mem@, opening::count_in(mem@));
    let slot = lemma_write(writer, starts, call, result, states);
    if let Some(i) = slot {
        assert(starts[i as int] + 64 == words::word64(mem@, 128 + 48 * i + 32));
    }
    slot
}

} // verus!
