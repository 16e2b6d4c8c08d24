//! Where the slots of a region lie.
use crate::layout;
use crate::layout::ShmLayout;
use crate::laws::lookup;
use crate::table::SlotTable;
use vstd::prelude::*;

verus! {

/// Slots of the given capacities lie one behind the other from `starts[0]` on,
/// each with the least room that is a multiple of 64 and holds its header of 64
/// bytes and its data. The last start is the end of the row.
pub open spec fn in_a_row(capacities: Seq<u32>, starts: Seq<int>) -> bool {
    &&& starts.len() == capacities.len() + 1
    &&& forall|j: int|
        #![trigger capacities[j]]
        0 <= j < capacities.len() ==> {
            &&& (starts[j + 1] - starts[j]) % 64 == 0
            &&& starts[j] + 64 + capacities[j] <= starts[j + 1]
            &&& starts[j + 1] < starts[j] + 64 + capacities[j] + 64
        }
}

/// The row of slots begins at the first multiple of 64 behind a header of 128
/// bytes and a table with 48 bytes for each slot.
pub open spec fn placed(num_slots: int, capacities: Seq<u32>, starts: Seq<int>) -> bool {
    &&& in_a_row(capacities, starts)
    &&& starts[0] % 64 == 0
    &&& 128 + 48 * num_slots <= starts[0]
    &&& starts[0] < 128 + 48 * num_slots + 64
}

/// The numbers of the format.
pub proof fn law_format()
    ensures
        layout::SHM_MAGIC == 0x53_4F4C_5348_4D01,
        layout::SHM_FORMAT_VERSION == 1,
        layout::SHM_HEADER_SIZE == 128,
        layout::OFFSET_ENTRY_SIZE == 48,
        layout::SLOT_HEADER_SIZE == 64,
        layout::SLOT_ALIGN == 64,
        layout::GLOBAL_SLOT_OFFSET == 24,
        layout::HEARTBEAT_OFFSET == 32,
        layout::WRITER_PID_OFFSET == 40,
        layout::READY_OFFSET == 44,
{
}

/// A row is as long as the contracts say.
pub proof fn lemma_row(capacities: Seq<u32>, starts: Seq<int>, i: int)
    requires
        in_a_row(capacities, starts),
        0 <= i <= capacities.len(),
    ensures
        starts[i] == starts[0] + layout::slots_room(capacities.take(i)),
        starts[0] <= starts[i],
    decreases i,
{
    if i == 0 {
        assert(capacities.take(0).len() == 0);
    } else {
        lemma_row(capacities, starts, i - 1);
        layout::lemma_slots_room_prefix(capacities, i - 1);
        let c = capacities[i - 1];
        let room = starts[i - 1 + 1] - starts[i - 1];
        layout::lemma_slot_room_is_least(c);
        assert(room % 64 == 0);
    }
}

/// Placed slots lie where the contracts say.
pub proof fn lemma_placed(capacities: Seq<u32>, starts: Seq<int>)
    requires
        placed(capacities.len() as int, capacities, starts),
    ensures
        starts[0] == layout::data_start(capacities.len() as int),
        forall|i: int|
            0 <= i <= capacities.len() ==> #[trigger] starts[i] == layout::slot_offset(
                capacities,
                i,
            ),
        starts[capacities.len() as int] == layout::region_size(
            capacities.len() as int,
            capacities,
        ),
{
    assert forall|i: int| 0 <= i <= capacities.len() implies #[trigger] starts[i]
        == layout::slot_offset(capacities, i) by {
        lemma_row(capacities, starts, i);
    }
    assert(capacities.take(capacities.len() as int) =~= capacities);
}

/// Whatever the capacities, slots can be placed, and in one way only.
pub proof fn law_placement_exists(capacities: Seq<u32>) -> (starts: Seq<int>)
    ensures
        placed(capacities.len() as int, capacities, starts),
        forall|other: Seq<int>| #[trigger]
            placed(capacities.len() as int, capacities, other) ==> other == starts,
{
    let n = capacities.len() as int;
    let starts = Seq::new(capacities.len() + 1, |i: int| layout::slot_offset(capacities, i));
    assert(capacities.take(0).len() == 0);
    assert forall|j: int|
        #![trigger capacities[j]]
        0 <= j < capacities.len() implies {
        &&& (starts[j + 1] - starts[j]) % 64 == 0
        &&& starts[j] + 64 + capacities[j] <= starts[j + 1]
        &&& starts[j + 1] < starts[j] + 64 + capacities[j] + 64
    } by {
        layout::lemma_slots_room_prefix(capacities, j);
        layout::lemma_slot_room_is_least(capacities[j]);
    }
    assert forall|other: Seq<int>| #[trigger] placed(n, capacities, other) implies other
        == starts by {
        lemma_placed(capacities, other);
        assert(other =~= starts);
    }
    starts
}

/// Placed slots are aligned, lie behind the table and within the region, and do
/// not overlap.
pub proof fn law_slots_apart(capacities: Seq<u32>, starts: Seq<int>, i: int, j: int)
    requires
        placed(capacities.len() as int, capacities, starts),
        0 <= i < j < capacities.len(),
    ensures
        starts[i] % 64 == 0,
        starts[j] % 64 == 0,
        128 + 48 * capacities.len() <= starts[i],
        starts[i] + 64 + capacities[i] <= starts[j],
        starts[j] + 64 + capacities[j] <= starts[capacities.len() as int],
{
    lemma_placed(capacities, starts);
    layout::lemma_slot_in_region(capacities, i);
    layout::lemma_slot_in_region(capacities, j);
    layout::lemma_slots_disjoint(capacities, i, j);
    assert(starts[i] == layout::slot_offset(capacities, i));
    assert(starts[j] == layout::slot_offset(capacities, j));
    layout::lemma_table_precedes_slots(capacities);
}

/// The size of slots is the length of a row of them.
pub proof fn law_total_slot_size(capacities: &[u32], starts: Seq<int>, size: usize)
    requires
        in_a_row(capacities@, starts),
        call_ensures(layout::total_slot_size, (capacities,), size),
    ensures
        size == starts[capacities@.len() as int] - starts[0],
        starts[capacities@.len() as int] - starts[0] <= usize::MAX ==> call_requires(
            layout::total_slot_size,
            (capacities,),
        ),
{
    lemma_row(capacities@, starts, capacities@.len() as int);
    assert(capacities@.take(capacities@.len() as int) =~= capacities@);
}

/// A layout has a header of 128 bytes, the table behind it, and the row of
/// slots behind that.
pub proof fn law_layout(num_slots: u32, capacities: &[u32], starts: Seq<int>, layout: ShmLayout)
    requires
        placed(num_slots as int, capacities@, starts),
        call_ensures(ShmLayout::new, (num_slots, capacities), layout),
    ensures
        layout.header_size == 128,
        layout.offset_table_start == 128,
        layout.offset_table_size == 48 * num_slots,
        layout.data_region_start == starts[0],
        layout.total_size == starts[capacities@.len() as int],
        starts[capacities@.len() as int] <= usize::MAX ==> call_requires(
            ShmLayout::new,
            (num_slots, capacities),
        ),
{
    lemma_row(capacities@, starts, capacities@.len() as int);
    assert(capacities@.take(capacities@.len() as int) =~= capacities@);
}

/// A layout fits exactly if the end of its last slot can be addressed.
pub proof fn law_layout_fits(num_slots: u32, capacities: &[u32], starts: Seq<int>, fits: bool)
    requires
        placed(num_slots as int, capacities@, starts),
        call_ensures(ShmLayout::fits, (num_slots, capacities), fits),
    ensures
        fits <==> starts[capacities@.len() as int] <= usize::MAX,
{
    lemma_row(capacities@, starts, capacities@.len() as int);
    assert(capacities@.take(capacities@.len() as int) =~= capacities@);
}

/// Slot `index` of a layout begins where the row of slots has it, and its data
/// 64 bytes behind that.
pub proof fn law_layout_offsets(
    layout: ShmLayout,
    index: usize,
    capacities: &[u32],
    starts: Seq<int>,
    header: usize,
    data: usize,
)
    requires
        in_a_row(capacities@, starts),
        starts[0] == layout.data_region_start,
        index <= capacities@.len(),
        call_ensures(ShmLayout::slot_header_offset, (&layout, index, capacities), header),
        call_ensures(ShmLayout::slot_data_offset, (&layout, index, capacities), data),
    ensures
        header == starts[index as int],
        data == starts[index as int] + 64,
        starts[index as int] <= usize::MAX ==> call_requires(
            ShmLayout::slot_header_offset,
            (&layout, index, capacities),
        ),
        starts[index as int] + 64 <= usize::MAX ==> call_requires(
            ShmLayout::slot_data_offset,
            (&layout, index, capacities),
        ),
{
    lemma_row(capacities@, starts, index as int);
}

/// The accounts of a list, as sequences of bytes.
pub open spec fn keys_of(accounts: Seq<[u8; 32]>) -> Seq<Seq<u8>> {
    Seq::new(accounts.len(), |i: int| accounts[i]@)
}

/// Everything that a table answers.
pub struct Answers {
    pub key: [u8; 32],
    pub found: Option<usize>,
    pub num_slots: usize,
    pub total_size: usize,
    pub slot: usize,
    pub capacity: u32,
    pub header: usize,
    pub data: usize,
}

impl Answers {
    /// The table gives these answers.
    pub open spec fn come_from(self, table: SlotTable) -> bool {
        &&& call_ensures(SlotTable::lookup, (&table, &self.key), self.found)
        &&& call_ensures(SlotTable::num_slots, (&table,), self.num_slots)
        &&& call_ensures(SlotTable::total_size, (&table,), self.total_size)
        &&& call_ensures(SlotTable::capacity, (&table, self.slot), self.capacity)
        &&& call_ensures(SlotTable::slot_header_offset, (&table, self.slot), self.header)
        &&& call_ensures(SlotTable::slot_data_offset, (&table, self.slot), self.data)
    }

    /// The answers are right for slots with these accounts, capacities and
    /// starts.
    pub open spec fn are_right(
        self,
        keys: Seq<Seq<u8>>,
        capacities: Seq<u32>,
        starts: Seq<int>,
    ) -> bool {
        &&& lookup::found_last(keys, self.key@, self.found)
        &&& self.num_slots == capacities.len()
        &&& self.total_size == starts[capacities.len() as int]
        &&& self.slot < capacities.len() ==> {
            &&& self.capacity == capacities[self.slot as int]
            &&& self.header == starts[self.slot as int]
            &&& self.data == starts[self.slot as int] + 64
        }
    }
}

/// A table in order answers by its accounts and capacities.
pub proof fn lemma_table_answers(table: SlotTable, starts: Seq<int>, answers: Answers)
    requires
        table.wf(),
        placed(table.capacities().len() as int, table.capacities(), starts),
        answers.come_from(table),
    ensures
        answers.are_right(table.keys(), table.capacities(), starts),
{
    table.lemma_wf();
    lemma_placed(table.capacities(), starts);
    lookup::lemma_found_last(table.keys(), answers.key@);
    if answers.slot < table.capacities().len() {
        assert(starts[answers.slot as int] == layout::slot_offset(
            table.capacities(),
            answers.slot as int,
        ));
    }
}

/// A table made of accounts and capacities gives every account the last of its
/// positions as its slot, and every slot its capacity and its place.
pub proof fn law_new_table(
    accounts: Vec<[u8; 32]>,
    capacities: Vec<u32>,
    starts: Seq<int>,
    table: SlotTable,
    answers: Answers,
)
    requires
        accounts@.len() == capacities@.len(),
        placed(capacities@.len() as int, capacities@, starts),
        call_ensures(SlotTable::new, (&accounts, &capacities), table),
        answers.come_from(table),
    ensures
        answers.are_right(keys_of(accounts@), capacities@, starts),
        accounts@.len() <= u32::MAX && starts[capacities@.len() as int] <= usize::MAX
            ==> call_requires(SlotTable::new, (&accounts, &capacities)),
        call_requires(SlotTable::lookup, (&table, &answers.key)),
        call_requires(SlotTable::total_size, (&table,)),
        answers.slot < capacities@.len() ==> {
            &&& call_requires(SlotTable::capacity, (&table, answers.slot))
            &&& call_requires(SlotTable::slot_header_offset, (&table, answers.slot))
            &&& call_requires(SlotTable::slot_data_offset, (&table, answers.slot))
        },
{
    assert(keys_of(accounts@) =~= accounts@.map_values(|key: [u8; 32]| key@));
    lemma_table_answers(table, starts, answers);
    lemma_placed(capacities@, starts);
}

} // verus!
