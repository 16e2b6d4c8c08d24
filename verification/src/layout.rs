//! The format of the region.
//!
//! A header of 128 bytes is followed by an offset table with one entry of 48
//! bytes per slot, and, at the next multiple of 64, by the slots. Each slot is
//! a header of 64 bytes and the account data behind it, padded to a multiple
//! of 64. All words are little-endian.
use vstd::prelude::*;

verus! {

/// First word of every region.
pub const SHM_MAGIC: u64 = 0x534F4C_53484D_01;

/// Version of the format described here.
pub const SHM_FORMAT_VERSION: u64 = 1;

/// Size of the header of a region.
pub const SHM_HEADER_SIZE: usize = 128;

/// Size of an entry of the offset table.
pub const OFFSET_ENTRY_SIZE: usize = 48;

/// Size of the header of a slot.
pub const SLOT_HEADER_SIZE: usize = 64;

/// Alignment of the region, of its header and of every slot.
pub const SLOT_ALIGN: usize = 64;

/// Offset of the global slot number in the region.
pub const GLOBAL_SLOT_OFFSET: usize = 24;

/// Offset of the writer's heartbeat in the region.
pub const HEARTBEAT_OFFSET: usize = 32;

/// Offset of the writer's process id in the region.
pub const WRITER_PID_OFFSET: usize = 40;

/// Offset of the ready flag in the region.
pub const READY_OFFSET: usize = 44;

/// The header of the region, as loaded or as about to be stored.
pub struct ShmHeader {
    pub magic: u64,
    pub format_version: u64,
    pub num_slots: u32,
    pub _pad0: u32,
    pub global_solana_slot: u64,
    pub writer_heartbeat: u64,
    pub writer_pid: u32,
    pub ready: u8,
    pub _reserved: [u8; 83],
}

/// An entry of the offset table.
pub struct OffsetTableEntry {
    pub pubkey: [u8; 32],
    pub data_offset: u64,
    pub data_capacity: u32,
    pub _pad: u32,
}

/// The header of a slot, as loaded or as about to be stored.
#[derive(Clone, Copy)]
pub struct AccountSlotHeader {
    pub seqlock_ver: u64,
    pub solana_slot: u64,
    pub owner: [u8; 32],
    pub lamports: u64,
    pub data_len: u32,
    pub executable: u8,
    pub _pad: [u8; 3],
}

/// Where the parts of a region lie.
pub struct ShmLayout {
    pub header_size: usize,
    pub offset_table_start: usize,
    pub offset_table_size: usize,
    pub data_region_start: usize,
    pub total_size: usize,
}

/// Which accounts a region holds, and how much data each may have.
pub struct ShmConfig {
    pub shm_path: String,
    pub accounts: Vec<[u8; 32]>,
    pub capacities: Vec<u32>,
}

/// The least multiple of `alignment` that is not below `val`.
pub open spec fn aligned_up(val: int, alignment: int) -> int {
    ((val + alignment - 1) / alignment) * alignment
}

/// The room that a slot of the given capacity takes.
pub open spec fn slot_room(capacity: u32) -> int {
    aligned_up(64 + capacity, 64)
}

/// The room that slots of the given capacities take together.
pub open spec fn slots_room(capacities: Seq<u32>) -> int
    decreases capacities.len(),
{
    if capacities.len() == 0 {
        0
    } else {
        slots_room(capacities.drop_last()) + slot_room(capacities.last())
    }
}

/// Offset of the first slot of a region with `num_slots` slots.
pub open spec fn data_start(num_slots: int) -> int {
    aligned_up(128 + num_slots * 48, 64)
}

/// Size of a region with `num_slots` slots of the given capacities.
pub open spec fn region_size(num_slots: int, capacities: Seq<u32>) -> int {
    data_start(num_slots) + slots_room(capacities)
}

/// Offset of slot `index` in a region whose slots have the given capacities.
pub open spec fn slot_offset(capacities: Seq<u32>, index: int) -> int {
    data_start(capacities.len() as int) + slots_room(capacities.take(index))
}

/// Offset of the table entry of slot `index`.
pub open spec fn entry_offset(index: int) -> int {
    128 + index * 48
}

/// `n` is a power of two.
pub open spec fn is_power_of_two(n: int) -> bool {
    exists|e: nat| n == #[trigger] vstd::arithmetic::power2::pow2(e)
}

/// Rounds `val` up to a multiple of `alignment`.
fn align_up(val: usize, alignment: usize) -> (aligned: usize)
    requires
        is_power_of_two(alignment as int),
        val + alignment - 1 <= usize::MAX,
    ensures
        aligned == aligned_up(val as int, alignment as int),
{
    proof {
        let e = choose|e: nat| alignment == #[trigger] vstd::arithmetic::power2::pow2(e);
        vstd::arithmetic::power2::lemma_pow2_pos(e);
        let x = (val + alignment - 1) as usize;
        let m = (alignment - 1) as usize;
        lemma_exponent_small(e, alignment);
        vstd::bits::lemma_usize_low_bits_mask_is_mod(x, e);
        assert(x & !m == x - (x & m)) by (bit_vector);
        vstd::arithmetic::div_mod::lemma_fundamental_div_mod(x as int, alignment as int);
        vstd::arithmetic::mul::lemma_mul_is_commutative(
            alignment as int,
            x as int / alignment as int,
        );
    }
    (val + (alignment - 1)) & !(alignment - 1)
}

/// A power of two that fits a machine word has an exponent below the word's
/// width.
proof fn lemma_exponent_small(e: nat, p: usize)
    requires
        vstd::arithmetic::power2::pow2(e) == p,
    ensures
        e < usize::BITS,
{
    if e >= usize::BITS {
        vstd::arithmetic::power2::lemma2_to64();
        vstd::arithmetic::power2::lemma2_to64_rest();
        if e > usize::BITS {
            vstd::arithmetic::power2::lemma_pow2_strictly_increases(usize::BITS as nat, e);
        }
    }
}

/// Sixty-four is a power of two.
proof fn lemma_slot_align()
    ensures
        is_power_of_two(SLOT_ALIGN as int),
{
    vstd::arithmetic::power2::lemma2_to64();
    assert(vstd::arithmetic::power2::pow2(6) == 64);
}

/// The room of the slots before `index` is a multiple of the alignment and no
/// more than that of all slots, and slot `index` comes on top of it.
pub proof fn lemma_slots_room_prefix(capacities: Seq<u32>, index: int)
    requires
        0 <= index <= capacities.len(),
    ensures
        0 <= slots_room(capacities.take(index)) <= slots_room(capacities),
        slots_room(capacities.take(index)) % 64 == 0,
        index < capacities.len() ==> slots_room(capacities.take(index)) + slot_room(
            capacities[index],
        ) == slots_room(capacities.take(index + 1)),
    decreases capacities.len() - index,
{
    lemma_slots_room_nonneg(capacities.take(index));
    if index == capacities.len() {
        assert(capacities.take(index) =~= capacities);
    } else {
        assert(capacities.take(index + 1).drop_last() =~= capacities.take(index));
        lemma_slots_room_prefix(capacities, index + 1);
    }
}

/// Rounding up gives the least multiple of the alignment that is not below the
/// value.
pub proof fn lemma_aligned_up_is_least(val: int, alignment: int)
    requires
        alignment > 0,
    ensures
        aligned_up(val, alignment) % alignment == 0,
        val <= aligned_up(val, alignment) < val + alignment,
        forall|m: int|
            val <= m && #[trigger] (m % alignment) == 0 ==> aligned_up(val, alignment) <= m,
{
    let x = val + alignment - 1;
    let q = x / alignment;
    vstd::arithmetic::div_mod::lemma_fundamental_div_mod(x, alignment);
    vstd::arithmetic::div_mod::lemma_mod_multiples_basic(q, alignment);
    vstd::arithmetic::mul::lemma_mul_is_commutative(alignment, q);
    assert forall|m: int| val <= m && #[trigger] (m % alignment) == 0 implies aligned_up(
        val,
        alignment,
    ) <= m by {
        let p = m / alignment;
        vstd::arithmetic::div_mod::lemma_fundamental_div_mod(m, alignment);
        if q * alignment > m {
            assert(q > p) by (nonlinear_arith)
                requires
                    q * alignment > m,
                    m == alignment * p,
                    alignment > 0,
            ;
            assert(q * alignment >= alignment * p + alignment) by (nonlinear_arith)
                requires
                    q >= p + 1,
                    alignment > 0,
            ;
        }
    }
}

/// The room of a slot is the least multiple of 64 that holds its header and
/// its data.
pub proof fn lemma_slot_room_is_least(capacity: u32)
    ensures
        slot_room(capacity) % 64 == 0,
        64 + capacity <= slot_room(capacity) < 128 + capacity,
        forall|m: int|
            64 + capacity <= m && #[trigger] (m % 64) == 0 ==> slot_room(capacity) <= m,
{
    lemma_aligned_up_is_least(64 + capacity, 64);
}

/// The room of slots adds up: no slots take none, one slot takes its own room,
/// rounded up by itself, and slots side by side take the sum of what the two
/// groups take. [`total_slot_size`] computes this room.
pub proof fn lemma_slots_room_adds_up(first: Seq<u32>, capacity: u32, second: Seq<u32>)
    ensures
        slots_room(Seq::empty()) == 0,
        slots_room(seq![capacity]) == slot_room(capacity),
        slots_room(seq![capacity]) % 64 == 0,
        64 + capacity <= slots_room(seq![capacity]),
        forall|m: int|
            64 + capacity <= m && #[trigger] (m % 64) == 0 ==> slots_room(seq![capacity]) <= m,
        slots_room(first + second) == slots_room(first) + slots_room(second),
    decreases second.len(),
{
    reveal_with_fuel(slots_room, 2);
    lemma_slot_room_is_least(capacity);
    assert(seq![capacity].drop_last() =~= Seq::<u32>::empty());
    if second.len() == 0 {
        assert(first + second =~= first);
    } else {
        assert((first + second).drop_last() =~= first + second.drop_last());
        lemma_slots_room_adds_up(first, capacity, second.drop_last());
    }
}

/// The room of slots is a multiple of the alignment, and not negative.
proof fn lemma_slots_room_nonneg(capacities: Seq<u32>)
    ensures
        0 <= slots_room(capacities),
        slots_room(capacities) % 64 == 0,
    decreases capacities.len(),
{
    if capacities.len() > 0 {
        lemma_slots_room_nonneg(capacities.drop_last());
    }
}

/// The table ends where the slots begin or before, and the slots end with the
/// region.
pub proof fn lemma_table_precedes_slots(capacities: Seq<u32>)
    ensures
        entry_offset(capacities.len() as int) <= data_start(capacities.len() as int),
        data_start(capacities.len() as int) % 64 == 0,
        data_start(capacities.len() as int) <= region_size(capacities.len() as int, capacities),
{
    lemma_slots_room_nonneg(capacities);
}

/// Every slot starts at a multiple of 64 behind the table, and its header and
/// data end within the region.
pub proof fn lemma_slot_in_region(capacities: Seq<u32>, i: int)
    requires
        0 <= i < capacities.len(),
    ensures
        slot_offset(capacities, i) % 64 == 0,
        entry_offset(capacities.len() as int) <= slot_offset(capacities, i),
        slot_offset(capacities, i) + 64 + capacities[i] <= region_size(
            capacities.len() as int,
            capacities,
        ),
{
    lemma_table_precedes_slots(capacities);
    lemma_slots_room_prefix(capacities, i);
    lemma_slots_room_prefix(capacities, i + 1);
}

/// A slot ends, with its data, before the next slot begins: slots do not
/// overlap.
pub proof fn lemma_slots_disjoint(capacities: Seq<u32>, i: int, j: int)
    requires
        0 <= i < j < capacities.len(),
    ensures
        slot_offset(capacities, i) + 64 + capacities[i] <= slot_offset(capacities, j),
{
    lemma_slots_room_prefix(capacities, i);
    let front = capacities.take(j);
    lemma_slots_room_prefix(front, i + 1);
    assert(front.take(i + 1) =~= capacities.take(i + 1));
}

/// The room that slots of the given capacities take together.
pub fn total_slot_size(capacities: &[u32]) -> (size: usize)
    requires
        slots_room(capacities@) <= usize::MAX,
    ensures
        size == slots_room(capacities@),
{
    let count: usize = capacities.len();
    let mut size: usize = 0;
    let mut k: usize = 0;
    while k < count
        invariant
            k <= count,
            count == capacities@.len(),
            slots_room(capacities@) <= usize::MAX,
            size == slots_room(capacities@.take(k as int)),
        decreases count - k,
    {
        proof {
            lemma_slots_room_prefix(capacities@, k as int);
            lemma_slots_room_prefix(capacities@, k + 1);
            lemma_slot_align();
        }
        let capacity: u32 = capacities[k];
        size = size + align_up(SLOT_HEADER_SIZE + capacity as usize, SLOT_ALIGN);
        k = k + 1;
    }
    assert(capacities@.take(count as int) =~= capacities@);
    size
}

impl ShmLayout {
    /// The layout of a region with `num_slots` slots of the given capacities.
    pub open spec fn describes(self, num_slots: int, capacities: Seq<u32>) -> bool {
        &&& self.header_size == 128
        &&& self.offset_table_start == 128
        &&& self.offset_table_size == num_slots * 48
        &&& self.data_region_start == data_start(num_slots)
        &&& self.total_size == region_size(num_slots, capacities)
    }

    /// Lays out a region with `num_slots` slots of the given capacities.
    pub fn new(num_slots: u32, capacities: &[u32]) -> (layout: Self)
        requires
            region_size(num_slots as int, capacities@) <= usize::MAX,
        ensures
            layout.describes(num_slots as int, capacities@),
    {
        proof {
            lemma_slots_room_nonneg(capacities@);
            lemma_slot_align();
        }
        let header_size: usize = SHM_HEADER_SIZE;
        let offset_table_start: usize = header_size;
        let offset_table_size: usize = num_slots as usize * OFFSET_ENTRY_SIZE;
        let data_region_start: usize = align_up(offset_table_start + offset_table_size, SLOT_ALIGN);
        let total_size: usize = data_region_start + total_slot_size(capacities);
        Self { header_size, offset_table_start, offset_table_size, data_region_start, total_size }
    }

    /// Whether a region with `num_slots` slots of the given capacities can be
    /// addressed on this machine.
    pub fn fits(num_slots: u32, capacities: &[u32]) -> (fits: bool)
        ensures
            fits == (region_size(num_slots as int, capacities@) <= usize::MAX),
    {
        let start: u128 = (128 + num_slots as u128 * 48 + 63) / 64 * 64;
        let count: usize = capacities.len();
        let mut size: u128 = 0;
        let mut k: usize = 0;
        while k < count
            invariant
                k <= count,
                count == capacities@.len(),
                size == slots_room(capacities@.take(k as int)),
                size <= k * 0x1_0000_0080,
            decreases count - k,
        {
            proof {
                lemma_slots_room_prefix(capacities@, k as int);
            }
            size = size + (64 + capacities[k] as u128 + 63) / 64 * 64;
            k = k + 1;
        }
        assert(capacities@.take(count as int) =~= capacities@);
        start + size <= usize::MAX as u128
    }

    /// Offset of the header of slot `index`.
    pub fn slot_header_offset(&self, index: usize, capacities: &[u32]) -> (offset: usize)
        requires
            index <= capacities@.len(),
            self.data_region_start + slots_room(capacities@.take(index as int)) <= usize::MAX,
        ensures
            offset == self.data_region_start + slots_room(capacities@.take(index as int)),
    {
        proof {
            lemma_slots_room_nonneg(capacities@.take(index as int));
        }
        self.data_region_start + total_slot_size(
            vstd::slice::slice_subrange(capacities, 0, index),
        )
    }

    /// Offset of the data of slot `index`.
    pub fn slot_data_offset(&self, index: usize, capacities: &[u32]) -> (offset: usize)
        requires
            index <= capacities@.len(),
            self.data_region_start + slots_room(capacities@.take(index as int)) + 64 <= usize::MAX,
        ensures
            offset == self.data_region_start + slots_room(capacities@.take(index as int)) + 64,
    {
        self.slot_header_offset(index, capacities) + SLOT_HEADER_SIZE
    }
}

} // verus!
