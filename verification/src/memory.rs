//! The region as a string of bytes, and the stores that change it.
//!
//! A writer never touches shared memory itself. It computes a list of
//! [`Store`]s, and whoever maps the region performs them in order. Readers in
//! other processes may observe the region between any two of them.
use crate::bytes;
use vstd::prelude::*;

verus! {

/// The 64-bit word at `offset`.
pub open spec fn u64_at(mem: Seq<u8>, offset: int) -> u64 {
    bytes::le_value(mem.subrange(offset, offset + 8)) as u64
}

/// The 32-bit word at `offset`.
pub open spec fn u32_at(mem: Seq<u8>, offset: int) -> u32 {
    bytes::le_value(mem.subrange(offset, offset + 4)) as u32
}

/// `mem` with the bytes from `offset` on replaced by `patch`.
pub open spec fn overlay(mem: Seq<u8>, offset: int, patch: Seq<u8>) -> Seq<u8> {
    Seq::new(
        mem.len(),
        |k: int|
            if offset <= k < offset + patch.len() {
                patch[k - offset]
            } else {
                mem[k]
            },
    )
}

/// `n` zero bytes.
pub open spec fn zeros(n: nat) -> Seq<u8> {
    Seq::new(n, |k: int| 0u8)
}

/// What a store does: where, which bytes, and whether it publishes (an atomic
/// store with release ordering) or is a plain copy.
#[verifier::ext_equal]
pub struct StoreModel {
    pub offset: int,
    pub bytes: Seq<u8>,
    pub publish: bool,
}

impl StoreModel {
    /// The region after this store.
    pub open spec fn applied(self, mem: Seq<u8>) -> Seq<u8> {
        overlay(mem, self.offset, self.bytes)
    }

    /// Every byte the store writes lies below `limit`.
    pub open spec fn within(self, limit: int) -> bool {
        0 <= self.offset && self.offset + self.bytes.len() <= limit
    }

    /// The store writes no byte of `start..end`.
    pub open spec fn avoids(self, start: int, end: int) -> bool {
        self.offset + self.bytes.len() <= start || end <= self.offset
    }

    /// A store that publishes writes one naturally aligned machine word.
    pub open spec fn word_aligned(self) -> bool {
        self.publish ==> {
            &&& self.bytes.len() == 1 || self.bytes.len() == 4 || self.bytes.len() == 8
            &&& self.offset % self.bytes.len() as int == 0
        }
    }
}

/// A store of the eight bytes of a word.
pub open spec fn store_u64(offset: int, value: u64, publish: bool) -> StoreModel {
    StoreModel { offset, bytes: bytes::le_bytes(value as nat, 8), publish }
}

/// A store of the four bytes of a word.
pub open spec fn store_u32(offset: int, value: u32, publish: bool) -> StoreModel {
    StoreModel { offset, bytes: bytes::le_bytes(value as nat, 4), publish }
}

/// A store of one byte.
pub open spec fn store_u8(offset: int, value: u8, publish: bool) -> StoreModel {
    StoreModel { offset, bytes: seq![value], publish }
}

/// A plain copy of `bytes`.
pub open spec fn store_bytes(offset: int, bytes: Seq<u8>) -> StoreModel {
    StoreModel { offset, bytes, publish: false }
}

/// The region after all stores of `plan`, first to last.
pub open spec fn applied(mem: Seq<u8>, plan: Seq<StoreModel>) -> Seq<u8>
    decreases plan.len(),
{
    if plan.len() == 0 {
        mem
    } else {
        plan.last().applied(applied(mem, plan.drop_last()))
    }
}

/// Stores keep the size of the region.
pub proof fn lemma_applied_len(mem: Seq<u8>, plan: Seq<StoreModel>)
    ensures
        applied(mem, plan).len() == mem.len(),
    decreases plan.len(),
{
    if plan.len() > 0 {
        lemma_applied_len(mem, plan.drop_last());
    }
}

/// Performing one plan and then another is performing their concatenation.
pub proof fn lemma_applied_concat(mem: Seq<u8>, first: Seq<StoreModel>, second: Seq<StoreModel>)
    ensures
        applied(mem, first + second) == applied(applied(mem, first), second),
    decreases second.len(),
{
    if second.len() == 0 {
        assert(first + second =~= first);
    } else {
        lemma_applied_concat(mem, first, second.drop_last());
        assert((first + second).drop_last() =~= first + second.drop_last());
    }
}

/// A plan whose stores all avoid a range leaves the bytes in it alone.
pub proof fn lemma_applied_avoids(mem: Seq<u8>, plan: Seq<StoreModel>, start: int, end: int)
    requires
        0 <= start <= end <= mem.len(),
        forall|i: int| 0 <= i < plan.len() ==> (#[trigger] plan[i]).avoids(start, end),
    ensures
        applied(mem, plan).subrange(start, end) == mem.subrange(start, end),
    decreases plan.len(),
{
    lemma_applied_len(mem, plan);
    if plan.len() > 0 {
        let front = plan.drop_last();
        lemma_applied_len(mem, front);
        assert forall|i: int| 0 <= i < front.len() implies (#[trigger] front[i]).avoids(
            start,
            end,
        ) by {
            assert(front[i] == plan[i]);
        }
        lemma_applied_avoids(mem, front, start, end);
        let mid = applied(mem, front);
        let last = plan[plan.len() - 1];
        assert(last.avoids(start, end));
        assert(applied(mem, plan).subrange(start, end) =~= mid.subrange(start, end));
    }
}

/// Performing one more store of a plan.
pub proof fn lemma_applied_next(mem: Seq<u8>, plan: Seq<StoreModel>, k: int)
    requires
        0 <= k < plan.len(),
    ensures
        applied(mem, plan.take(k + 1)) == plan[k].applied(applied(mem, plan.take(k))),
{
    assert(plan.take(k + 1).drop_last() =~= plan.take(k));
}

/// What a store wrote is still there after the plan, where no later store of
/// the plan touches it.
pub proof fn lemma_store_survives(mem: Seq<u8>, plan: Seq<StoreModel>, k: int)
    requires
        0 <= k < plan.len(),
        plan[k].within(mem.len() as int),
        forall|j: int|
            k < j < plan.len() ==> (#[trigger] plan[j]).avoids(
                plan[k].offset,
                plan[k].offset + plan[k].bytes.len(),
            ),
    ensures
        applied(mem, plan).subrange(plan[k].offset, plan[k].offset + plan[k].bytes.len())
            == plan[k].bytes,
{
    let first = plan.take(k + 1);
    let second = plan.skip(k + 1);
    let start = plan[k].offset;
    let end = start + plan[k].bytes.len();
    assert(first + second =~= plan);
    lemma_applied_concat(mem, first, second);
    lemma_applied_next(mem, plan, k);
    lemma_applied_len(mem, plan.take(k));
    let mid = applied(mem, first);
    assert forall|j: int| 0 <= j < second.len() implies (#[trigger] second[j]).avoids(
        start,
        end,
    ) by {
        assert(second[j] == plan[k + 1 + j]);
    }
    lemma_applied_avoids(mid, second, start, end);
    assert(mid.subrange(start, end) =~= plan[k].bytes);
}

/// A word that was just stored reads back.
pub proof fn lemma_word_reads_back(mem: Seq<u8>, offset: int, a: u64, b: u32)
    requires
        0 <= offset,
    ensures
        bytes::le_bytes(a as nat, 8).len() == 8,
        bytes::le_bytes(b as nat, 4).len() == 4,
        offset + 8 <= mem.len() && mem.subrange(offset, offset + 8) == bytes::le_bytes(
            a as nat,
            8,
        ) ==> u64_at(mem, offset) == a,
        offset + 4 <= mem.len() && mem.subrange(offset, offset + 4) == bytes::le_bytes(
            b as nat,
            4,
        ) ==> u32_at(mem, offset) == b,
{
    bytes::lemma_byte_span_values();
    bytes::lemma_le_round_trip(a as nat, 8);
    bytes::lemma_le_round_trip(b as nat, 4);
}

/// The value of a store.
pub enum Value {
    U64(u64),
    U32(u32),
    U8(u8),
    Key([u8; 32]),
    Bytes(Vec<u8>),
    Zeros(usize),
}

impl Value {
    /// The bytes that the value occupies in the region.
    pub open spec fn bytes(self) -> Seq<u8> {
        match self {
            Value::U64(v) => bytes::le_bytes(v as nat, 8),
            Value::U32(v) => bytes::le_bytes(v as nat, 4),
            Value::U8(v) => seq![v],
            Value::Key(key) => key@,
            Value::Bytes(v) => v@,
            Value::Zeros(n) => zeros(n as nat),
        }
    }
}

/// One store into the region.
pub struct Store {
    pub offset: usize,
    pub value: Value,
    pub publish: bool,
}

impl View for Store {
    type V = StoreModel;

    open spec fn view(&self) -> StoreModel {
        StoreModel { offset: self.offset as int, bytes: self.value.bytes(), publish: self.publish }
    }
}

impl Store {
    /// A store that publishes stores a machine word.
    pub open spec fn publishes_word(self) -> bool {
        self.publish ==> self.value is U64 || self.value is U32 || self.value is U8
    }
}

/// Every store of a list that publishes stores a machine word.
pub open spec fn publish_words(stores: Seq<Store>) -> bool {
    forall|k: int| 0 <= k < stores.len() ==> (#[trigger] stores[k]).publishes_word()
}

/// The models of a list of stores.
pub open spec fn plan_of(stores: Seq<Store>) -> Seq<StoreModel> {
    stores.map_values(|s: Store| s@)
}

/// Writes `patch` over the bytes of `mem` from `offset` on.
fn write_bytes(mem: &mut [u8], offset: usize, patch: &[u8])
    requires
        offset + patch@.len() <= old(mem)@.len(),
    ensures
        final(mem)@ == overlay(old(mem)@, offset as int, patch@),
{
    let len: usize = patch.len();
    let ghost start = mem@;
    let mut k: usize = 0;
    while k < len
        invariant
            k <= len,
            len == patch@.len(),
            offset + len <= start.len(),
            mem@.len() == start.len(),
            start.len() == mem.len(),
            mem@ == overlay(start, offset as int, patch@.take(k as int)),
        decreases len - k,
    {
        mem[offset + k] = patch[k];
        k = k + 1;
        assert(mem@ =~= overlay(start, offset as int, patch@.take(k as int)));
    }
    assert(patch@.take(len as int) =~= patch@);
}

/// Writes `n` zeros over the bytes of `mem` from `offset` on.
fn write_zeros(mem: &mut [u8], offset: usize, n: usize)
    requires
        offset + n <= old(mem)@.len(),
    ensures
        final(mem)@ == overlay(old(mem)@, offset as int, zeros(n as nat)),
{
    let ghost start = mem@;
    let mut k: usize = 0;
    while k < n
        invariant
            k <= n,
            offset + n <= start.len(),
            start.len() == mem.len(),
            mem@ == overlay(start, offset as int, zeros(k as nat)),
        decreases n - k,
    {
        mem[offset + k] = 0;
        k = k + 1;
        assert(mem@ =~= overlay(start, offset as int, zeros(k as nat)));
    }
}

impl Store {
    /// Performs the store on a region that nobody else accesses.
    pub fn apply(&self, mem: &mut [u8])
        requires
            self@.within(old(mem)@.len() as int),
        ensures
            final(mem)@ == self@.applied(old(mem)@),
    {
        proof {
            lemma_word_reads_back(mem@, 0, 0, 0);
            bytes::lemma_byte_span_values();
        }
        match &self.value {
            Value::U64(v) => {
                let digits = bytes::encode_le(*v, 8);
                write_bytes(mem, self.offset, digits.as_slice());
            },
            Value::U32(v) => {
                let digits = bytes::encode_le(*v as u64, 4);
                write_bytes(mem, self.offset, digits.as_slice());
            },
            Value::U8(v) => {
                mem[self.offset] = *v;
                assert(mem@ =~= self@.applied(old(mem)@));
            },
            Value::Key(key) => {
                write_bytes(mem, self.offset, key.as_slice());
            },
            Value::Bytes(v) => {
                write_bytes(mem, self.offset, v.as_slice());
            },
            Value::Zeros(n) => {
                write_zeros(mem, self.offset, *n);
            },
        }
    }
}

} // verus!
