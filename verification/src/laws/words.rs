//! Words, records and stores, by the bytes that they are made of.
use crate::bytes;
use crate::layout::{AccountSlotHeader, OffsetTableEntry, ShmHeader};
use crate::memory;
use crate::memory::{Store, Value};
use crate::records;
use vstd::prelude::*;

verus! {

/// The 64-bit word that the eight bytes from `at` on make up.
#[verifier::opaque]
pub open spec fn word64(mem: Seq<u8>, at: int) -> int {
    mem[at] + 0x100 * mem[at + 1] + 0x1_0000 * mem[at + 2] + 0x100_0000 * mem[at + 3]
        + 0x1_0000_0000 * mem[at + 4] + 0x100_0000_0000 * mem[at + 5] + 0x1_0000_0000_0000 * mem[at
        + 6] + 0x100_0000_0000_0000 * mem[at + 7]
}

/// The 32-bit word that the four bytes from `at` on make up.
#[verifier::opaque]
pub open spec fn word32(mem: Seq<u8>, at: int) -> int {
    mem[at] + 0x100 * mem[at + 1] + 0x1_0000 * mem[at + 2] + 0x100_0000 * mem[at + 3]
}

/// Equal bytes make up equal words, and zeros the word zero.
pub proof fn lemma_same_words(a: Seq<u8>, b: Seq<u8>, at: int)
    ensures
        (forall|k: int| at <= k < at + 8 ==> #[trigger] a[k] == b[k]) ==> word64(a, at)
            == word64(b, at),
        (forall|k: int| at <= k < at + 4 ==> #[trigger] a[k] == b[k]) ==> word32(a, at)
            == word32(b, at),
        (forall|k: int| at <= k < at + 8 ==> #[trigger] a[k] == 0) ==> word64(a, at) == 0,
        (forall|k: int| at <= k < at + 4 ==> #[trigger] a[k] == 0) ==> word32(a, at) == 0,
{
    reveal(word64);
    reveal(word32);
}

/// The words of a region as the contracts have them.
pub proof fn lemma_words(mem: Seq<u8>, at: int)
    requires
        0 <= at,
    ensures
        at + 8 <= mem.len() ==> memory::u64_at(mem, at) == word64(mem, at),
        at + 4 <= mem.len() ==> memory::u32_at(mem, at) == word32(mem, at),
{
    reveal(word64);
    reveal(word32);
    bytes::lemma_byte_span_values();
    if at + 8 <= mem.len() {
        lemma_digits8(mem.subrange(at, at + 8));
        bytes::lemma_le_value_bound(mem.subrange(at, at + 8));
    }
    if at + 4 <= mem.len() {
        lemma_digits4(mem.subrange(at, at + 4));
        bytes::lemma_le_value_bound(mem.subrange(at, at + 4));
    }
}

/// The value of four digits.
proof fn lemma_digits4(s: Seq<u8>)
    requires
        s.len() == 4,
    ensures
        bytes::le_value(s) == word32(s, 0),
{
    reveal(word64);
    reveal(word32);
    reveal_with_fuel(bytes::le_value, 5);
    let t = s.drop_first();
    let u = t.drop_first();
    let v = u.drop_first();
    assert(v.drop_first().len() == 0);
}

/// The value of eight digits.
proof fn lemma_digits8(s: Seq<u8>)
    requires
        s.len() == 8,
    ensures
        bytes::le_value(s) == word64(s, 0),
{
    reveal(word64);
    reveal(word32);
    let t = s.drop_first();
    let u = t.drop_first();
    let v = u.drop_first();
    let w = v.drop_first();
    lemma_digits4(w);
    assert(bytes::le_value(v) == v[0] + 256 * bytes::le_value(w));
    assert(bytes::le_value(u) == u[0] + 256 * bytes::le_value(v));
    assert(bytes::le_value(t) == t[0] + 256 * bytes::le_value(u));
    assert(bytes::le_value(s) == s[0] + 256 * bytes::le_value(t));
}

/// How many bytes a value takes.
pub open spec fn size_of(value: Value) -> int {
    match value {
        Value::U64(_) => 8,
        Value::U32(_) => 4,
        Value::U8(_) => 1,
        Value::Key(_) => 32,
        Value::Bytes(b) => b@.len() as int,
        Value::Zeros(n) => n as int,
    }
}

/// The value is what the bytes hold.
pub open spec fn holds(mem: Seq<u8>, at: int, value: Value) -> bool {
    match value {
        Value::U64(v) => word64(mem, at) == v,
        Value::U32(v) => word32(mem, at) == v,
        Value::U8(v) => mem[at] == v,
        Value::Key(key) => forall|k: int| 0 <= k < 32 ==> mem[at + k] == #[trigger] key@[k],
        Value::Bytes(b) => forall|k: int| 0 <= k < b@.len() ==> mem[at + k] == #[trigger] b@[k],
        Value::Zeros(n) => forall|k: int| at <= k < at + n ==> #[trigger] mem[k] == 0,
    }
}

/// The store turned region `before` into region `after`: its value stands at
/// its offset, and nothing else changed.
pub open spec fn performed(before: Seq<u8>, store: Store, after: Seq<u8>) -> bool {
    &&& after.len() == before.len()
    &&& store.offset + size_of(store.value) <= before.len()
    &&& holds(after, store.offset as int, store.value)
    &&& forall|k: int|
        0 <= k < before.len() && !(store.offset <= k < store.offset + size_of(store.value))
            ==> #[trigger] after[k] == before[k]
}

/// The states that a region goes through when the stores are performed on it
/// one after the other.
pub open spec fn passes_through(stores: Seq<Store>, states: Seq<Seq<u8>>) -> bool {
    &&& states.len() == stores.len() + 1
    &&& forall|k: int|
        0 <= k < stores.len() ==> performed(states[k], #[trigger] stores[k], states[k + 1])
}

/// The bytes of a value are the ones that hold it.
pub proof fn lemma_value_bytes(value: Value)
    ensures
        value.bytes().len() == size_of(value),
        holds(value.bytes(), 0, value),
{
    reveal(word64);
    reveal(word32);
    match value {
        Value::U64(v) => {
            bytes::lemma_byte_span_values();
            bytes::lemma_le_round_trip(v as nat, 8);
            lemma_digits8(bytes::le_bytes(v as nat, 8));
        },
        Value::U32(v) => {
            bytes::lemma_byte_span_values();
            bytes::lemma_le_round_trip(v as nat, 4);
            lemma_digits4(bytes::le_bytes(v as nat, 4));
        },
        _ => {},
    }
}

/// No other bytes hold the value.
proof fn lemma_held_bytes(mem: Seq<u8>, at: int, value: Value)
    requires
        0 <= at,
        at + size_of(value) <= mem.len(),
        holds(mem, at, value),
    ensures
        mem.subrange(at, at + size_of(value)) == value.bytes(),
{
    reveal(word64);
    reveal(word32);
    let part = mem.subrange(at, at + size_of(value));
    match value {
        Value::U64(v) => {
            lemma_digits8(part);
            bytes::lemma_le_digits_unique(part);
        },
        Value::U32(v) => {
            lemma_digits4(part);
            bytes::lemma_le_digits_unique(part);
        },
        Value::Key(key) => {
            assert(part =~= key@);
        },
        Value::Bytes(b) => {
            assert(part =~= b@);
        },
        Value::Zeros(n) => {
            assert(part =~= memory::zeros(n as nat));
        },
        Value::U8(v) => {
            assert(part =~= seq![v]);
        },
    }
}

/// A store that was performed is one that the contracts call applied.
pub proof fn lemma_performed_applied(before: Seq<u8>, store: Store, after: Seq<u8>)
    requires
        performed(before, store, after),
    ensures
        after == store@.applied(before),
        store@.within(before.len() as int),
        store@.bytes.len() == size_of(store.value),
{
    lemma_value_bytes(store.value);
    lemma_held_bytes(after, store.offset as int, store.value);
    let start = store.offset as int;
    let part = after.subrange(start, start + size_of(store.value));
    assert forall|k: int| 0 <= k < after.len() implies after[k] == store@.applied(before)[k] by {
        if start <= k < start + size_of(store.value) {
            assert(after[k] == part[k - start]);
        }
    }
    assert(after =~= store@.applied(before));
}

/// The states that stores lead through are those of their plan.
pub proof fn lemma_passed_states(stores: Seq<Store>, states: Seq<Seq<u8>>, k: int)
    requires
        passes_through(stores, states),
        0 <= k <= stores.len(),
    ensures
        states[k] == memory::applied(states[0], memory::plan_of(stores).take(k)),
        states[k].len() == states[0].len(),
    decreases k,
{
    let plan = memory::plan_of(stores);
    if k == 0 {
        assert(plan.take(0) =~= Seq::<memory::StoreModel>::empty());
    } else {
        lemma_passed_states(stores, states, k - 1);
        assert(performed(states[k - 1], stores[k - 1], states[k - 1 + 1]));
        lemma_performed_applied(states[k - 1], stores[k - 1], states[k]);
        memory::lemma_applied_next(states[0], plan, k - 1);
    }
}

/// Performing a store puts its value at its offset and changes nothing else; it
/// can be performed wherever the value fits.
pub proof fn law_apply(store: Store, mem: &mut [u8])
    requires
        call_ensures(Store::apply, (&store, mem), ()),
        store.offset + size_of(store.value) <= old(mem)@.len(),
    ensures
        performed(old(mem)@, store, final(mem)@),
        call_requires(Store::apply, (&store, mem)),
{
    reveal(word64);
    reveal(word32);
    lemma_value_bytes(store.value);
    let before = old(mem)@;
    let after = final(mem)@;
    let start = store.offset as int;
    let bytes = store.value.bytes();
    assert(after == store@.applied(before));
    assert forall|k: int| 0 <= k < size_of(store.value) implies after[start + k] == bytes[k] by {}
    match store.value {
        Value::Zeros(n) => {
            assert forall|k: int| start <= k < start + n implies #[trigger] after[k] == 0 by {
                assert(after[start + (k - start)] == bytes[k - start]);
            }
        },
        _ => {},
    }
}

/// Encoding splits off the lowest digit, and goes on with the rest.
pub proof fn law_encode(x: u64, n: usize, digits: Vec<u8>, rest: Vec<u8>)
    requires
        call_ensures(bytes::encode_le, (x, n), digits),
        n > 0 ==> call_ensures(bytes::encode_le, ((x / 256) as u64, (n - 1) as usize), rest),
    ensures
        digits@.len() == n,
        n > 0 ==> digits@[0] == x % 256 && digits@.skip(1) == rest@,
        n == 8 ==> word64(digits@, 0) == x,
        n == 4 && x <= u32::MAX ==> word32(digits@, 0) == x,
{
    reveal(word64);
    reveal(word32);
    bytes::lemma_le_bytes_len(x as nat, n as nat);
    bytes::lemma_byte_span_values();
    if n > 0 {
        assert(digits@.skip(1) =~= rest@);
    }
    if n == 8 {
        bytes::lemma_le_round_trip(x as nat, 8);
        lemma_digits8(digits@);
    }
    if n == 4 && x <= u32::MAX {
        bytes::lemma_le_round_trip(x as nat, 4);
        lemma_digits4(digits@);
    }
}

/// Decoding takes the first digit as the lowest, and the others 256-fold. What
/// was encoded decodes to itself.
pub proof fn law_decode(s: &[u8], at: usize, n: usize, value: u64, rest: u64)
    requires
        n <= 8,
        at + n <= s@.len(),
        call_ensures(bytes::decode_le, (s, at, n), value),
        n > 0 ==> call_ensures(bytes::decode_le, (s, (at + 1) as usize, (n - 1) as usize), rest),
    ensures
        call_requires(bytes::decode_le, (s, at, n)),
        n == 0 ==> value == 0,
        n > 0 ==> value == s@[at as int] + 256 * rest,
        n == 8 ==> value == word64(s@, at as int),
        n == 4 ==> value == word32(s@, at as int),
{
    reveal(word64);
    reveal(word32);
    let part = s@.subrange(at as int, at + n);
    assert(s@.len() == s.len());
    if n > 0 {
        assert(part.drop_first() =~= s@.subrange(at + 1, at + n));
    }
    if n == 8 {
        lemma_digits8(part);
    }
    if n == 4 {
        lemma_digits4(part);
    }
}

/// The header of a region stands, field by field, at the start of it.
pub open spec fn header_stands(mem: Seq<u8>, header: ShmHeader) -> bool {
    &&& word64(mem, 0) == header.magic
    &&& word64(mem, 8) == header.format_version
    &&& word32(mem, 16) == header.num_slots
    &&& word32(mem, 20) == header._pad0
    &&& word64(mem, 24) == header.global_solana_slot
    &&& word64(mem, 32) == header.writer_heartbeat
    &&& word32(mem, 40) == header.writer_pid
    &&& mem[44] == header.ready
    &&& forall|k: int| 0 <= k < 83 ==> mem[45 + k] == #[trigger] header._reserved@[k]
}

/// A table entry stands, field by field, at `at`.
pub open spec fn entry_stands(mem: Seq<u8>, at: int, entry: OffsetTableEntry) -> bool {
    &&& forall|k: int| 0 <= k < 32 ==> mem[at + k] == #[trigger] entry.pubkey@[k]
    &&& word64(mem, at + 32) == entry.data_offset
    &&& word32(mem, at + 40) == entry.data_capacity
    &&& word32(mem, at + 44) == entry._pad
}

/// A slot header stands, field by field, at `at`.
pub open spec fn slot_header_stands(mem: Seq<u8>, at: int, header: AccountSlotHeader) -> bool {
    &&& word64(mem, at) == header.seqlock_ver
    &&& word64(mem, at + 8) == header.solana_slot
    &&& forall|k: int| 0 <= k < 32 ==> mem[at + 16 + k] == #[trigger] header.owner@[k]
    &&& word64(mem, at + 48) == header.lamports
    &&& word32(mem, at + 56) == header.data_len
    &&& mem[at + 60] == header.executable
    &&& forall|k: int| 0 <= k < 3 ==> mem[at + 61 + k] == #[trigger] header._pad@[k]
}

/// The words of the header of a region.
proof fn lemma_header_words(mem: Seq<u8>)
    requires
        128 <= mem.len(),
    ensures
        memory::u64_at(mem, 0) == word64(mem, 0),
        memory::u64_at(mem, 8) == word64(mem, 8),
        memory::u32_at(mem, 16) == word32(mem, 16),
        memory::u32_at(mem, 20) == word32(mem, 20),
        memory::u64_at(mem, 24) == word64(mem, 24),
        memory::u64_at(mem, 32) == word64(mem, 32),
        memory::u32_at(mem, 40) == word32(mem, 40),
{
    lemma_words(mem, 0);
    lemma_words(mem, 8);
    lemma_words(mem, 16);
    lemma_words(mem, 20);
    lemma_words(mem, 24);
    lemma_words(mem, 32);
    lemma_words(mem, 40);
}

/// The header that is decoded is the one that stands in the region.
pub proof fn law_decode_header(mem: &[u8], header: ShmHeader)
    requires
        128 <= mem@.len(),
        call_ensures(ShmHeader::decode, (mem,), header),
    ensures
        call_requires(ShmHeader::decode, (mem,)),
        header_stands(mem@, header),
{
    lemma_header_words(mem@);
    assert forall|k: int| 0 <= k < 83 implies mem@[45 + k] == #[trigger] header._reserved@[k] by {
        assert(header._reserved@[k] == mem@.subrange(45, 128)[k]);
    }
}

/// An encoded header stands in its bytes.
pub proof fn law_encode_header(header: ShmHeader, encoded: Vec<u8>)
    requires
        call_ensures(ShmHeader::to_bytes, (&header,), encoded),
    ensures
        encoded@.len() == 128,
        header_stands(encoded@, header),
{
    lemma_header_words(encoded@);
    assert(encoded@.subrange(0, 128) =~= encoded@);
    records::lemma_shm_header_round_trip(
        encoded@,
        header.magic,
        header.format_version,
        header.num_slots,
        header._pad0,
        header.global_solana_slot,
        header.writer_heartbeat,
        header.writer_pid,
        header.ready,
        header._reserved@,
    );
    assert forall|k: int| 0 <= k < 83 implies encoded@[45 + k] == #[trigger] header._reserved@[k] by {
        assert(header._reserved@[k] == encoded@.subrange(45, 128)[k]);
    }
}

/// What the contracts call an entry at an offset stands there.
pub proof fn lemma_entry_stands(mem: Seq<u8>, at: int, entry: OffsetTableEntry)
    requires
        0 <= at,
        at + 48 <= mem.len(),
        entry.is_at(mem, at),
    ensures
        entry_stands(mem, at, entry),
{
    lemma_words(mem, at + 32);
    lemma_words(mem, at + 40);
    lemma_words(mem, at + 44);
    assert forall|k: int| 0 <= k < 32 implies mem[at + k] == #[trigger] entry.pubkey@[k] by {
        assert(entry.pubkey@[k] == mem.subrange(at, at + 32)[k]);
    }
}

/// The entry that is decoded is the one that stands at the offset.
pub proof fn law_decode_entry(mem: &[u8], offset: usize, entry: OffsetTableEntry)
    requires
        offset + 48 <= mem@.len(),
        call_ensures(OffsetTableEntry::decode, (mem, offset), entry),
    ensures
        call_requires(OffsetTableEntry::decode, (mem, offset)),
        entry_stands(mem@, offset as int, entry),
{
    lemma_entry_stands(mem@, offset as int, entry);
}

/// An encoded entry stands in its bytes.
pub proof fn law_encode_entry(entry: OffsetTableEntry, encoded: Vec<u8>)
    requires
        call_ensures(OffsetTableEntry::to_bytes, (&entry,), encoded),
    ensures
        encoded@.len() == 48,
        entry_stands(encoded@, 0, entry),
{
    assert(encoded@.subrange(0, 48) =~= encoded@);
    records::lemma_offset_entry_round_trip(
        encoded@,
        0,
        entry.pubkey@,
        entry.data_offset,
        entry.data_capacity,
        entry._pad,
    );
    lemma_entry_stands(encoded@, 0, entry);
}

/// The slot header that is decoded is the one that stands at the offset.
pub proof fn law_decode_slot_header(mem: &[u8], offset: usize, header: AccountSlotHeader)
    requires
        offset + 64 <= mem@.len(),
        call_ensures(AccountSlotHeader::decode, (mem, offset), header),
    ensures
        call_requires(AccountSlotHeader::decode, (mem, offset)),
        slot_header_stands(mem@, offset as int, header),
{
    let at = offset as int;
    lemma_words(mem@, at);
    lemma_words(mem@, at + 8);
    lemma_words(mem@, at + 48);
    lemma_words(mem@, at + 56);
    assert forall|k: int| 0 <= k < 32 implies mem@[at + 16 + k] == #[trigger] header.owner@[k] by {
        assert(header.owner@[k] == mem@.subrange(at + 16, at + 48)[k]);
    }
    assert forall|k: int| 0 <= k < 3 implies mem@[at + 61 + k] == #[trigger] header._pad@[k] by {
        assert(header._pad@[k] == mem@.subrange(at + 61, at + 64)[k]);
    }
}

} // verus!
