//! The records of the region and the bytes they occupy.
use crate::bytes;
use crate::layout::{AccountSlotHeader, OffsetTableEntry, ShmHeader};
use crate::memory;
use vstd::prelude::*;

verus! {

/// The bytes of a region header with the given fields, in the order of the
/// struct.
pub open spec fn shm_header_bytes(
    magic: u64,
    format_version: u64,
    num_slots: u32,
    pad: u32,
    global_slot: u64,
    heartbeat: u64,
    pid: u32,
    ready: u8,
    reserved: Seq<u8>,
) -> Seq<u8> {
    bytes::le_bytes(magic as nat, 8) + bytes::le_bytes(format_version as nat, 8) + bytes::le_bytes(
        num_slots as nat,
        4,
    ) + bytes::le_bytes(pad as nat, 4) + bytes::le_bytes(global_slot as nat, 8) + bytes::le_bytes(
        heartbeat as nat,
        8,
    ) + bytes::le_bytes(pid as nat, 4) + seq![ready] + reserved
}

/// The bytes of a table entry with the given fields, in the order of the
/// struct.
pub open spec fn offset_entry_bytes(
    pubkey: Seq<u8>,
    data_offset: u64,
    data_capacity: u32,
    pad: u32,
) -> Seq<u8> {
    pubkey + bytes::le_bytes(data_offset as nat, 8) + bytes::le_bytes(data_capacity as nat, 4)
        + bytes::le_bytes(pad as nat, 4)
}

impl ShmHeader {
    /// The bytes of the header.
    pub open spec fn bytes(self) -> Seq<u8> {
        shm_header_bytes(
            self.magic,
            self.format_version,
            self.num_slots,
            self._pad0,
            self.global_solana_slot,
            self.writer_heartbeat,
            self.writer_pid,
            self.ready,
            self._reserved@,
        )
    }

    /// The header is the one at the start of the region.
    pub open spec fn is_at_start(self, mem: Seq<u8>) -> bool {
        &&& self.magic == memory::u64_at(mem, 0)
        &&& self.format_version == memory::u64_at(mem, 8)
        &&& self.num_slots == memory::u32_at(mem, 16)
        &&& self._pad0 == memory::u32_at(mem, 20)
        &&& self.global_solana_slot == memory::u64_at(mem, 24)
        &&& self.writer_heartbeat == memory::u64_at(mem, 32)
        &&& self.writer_pid == memory::u32_at(mem, 40)
        &&& self.ready == mem[44]
        &&& self._reserved@ == mem.subrange(45, 128)
    }

    /// Encodes the header.
    pub fn to_bytes(&self) -> (encoded: Vec<u8>)
        ensures
            encoded@ == self.bytes(),
            encoded@.len() == 128,
    {
        let mut encoded: Vec<u8> = Vec::new();
        append(&mut encoded, bytes::encode_le(self.magic, 8));
        append(&mut encoded, bytes::encode_le(self.format_version, 8));
        append(&mut encoded, bytes::encode_le(self.num_slots as u64, 4));
        append(&mut encoded, bytes::encode_le(self._pad0 as u64, 4));
        append(&mut encoded, bytes::encode_le(self.global_solana_slot, 8));
        append(&mut encoded, bytes::encode_le(self.writer_heartbeat, 8));
        append(&mut encoded, bytes::encode_le(self.writer_pid as u64, 4));
        encoded.push(self.ready);
        append(&mut encoded, vstd::slice::slice_to_vec(self._reserved.as_slice()));
        proof {
            lemma_word_lengths();
            assert(encoded@ =~= self.bytes());
        }
        encoded
    }

    /// Decodes the header at the start of a region.
    pub fn decode(mem: &[u8]) -> (header: Self)
        requires
            128 <= mem@.len(),
        ensures
            header.is_at_start(mem@),
    {
        proof {
            bytes::lemma_byte_span_values();
        }
        let mut reserved: [u8; 83] = [0u8; 83];
        let mut k: usize = 0;
        while k < 83
            invariant
                k <= 83,
                128 <= mem@.len(),
                forall|j: int| 0 <= j < k ==> reserved@[j] == mem@[45 + j],
            decreases 83 - k,
        {
            reserved[k] = mem[45 + k];
            k = k + 1;
        }
        assert(reserved@ =~= mem@.subrange(45, 128));
        ShmHeader {
            magic: bytes::decode_le(mem, 0, 8),
            format_version: bytes::decode_le(mem, 8, 8),
            num_slots: bytes::decode_le(mem, 16, 4) as u32,
            _pad0: bytes::decode_le(mem, 20, 4) as u32,
            global_solana_slot: bytes::decode_le(mem, 24, 8),
            writer_heartbeat: bytes::decode_le(mem, 32, 8),
            writer_pid: bytes::decode_le(mem, 40, 4) as u32,
            ready: mem[44],
            _reserved: reserved,
        }
    }
}

impl OffsetTableEntry {
    /// The bytes of the entry.
    pub open spec fn bytes(self) -> Seq<u8> {
        offset_entry_bytes(self.pubkey@, self.data_offset, self.data_capacity, self._pad)
    }

    /// The entry is the one at `offset`.
    pub open spec fn is_at(self, mem: Seq<u8>, offset: int) -> bool {
        &&& self.pubkey@ == mem.subrange(offset, offset + 32)
        &&& self.data_offset == memory::u64_at(mem, offset + 32)
        &&& self.data_capacity == memory::u32_at(mem, offset + 40)
        &&& self._pad == memory::u32_at(mem, offset + 44)
    }

    /// Encodes the entry.
    pub fn to_bytes(&self) -> (encoded: Vec<u8>)
        ensures
            encoded@ == self.bytes(),
            encoded@.len() == 48,
    {
        let mut encoded: Vec<u8> = vstd::slice::slice_to_vec(self.pubkey.as_slice());
        append(&mut encoded, bytes::encode_le(self.data_offset, 8));
        append(&mut encoded, bytes::encode_le(self.data_capacity as u64, 4));
        append(&mut encoded, bytes::encode_le(self._pad as u64, 4));
        proof {
            lemma_word_lengths();
        }
        encoded
    }

    /// Decodes the entry at `offset`.
    pub fn decode(mem: &[u8], offset: usize) -> (entry: Self)
        requires
            offset + 48 <= mem@.len(),
        ensures
            entry.is_at(mem@, offset as int),
    {
        proof {
            bytes::lemma_byte_span_values();
            assert(mem@.len() == mem.len());
        }
        OffsetTableEntry {
            pubkey: decode_key(mem, offset),
            data_offset: bytes::decode_le(mem, offset + 32, 8),
            data_capacity: bytes::decode_le(mem, offset + 40, 4) as u32,
            _pad: bytes::decode_le(mem, offset + 44, 4) as u32,
        }
    }
}

impl AccountSlotHeader {
    /// The slot header is the one at `offset`.
    pub open spec fn is_at(self, mem: Seq<u8>, offset: int) -> bool {
        &&& self.seqlock_ver == memory::u64_at(mem, offset)
        &&& self.solana_slot == memory::u64_at(mem, offset + 8)
        &&& self.owner@ == mem.subrange(offset + 16, offset + 48)
        &&& self.lamports == memory::u64_at(mem, offset + 48)
        &&& self.data_len == memory::u32_at(mem, offset + 56)
        &&& self.executable == mem[offset + 60]
        &&& self._pad@ == mem.subrange(offset + 61, offset + 64)
    }

    /// Decodes the slot header at `offset`.
    pub fn decode(mem: &[u8], offset: usize) -> (header: Self)
        requires
            offset + 64 <= mem@.len(),
        ensures
            header.is_at(mem@, offset as int),
    {
        proof {
            bytes::lemma_byte_span_values();
            assert(mem@.len() == mem.len());
        }
        let pad: [u8; 3] = [mem[offset + 61], mem[offset + 62], mem[offset + 63]];
        assert(pad@ =~= mem@.subrange(offset + 61, offset + 64));
        AccountSlotHeader {
            seqlock_ver: bytes::decode_le(mem, offset, 8),
            solana_slot: bytes::decode_le(mem, offset + 8, 8),
            owner: decode_key(mem, offset + 16),
            lamports: bytes::decode_le(mem, offset + 48, 8),
            data_len: bytes::decode_le(mem, offset + 56, 4) as u32,
            executable: mem[offset + 60],
            _pad: pad,
        }
    }
}

/// Appends `tail` to `head`.
fn append(head: &mut Vec<u8>, tail: Vec<u8>)
    ensures
        final(head)@ == old(head)@ + tail@,
{
    let mut tail = tail;
    head.append(&mut tail);
}

/// Decodes the key at `offset`.
fn decode_key(mem: &[u8], offset: usize) -> (key: [u8; 32])
    requires
        offset + 32 <= mem@.len(),
    ensures
        key@ == mem@.subrange(offset as int, offset + 32),
{
    let mut key: [u8; 32] = [0u8; 32];
    let mut k: usize = 0;
    assert(mem@.len() == mem.len());
    while k < 32
        invariant
            k <= 32,
            offset + 32 <= mem.len(),
            forall|j: int| 0 <= j < k ==> key@[j] == mem@[offset + j],
        decreases 32 - k,
    {
        key[k] = mem[offset + k];
        k = k + 1;
    }
    assert(key@ =~= mem@.subrange(offset as int, offset + 32));
    key
}

/// Words occupy eight or four bytes.
pub proof fn lemma_word_lengths()
    ensures
        forall|x: u64| (#[trigger] bytes::le_bytes(x as nat, 8)).len() == 8,
        forall|x: u32| (#[trigger] bytes::le_bytes(x as nat, 4)).len() == 4,
{
    assert forall|x: u64| (#[trigger] bytes::le_bytes(x as nat, 8)).len() == 8 by {
        bytes::lemma_le_bytes_len(x as nat, 8);
    }
    assert forall|x: u32| (#[trigger] bytes::le_bytes(x as nat, 4)).len() == 4 by {
        bytes::lemma_le_bytes_len(x as nat, 4);
    }
}

/// A region that starts with the bytes of a header decodes to the fields of
/// that header.
pub proof fn lemma_shm_header_round_trip(
    mem: Seq<u8>,
    magic: u64,
    format_version: u64,
    num_slots: u32,
    pad: u32,
    global_slot: u64,
    heartbeat: u64,
    pid: u32,
    ready: u8,
    reserved: Seq<u8>,
)
    requires
        reserved.len() == 83,
        128 <= mem.len(),
        mem.subrange(0, 128) == shm_header_bytes(
            magic,
            format_version,
            num_slots,
            pad,
            global_slot,
            heartbeat,
            pid,
            ready,
            reserved,
        ),
    ensures
        memory::u64_at(mem, 0) == magic,
        memory::u64_at(mem, 8) == format_version,
        memory::u32_at(mem, 16) == num_slots,
        memory::u32_at(mem, 20) == pad,
        memory::u64_at(mem, 24) == global_slot,
        memory::u64_at(mem, 32) == heartbeat,
        memory::u32_at(mem, 40) == pid,
        mem[44] == ready,
        mem.subrange(45, 128) == reserved,
{
    lemma_word_lengths();
    let head = mem.subrange(0, 128);
    memory::lemma_word_reads_back(mem, 0, magic, 0);
    memory::lemma_word_reads_back(mem, 8, format_version, 0);
    memory::lemma_word_reads_back(mem, 16, 0, num_slots);
    memory::lemma_word_reads_back(mem, 20, 0, pad);
    memory::lemma_word_reads_back(mem, 24, global_slot, 0);
    memory::lemma_word_reads_back(mem, 32, heartbeat, 0);
    memory::lemma_word_reads_back(mem, 40, 0, pid);
    assert(forall|k: int| 0 <= k < 128 ==> mem[k] == head[k]);
    assert(mem.subrange(0, 8) =~= bytes::le_bytes(magic as nat, 8));
    assert(mem.subrange(8, 16) =~= bytes::le_bytes(format_version as nat, 8));
    assert(mem.subrange(16, 20) =~= bytes::le_bytes(num_slots as nat, 4));
    assert(mem.subrange(20, 24) =~= bytes::le_bytes(pad as nat, 4));
    assert(mem.subrange(24, 32) =~= bytes::le_bytes(global_slot as nat, 8));
    assert(mem.subrange(32, 40) =~= bytes::le_bytes(heartbeat as nat, 8));
    assert(mem.subrange(40, 44) =~= bytes::le_bytes(pid as nat, 4));
    assert(mem.subrange(45, 128) =~= reserved);
}

/// A region that holds the bytes of an entry decodes there to the fields of
/// that entry.
pub proof fn lemma_offset_entry_round_trip(
    mem: Seq<u8>,
    offset: int,
    pubkey: Seq<u8>,
    data_offset: u64,
    data_capacity: u32,
    pad: u32,
)
    requires
        pubkey.len() == 32,
        0 <= offset,
        offset + 48 <= mem.len(),
        mem.subrange(offset, offset + 48) == offset_entry_bytes(
            pubkey,
            data_offset,
            data_capacity,
            pad,
        ),
    ensures
        mem.subrange(offset, offset + 32) == pubkey,
        memory::u64_at(mem, offset + 32) == data_offset,
        memory::u32_at(mem, offset + 40) == data_capacity,
        memory::u32_at(mem, offset + 44) == pad,
{
    lemma_word_lengths();
    let part = mem.subrange(offset, offset + 48);
    memory::lemma_word_reads_back(mem, offset + 32, data_offset, 0);
    memory::lemma_word_reads_back(mem, offset + 40, 0, data_capacity);
    memory::lemma_word_reads_back(mem, offset + 44, 0, pad);
    assert(forall|k: int| offset <= k < offset + 48 ==> mem[k] == part[k - offset]);
    assert(mem.subrange(offset, offset + 32) =~= pubkey);
    assert(mem.subrange(offset + 32, offset + 40) =~= bytes::le_bytes(data_offset as nat, 8));
    assert(mem.subrange(offset + 40, offset + 44) =~= bytes::le_bytes(data_capacity as nat, 4));
    assert(mem.subrange(offset + 44, offset + 48) =~= bytes::le_bytes(pad as nat, 4));
}

/// A header that was decoded from a region encodes to the bytes it was decoded
/// from.
pub proof fn lemma_decoded_header_encodes_back(mem: Seq<u8>, header: ShmHeader)
    requires
        128 <= mem.len(),
        header.is_at_start(mem),
    ensures
        header.bytes() == mem.subrange(0, 128),
{
    lemma_words_determine_bytes(mem, 0);
    lemma_words_determine_bytes(mem, 8);
    lemma_words_determine_bytes(mem, 16);
    lemma_words_determine_bytes(mem, 20);
    lemma_words_determine_bytes(mem, 24);
    lemma_words_determine_bytes(mem, 32);
    lemma_words_determine_bytes(mem, 40);
    assert(header.bytes() =~= mem.subrange(0, 128));
}

/// An entry that was decoded from a region encodes to the bytes it was decoded
/// from.
pub proof fn lemma_decoded_entry_encodes_back(mem: Seq<u8>, offset: int, entry: OffsetTableEntry)
    requires
        0 <= offset,
        offset + 48 <= mem.len(),
        entry.is_at(mem, offset),
    ensures
        entry.bytes() == mem.subrange(offset, offset + 48),
{
    lemma_words_determine_bytes(mem, offset + 32);
    lemma_words_determine_bytes(mem, offset + 40);
    assert(memory::u32_at(mem, offset + 44) as nat == bytes::le_value(
        mem.subrange(offset + 44, offset + 48),
    )) by {
        bytes::lemma_byte_span_values();
        bytes::lemma_le_value_bound(mem.subrange(offset + 44, offset + 48));
    }
    bytes::lemma_le_digits_unique(mem.subrange(offset + 44, offset + 48));
    assert(entry.bytes() =~= mem.subrange(offset, offset + 48));
}

/// The words at an offset determine the bytes there.
proof fn lemma_words_determine_bytes(mem: Seq<u8>, offset: int)
    requires
        0 <= offset,
        offset + 8 <= mem.len(),
    ensures
        bytes::le_bytes(memory::u64_at(mem, offset) as nat, 8) == mem.subrange(offset, offset + 8),
        bytes::le_bytes(memory::u32_at(mem, offset) as nat, 4) == mem.subrange(offset, offset + 4),
{
    bytes::lemma_byte_span_values();
    bytes::lemma_le_value_bound(mem.subrange(offset, offset + 8));
    bytes::lemma_le_value_bound(mem.subrange(offset, offset + 4));
    bytes::lemma_le_digits_unique(mem.subrange(offset, offset + 8));
    bytes::lemma_le_digits_unique(mem.subrange(offset, offset + 4));
}

} // verus!
