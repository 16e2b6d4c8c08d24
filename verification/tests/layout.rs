use solana_shm_accounts::bytes::{decode_le, encode_le};
use solana_shm_accounts::layout::{
    total_slot_size, AccountSlotHeader, OffsetTableEntry, ShmHeader, ShmLayout, OFFSET_ENTRY_SIZE,
    SHM_FORMAT_VERSION, SHM_HEADER_SIZE, SHM_MAGIC, SLOT_ALIGN, SLOT_HEADER_SIZE,
};
use std::mem;

fn sample_header() -> ShmHeader {
    ShmHeader {
        magic: SHM_MAGIC,
        format_version: SHM_FORMAT_VERSION,
        num_slots: 3,
        _pad0: 0,
        global_solana_slot: 0x0102_0304_0506_0708,
        writer_heartbeat: 9,
        writer_pid: 0xAABB_CCDD,
        ready: 1,
        _reserved: [7; 83],
    }
}

#[test]
fn test_shm_header_size_and_align() {
    assert_eq!(mem::size_of::<ShmHeader>(), 128);
    assert_eq!(SHM_HEADER_SIZE, 128);
    assert_eq!(sample_header().to_bytes().len(), 128);
    assert_eq!(SLOT_ALIGN, 64);
}

#[test]
fn test_offset_table_entry_size() {
    assert_eq!(mem::size_of::<OffsetTableEntry>(), 48);
    assert_eq!(OFFSET_ENTRY_SIZE, 48);
    let entry = OffsetTableEntry { pubkey: [1; 32], data_offset: 2, data_capacity: 3, _pad: 0 };
    assert_eq!(entry.to_bytes().len(), 48);
}

#[test]
fn test_account_slot_header_size_and_align() {
    assert_eq!(mem::size_of::<AccountSlotHeader>(), 64);
    assert_eq!(SLOT_HEADER_SIZE, 64);
    assert_eq!(SLOT_ALIGN, 64);
}

#[test]
fn test_shm_layout_calculation() {
    let capacities = vec![1024u32, 2048, 512];
    let layout = ShmLayout::new(3, &capacities);
    assert_eq!(layout.header_size, 128);
    assert_eq!(layout.offset_table_start, 128);
    assert_eq!(layout.offset_table_size, 3 * 48);
    assert_eq!(layout.data_region_start, 320);
    assert_eq!(layout.total_size, 4096);
}

#[test]
fn test_shm_layout_offsets() {
    let capacities = vec![1024u32, 2048, 512];
    let layout = ShmLayout::new(3, &capacities);
    assert_eq!(layout.slot_header_offset(0, &capacities), 320);
    assert_eq!(layout.slot_data_offset(0, &capacities), 384);
    assert_eq!(layout.slot_header_offset(1, &capacities), 1408);
}

#[test]
fn slots_are_aligned_and_disjoint() {
    let capacities = vec![0u32, 1, 63, 64, 65, 4095];
    let layout = ShmLayout::new(6, &capacities);
    assert_eq!(layout.data_region_start, 448);
    let mut previous_end = layout.offset_table_start + layout.offset_table_size;
    for (index, capacity) in capacities.iter().enumerate() {
        let header = layout.slot_header_offset(index, &capacities);
        let data = layout.slot_data_offset(index, &capacities);
        assert_eq!(header % 64, 0);
        assert_eq!(data, header + 64);
        assert!(header >= previous_end);
        previous_end = data + *capacity as usize;
    }
    assert!(previous_end <= layout.total_size);
    assert_eq!(layout.slot_header_offset(6, &capacities), layout.total_size);
    assert_eq!(layout.total_size % 64, 0);
}

#[test]
fn room_of_slots_adds_up() {
    let first = [0u32, 65];
    let second = [1u32, 64, 300];
    let both = [0u32, 65, 1, 64, 300];
    let room = |capacities: &[u32]| {
        let layout = ShmLayout::new(capacities.len() as u32, capacities);
        layout.total_size - layout.data_region_start
    };
    assert_eq!(room(&[0]), 64);
    assert_eq!(room(&[1]), 128);
    assert_eq!(room(&[64]), 128);
    assert_eq!(room(&[65]), 192);
    assert_eq!(room(&first), 256);
    assert_eq!(room(&second), 640);
    assert_eq!(room(&both), room(&first) + room(&second));
    assert_eq!(total_slot_size(&[]), 0);
    assert_eq!(total_slot_size(&[65]), 192);
    assert_eq!(total_slot_size(&both), total_slot_size(&first) + total_slot_size(&second));
}

#[test]
fn empty_layout() {
    let layout = ShmLayout::new(0, &[]);
    assert_eq!(layout.offset_table_size, 0);
    assert_eq!(layout.data_region_start, 128);
    assert_eq!(layout.total_size, 128);
}

#[test]
fn layouts_that_fit_the_machine() {
    assert!(ShmLayout::fits(3, &[1024, 2048, 512]));
    assert!(ShmLayout::fits(0, &[]));
}

#[test]
fn header_bytes_are_little_endian_in_struct_order() {
    let bytes = sample_header().to_bytes();
    assert_eq!(bytes[..8].to_vec(), SHM_MAGIC.to_le_bytes().to_vec());
    assert_eq!(bytes[8..16].to_vec(), vec![1, 0, 0, 0, 0, 0, 0, 0]);
    assert_eq!(bytes[16..20].to_vec(), vec![3, 0, 0, 0]);
    assert_eq!(bytes[20..24].to_vec(), vec![0, 0, 0, 0]);
    assert_eq!(bytes[24..32].to_vec(), vec![8, 7, 6, 5, 4, 3, 2, 1]);
    assert_eq!(bytes[32..40].to_vec(), vec![9, 0, 0, 0, 0, 0, 0, 0]);
    assert_eq!(bytes[40..44].to_vec(), vec![0xDD, 0xCC, 0xBB, 0xAA]);
    assert_eq!(bytes[44], 1);
    assert_eq!(bytes[45..].to_vec(), vec![7; 83]);
}

#[test]
fn header_decodes_to_what_was_encoded() {
    let header = ShmHeader::decode(&sample_header().to_bytes());
    assert_eq!(header.magic, SHM_MAGIC);
    assert_eq!(header.format_version, SHM_FORMAT_VERSION);
    assert_eq!(header.num_slots, 3);
    assert_eq!(header._pad0, 0);
    assert_eq!(header.global_solana_slot, 0x0102_0304_0506_0708);
    assert_eq!(header.writer_heartbeat, 9);
    assert_eq!(header.writer_pid, 0xAABB_CCDD);
    assert_eq!(header.ready, 1);
    assert_eq!(header._reserved, [7; 83]);
}

#[test]
fn entry_decodes_to_what_was_encoded() {
    let mut pubkey = [0u8; 32];
    for (index, byte) in pubkey.iter_mut().enumerate() {
        *byte = index as u8;
    }
    let entry = OffsetTableEntry { pubkey, data_offset: 0x1234_5678_9A, data_capacity: 77, _pad: 0 };
    let mut mem = vec![0xFFu8; 5];
    mem.extend(entry.to_bytes());
    let decoded = OffsetTableEntry::decode(&mem, 5);
    assert_eq!(decoded.pubkey, pubkey);
    assert_eq!(decoded.data_offset, 0x1234_5678_9A);
    assert_eq!(decoded.data_capacity, 77);
    assert_eq!(decoded._pad, 0);
}

#[test]
fn slot_header_decodes_by_offset() {
    let mut mem = vec![0u8; 64];
    mem[0] = 4;
    mem[8] = 5;
    mem[16..48].copy_from_slice(&[6; 32]);
    mem[48] = 7;
    mem[56] = 8;
    mem[60] = 1;
    mem[61..64].copy_from_slice(&[1, 2, 3]);
    let header = AccountSlotHeader::decode(&mem, 0);
    assert_eq!(header.seqlock_ver, 4);
    assert_eq!(header.solana_slot, 5);
    assert_eq!(header.owner, [6; 32]);
    assert_eq!(header.lamports, 7);
    assert_eq!(header.data_len, 8);
    assert_eq!(header.executable, 1);
    assert_eq!(header._pad, [1, 2, 3]);
}

#[test]
fn decoded_records_encode_back() {
    let mut mem: Vec<u8> = (0..128).map(|byte| byte as u8 ^ 0x5A).collect();
    assert_eq!(ShmHeader::decode(&mem).to_bytes(), mem);
    mem.extend(vec![1; 10]);
    assert_eq!(OffsetTableEntry::decode(&mem, 70).to_bytes(), mem[70..118].to_vec());
}

#[test]
fn words_are_encoded_lowest_byte_first() {
    assert_eq!(encode_le(0x0102_0304, 4), vec![4, 3, 2, 1]);
    assert_eq!(encode_le(u64::MAX, 8), vec![255; 8]);
    assert_eq!(encode_le(0x1_02, 1), vec![2]);
    assert_eq!(decode_le(&[9, 4, 3, 2, 1, 9], 1, 4), 0x0102_0304);
    assert_eq!(decode_le(&[255; 8], 0, 8), u64::MAX);
    assert_eq!(decode_le(&[1], 0, 0), 0);
}
