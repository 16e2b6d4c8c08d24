use solana_shm_accounts::error::{IoErrorKind, ShmError};
use solana_shm_accounts::layout::{AccountSlotHeader, ShmConfig, SHM_FORMAT_VERSION, SHM_MAGIC};
use solana_shm_accounts::memory::{Store, Value};
use solana_shm_accounts::reader::{AccountRead, Observed, ReadStage, ShmReader, WaitStep};
use solana_shm_accounts::region::{
    build_index_from_entries, offset_entry, read_capacities, validate_header, validate_offsets,
};
use solana_shm_accounts::snapshot::ShmAccountSnapshot;
use solana_shm_accounts::table::can_open;
use solana_shm_accounts::writer::{reported_len, validate_config, ShmWriter};

const NOW: u64 = 1_700_000_000_000_000_000;
const PID: u32 = 321;

fn test_accounts(count: usize) -> Vec<[u8; 32]> {
    (0..count)
        .map(|index| {
            let mut pubkey = [0_u8; 32];
            pubkey[..8].copy_from_slice(&(index as u64).to_le_bytes());
            pubkey
        })
        .collect()
}

fn owner_for(index: usize) -> [u8; 32] {
    let mut owner = [0_u8; 32];
    owner[..8].copy_from_slice(&((index as u64) + 10_000).to_le_bytes());
    owner
}

fn data_for(index: usize) -> Vec<u8> {
    vec![index as u8; 16 + index]
}

fn config_for(accounts: &[[u8; 32]], capacities: Vec<u32>) -> ShmConfig {
    ShmConfig {
        shm_path: "accounts.shm".to_string(),
        accounts: accounts.to_vec(),
        capacities,
    }
}

fn perform(mem: &mut [u8], stores: &[Store]) {
    for store in stores {
        store.apply(mem);
    }
}

fn create(config: &ShmConfig) -> (ShmWriter, Vec<u8>) {
    let (writer, stores) =
        ShmWriter::create(config, NOW, PID).expect("writer should create shm");
    let mut mem = vec![0xEE_u8; writer.region_size()];
    perform(&mut mem, &stores);
    (writer, mem)
}

fn word(mem: &[u8], offset: usize) -> u64 {
    let mut bytes = [0_u8; 8];
    bytes.copy_from_slice(&mem[offset..offset + 8]);
    u64::from_le_bytes(bytes)
}

fn version_of(writer: &ShmWriter, mem: &[u8], pubkey: &[u8; 32]) -> u64 {
    match writer.lookup(pubkey) {
        Some(slot) => word(mem, writer.version_offset(slot)),
        None => 0,
    }
}

#[allow(clippy::too_many_arguments)]
fn write(
    writer: &ShmWriter,
    mem: &mut [u8],
    pubkey: &[u8; 32],
    owner: &[u8; 32],
    lamports: u64,
    executable: bool,
    rent_epoch: u64,
    data: &[u8],
    slot: u64,
) -> Result<(), ShmError> {
    let version = version_of(writer, mem, pubkey);
    let stores = writer.write_account(
        pubkey, owner, lamports, executable, rent_epoch, data, slot, version, NOW, PID,
    )?;
    perform(mem, &stores);
    Ok(())
}

/// Gives a read what it asks for, from memory that does not change.
fn observe(read: AccountRead, mem: &[u8]) -> AccountRead {
    let seen = match &read.stage {
        ReadStage::LoadVersion { .. } | ReadStage::ReloadVersion { .. } => {
            Observed::Version(word(mem, read.header_offset))
        }
        ReadStage::CheckWriter => Observed::Writer { heartbeat: 0, now: u64::MAX, pid: PID },
        ReadStage::ProbeWriter { .. } => Observed::Probe { exists: true },
        ReadStage::LoadHeader { .. } => {
            Observed::Header(AccountSlotHeader::decode(mem, read.header_offset))
        }
        ReadStage::CopyData { header, .. } => {
            let len = header.data_len as usize;
            Observed::Data(mem[read.data_offset..read.data_offset + len].to_vec())
        }
        ReadStage::Done { .. } | ReadStage::Failed { .. } => return read,
    };
    read.step(seen)
}

fn finish(mut read: AccountRead, mem: &[u8]) -> Result<ShmAccountSnapshot, ShmError> {
    loop {
        match read.stage {
            ReadStage::Done { snapshot } => return Ok(snapshot),
            ReadStage::Failed { error } => return Err(error),
            _ => read = observe(read, mem),
        }
    }
}

fn read(reader: &ShmReader, mem: &[u8], pubkey: &[u8; 32]) -> Result<ShmAccountSnapshot, ShmError> {
    finish(reader.read_account(pubkey)?, mem)
}

#[test]
fn writer_reader_roundtrip() {
    let accounts = test_accounts(10);
    let config = config_for(&accounts, vec![128; accounts.len()]);

    let (writer, mut mem) = create(&config);
    for (index, pubkey) in accounts.iter().enumerate() {
        write(
            &writer,
            &mut mem,
            pubkey,
            &owner_for(index),
            1_000 + index as u64,
            index % 2 == 0,
            200 + index as u64,
            &data_for(index),
            500 + index as u64,
        )
        .expect("writer should write account");
    }
    writer.set_ready().apply(&mut mem);

    let reader = ShmReader::open(&mem).expect("reader should open shm");
    assert!(matches!(reader.wait_ready(true, mem[44]), WaitStep::Ready));

    for (index, pubkey) in accounts.iter().enumerate() {
        let snapshot = read(&reader, &mem, pubkey).expect("reader should read account");
        assert_eq!(snapshot.owner, owner_for(index));
        assert_eq!(snapshot.lamports, 1_000 + index as u64);
        assert_eq!(snapshot.data, data_for(index));
        assert_eq!(snapshot.executable, index % 2 == 0);
        assert_eq!(snapshot.solana_slot, 500 + index as u64);
    }

    assert_eq!(reader.global_solana_slot(|offset| word(&mem, offset)), 509);
}

#[test]
fn writer_reader_open_existing() {
    let accounts = test_accounts(2);
    let config = config_for(&accounts, vec![128; accounts.len()]);

    let mut mem = {
        let (writer, mut mem) = create(&config);
        writer.set_ready().apply(&mut mem);
        mem
    };

    let (writer, stores) =
        ShmWriter::open(&mem, NOW + 1, PID + 1).expect("writer should reopen shm");
    perform(&mut mem, &stores);
    assert_eq!(word(&mem, 32), NOW + 1);
    write(&writer, &mut mem, &accounts[0], &owner_for(0), 77, true, 88, &data_for(0), 99)
        .expect("writer should update reopened shm");
    writer.set_ready().apply(&mut mem);

    let reader = ShmReader::open(&mem).expect("reader should open shm");
    let snapshot = read(&reader, &mem, &accounts[0]).expect("reader should read account");
    assert_eq!(snapshot.owner, owner_for(0));
    assert_eq!(snapshot.lamports, 77);
    assert_eq!(snapshot.data, data_for(0));
    assert!(snapshot.executable);
    assert_eq!(snapshot.solana_slot, 99);
}

#[test]
fn writer_reader_wait_ready_timeout() {
    let accounts = test_accounts(1);
    let config = config_for(&accounts, vec![64]);

    let (_writer, mem) = create(&config);
    let reader = ShmReader::open(&mem).expect("reader should open shm");
    for _ in 0..100 {
        assert!(matches!(reader.wait_ready(true, mem[44]), WaitStep::Sleep(1)));
    }
    let step = reader.wait_ready(false, mem[44]);
    assert!(matches!(step, WaitStep::TimedOut(ShmError::NotReady)));
}

#[test]
fn writer_reader_read_version_incremental() {
    let accounts = test_accounts(1);
    let config = config_for(&accounts, vec![128]);

    let (writer, mut mem) = create(&config);
    write(&writer, &mut mem, &accounts[0], &owner_for(0), 10, false, 20, &data_for(0), 30)
        .expect("first write should succeed");
    writer.set_ready().apply(&mut mem);

    let reader = ShmReader::open(&mem).expect("reader should open shm");
    let first_version = reader
        .read_version(&accounts[0], |offset| word(&mem, offset))
        .expect("version should be readable");

    write(&writer, &mut mem, &accounts[0], &owner_for(0), 11, true, 21, &data_for(0), 31)
        .expect("second write should succeed");

    let second_version = reader
        .read_version(&accounts[0], |offset| word(&mem, offset))
        .expect("version should change");
    assert_ne!(first_version, second_version);
    assert_eq!(first_version, 2);
    assert_eq!(second_version, 4);
}

#[test]
fn created_region_has_header_table_and_zeros() {
    let accounts = test_accounts(3);
    let config = config_for(&accounts, vec![1024, 2048, 512]);
    let (writer, mem) = create(&config);
    assert_eq!(mem.len(), 4096);
    assert_eq!(word(&mem, 0), SHM_MAGIC);
    assert_eq!(word(&mem, 8), SHM_FORMAT_VERSION);
    assert_eq!(mem[16..24].to_vec(), vec![3, 0, 0, 0, 0, 0, 0, 0]);
    assert_eq!(word(&mem, 24), 0);
    assert_eq!(word(&mem, 32), NOW);
    assert_eq!(mem[40..44].to_vec(), PID.to_le_bytes().to_vec());
    assert_eq!(mem[44], 0);
    assert_eq!(mem[45..128].to_vec(), vec![0; 83]);
    for (index, pubkey) in accounts.iter().enumerate() {
        let entry = offset_entry(&mem, index).expect("entry should be in bounds");
        assert_eq!(entry.pubkey, *pubkey);
        assert_eq!(entry.data_capacity, config.capacities[index]);
        assert_eq!(entry.data_offset as usize, writer.version_offset(index) + 64);
        assert_eq!(entry._pad, 0);
    }
    assert!(mem[128 + 3 * 48..].iter().all(|byte| *byte == 0));
}

#[test]
fn write_goes_through_odd_versions_and_never_tears() {
    let accounts = test_accounts(2);
    let config = config_for(&accounts, vec![64, 64]);
    let (writer, mut mem) = create(&config);
    write(&writer, &mut mem, &accounts[0], &[1; 32], 1, false, 0, &[1; 40], 1)
        .expect("first write should succeed");
    write(&writer, &mut mem, &accounts[1], &[9; 32], 9, true, 0, &[9; 9], 9)
        .expect("write to the other slot should succeed");
    let reader = ShmReader::open(&mem).expect("reader should open shm");

    let stores = writer
        .write_account(&accounts[0], &[2; 32], 2, true, 0, &[2; 10], 2, 2, NOW, PID)
        .expect("second write should succeed");
    let mut states = vec![mem.clone()];
    for store in &stores {
        store.apply(&mut mem);
        states.push(mem.clone());
    }
    let last = states.len() - 1;
    assert_eq!(word(&states[last], writer.version_offset(0)), 4);
    for state in &states[1..last] {
        assert_eq!(word(state, writer.version_offset(0)), 3);
    }
    // Load the version in one state, the header in another, and so on.
    for first in 0..=last {
        for second in first..=last {
            for third in second..=last {
                for fourth in third..=last {
                    let mut read = reader.read_account(&accounts[0]).expect("slot should exist");
                    for at in [first, second, third, fourth] {
                        read = observe(read, &states[at]);
                    }
                    if let ReadStage::Done { snapshot } = read.stage {
                        let old = snapshot.owner == [1; 32]
                            && snapshot.lamports == 1
                            && snapshot.data == vec![1; 40]
                            && !snapshot.executable
                            && snapshot.solana_slot == 1;
                        let new = snapshot.owner == [2; 32]
                            && snapshot.lamports == 2
                            && snapshot.data == vec![2; 10]
                            && snapshot.executable
                            && snapshot.solana_slot == 2;
                        assert!(old || new);
                        assert_eq!(old, first == 0);
                    }
                }
            }
        }
    }
    // The other slot is the same in every state.
    for state in &states {
        let other = read(&reader, state, &accounts[1]).expect("reader should read account");
        assert_eq!(other.owner, [9; 32]);
        assert_eq!(other.data, vec![9; 9]);
    }
}

#[test]
fn shorter_data_is_followed_by_zeros() {
    let accounts = test_accounts(1);
    let config = config_for(&accounts, vec![8]);
    let (writer, mut mem) = create(&config);
    write(&writer, &mut mem, &accounts[0], &[1; 32], 1, false, 0, &[5; 8], 1)
        .expect("write should succeed");
    write(&writer, &mut mem, &accounts[0], &[1; 32], 1, false, 0, &[6; 3], 1)
        .expect("write should succeed");
    let data = writer.version_offset(0) + 64;
    assert_eq!(mem[data..data + 8].to_vec(), vec![6, 6, 6, 0, 0, 0, 0, 0]);
}

#[test]
fn publishing_stores_are_aligned_words() {
    let accounts = test_accounts(3);
    let config = config_for(&accounts, vec![5, 70, 0]);
    let (writer, _) = create(&config);
    let mut stores = writer
        .write_account(&accounts[1], &[1; 32], 1, true, 0, &[1; 70], 1, 0, NOW, PID)
        .expect("write should succeed");
    stores.extend(writer.update_global_slot(5, NOW, PID));
    stores.push(writer.set_ready());
    for store in stores.iter().filter(|store| store.publish) {
        match store.value {
            Value::U64(_) => assert_eq!(store.offset % 8, 0),
            Value::U32(_) => assert_eq!(store.offset % 4, 0),
            Value::U8(_) => {}
            _ => panic!("only words are published"),
        }
    }
    assert!(stores[0].publish);
}

#[test]
fn data_of_exactly_the_capacity_fits() {
    let accounts = test_accounts(1);
    let config = config_for(&accounts, vec![16]);
    let (writer, mut mem) = create(&config);
    write(&writer, &mut mem, &accounts[0], &[1; 32], 1, false, 0, &[3; 16], 1)
        .expect("data of the capacity should fit");
    let error = write(&writer, &mut mem, &accounts[0], &[1; 32], 1, false, 0, &[3; 17], 1)
        .expect_err("longer data should be refused");
    assert!(matches!(error, ShmError::SlotOverflow { actual: 17, capacity: 16 }));
    let reader = ShmReader::open(&mem).expect("reader should open shm");
    let snapshot = read(&reader, &mem, &accounts[0]).expect("reader should read account");
    assert_eq!(snapshot.data, vec![3; 16]);
}

#[test]
fn unknown_accounts_are_not_found() {
    let accounts = test_accounts(2);
    let config = config_for(&accounts, vec![16, 16]);
    let (writer, mem) = create(&config);
    let unknown = [0xAB; 32];
    assert_eq!(writer.lookup(&unknown), None);
    assert_eq!(writer.lookup(&accounts[1]), Some(1));
    let refused = writer.write_account(&unknown, &unknown, 1, false, 0, &[], 1, 0, NOW, PID);
    assert!(matches!(refused, Err(ShmError::PubkeyNotFound)));
    let reader = ShmReader::open(&mem).expect("reader should open shm");
    assert!(matches!(reader.read_account(&unknown), Err(ShmError::PubkeyNotFound)));
    assert!(matches!(
        reader.read_version(&unknown, |offset| word(&mem, offset)),
        Err(ShmError::PubkeyNotFound)
    ));
}

#[test]
fn the_last_of_equal_accounts_has_the_slot() {
    let mut accounts = test_accounts(4);
    accounts[2] = accounts[0];
    // Same first eight bytes, another account.
    accounts[3] = accounts[0];
    accounts[3][31] = 1;
    let config = config_for(&accounts, vec![16; 4]);
    let (writer, mem) = create(&config);
    assert_eq!(writer.lookup(&accounts[0]), Some(2));
    assert_eq!(writer.lookup(&accounts[1]), Some(1));
    assert_eq!(writer.lookup(&accounts[3]), Some(3));
    let (reopened, _) = ShmWriter::open(&mem, NOW, PID).expect("writer should reopen shm");
    assert_eq!(reopened.lookup(&accounts[0]), Some(2));
    assert_eq!(reopened.lookup(&accounts[3]), Some(3));
}

#[test]
fn every_account_needs_a_capacity() {
    let accounts = test_accounts(2);
    let config = config_for(&accounts, vec![16]);
    let error = validate_config(&config).expect_err("lengths differ");
    match error {
        ShmError::Io(error) => {
            assert_eq!(error.kind, IoErrorKind::InvalidInput);
            assert_eq!(error.message, "accounts and capacities length mismatch");
        }
        _ => panic!("wrong error"),
    }
    assert!(matches!(ShmWriter::create(&config, NOW, PID), Err(ShmError::Io(_))));
    assert!(validate_config(&config_for(&accounts, vec![16, 17])).is_ok());
}

#[test]
fn foreign_regions_are_refused() {
    let accounts = test_accounts(2);
    let config = config_for(&accounts, vec![16, 16]);
    let (_, good) = create(&config);
    assert!(validate_header(&good).is_ok());

    let mut mem = good.clone();
    mem[0] = 0x55;
    let actual = word(&mem, 0);
    assert!(matches!(
        ShmReader::open(&mem),
        Err(ShmError::InvalidMagic { expected: SHM_MAGIC, actual: a }) if a == actual
    ));

    let mut mem = good.clone();
    mem[8] = 2;
    assert!(matches!(
        ShmWriter::open(&mem, NOW, PID),
        Err(ShmError::VersionMismatch { expected: 1, actual: 2 })
    ));

    let mem = &good[..128 + 48 + 47];
    match ShmReader::open(mem) {
        Err(ShmError::Io(error)) => {
            assert_eq!(error.kind, IoErrorKind::UnexpectedEof);
            assert_eq!(error.message, "offset table entry out of bounds");
        }
        _ => panic!("a table that is cut off should be refused"),
    }

    let mut mem = good.clone();
    mem[128 + 48 + 32] ^= 1;
    match ShmWriter::open(&mem, NOW, PID) {
        Err(ShmError::Io(error)) => {
            assert_eq!(error.kind, IoErrorKind::InvalidData);
            assert_eq!(error.message, "offset table does not match computed layout");
        }
        _ => panic!("a table that contradicts the layout should be refused"),
    }
}

#[test]
fn regions_that_can_be_addressed() {
    let accounts = test_accounts(2);
    let config = config_for(&accounts, vec![16, 16]);
    let (_, mem) = create(&config);
    assert!(can_open(&mem));
    assert!(can_open(&[0; 128]));
    assert!(!can_open(&mem[..127]));
    assert!(can_open(&mem[..130]));
}

#[test]
fn tables_are_read_entry_by_entry() {
    let accounts = test_accounts(3);
    let config = config_for(&accounts, vec![10, 20, 30]);
    let (_, mem) = create(&config);
    assert_eq!(read_capacities(&mem, 3).expect("table is complete"), vec![10, 20, 30]);
    assert_eq!(read_capacities(&mem, 2).expect("table is complete"), vec![10, 20]);
    assert!(read_capacities(&mem[..128], 0).expect("no entries").is_empty());
    assert!(matches!(read_capacities(&mem[..170], 1), Err(ShmError::Io(_))));
    let index = build_index_from_entries(&mem, 3).expect("table is complete");
    assert_eq!(index.len(), 3);
    assert_eq!(index.get(&accounts[2]), Some(2));
    let layout = solana_shm_accounts::layout::ShmLayout::new(3, &[10, 20, 30]);
    assert!(validate_offsets(&mem, &layout, &[10, 20, 30]).is_ok());
    assert!(validate_offsets(&mem, &layout, &[80, 20, 30]).is_err());
}

#[test]
fn accounts_can_be_read_anew() {
    let accounts = test_accounts(3);
    let (_, small) = create(&config_for(&accounts[..1], vec![16]));
    let (_, large) = create(&config_for(&accounts, vec![16; 3]));
    let mut reader = ShmReader::open(&small).expect("reader should open shm");
    assert!(matches!(reader.read_account(&accounts[2]), Err(ShmError::PubkeyNotFound)));
    reader.build_index(&large).expect("table is complete");
    assert!(reader.can_read(&accounts[0]));
    assert!(!reader.can_read(&accounts[2]));
    assert!(matches!(reader.build_index(&large[..200]), Err(ShmError::Io(_))));
    assert!(!reader.can_read(&accounts[2]));
}

#[test]
fn corrupt_data_lengths_are_refused() {
    let accounts = test_accounts(1);
    let (writer, mut mem) = create(&config_for(&accounts, vec![16]));
    mem[writer.version_offset(0) + 56] = 17;
    let reader = ShmReader::open(&mem).expect("reader should open shm");
    let refused = read(&reader, &mem, &accounts[0]);
    assert!(matches!(refused, Err(ShmError::SlotOverflow { actual: 17, capacity: 16 })));
}

#[test]
fn readers_give_up_on_a_stuck_writer() {
    let accounts = test_accounts(1);
    let (writer, mut mem) = create(&config_for(&accounts, vec![16]));
    mem[writer.version_offset(0)] = 1;
    let reader = ShmReader::open(&mem).expect("reader should open shm");
    assert!(matches!(read(&reader, &mem, &accounts[0]), Err(ShmError::WriterStale)));

    let mut stuck = reader.read_account(&accounts[0]).expect("slot should exist");
    for _ in 0..10_000 {
        assert!(matches!(stuck.stage, ReadStage::LoadVersion { .. }));
        stuck = stuck.step(Observed::Version(1));
    }
    assert!(matches!(stuck.stage, ReadStage::CheckWriter));
    stuck = stuck.step(Observed::Writer { heartbeat: 5, now: 6, pid: 0 });
    assert!(matches!(stuck.stage, ReadStage::LoadVersion { spins: 0 }));

    let mut stuck = reader.read_account(&accounts[0]).expect("slot should exist");
    for _ in 0..10_000 {
        stuck = stuck.step(Observed::Version(1));
    }
    stuck = stuck.step(Observed::Writer { heartbeat: 0, now: NOW, pid: 77 });
    assert!(matches!(stuck.stage, ReadStage::ProbeWriter { pid: 77, target: 77 }));
    stuck = stuck.step(Observed::Probe { exists: false });
    assert!(matches!(stuck.stage, ReadStage::Failed { error: ShmError::WriterDead(77) }));
}

#[test]
fn only_writers_without_a_process_are_dead() {
    let accounts = test_accounts(1);
    let (_, mem) = create(&config_for(&accounts, vec![16]));
    let reader = ShmReader::open(&mem).expect("reader should open shm");
    let check = |pid: u32| {
        let mut stuck = reader.read_account(&accounts[0]).expect("slot should exist");
        for _ in 0..10_000 {
            stuck = stuck.step(Observed::Version(1));
        }
        stuck.step(Observed::Writer { heartbeat: 0, now: NOW, pid })
    };
    let alive = check(77).step(Observed::Probe { exists: true });
    assert!(matches!(alive.stage, ReadStage::Failed { error: ShmError::WriterStale }));
    let unknown = check(0);
    assert!(matches!(unknown.stage, ReadStage::Failed { error: ShmError::WriterStale }));
    let impossible = check(0x8000_0000);
    assert!(matches!(
        impossible.stage,
        ReadStage::Failed { error: ShmError::WriterDead(0x8000_0000) }
    ));
    let largest = check(0x7fff_ffff);
    assert!(matches!(
        largest.stage,
        ReadStage::ProbeWriter { pid: 0x7fff_ffff, target: 0x7fff_ffff }
    ));
}

#[test]
fn lengths_that_do_not_fit_are_reported_as_the_largest() {
    assert_eq!(reported_len(0), 0);
    assert_eq!(reported_len(17), 17);
    assert_eq!(reported_len(u32::MAX as usize), u32::MAX);
    assert_eq!(reported_len(u32::MAX as usize + 1), u32::MAX);
    assert_eq!(reported_len(u32::MAX as usize + 6), u32::MAX);
}

#[test]
fn versions_count_the_writes_to_their_slot() {
    let accounts = test_accounts(2);
    let (writer, mut mem) = create(&config_for(&accounts, vec![16, 16]));
    for round in 0..5 {
        assert_eq!(version_of(&writer, &mem, &accounts[0]), 2 * round);
        write(&writer, &mut mem, &accounts[0], &[1; 32], 1, false, 0, &[3; 16], round)
            .expect("write should succeed");
        perform(&mut mem, &writer.update_heartbeat(NOW + round, PID));
    }
    assert_eq!(version_of(&writer, &mem, &accounts[0]), 10);
    assert_eq!(version_of(&writer, &mem, &accounts[1]), 0);
}

#[test]
fn regions_may_be_longer_than_their_slots() {
    let accounts = test_accounts(2);
    let (writer, stores) = ShmWriter::create(&config_for(&accounts, vec![16, 16]), NOW, PID)
        .expect("writer should create shm");
    let size = writer.region_size();
    let mut mem = vec![0xEE_u8; size + 100];
    perform(&mut mem, &stores);
    write(&writer, &mut mem, &accounts[1], &[4; 32], 5, true, 0, &[6; 16], 7)
        .expect("write should succeed");
    let reader = ShmReader::open(&mem).expect("reader should open shm");
    let snapshot = read(&reader, &mem, &accounts[1]).expect("reader should read account");
    assert_eq!(snapshot.data, vec![6; 16]);
    assert_eq!(snapshot.lamports, 5);
    assert_eq!(mem[size..].to_vec(), vec![0xEE; 100]);
}

#[test]
fn reads_start_over_when_the_version_moved() {
    let accounts = test_accounts(1);
    let (_, mem) = create(&config_for(&accounts, vec![16]));
    let reader = ShmReader::open(&mem).expect("reader should open shm");
    let mut read = reader.read_account(&accounts[0]).expect("slot should exist");
    for _ in 0..3 {
        read = observe(read, &mem);
    }
    assert!(matches!(read.stage, ReadStage::ReloadVersion { start_version: 0, .. }));
    read = read.step(Observed::Version(2));
    assert!(matches!(read.stage, ReadStage::LoadVersion { spins: 0 }));
}

#[test]
fn header_words_are_updated_in_place() {
    let accounts = test_accounts(1);
    let (writer, mut mem) = create(&config_for(&accounts, vec![16]));
    let before = mem.clone();
    perform(&mut mem, &writer.update_global_slot(0x1122, NOW + 7, PID + 7));
    assert_eq!(word(&mem, 24), 0x1122);
    assert_eq!(word(&mem, 32), NOW + 7);
    assert_eq!(mem[40..44].to_vec(), (PID + 7).to_le_bytes().to_vec());
    assert_eq!(mem[..24], before[..24]);
    assert_eq!(mem[44..], before[44..]);
    perform(&mut mem, &writer.update_heartbeat(NOW + 8, PID));
    assert_eq!(word(&mem, 32), NOW + 8);
    assert_eq!(word(&mem, 24), 0x1122);
    writer.set_ready().apply(&mut mem);
    assert_eq!(mem[44], 1);
}

#[test]
fn header_words_are_those_of_the_last_operation() {
    let accounts = test_accounts(2);
    let (writer, mut mem) = create(&config_for(&accounts, vec![16, 16]));
    let reader = ShmReader::open(&mem).expect("reader should open shm");
    perform(&mut mem, &writer.update_global_slot(70, NOW + 1, PID));
    write(&writer, &mut mem, &accounts[0], &[1; 32], 1, false, 0, &[3; 16], 60)
        .expect("write should succeed");
    assert_eq!(word(&mem, 24), 60);
    assert_eq!(word(&mem, 32), NOW);
    perform(&mut mem, &writer.update_heartbeat(NOW + 2, PID + 1));
    assert_eq!(word(&mem, 24), 60);
    assert_eq!(word(&mem, 32), NOW + 2);
    assert_eq!(mem[40..44].to_vec(), (PID + 1).to_le_bytes().to_vec());
    assert!(matches!(reader.wait_ready(true, mem[44]), WaitStep::Sleep(1)));
    writer.set_ready().apply(&mut mem);
    let version = version_of(&writer, &mem, &accounts[1]);
    let mut later = writer
        .write_account(&accounts[1], &[1; 32], 1, false, 0, &[4; 16], 61, version, NOW + 3, PID)
        .expect("write should succeed");
    later.extend(writer.update_global_slot(62, NOW + 4, PID));
    let (_, attached) = ShmWriter::open(&mem, NOW + 5, PID + 2).expect("writer should open shm");
    later.extend(attached);
    for store in &later {
        store.apply(&mut mem);
        assert!(matches!(reader.wait_ready(true, mem[44]), WaitStep::Ready));
    }
    assert_eq!(word(&mem, 24), 62);
    assert_eq!(word(&mem, 32), NOW + 5);
    assert_eq!(mem[40..44].to_vec(), (PID + 2).to_le_bytes().to_vec());
}

#[test]
fn stores_that_create_a_region_lie_within_it() {
    let accounts = test_accounts(3);
    for capacities in [vec![0, 0, 0], vec![5, 70, 1]] {
        let (writer, stores) = ShmWriter::create(&config_for(&accounts, capacities), NOW, PID)
            .expect("writer should create shm");
        let size = writer.region_size();
        for store in &stores {
            let (len, aligned) = match &store.value {
                Value::U64(_) => (8, store.offset % 8 == 0),
                Value::U32(_) => (4, store.offset % 4 == 0),
                Value::U8(_) => (1, true),
                Value::Key(key) => (key.len(), false),
                Value::Bytes(bytes) => (bytes.len(), false),
                Value::Zeros(len) => (*len, false),
            };
            assert!(store.offset + len <= size);
            assert!(aligned || !store.publish);
        }
        assert_eq!(stores.len(), 8);
    }
}
