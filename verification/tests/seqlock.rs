use solana_shm_accounts::clock::{current_time_ns, heartbeat_value};
use solana_shm_accounts::error::ShmError;
use solana_shm_accounts::layout::{AccountSlotHeader, ShmHeader};
use solana_shm_accounts::seqlock::{
    check_writer_health, judge_probe, probe_outcome, seqlock_read_begin, seqlock_read_validate,
    seqlock_write_begin, seqlock_write_end, ReadBegin, WriterHealth, HEARTBEAT_TIMEOUT_NS,
    MAX_SPIN_COUNT, NO_SUCH_PROCESS,
};

const OWN_PID: u32 = 4242;

fn make_test_slot_header() -> AccountSlotHeader {
    AccountSlotHeader {
        seqlock_ver: 0,
        solana_slot: 0,
        owner: [0; 32],
        lamports: 0,
        data_len: 0,
        executable: 0,
        _pad: [0; 3],
    }
}

fn make_test_shm_header() -> ShmHeader {
    ShmHeader {
        magic: 0,
        format_version: 0,
        num_slots: 0,
        _pad0: 0,
        global_solana_slot: 0,
        writer_heartbeat: current_time_ns(),
        writer_pid: OWN_PID,
        ready: 1,
        _reserved: [0; 83],
    }
}

/// Waits for an even version in headers that do not change. `process` says
/// whether a process exists.
fn read_begin(
    slot_header: &AccountSlotHeader,
    shm_header: &ShmHeader,
    process: fn(i32) -> bool,
) -> Result<u64, ShmError> {
    let mut spins = 0;
    loop {
        match seqlock_read_begin(slot_header.seqlock_ver, spins) {
            ReadBegin::Stable(version) => return Ok(version),
            ReadBegin::Spin(seen) => spins = seen,
            ReadBegin::CheckWriter => {
                let now = current_time_ns();
                match check_writer_health(
                    shm_header.writer_heartbeat,
                    now,
                    shm_header.writer_pid,
                ) {
                    WriterHealth::Alive => spins = 0,
                    WriterHealth::Probe { pid, target } => {
                        return Err(judge_probe(pid, process(target)))
                    }
                    WriterHealth::Dead(pid) => return Err(ShmError::WriterDead(pid)),
                    WriterHealth::Stale => return Err(ShmError::WriterStale),
                }
            }
        }
    }
}

#[test]
fn seqlock_single_thread_roundtrip() {
    let mut header = make_test_slot_header();
    let shm_header = make_test_shm_header();

    seqlock_write_begin(&mut header);
    assert_eq!(header.seqlock_ver, 1);

    seqlock_write_end(&mut header);
    assert_eq!(header.seqlock_ver, 2);

    let version = read_begin(&header, &shm_header, |_| true)
        .expect("single-thread read_begin should succeed");
    assert_eq!(version, 2);
    assert!(seqlock_read_validate(header.seqlock_ver, version));
}

#[test]
fn seqlock_crash_detection_writer_stale() {
    let mut header = make_test_slot_header();
    let mut shm_header = make_test_shm_header();
    let stale_heartbeat = current_time_ns().saturating_sub(HEARTBEAT_TIMEOUT_NS + 1);

    header.seqlock_ver = 1;
    shm_header.writer_heartbeat = stale_heartbeat;
    shm_header.writer_pid = OWN_PID;

    let error = read_begin(&header, &shm_header, |_| true)
        .expect_err("stale writer should be detected while version is odd");
    assert!(matches!(error, ShmError::WriterStale));
}

#[test]
fn seqlock_crash_detection_writer_dead() {
    let mut header = make_test_slot_header();
    let mut shm_header = make_test_shm_header();
    let stale_heartbeat = current_time_ns().saturating_sub(HEARTBEAT_TIMEOUT_NS + 1);

    header.seqlock_ver = 1;
    shm_header.writer_heartbeat = stale_heartbeat;
    shm_header.writer_pid = u32::MAX - 1;

    let error = read_begin(&header, &shm_header, |_| panic!("no process to ask about"))
        .expect_err("dead writer should be detected while version is odd");
    assert!(matches!(error, ShmError::WriterDead(pid) if pid == u32::MAX - 1));
}

#[test]
fn versions_wrap_around() {
    let mut header = make_test_slot_header();
    header.seqlock_ver = u64::MAX - 1;
    seqlock_write_begin(&mut header);
    assert_eq!(header.seqlock_ver, u64::MAX);
    seqlock_write_end(&mut header);
    assert_eq!(header.seqlock_ver, 0);
}

#[test]
fn write_marks_change_only_the_version() {
    let mut header = make_test_slot_header();
    header.lamports = 5;
    header.owner = [9; 32];
    header.data_len = 3;
    seqlock_write_begin(&mut header);
    assert_eq!(header.lamports, 5);
    assert_eq!(header.owner, [9; 32]);
    assert_eq!(header.data_len, 3);
}

#[test]
fn busy_slot_is_checked_after_the_maximal_number_of_spins() {
    let mut spins = 0;
    let mut loads = 0;
    loop {
        loads += 1;
        match seqlock_read_begin(2 * loads + 1, spins) {
            ReadBegin::Spin(seen) => {
                assert_eq!(seen as u64, loads);
                spins = seen;
            }
            ReadBegin::CheckWriter => break,
            ReadBegin::Stable(_) => panic!("odd versions are not stable"),
        }
    }
    assert_eq!(loads, MAX_SPIN_COUNT as u64);
    assert!(matches!(seqlock_read_begin(1, u32::MAX), ReadBegin::CheckWriter));
    assert!(matches!(seqlock_read_begin(8, spins), ReadBegin::Stable(8)));
}

#[test]
fn copies_under_another_version_are_rejected() {
    assert!(seqlock_read_validate(6, 6));
    assert!(!seqlock_read_validate(8, 6));
    assert!(!seqlock_read_validate(7, 6));
}

#[test]
fn heartbeats_at_the_limit_of_their_age() {
    assert!(matches!(check_writer_health(100, 100 + HEARTBEAT_TIMEOUT_NS, 7), WriterHealth::Alive));
    assert!(matches!(
        check_writer_health(100, 101 + HEARTBEAT_TIMEOUT_NS, 7),
        WriterHealth::Probe { pid: 7, target: 7 }
    ));
    assert!(matches!(
        check_writer_health(100, 101 + HEARTBEAT_TIMEOUT_NS, 0),
        WriterHealth::Stale
    ));
    assert!(matches!(check_writer_health(u64::MAX, 0, 7), WriterHealth::Alive));
}

#[test]
fn process_ids_at_the_limit_of_their_range() {
    let now = 2 * HEARTBEAT_TIMEOUT_NS;
    assert!(matches!(
        check_writer_health(0, now, i32::MAX as u32),
        WriterHealth::Probe { pid: 0x7fff_ffff, target: i32::MAX }
    ));
    assert!(matches!(
        check_writer_health(0, now, i32::MAX as u32 + 1),
        WriterHealth::Dead(0x8000_0000)
    ));
    assert!(matches!(check_writer_health(0, now, u32::MAX), WriterHealth::Dead(u32::MAX)));
    assert!(matches!(check_writer_health(now, now, u32::MAX), WriterHealth::Alive));
}

#[test]
fn probes_tell_dead_from_stale() {
    assert!(matches!(judge_probe(3, false), ShmError::WriterDead(3)));
    assert!(matches!(judge_probe(3, true), ShmError::WriterStale));
}

#[test]
fn only_one_error_says_that_there_is_no_process() {
    assert_eq!(NO_SUCH_PROCESS, libc::ESRCH);
    assert!(probe_outcome(0, None));
    assert!(probe_outcome(0, Some(libc::ESRCH)));
    assert!(probe_outcome(-1, Some(libc::EPERM)));
    assert!(probe_outcome(-1, None));
    assert!(!probe_outcome(-1, Some(libc::ESRCH)));
}

#[test]
fn heartbeat_values() {
    assert_eq!(heartbeat_value(None), 0);
    assert_eq!(heartbeat_value(Some(12)), 12);
    assert_eq!(heartbeat_value(Some((1u128 << 64) + 5)), 5);
    assert!(current_time_ns() > 1_500_000_000_000_000_000);
}
