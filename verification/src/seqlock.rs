//! The protocol by which one writer and many readers share a slot.
//!
//! The version word of a slot is odd while the slot is being written. A reader
//! loads it before and after copying the slot, and keeps the copy only where
//! both loads gave the same even version.
use crate::error::ShmError;
use crate::layout::AccountSlotHeader;
use vstd::prelude::*;

verus! {

/// How many odd versions a reader sees before it looks after the writer.
pub const MAX_SPIN_COUNT: u32 = 10_000;

/// How old a heartbeat may be before the writer counts as stale.
pub const HEARTBEAT_TIMEOUT_NS: u64 = 1_000_000_000;

/// The version that follows `version`.
pub open spec fn next_version(version: u64) -> u64 {
    if version == u64::MAX {
        0
    } else {
        (version + 1) as u64
    }
}

/// Marks the slot as being written.
pub fn seqlock_write_begin(header: &mut AccountSlotHeader)
    ensures
        *final(header) == (AccountSlotHeader {
            seqlock_ver: next_version(old(header).seqlock_ver),
            ..*old(header)
        }),
{
    let version: u64 = header.seqlock_ver;
    header.seqlock_ver = version.wrapping_add(1);
}

/// Marks the slot as written.
pub fn seqlock_write_end(header: &mut AccountSlotHeader)
    ensures
        *final(header) == (AccountSlotHeader {
            seqlock_ver: next_version(old(header).seqlock_ver),
            ..*old(header)
        }),
{
    let version: u64 = header.seqlock_ver;
    header.seqlock_ver = version.wrapping_add(1);
}

/// What a reader does after it loaded the version of a slot.
pub enum ReadBegin {
    /// The slot is not being written: copy it.
    Stable(u64),
    /// The slot is being written: pause and load the version again, with this
    /// many odd versions seen.
    Spin(u32),
    /// The slot has been busy for long: see whether the writer is healthy.
    CheckWriter,
}

/// What follows from loading `version` after `spins` odd ones.
pub open spec fn read_begin(version: u64, spins: u32) -> ReadBegin {
    if version % 2 == 0 {
        ReadBegin::Stable(version)
    } else if spins + 1 >= MAX_SPIN_COUNT {
        ReadBegin::CheckWriter
    } else {
        ReadBegin::Spin((spins + 1) as u32)
    }
}

/// Decides on a version that was loaded after `spins` odd ones.
pub fn seqlock_read_begin(version: u64, spins: u32) -> (decision: ReadBegin)
    ensures
        decision == read_begin(version, spins),
{
    assert(version & 1 == version % 2) by (bit_vector);
    if version & 1 == 0 {
        return ReadBegin::Stable(version);
    }
    let spins: u32 = spins.saturating_add(1);
    if spins >= MAX_SPIN_COUNT {
        ReadBegin::CheckWriter
    } else {
        ReadBegin::Spin(spins)
    }
}

/// Whether a copy is consistent: the version loaded after it is the one loaded
/// before.
#[must_use]
pub fn seqlock_read_validate(version: u64, start_version: u64) -> (valid: bool)
    ensures
        valid == (version == start_version),
{
    version == start_version
}

/// What the heartbeat says about the writer.
pub enum WriterHealth {
    /// The heartbeat is fresh.
    Alive,
    /// The heartbeat is old: ask the system whether process `target` exists.
    Probe { pid: u32, target: i32 },
    /// The heartbeat is old, and the process id is none that a process can
    /// have.
    Dead(u32),
    /// The heartbeat is old and no process is known.
    Stale,
}

/// The health of a writer whose heartbeat is `heartbeat` at time `now`.
pub open spec fn writer_health(heartbeat: u64, now: u64, pid: u32) -> WriterHealth {
    if now - heartbeat <= HEARTBEAT_TIMEOUT_NS {
        WriterHealth::Alive
    } else if pid == 0 {
        WriterHealth::Stale
    } else if pid > i32::MAX {
        WriterHealth::Dead(pid)
    } else {
        WriterHealth::Probe { pid, target: pid as i32 }
    }
}

/// Decides whether the writer is healthy, by its heartbeat.
pub fn check_writer_health(heartbeat: u64, now: u64, pid: u32) -> (health: WriterHealth)
    ensures
        health == writer_health(heartbeat, now, pid),
{
    if now.saturating_sub(heartbeat) <= HEARTBEAT_TIMEOUT_NS {
        return WriterHealth::Alive;
    }
    if pid == 0 {
        WriterHealth::Stale
    } else if pid > i32::MAX as u32 {
        WriterHealth::Dead(pid)
    } else {
        WriterHealth::Probe { pid, target: pid as i32 }
    }
}

/// The error number with which the system says that there is no such process.
pub const NO_SUCH_PROCESS: i32 = 3;

/// Whether a process exists, by what sending signal 0 to it returned and the
/// error number that this left: only the error that there is no such process
/// says that it does not.
pub fn probe_outcome(result: i32, errno: Option<i32>) -> (exists: bool)
    ensures
        exists == !(result != 0 && errno == Some(NO_SUCH_PROCESS)),
{
    if result == 0 {
        return true;
    }
    match errno {
        Some(number) => number != NO_SUCH_PROCESS,
        None => true,
    }
}

/// The error for a writer with an old heartbeat: it is dead only where its
/// process does not exist. A process that exists but may not be signalled
/// belongs to another user, and is stale.
pub fn judge_probe(pid: u32, exists: bool) -> (error: ShmError)
    ensures
        error == (if exists {
            ShmError::WriterStale
        } else {
            ShmError::WriterDead(pid)
        }),
{
    if exists {
        ShmError::WriterStale
    } else {
        ShmError::WriterDead(pid)
    }
}

/// The decision after loading `versions` one after the other, with `spins` odd
/// ones seen before, up to the first load that ends the wait.
pub open spec fn read_begin_run(versions: Seq<u64>, spins: u32) -> ReadBegin
    decreases versions.len(),
{
    if versions.len() == 0 {
        ReadBegin::Spin(spins)
    } else {
        match read_begin(versions[0], spins) {
            ReadBegin::Spin(n) => read_begin_run(versions.drop_first(), n),
            decision => decision,
        }
    }
}

/// A reader that sees only odd versions spins, one count each, and looks after
/// the writer exactly when it has seen `MAX_SPIN_COUNT` of them.
pub proof fn lemma_busy_slot_leads_to_check(versions: Seq<u64>, spins: u32)
    requires
        spins < MAX_SPIN_COUNT,
        forall|k: int| 0 <= k < versions.len() ==> #[trigger] versions[k] % 2 == 1,
    ensures
        spins + versions.len() < MAX_SPIN_COUNT ==> read_begin_run(versions, spins)
            == ReadBegin::Spin((spins + versions.len()) as u32),
        spins + versions.len() >= MAX_SPIN_COUNT ==> read_begin_run(versions, spins)
            == ReadBegin::CheckWriter,
    decreases versions.len(),
{
    if versions.len() > 0 && spins + 1 < MAX_SPIN_COUNT {
        assert(versions[0] % 2 == 1);
        let rest = versions.drop_first();
        assert forall|k: int| 0 <= k < rest.len() implies #[trigger] rest[k] % 2 == 1 by {
            assert(rest[k] == versions[k + 1]);
        }
        lemma_busy_slot_leads_to_check(rest, (spins + 1) as u32);
    }
}

/// A reader that sees an even version before its patience ends starts to copy
/// under that version.
pub proof fn lemma_released_slot_is_read(versions: Seq<u64>, spins: u32, k: int)
    requires
        0 <= k < versions.len(),
        spins + k < MAX_SPIN_COUNT,
        versions[k] % 2 == 0,
        forall|j: int| 0 <= j < k ==> #[trigger] versions[j] % 2 == 1,
    ensures
        read_begin_run(versions, spins) == ReadBegin::Stable(versions[k]),
    decreases k,
{
    if k > 0 {
        assert(versions[0] % 2 == 1);
        let rest = versions.drop_first();
        assert forall|j: int| 0 <= j < k - 1 implies #[trigger] rest[j] % 2 == 1 by {
            assert(rest[j] == versions[j + 1]);
        }
        lemma_released_slot_is_read(rest, (spins + 1) as u32, k - 1);
    }
}

/// A reader that keeps seeing odd versions while the heartbeat is old finds
/// out: without a process id the writer is stale, with one that no process can
/// have it is dead, and else the reader asks whether the process exists.
pub proof fn lemma_stuck_writer_is_detected(
    versions: Seq<u64>,
    heartbeat: u64,
    now: u64,
    pid: u32,
)
    requires
        versions.len() >= MAX_SPIN_COUNT,
        forall|k: int| 0 <= k < versions.len() ==> #[trigger] versions[k] % 2 == 1,
        now - heartbeat > HEARTBEAT_TIMEOUT_NS,
    ensures
        read_begin_run(versions, 0) == ReadBegin::CheckWriter,
        pid == 0 ==> writer_health(heartbeat, now, pid) == WriterHealth::Stale,
        pid > i32::MAX ==> writer_health(heartbeat, now, pid) == WriterHealth::Dead(pid),
        0 < pid <= i32::MAX ==> (writer_health(heartbeat, now, pid) matches WriterHealth::Probe {
            pid: p,
            target,
        } && p == pid && target == pid),
{
    lemma_busy_slot_leads_to_check(versions, 0);
}

/// A write, from its begin to its end, passes through an odd version and ends
/// at another even one.
pub proof fn lemma_write_changes_version(version: u64)
    requires
        version % 2 == 0,
    ensures
        next_version(version) % 2 == 1,
        next_version(next_version(version)) % 2 == 0,
        next_version(next_version(version)) != version,
{
}

} // verus!
