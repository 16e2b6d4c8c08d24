//! How a reader decides, and how versions move.
use crate::clock;
use crate::error::ShmError;
use crate::layout::AccountSlotHeader;
use crate::reader::{AccountRead, Observed, ReadStage, ShmReader, WaitStep};
use crate::seqlock;
use crate::seqlock::{ReadBegin, WriterHealth};
use crate::snapshot::ShmAccountSnapshot;
use vstd::prelude::*;

verus! {

/// The begin and the end of a write each add one to the version, modulo the
/// range of the word, and touch nothing else.
pub proof fn law_version_marks(header: &mut AccountSlotHeader, begin: bool)
    requires
        begin ==> call_ensures(seqlock::seqlock_write_begin, (header,), ()),
        !begin ==> call_ensures(seqlock::seqlock_write_end, (header,), ()),
    ensures
        final(header).seqlock_ver == (old(header).seqlock_ver + 1) % 0x1_0000_0000_0000_0000,
        final(header).solana_slot == old(header).solana_slot,
        final(header).owner == old(header).owner,
        final(header).lamports == old(header).lamports,
        final(header).data_len == old(header).data_len,
        final(header).executable == old(header).executable,
        final(header)._pad == old(header)._pad,
{
}

/// Even versions are stable, odd ones are waited for: patiently up to the
/// ten thousandth, which leads to a look at the writer.
pub proof fn law_read_begin(version: u64, spins: u32, decision: ReadBegin)
    requires
        call_ensures(seqlock::seqlock_read_begin, (version, spins), decision),
    ensures
        decision is Stable <==> version % 2 == 0,
        decision matches ReadBegin::Stable(v) ==> v == version,
        decision is Spin <==> version % 2 == 1 && spins < 9_999,
        decision matches ReadBegin::Spin(n) ==> n == spins + 1,
        decision is CheckWriter <==> version % 2 == 1 && spins >= 9_999,
{
}

/// A copy is valid exactly if the version did not move.
pub proof fn law_read_validate(version: u64, start_version: u64, valid: bool)
    requires
        call_ensures(seqlock::seqlock_read_validate, (version, start_version), valid),
    ensures
        valid <==> version == start_version,
{
}

/// A writer is alive exactly as long as its heartbeat is at most one second
/// old, whatever its process id; a heartbeat in the future is fresh too.
pub proof fn law_fresh_heartbeat(heartbeat: u64, now: u64, pid: u32, health: WriterHealth)
    requires
        call_ensures(seqlock::check_writer_health, (heartbeat, now, pid), health),
    ensures
        health is Alive <==> now <= heartbeat + 1_000_000_000,
{
}

/// What becomes of a writer with an older heartbeat depends on its process id
/// alone: without one it is stale, with one that no process can have it is
/// dead, and else exactly that process is asked about.
pub proof fn law_old_heartbeat(heartbeat: u64, now: u64, pid: u32, health: WriterHealth)
    requires
        call_ensures(seqlock::check_writer_health, (heartbeat, now, pid), health),
        now > heartbeat + 1_000_000_000,
    ensures
        health is Stale <==> pid == 0,
        health is Dead <==> pid >= 0x8000_0000,
        health matches WriterHealth::Dead(p) ==> p == pid,
        health is Probe <==> 0 < pid < 0x8000_0000,
        health matches WriterHealth::Probe { pid: p, target } ==> p == pid && target == pid,
{
}

/// A process is missing only if the system said so: the signal failed, with
/// error number three.
pub proof fn law_probe(result: i32, errno: Option<i32>, found: bool)
    requires
        call_ensures(seqlock::probe_outcome, (result, errno), found),
    ensures
        !found <==> result != 0 && errno is Some && errno->0 == 3,
{
}

/// A writer whose heartbeat is old is dead if its process is missing, and stale
/// if it is not.
pub proof fn law_verdict(pid: u32, found: bool, error: ShmError)
    requires
        call_ensures(seqlock::judge_probe, (pid, found), error),
    ensures
        error is WriterStale <==> found,
        error is WriterDead <==> !found,
        error matches ShmError::WriterDead(p) ==> p == pid,
{
}

/// The heartbeat value is congruent to the nanoseconds since the epoch, modulo
/// the range of the word, and zero before the epoch.
pub proof fn law_heartbeat_value(elapsed: Option<u128>, ns: u64)
    requires
        call_ensures(clock::heartbeat_value, (elapsed,), ns),
    ensures
        elapsed is None ==> ns == 0,
        elapsed matches Some(nanos) ==> (nanos - ns) % 0x1_0000_0000_0000_0000 == 0,
        elapsed matches Some(nanos) ==> nanos < 0x1_0000_0000_0000_0000 ==> ns == nanos,
{
    if let Some(nanos) = elapsed {
        vstd::arithmetic::div_mod::lemma_fundamental_div_mod(
            nanos as int,
            0x1_0000_0000_0000_0000,
        );
        vstd::arithmetic::div_mod::lemma_mod_multiples_basic(
            nanos as int / 0x1_0000_0000_0000_0000,
            0x1_0000_0000_0000_0000,
        );
    }
}

/// The current time is that of a reading of the clock: congruent to the
/// nanoseconds that it showed, modulo the range of the word, or zero where it
/// stood before the epoch.
pub(crate) proof fn law_current_time(ns: u64)
    requires
        call_ensures(clock::current_time_ns, (), ns),
    ensures
        exists|elapsed: Option<u128>|
            {
                &&& #[trigger] call_ensures(clock::unix_time_nanos, (), elapsed)
                &&& elapsed is None ==> ns == 0
                &&& elapsed matches Some(nanos) ==> (nanos - ns) % 0x1_0000_0000_0000_0000 == 0
            },
{
    let elapsed = clock::lemma_reading(ns);
    if let Some(nanos) = elapsed {
        vstd::arithmetic::div_mod::lemma_fundamental_div_mod(
            nanos as int,
            0x1_0000_0000_0000_0000,
        );
        vstd::arithmetic::div_mod::lemma_mod_multiples_basic(
            nanos as int / 0x1_0000_0000_0000_0000,
            0x1_0000_0000_0000_0000,
        );
    }
}

/// Waiting ends with success exactly if there is time left and the flag is one,
/// and fails exactly if no time is left; else the reader sleeps a millisecond.
pub proof fn law_wait_ready(
    reader: ShmReader,
    before_deadline: bool,
    ready: u8,
    step: WaitStep,
)
    requires
        call_ensures(ShmReader::wait_ready, (&reader, before_deadline, ready), step),
    ensures
        step is Ready <==> before_deadline && ready == 1,
        step is TimedOut <==> !before_deadline,
        step matches WaitStep::TimedOut(error) ==> error is NotReady,
        step matches WaitStep::Sleep(millis) ==> millis == 1,
{
}

/// A read goes on at the slot at which it began.
pub proof fn law_step_stays_at_slot(read: AccountRead, seen: Observed, next: AccountRead)
    requires
        call_ensures(AccountRead::step, (read, seen), next),
    ensures
        next.header_offset == read.header_offset,
        next.data_offset == read.data_offset,
        next.capacity == read.capacity,
{
}

/// An even version starts a copy under that version; an odd one is waited for,
/// up to the ten thousandth in a row.
pub proof fn law_step_version(read: AccountRead, spins: u32, version: u64, next: AccountRead)
    requires
        read.stage == (ReadStage::LoadVersion { spins }),
    ensures
        call_requires(AccountRead::step, (read, Observed::Version(version))),
        call_ensures(AccountRead::step, (read, Observed::Version(version)), next) ==> {
            &&& next.stage is LoadHeader <==> version % 2 == 0
            &&& next.stage matches ReadStage::LoadHeader { start_version } ==> start_version
                == version
            &&& next.stage is LoadVersion <==> version % 2 == 1 && spins < 9_999
            &&& next.stage matches ReadStage::LoadVersion { spins: n } ==> n == spins + 1
            &&& next.stage is CheckWriter <==> version % 2 == 1 && spins >= 9_999
        },
{
}

/// A fresh heartbeat sends the reader back to the version, with its patience
/// renewed; with an older one the read fails, or the reader asks about the
/// process first.
pub proof fn law_step_writer(
    read: AccountRead,
    heartbeat: u64,
    now: u64,
    pid: u32,
    next: AccountRead,
)
    requires
        read.stage is CheckWriter,
    ensures
        call_requires(AccountRead::step, (read, Observed::Writer { heartbeat, now, pid })),
        call_ensures(AccountRead::step, (read, Observed::Writer { heartbeat, now, pid }), next)
            ==> {
            &&& now <= heartbeat + 1_000_000_000 ==> next.stage == (ReadStage::LoadVersion {
                spins: 0,
            })
            &&& now > heartbeat + 1_000_000_000 && pid == 0 ==> next.stage == (ReadStage::Failed {
                error: ShmError::WriterStale,
            })
            &&& now > heartbeat + 1_000_000_000 && pid >= 0x8000_0000 ==> next.stage == (
            ReadStage::Failed { error: ShmError::WriterDead(pid) })
            &&& now > heartbeat + 1_000_000_000 && 0 < pid < 0x8000_0000 ==> (
            next.stage matches ReadStage::ProbeWriter { pid: p, target } && p == pid && target
                == pid)
        },
{
}

/// With the answer about the process the read fails.
pub proof fn law_step_probe(
    read: AccountRead,
    pid: u32,
    target: i32,
    found: bool,
    next: AccountRead,
)
    requires
        read.stage == (ReadStage::ProbeWriter { pid, target }),
    ensures
        call_requires(AccountRead::step, (read, Observed::Probe { exists: found })),
        call_ensures(AccountRead::step, (read, Observed::Probe { exists: found }), next) ==> {
            &&& found ==> next.stage == (ReadStage::Failed { error: ShmError::WriterStale })
            &&& !found ==> next.stage == (ReadStage::Failed { error: ShmError::WriterDead(pid) })
        },
{
}

/// A slot header is refused exactly if it gives more data than the slot can
/// hold; else the data is copied, under the same version and header.
pub proof fn law_step_header(
    read: AccountRead,
    start_version: u64,
    header: AccountSlotHeader,
    next: AccountRead,
)
    requires
        read.stage == (ReadStage::LoadHeader { start_version }),
    ensures
        call_requires(AccountRead::step, (read, Observed::Header(header))),
        call_ensures(AccountRead::step, (read, Observed::Header(header)), next) ==> {
            &&& header.data_len > read.capacity ==> next.stage == (ReadStage::Failed {
                error: ShmError::SlotOverflow {
                    actual: header.data_len,
                    capacity: read.capacity,
                },
            })
            &&& header.data_len <= read.capacity ==> next.stage == (ReadStage::CopyData {
                start_version,
                header,
            })
        },
{
}

/// The snapshot is made of the fields of the header and of the bytes that were
/// copied, as they are.
pub proof fn law_step_data(
    read: AccountRead,
    start_version: u64,
    header: AccountSlotHeader,
    data: Vec<u8>,
    next: AccountRead,
)
    requires
        read.stage == (ReadStage::CopyData { start_version, header }),
        data@.len() == header.data_len,
    ensures
        call_requires(AccountRead::step, (read, Observed::Data(data))),
        call_ensures(AccountRead::step, (read, Observed::Data(data)), next) ==> (
        next.stage matches ReadStage::ReloadVersion { start_version: v, snapshot } && {
            &&& v == start_version
            &&& snapshot.owner@ == header.owner@
            &&& snapshot.lamports == header.lamports
            &&& snapshot.data@ == data@
            &&& snapshot.executable <==> header.executable != 0
            &&& snapshot.solana_slot == header.solana_slot
        }),
{
    if call_ensures(AccountRead::step, (read, Observed::Data(data)), next) {
        let snapshot = next.stage->ReloadVersion_snapshot;
        assert(snapshot@.owner == header.owner@);
        assert(snapshot@.data == data@);
    }
}

/// The copy is kept exactly if the version did not move. With any other
/// version, odd or even, the read starts over, and never fails.
pub proof fn law_step_reload(
    read: AccountRead,
    start_version: u64,
    snapshot: ShmAccountSnapshot,
    version: u64,
    next: AccountRead,
)
    requires
        read.stage == (ReadStage::ReloadVersion { start_version, snapshot }),
    ensures
        call_requires(AccountRead::step, (read, Observed::Version(version))),
        call_ensures(AccountRead::step, (read, Observed::Version(version)), next) ==> {
            &&& version == start_version ==> next.stage == (ReadStage::Done { snapshot })
            &&& version != start_version ==> next.stage == (ReadStage::LoadVersion { spins: 0 })
        },
{
}

/// The reads are those of one reader, step by step.
pub open spec fn follows(reads: Seq<AccountRead>, sights: Seq<Observed>) -> bool {
    &&& reads.len() == sights.len() + 1
    &&& forall|k: int|
        0 <= k < sights.len() ==> call_ensures(
            AccountRead::step,
            (reads[k], #[trigger] sights[k]),
            reads[k + 1],
        )
}

/// The sight gives the reader no reason to give up: a heartbeat is fresh, and a
/// header gives no more data than the slot can hold.
pub open spec fn healthy(sight: Observed, capacity: u32) -> bool {
    match sight {
        Observed::Writer { heartbeat, now, .. } => now <= heartbeat + 1_000_000_000,
        Observed::Header(header) => header.data_len <= capacity,
        _ => true,
    }
}

/// A read never fails while the writer is alive and the slot is in order,
/// however often and whenever it is disturbed: at every step it is still under
/// way, or done.
pub proof fn law_healthy_reads_do_not_fail(
    reads: Seq<AccountRead>,
    sights: Seq<Observed>,
    k: int,
)
    requires
        follows(reads, sights),
        reads[0].stage is LoadVersion,
        forall|j: int|
            0 <= j < sights.len() ==> healthy(#[trigger] sights[j], reads[0].capacity),
        0 <= k < reads.len(),
    ensures
        reads[k].stage !is Failed,
        reads[k].stage !is ProbeWriter,
        reads[k].capacity == reads[0].capacity,
    decreases k,
{
    if k > 0 {
        law_healthy_reads_do_not_fail(reads, sights, k - 1);
        let seen = sights[k - 1];
        assert(call_ensures(AccountRead::step, (reads[k - 1], seen), reads[k - 1 + 1]));
        assert(healthy(seen, reads[0].capacity));
    }
}

/// A read is done only with the last copy that it made: the step before the
/// end saw the version under which the copy was made once more.
pub proof fn law_done_means_validated(read: AccountRead, seen: Observed, next: AccountRead)
    requires
        call_ensures(AccountRead::step, (read, seen), next),
        next.stage is Done,
    ensures
        read.stage is ReloadVersion,
        seen is Version,
        seen->Version_0 == read.stage->ReloadVersion_start_version,
        next.stage->Done_snapshot == read.stage->ReloadVersion_snapshot,
{
}

/// A read fails only for one of three reasons: the header gives more data than
/// the slot can hold, the heartbeat is old and there is no process to ask
/// about, or the process was asked about because it was old.
pub proof fn law_failures(read: AccountRead, seen: Observed, next: AccountRead)
    requires
        call_ensures(AccountRead::step, (read, seen), next),
        next.stage is Failed,
    ensures
        ({
            ||| seen matches Observed::Header(header) && read.stage is LoadHeader && header.data_len
                > read.capacity && next.stage->Failed_error is SlotOverflow
            ||| seen matches Observed::Writer { heartbeat, now, .. } && read.stage is CheckWriter
                && now > heartbeat + 1_000_000_000 && (next.stage->Failed_error is WriterStale
                || next.stage->Failed_error is WriterDead)
            ||| seen is Probe && read.stage is ProbeWriter && (
            next.stage->Failed_error is WriterStale || next.stage->Failed_error is WriterDead)
        }),
        next.stage->Failed_error !is TornRead,
{
}

} // verus!
