//! Why readers never keep a torn copy of a slot.
//!
//! A history is the sequence of states that the region goes through, store by
//! store. A reader loads the bytes of a slot at arbitrary moments of it.
use crate::layout::AccountSlotHeader;
use crate::memory;
use crate::reader::{AccountRead, Observed, ReadStage};
use crate::seqlock;
use crate::snapshot;
use vstd::prelude::*;

verus! {

/// The slot at `base..end` goes from state `a` to state `b` as the protocol
/// allows: it stays as it is, or its version is advanced, or it changes behind
/// an odd version.
pub open spec fn slot_step(a: Seq<u8>, b: Seq<u8>, base: int, end: int) -> bool {
    ||| b.subrange(base, end) == a.subrange(base, end)
    ||| {
        &&& snapshot::version_at(b, base) == seqlock::next_version(snapshot::version_at(a, base))
        &&& b.subrange(base + 8, end) == a.subrange(base + 8, end)
    }
    ||| {
        &&& snapshot::version_at(a, base) % 2 == 1
        &&& snapshot::version_at(b, base) == snapshot::version_at(a, base)
    }
}

/// Throughout history `h` the slot at `base..end` follows the protocol.
pub open spec fn slot_history(h: Seq<Seq<u8>>, base: int, end: int) -> bool {
    &&& 0 <= base && base + 8 <= end
    &&& forall|t: int| 0 <= t < h.len() ==> end <= (#[trigger] h[t]).len()
    &&& forall|t: int|
        0 <= t < h.len() - 1 ==> slot_step(#[trigger] h[t], h[t + 1], base, end)
}

/// How often the version changed from moment `t0` to moment `t`.
pub open spec fn changes(h: Seq<Seq<u8>>, base: int, t0: int, t: int) -> nat
    decreases t - t0,
{
    if t <= t0 {
        0
    } else {
        changes(h, base, t0, t - 1) + if snapshot::version_at(h[t], base) != snapshot::version_at(
            h[t - 1],
            base,
        ) {
            1nat
        } else {
            0nat
        }
    }
}

/// Equal slots have equal versions.
proof fn lemma_same_version(a: Seq<u8>, b: Seq<u8>, base: int, end: int)
    requires
        0 <= base,
        base + 8 <= end,
        end <= a.len(),
        end <= b.len(),
        a.subrange(base, end) == b.subrange(base, end),
    ensures
        snapshot::version_at(a, base) == snapshot::version_at(b, base),
{
    lemma_same_part(a, b, base, end, base, base + 8);
}

/// Regions that agree on a range agree on every part of it.
pub proof fn lemma_same_part(
    a: Seq<u8>,
    b: Seq<u8>,
    start: int,
    end: int,
    from: int,
    to: int,
)
    requires
        0 <= start <= from <= to <= end,
        end <= a.len(),
        end <= b.len(),
        a.subrange(start, end) == b.subrange(start, end),
    ensures
        a.subrange(from, to) == b.subrange(from, to),
{
    assert forall|k: int| from <= k < to implies a[k] == b[k] by {
        assert(a[k] == a.subrange(start, end)[k - start]);
        assert(b[k] == b.subrange(start, end)[k - start]);
    }
    assert(a.subrange(from, to) =~= b.subrange(from, to));
}

/// The version counts its own changes, modulo the range of its word.
proof fn lemma_changes_counted(h: Seq<Seq<u8>>, base: int, end: int, t0: int, t: int)
    requires
        slot_history(h, base, end),
        0 <= t0 <= t < h.len(),
    ensures
        snapshot::version_at(h[t], base) == (snapshot::version_at(h[t0], base) + changes(
            h,
            base,
            t0,
            t,
        )) % 0x1_0000_0000_0000_0000,
    decreases t - t0,
{
    if t > t0 {
        lemma_changes_counted(h, base, end, t0, t - 1);
        let a = h[t - 1];
        let b = h[t];
        assert(slot_step(a, h[t - 1 + 1], base, end));
        if b.subrange(base, end) == a.subrange(base, end) {
            lemma_same_version(a, b, base, end);
        }
    }
}

/// A version that comes back has not changed in between, unless the word
/// wrapped around.
proof fn lemma_unchanged_between(
    h: Seq<Seq<u8>>,
    base: int,
    end: int,
    t0: int,
    t: int,
    t1: int,
)
    requires
        slot_history(h, base, end),
        0 <= t0 <= t <= t1 < h.len(),
        changes(h, base, t0, t1) == 0,
        snapshot::version_at(h[t0], base) % 2 == 0,
    ensures
        h[t].subrange(base, end) == h[t0].subrange(base, end),
        changes(h, base, t0, t) == 0,
    decreases t1,
{
    lemma_changes_monotone(h, base, t0, t, t1);
    if t > t0 {
        lemma_changes_monotone(h, base, t0, t - 1, t1);
        lemma_unchanged_between(h, base, end, t0, t - 1, t - 1);
        lemma_changes_counted(h, base, end, t0, t - 1);
        lemma_changes_counted(h, base, end, t0, t);
        assert(slot_step(h[t - 1], h[t - 1 + 1], base, end));
    }
}

/// Changes accumulate.
proof fn lemma_changes_monotone(h: Seq<Seq<u8>>, base: int, t0: int, t: int, t1: int)
    requires
        t0 <= t <= t1,
    ensures
        changes(h, base, t0, t) <= changes(h, base, t0, t1),
    decreases t1 - t,
{
    if t < t1 {
        lemma_changes_monotone(h, base, t0, t, t1 - 1);
    }
}

/// While a version stands, and it is even, the slot stands: if a slot has the
/// same even version at two moments between which it changed less than 2^64
/// times, then it was the same at every moment between them.
pub proof fn lemma_stable_version_stable_slot(
    h: Seq<Seq<u8>>,
    base: int,
    end: int,
    t0: int,
    t: int,
    t1: int,
)
    requires
        slot_history(h, base, end),
        0 <= t0 <= t <= t1 < h.len(),
        changes(h, base, t0, t1) < 0x1_0000_0000_0000_0000,
        snapshot::version_at(h[t0], base) % 2 == 0,
        snapshot::version_at(h[t1], base) == snapshot::version_at(h[t0], base),
    ensures
        h[t].subrange(base, end) == h[t0].subrange(base, end),
{
    lemma_changes_counted(h, base, end, t0, t1);
    lemma_unchanged_between(h, base, end, t0, t, t1);
}

/// The bytes from `start` to `end`, each loaded at a moment of its own.
pub open spec fn loaded(
    h: Seq<Seq<u8>>,
    moments: spec_fn(int) -> int,
    start: int,
    end: int,
) -> Seq<u8> {
    Seq::new((end - start) as nat, |k: int| h[moments(start + k)][start + k])
}

/// One attempt at reading a slot: what the reader saw, and where each sight led
/// it.
pub struct Attempt {
    pub start: AccountRead,
    pub version: u64,
    pub at_header: AccountRead,
    pub header: AccountSlotHeader,
    pub at_data: AccountRead,
    pub data: Vec<u8>,
    pub at_reload: AccountRead,
    pub reloaded: u64,
    pub end: AccountRead,
}

impl Attempt {
    /// The reader went from stage to stage by [`AccountRead::step`].
    pub open spec fn follows_steps(self) -> bool {
        &&& self.start.stage is LoadVersion
        &&& self.start.leads_to(Observed::Version(self.version), self.at_header.stage)
        &&& self.at_header.capacity == self.start.capacity
        &&& self.at_header.leads_to(Observed::Header(self.header), self.at_data.stage)
        &&& self.at_data.leads_to(Observed::Data(self.data), self.at_reload.stage)
        &&& self.at_reload.leads_to(Observed::Version(self.reloaded), self.end.stage)
    }

    /// The reader saw what the slot at `base` held in history `h`: the version
    /// at moment `t0`, the bytes of the slot at moments between `t0` and `t1`,
    /// and the version again at moment `t1`.
    pub open spec fn sees(
        self,
        h: Seq<Seq<u8>>,
        base: int,
        t0: int,
        t1: int,
        moments: spec_fn(int) -> int,
    ) -> bool {
        &&& 0 <= t0 <= t1 < h.len()
        &&& forall|k: int|
            base <= k < base + 64 + self.start.capacity ==> t0 <= #[trigger] moments(k) <= t1
        &&& self.version == snapshot::version_at(h[t0], base)
        &&& self.header.is_at(loaded(h, moments, base, base + 64), 0)
        &&& self.data@ == loaded(h, moments, base + 64, base + 64 + self.header.data_len)
        &&& self.reloaded == snapshot::version_at(h[t1], base)
    }
}

/// An attempt that ends in [`ReadStage::Done`] yields the account that the slot
/// held, under an even version, when the version was first loaded: whatever
/// the writer did meanwhile and in whatever order the bytes were loaded, no
/// read is torn. (Unless the version changes 2^64 times during the attempt.)
pub proof fn lemma_no_torn_read(
    h: Seq<Seq<u8>>,
    base: int,
    t0: int,
    t1: int,
    moments: spec_fn(int) -> int,
    attempt: Attempt,
)
    requires
        slot_history(h, base, base + 64 + attempt.start.capacity),
        attempt.follows_steps(),
        attempt.sees(h, base, t0, t1, moments),
        changes(h, base, t0, t1) < 0x1_0000_0000_0000_0000,
        attempt.end.stage is Done,
    ensures
        snapshot::version_at(h[t0], base) % 2 == 0,
        attempt.end.stage->Done_snapshot@ == snapshot::account_at(h[t0], base),
{
    let limit = base + 64 + attempt.start.capacity;
    let header = attempt.header;
    let m = h[t0];
    assert(attempt.version % 2 == 0);
    assert(header.data_len <= attempt.start.capacity);
    assert(attempt.reloaded == attempt.version);
    assert forall|k: int| base <= k < limit implies h[#[trigger] moments(k)][k] == m[k] by {
        let t = moments(k);
        lemma_stable_version_stable_slot(h, base, limit, t0, t, t1);
        assert(h[t][k] == h[t].subrange(base, limit)[k - base]);
        assert(m[k] == m.subrange(base, limit)[k - base]);
    }
    let buffer = loaded(h, moments, base, base + 64);
    assert(limit <= m.len());
    assert(buffer =~= m.subrange(base, base + 64));
    assert(buffer.subrange(8, 16) =~= m.subrange(base + 8, base + 16));
    assert(buffer.subrange(16, 48) =~= m.subrange(base + 16, base + 48));
    assert(buffer.subrange(48, 56) =~= m.subrange(base + 48, base + 56));
    assert(buffer.subrange(56, 60) =~= m.subrange(base + 56, base + 60));
    assert(attempt.data@ =~= m.subrange(base + 64, base + 64 + header.data_len));
}

/// An attempt at a slot that nobody writes succeeds: with an even version and a
/// data length within the capacity, it ends in [`ReadStage::Done`] with the
/// account that the slot holds.
pub proof fn lemma_quiet_read_succeeds(
    mem: Seq<u8>,
    base: int,
    moments: spec_fn(int) -> int,
    attempt: Attempt,
)
    requires
        0 <= base,
        base + 64 + attempt.start.capacity <= mem.len(),
        snapshot::version_at(mem, base) % 2 == 0,
        snapshot::data_len_at(mem, base) <= attempt.start.capacity,
        attempt.follows_steps(),
        attempt.sees(seq![mem], base, 0, 0, moments),
    ensures
        attempt.end.stage is Done,
        attempt.end.stage->Done_snapshot@ == snapshot::account_at(mem, base),
{
    let buffer = loaded(seq![mem], moments, base, base + 64);
    assert forall|k: int| 0 <= k < 64 implies buffer[k] == mem[base + k] by {
        assert(moments(base + k) == 0);
    }
    assert(buffer.subrange(56, 60) =~= mem.subrange(base + 56, base + 60));
    lemma_no_torn_read(seq![mem], base, 0, 0, moments, attempt);
}

} // verus!
