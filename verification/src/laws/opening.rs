//! Which regions can be opened, and what is found in them.
use crate::error::{IoErrorKind, ShmError};
use crate::index::PubkeyIndex;
use crate::layout;
use crate::layout::{OffsetTableEntry, ShmLayout};
use crate::laws::lookup;
use crate::laws::places;
use crate::laws::places::Answers;
use crate::laws::words;
use crate::reader::{AccountRead, ReadStage, ShmReader};
use crate::region;
use crate::table;
use crate::table::SlotTable;
use crate::writer::ShmWriter;
use vstd::prelude::*;

verus! {

/// The capacity of slot `i` by the table of a region.
pub open spec fn capacity_in(mem: Seq<u8>, i: int) -> int {
    words::word32(mem, 128 + 48 * i + 40)
}

/// The capacities of the first `n` slots by the table of a region.
pub open spec fn capacities_in(mem: Seq<u8>, n: int) -> Seq<u32> {
    Seq::new(n as nat, |i: int| capacity_in(mem, i) as u32)
}

/// The accounts of the first `n` slots by the table of a region.
pub open spec fn keys_in(mem: Seq<u8>, n: int) -> Seq<Seq<u8>> {
    Seq::new(n as nat, |i: int| mem.subrange(128 + 48 * i, 128 + 48 * i + 32))
}

/// The number of slots by the header of a region.
pub open spec fn count_in(mem: Seq<u8>) -> int {
    words::word32(mem, 16)
}

/// The header is one of this format.
pub open spec fn header_is_right(mem: Seq<u8>) -> bool {
    words::word64(mem, 0) == 0x53_4F4C_5348_4D01 && words::word64(mem, 8) == 1
}

/// The region ends before the end of a table of `n` entries.
pub open spec fn table_cut_off(mem: Seq<u8>, n: int) -> bool {
    n > 0 && mem.len() < 128 + 48 * n
}

/// Every entry of the table gives the place of the data of its slot.
pub open spec fn table_is_right(mem: Seq<u8>, n: int, starts: Seq<int>) -> bool {
    forall|i: int|
        0 <= i < n ==> words::word64(mem, 128 + 48 * i + 32) == #[trigger] starts[i] + 64
}

/// The error says that the table is cut off.
pub open spec fn says_cut_off(error: ShmError) -> bool {
    error matches ShmError::Io(e) && e.kind == IoErrorKind::UnexpectedEof && e.message@
        == "offset table entry out of bounds"@
}

/// The error says that the table has a slot in another place.
pub open spec fn says_misplaced(error: ShmError) -> bool {
    error matches ShmError::Io(e) && e.kind == IoErrorKind::InvalidData && e.message@
        == "offset table does not match computed layout"@
}

/// The error is the right one for the header of a region, or there is none.
pub open spec fn header_judged(mem: Seq<u8>, error: Option<ShmError>) -> bool {
    &&& words::word64(mem, 0) != 0x53_4F4C_5348_4D01 <==> (
    error matches Some(ShmError::InvalidMagic { .. }))
    &&& error matches Some(ShmError::InvalidMagic { expected, actual }) ==> expected
        == 0x53_4F4C_5348_4D01 && actual == words::word64(mem, 0)
    &&& words::word64(mem, 0) == 0x53_4F4C_5348_4D01 && words::word64(mem, 8) != 1 <==> (
    error matches Some(ShmError::VersionMismatch { .. }))
    &&& error matches Some(ShmError::VersionMismatch { expected, actual }) ==> expected == 1
        && actual == words::word64(mem, 8)
}

/// The error is the right one for a region whose slots are placed at `starts`:
/// there is none exactly if the header is right, and the table complete and
/// right.
pub open spec fn judged(mem: Seq<u8>, starts: Seq<int>, error: Option<ShmError>) -> bool {
    let n = count_in(mem);
    &&& header_judged(mem, error)
    &&& error is None <==> header_is_right(mem) && !table_cut_off(mem, n) && table_is_right(
        mem,
        n,
        starts,
    )
    &&& header_is_right(mem) && table_cut_off(mem, n) ==> error is Some && says_cut_off(error->0)
    &&& header_is_right(mem) && !table_cut_off(mem, n) && !table_is_right(mem, n, starts)
        ==> error is Some && says_misplaced(error->0)
}

/// The error of a result, if it is one.
pub open spec fn error_of<T>(result: Result<T, ShmError>) -> Option<ShmError> {
    match result {
        Ok(_) => None,
        Err(error) => Some(error),
    }
}

/// The header words of a region as the contracts have them.
pub proof fn lemma_header(mem: Seq<u8>)
    requires
        128 <= mem.len(),
    ensures
        region::num_slots(mem) == count_in(mem),
        region::header_error(mem) is None <==> header_is_right(mem),
        header_judged(mem, region::header_error(mem)),
{
    words::lemma_words(mem, 0);
    words::lemma_words(mem, 8);
    words::lemma_words(mem, 16);
}

/// The table of a region as the contracts have it.
pub proof fn lemma_table(mem: Seq<u8>, n: int)
    requires
        0 <= n,
        !table_cut_off(mem, n),
    ensures
        region::table_capacities(mem, n as nat) == capacities_in(mem, n),
        region::table_keys(mem, n as nat) == keys_in(mem, n),
        forall|i: int|
            0 <= i < n ==> #[trigger] region::entry_data_offset(mem, i) == words::word64(
                mem,
                128 + 48 * i + 32,
            ),
{
    assert forall|i: int| 0 <= i < n implies #[trigger] region::entry_capacity(mem, i)
        == capacity_in(mem, i) by {
        words::lemma_words(mem, 128 + 48 * i + 40);
    }
    assert forall|i: int| 0 <= i < n implies #[trigger] region::entry_data_offset(mem, i)
        == words::word64(mem, 128 + 48 * i + 32) by {
        words::lemma_words(mem, 128 + 48 * i + 32);
    }
    assert forall|i: int| 0 <= i < n implies region::table_capacities(mem, n as nat)[i]
        == capacities_in(mem, n)[i] by {
        assert(region::entry_capacity(mem, i) == capacity_in(mem, i));
    }
    assert(region::table_capacities(mem, n as nat) =~= capacities_in(mem, n));
    assert(region::table_keys(mem, n as nat) =~= keys_in(mem, n));
}

/// The table agrees with the layout exactly if it is right.
proof fn lemma_offsets(mem: Seq<u8>, starts: Seq<int>)
    requires
        128 <= mem.len(),
        !table_cut_off(mem, count_in(mem)),
        places::placed(count_in(mem), capacities_in(mem, count_in(mem)), starts),
    ensures
        table::offsets_agree(mem) <==> table_is_right(mem, count_in(mem), starts),
{
    let n = count_in(mem);
    let caps = capacities_in(mem, n);
    lemma_header(mem);
    lemma_table(mem, n);
    places::lemma_placed(caps, starts);
    assert forall|i: int| 0 <= i < n implies (#[trigger] region::offset_agrees(
        mem,
        layout::data_start(n),
        caps,
        i,
    ) <==> words::word64(mem, 128 + 48 * i + 32) == starts[i] + 64) by {
        assert(region::entry_data_offset(mem, i) == words::word64(mem, 128 + 48 * i + 32));
        assert(starts[i] == layout::slot_offset(caps, i));
    }
    if table::offsets_agree(mem) {
        assert forall|i: int| 0 <= i < n implies words::word64(mem, 128 + 48 * i + 32)
            == #[trigger] starts[i] + 64 by {
            assert(region::offset_agrees(mem, layout::data_start(n), caps, i));
        }
    }
    if table_is_right(mem, n, starts) {
        assert forall|i: int| 0 <= i < n implies #[trigger] region::offset_agrees(
            mem,
            layout::data_start(n),
            caps,
            i,
        ) by {
            assert(starts[i] + 64 == words::word64(mem, 128 + 48 * i + 32));
        }
    }
}

/// What the contracts say of opening is right.
pub proof fn lemma_judged(mem: Seq<u8>, starts: Seq<int>, error: Option<ShmError>)
    requires
        128 <= mem.len(),
        places::placed(count_in(mem), capacities_in(mem, count_in(mem)), starts),
        error is None ==> table::valid_region(mem),
        error matches Some(e) ==> !table::valid_region(mem) && table::is_open_error(mem, e),
    ensures
        judged(mem, starts, error),
{
    let n = count_in(mem);
    lemma_header(mem);
    if !table_cut_off(mem, n) {
        lemma_offsets(mem, starts);
    }
    assert(region::table_fits(mem, n) <==> !table_cut_off(mem, n));
}

/// A header is accepted exactly if its first word is the magic number and its
/// second the format version; else the error names the word that is wrong.
pub proof fn law_validate_header(mem: &[u8], result: Result<(), ShmError>)
    requires
        128 <= mem@.len(),
        call_ensures(region::validate_header, (mem,), result),
    ensures
        call_requires(region::validate_header, (mem,)),
        result is Ok <==> header_is_right(mem@),
        header_judged(mem@, error_of(result)),
{
    lemma_header(mem@);
}

/// A table entry is read exactly if the region holds it, and it is the one that
/// stands there.
pub proof fn law_offset_entry(
    mem: &[u8],
    slot_index: usize,
    result: Result<OffsetTableEntry, ShmError>,
)
    requires
        call_ensures(region::offset_entry, (mem, slot_index), result),
    ensures
        call_requires(region::offset_entry, (mem, slot_index)),
        result is Ok <==> 128 + 48 * (slot_index + 1) <= mem@.len(),
        result matches Ok(entry) ==> words::entry_stands(mem@, 128 + 48 * slot_index, entry),
        result matches Err(error) ==> says_cut_off(error),
{
    if let Ok(entry) = result {
        words::lemma_entry_stands(mem@, 128 + 48 * slot_index, entry);
    }
}

/// Capacities are read exactly if the region holds all of the entries, and they
/// are the ones that stand there.
pub proof fn law_read_capacities(mem: &[u8], n: usize, result: Result<Vec<u32>, ShmError>)
    requires
        call_ensures(region::read_capacities, (mem, n), result),
    ensures
        call_requires(region::read_capacities, (mem, n)),
        result is Ok <==> !table_cut_off(mem@, n as int),
        result matches Ok(capacities) ==> {
            &&& capacities@.len() == n
            &&& forall|i: int|
                0 <= i < n ==> #[trigger] capacities@[i] == capacity_in(mem@, i)
        },
        result matches Err(error) ==> says_cut_off(error),
{
    assert(region::table_fits(mem@, n as int) <==> !table_cut_off(mem@, n as int));
    if let Ok(capacities) = result {
        lemma_table(mem@, n as int);
        assert forall|i: int| 0 <= i < n implies #[trigger] capacities@[i] == capacity_in(
            mem@,
            i,
        ) by {
            words::lemma_words(mem@, 128 + 48 * i + 40);
            assert(capacities@[i] == region::entry_capacity(mem@, i));
        }
    }
}

/// Offsets are accepted exactly if the region holds all of the entries, and each
/// gives the place of the data of its slot in the row of slots.
pub proof fn law_validate_offsets(
    mem: &[u8],
    layout: ShmLayout,
    capacities: &[u32],
    starts: Seq<int>,
    result: Result<(), ShmError>,
)
    requires
        layout.offset_table_start == 128,
        places::in_a_row(capacities@, starts),
        starts[0] == layout.data_region_start,
        call_ensures(region::validate_offsets, (mem, &layout, capacities), result),
    ensures
        starts[capacities@.len() as int] <= usize::MAX ==> call_requires(
            region::validate_offsets,
            (mem, &layout, capacities),
        ),
        result is Ok <==> !table_cut_off(mem@, capacities@.len() as int) && table_is_right(
            mem@,
            capacities@.len() as int,
            starts,
        ),
        result matches Err(error) ==> says_cut_off(error) || says_misplaced(error),
        result matches Err(error) ==> (says_misplaced(error) <==> exists|i: int|
            0 <= i < capacities@.len() && 128 + 48 * (i + 1) <= mem@.len() && words::word64(
                mem@,
                128 + 48 * i + 32,
            ) != #[trigger] starts[i] + 64),
{
    let n = capacities@.len() as int;
    places::lemma_row(capacities@, starts, n);
    assert(capacities@.take(n) =~= capacities@);
    assert(region::table_fits(mem@, n) <==> !table_cut_off(mem@, n));
    assert forall|i: int| 0 <= i < n && region::table_fits(mem@, i + 1) implies (
    #[trigger] region::offset_agrees(
        mem@,
        layout.data_region_start as int,
        capacities@,
        i,
    ) <==> words::word64(mem@, 128 + 48 * i + 32) == starts[i] + 64) by {
        words::lemma_words(mem@, 128 + 48 * i + 32);
        places::lemma_row(capacities@, starts, i);
    }
    if result is Ok {
        assert(region::all_agree(mem@, layout.data_region_start as int, capacities@));
        assert forall|i: int| 0 <= i < n implies words::word64(mem@, 128 + 48 * i + 32)
            == #[trigger] starts[i] + 64 by {
            assert(region::table_fits(mem@, i + 1));
            assert(region::offset_agrees(
                mem@,
                layout.data_region_start as int,
                capacities@,
                i,
            ));
        }
    } else {
        if region::is_contradiction(result->Err_0) {
            let i = choose|i: int|
                0 <= i < n && region::table_fits(mem@, i + 1)
                    && !#[trigger] region::offset_agrees(
                    mem@,
                    layout.data_region_start as int,
                    capacities@,
                    i,
                );
            assert(starts[i] + 64 != words::word64(mem@, 128 + 48 * i + 32));
        } else {
            assert(region::held_agree(mem@, layout.data_region_start as int, capacities@));
            assert forall|i: int|
                0 <= i < n && 128 + 48 * (i + 1) <= mem@.len() implies words::word64(
                mem@,
                128 + 48 * i + 32,
            ) == #[trigger] starts[i] + 64 by {
                assert(region::table_fits(mem@, i + 1));
                assert(region::offset_agrees(
                    mem@,
                    layout.data_region_start as int,
                    capacities@,
                    i,
                ));
            }
        }
    }
}

/// An index of the table is made exactly if the region holds all of the
/// entries, and it finds every account at its last position there.
pub proof fn law_index_entries(
    mem: &[u8],
    n: usize,
    result: Result<PubkeyIndex, ShmError>,
    key: [u8; 32],
    found: Option<usize>,
)
    requires
        call_ensures(region::build_index_from_entries, (mem, n), result),
        result matches Ok(index) ==> call_ensures(PubkeyIndex::get, (&index, &key), found),
    ensures
        call_requires(region::build_index_from_entries, (mem, n)),
        result is Ok <==> !table_cut_off(mem@, n as int),
        result is Ok ==> lookup::found_last(keys_in(mem@, n as int), key@, found),
        result matches Ok(index) ==> call_requires(PubkeyIndex::get, (&index, &key)),
        result matches Err(error) ==> says_cut_off(error),
{
    assert(region::table_fits(mem@, n as int) <==> !table_cut_off(mem@, n as int));
    if let Ok(index) = result {
        index.lemma_len();
        lemma_table(mem@, n as int);
        lookup::lemma_found_last(keys_in(mem@, n as int), key@);
    }
}

/// A region can be opened exactly if it holds a header, and its slots can be
/// addressed unless header or table are refused anyway.
pub proof fn law_can_open(mem: &[u8], starts: Seq<int>, can: bool, now: u64, pid: u32)
    requires
        places::placed(count_in(mem@), capacities_in(mem@, count_in(mem@)), starts),
        call_ensures(table::can_open, (mem,), can),
    ensures
        call_requires(table::can_open, (mem,)),
        can <==> 128 <= mem@.len() && (!header_is_right(mem@) || table_cut_off(
            mem@,
            count_in(mem@),
        ) || starts[count_in(mem@)] <= usize::MAX),
        can ==> call_requires(SlotTable::open, (mem,)),
        can ==> call_requires(ShmReader::open, (mem,)),
        can ==> call_requires(ShmWriter::open, (mem, now, pid)),
{
    let n = count_in(mem@);
    if 128 <= mem@.len() {
        lemma_header(mem@);
        assert(region::table_fits(mem@, n) <==> !table_cut_off(mem@, n));
        if !table_cut_off(mem@, n) {
            lemma_table(mem@, n);
            places::lemma_placed(capacities_in(mem@, n), starts);
        }
    }
}

/// A table is opened exactly if header and table of the region are right, and
/// it answers what they say.
pub proof fn law_open_table(
    mem: &[u8],
    starts: Seq<int>,
    result: Result<SlotTable, ShmError>,
    answers: Answers,
)
    requires
        128 <= mem@.len(),
        places::placed(count_in(mem@), capacities_in(mem@, count_in(mem@)), starts),
        call_ensures(SlotTable::open, (mem,), result),
        result matches Ok(table) ==> answers.come_from(table),
    ensures
        judged(mem@, starts, error_of(result)),
        result is Ok ==> answers.are_right(
            keys_in(mem@, count_in(mem@)),
            capacities_in(mem@, count_in(mem@)),
            starts,
        ),
{
    lemma_judged(mem@, starts, error_of(result));
    if let Ok(table) = result {
        lemma_header(mem@);
        lemma_table(mem@, count_in(mem@));
        places::lemma_table_answers(table, starts, answers);
    }
}

/// What a reader makes of an account.
pub struct ReaderAnswers {
    pub key: [u8; 32],
    pub can_read: bool,
    pub read: Result<AccountRead, ShmError>,
}

impl ReaderAnswers {
    /// The reader gives these answers.
    pub open spec fn come_from(self, reader: ShmReader) -> bool {
        &&& call_ensures(ShmReader::can_read, (&reader, &self.key), self.can_read)
        &&& call_ensures(ShmReader::read_account, (&reader, &self.key), self.read)
    }

    /// The answers are right: an account without a slot is not found, and the
    /// read of one with a slot begins at the place of the slot.
    pub open spec fn are_right(
        self,
        keys: Seq<Seq<u8>>,
        capacities: Seq<u32>,
        starts: Seq<int>,
        slot: Option<usize>,
    ) -> bool {
        &&& lookup::found_last(keys, self.key@, slot)
        &&& self.can_read <==> slot is None || slot->0 < capacities.len()
        &&& slot is None ==> (self.read matches Err(error) && error is PubkeyNotFound)
        &&& slot is Some && slot->0 < capacities.len() ==> (self.read matches Ok(read) && {
            &&& read.header_offset == starts[slot->0 as int]
            &&& read.data_offset == starts[slot->0 as int] + 64
            &&& read.capacity == capacities[slot->0 as int]
            &&& read.stage == (ReadStage::LoadVersion { spins: 0 })
        })
    }
}

/// A reader in order answers by its accounts and capacities.
pub proof fn lemma_reader_answers(
    reader: ShmReader,
    starts: Seq<int>,
    answers: ReaderAnswers,
) -> (slot: Option<usize>)
    requires
        reader.wf(),
        places::placed(
            reader.table().capacities().len() as int,
            reader.table().capacities(),
            starts,
        ),
        answers.come_from(reader),
    ensures
        answers.are_right(
            reader.table().keys(),
            reader.table().capacities(),
            starts,
            slot,
        ),
        answers.can_read ==> call_requires(ShmReader::read_account, (&reader, &answers.key)),
        call_requires(ShmReader::can_read, (&reader, &answers.key)),
{
    let caps = reader.table().capacities();
    reader.table().lemma_wf();
    places::lemma_placed(caps, starts);
    lookup::lemma_found_last(reader.table().keys(), answers.key@);
    let slot = reader.table().slot_of(answers.key@);
    if slot is Some && slot->0 < caps.len() {
        layout::lemma_slot_in_region(caps, slot->0 as int);
        assert(starts[slot->0 as int] == layout::slot_offset(caps, slot->0 as int));
    }
    slot
}

/// A reader opens a region exactly if header and table are right; it can read
/// every account, and reads each at the place that the table gives.
pub proof fn law_open_reader(
    mem: &[u8],
    starts: Seq<int>,
    result: Result<ShmReader, ShmError>,
    answers: ReaderAnswers,
) -> (slot: Option<usize>)
    requires
        128 <= mem@.len(),
        places::placed(count_in(mem@), capacities_in(mem@, count_in(mem@)), starts),
        call_ensures(ShmReader::open, (mem,), result),
        result matches Ok(reader) ==> answers.come_from(reader),
    ensures
        judged(mem@, starts, error_of(result)),
        result matches Ok(reader) ==> {
            &&& answers.can_read
            &&& answers.are_right(
                keys_in(mem@, count_in(mem@)),
                capacities_in(mem@, count_in(mem@)),
                starts,
                slot,
            )
            &&& call_requires(ShmReader::read_account, (&reader, &answers.key))
            &&& (slot is Some ==> answers.read is Ok && answers.read->Ok_0.data_offset
                == words::word64(mem@, 128 + 48 * slot->0 + 32))
        },
{
    lemma_judged(mem@, starts, error_of(result));
    if let Ok(reader) = result {
        lemma_header(mem@);
        lemma_table(mem@, count_in(mem@));
        let slot = lemma_reader_answers(reader, starts, answers);
        assert(reader.covers(answers.key@));
        if slot is Some {
            assert(starts[slot->0 as int] + 64 == words::word64(
                mem@,
                128 + 48 * slot->0 + 32,
            ));
        }
        slot
    } else {
        None
    }
}

/// The version of an account is loaded from the place of its slot, and the
/// global slot number from offset 24.
pub proof fn law_reader_loads<F: Fn(usize) -> u64>(
    mem: &[u8],
    starts: Seq<int>,
    reader: ShmReader,
    answers: ReaderAnswers,
    load: F,
    version: Result<u64, ShmError>,
    number: u64,
) -> (slot: Option<usize>)
    requires
        128 <= mem@.len(),
        places::placed(count_in(mem@), capacities_in(mem@, count_in(mem@)), starts),
        call_ensures(ShmReader::open, (mem,), Ok(reader)),
        answers.come_from(reader),
        call_ensures(ShmReader::read_version::<F>, (&reader, &answers.key, load), version),
        call_ensures(ShmReader::global_solana_slot::<F>, (&reader, load), number),
    ensures
        lookup::found_last(keys_in(mem@, count_in(mem@)), answers.key@, slot),
        slot is None ==> (version matches Err(error) && error is PubkeyNotFound),
        slot matches Some(i) ==> version is Ok && starts[i as int] <= usize::MAX && call_ensures(
            load,
            (starts[i as int] as usize,),
            version->Ok_0,
        ),
        call_ensures(load, (24usize,), number),
{
    let slot = law_open_reader(mem, starts, Ok(reader), answers);
    lemma_header(mem@);
    lemma_table(mem@, count_in(mem@));
    let caps = reader.table().capacities();
    reader.table().lemma_wf();
    places::lemma_placed(caps, starts);
    lookup::lemma_found_last(reader.table().keys(), answers.key@);
    if let Some(i) = slot {
        assert(starts[i as int] == layout::slot_offset(caps, i as int));
    }
    slot
}

/// Reading the accounts anew succeeds exactly if the region holds its whole
/// table; the reader then finds the accounts of the region as it is now, in
/// slots that are as they were, and else is as it was.
pub proof fn law_build_index(
    reader: &mut ShmReader,
    mem: &[u8],
    result: Result<(), ShmError>,
    capacities: Seq<u32>,
    starts: Seq<int>,
    answers: ReaderAnswers,
)
    requires
        old(reader).wf(),
        128 <= mem@.len(),
        capacities == old(reader).table().capacities(),
        places::placed(capacities.len() as int, capacities, starts),
        call_ensures(ShmReader::build_index, (reader, mem), result),
        answers.come_from(*final(reader)),
    ensures
        call_requires(ShmReader::build_index, (reader, mem)),
        final(reader).wf(),
        result is Ok <==> !table_cut_off(mem@, count_in(mem@)),
        result matches Err(error) ==> says_cut_off(error) && *final(reader) == *old(reader),
        result is Ok ==> exists|slot: Option<usize>| #[trigger]
            answers.are_right(keys_in(mem@, count_in(mem@)), capacities, starts, slot),
{
    lemma_header(mem@);
    assert(region::table_fits(mem@, count_in(mem@)) <==> !table_cut_off(mem@, count_in(mem@)));
    if result is Ok {
        lemma_table(mem@, count_in(mem@));
    }
    let slot = lemma_reader_answers(*final(reader), starts, answers);
}

/// A reader that opened one region and reads the accounts of another anew finds
/// the accounts of the second in the slots of the first; an account whose
/// position there has no slot cannot be read.
pub proof fn law_open_then_build_index(
    reader: &mut ShmReader,
    first: &[u8],
    second: &[u8],
    starts: Seq<int>,
    answers: ReaderAnswers,
)
    requires
        128 <= first@.len(),
        128 <= second@.len(),
        places::placed(
            count_in(first@),
            capacities_in(first@, count_in(first@)),
            starts,
        ),
        call_ensures(ShmReader::open, (first,), Ok(*old(reader))),
        call_ensures(ShmReader::build_index, (reader, second), Ok(())),
        answers.come_from(*final(reader)),
    ensures
        !table_cut_off(second@, count_in(second@)),
        exists|slot: Option<usize>| #[trigger]
            answers.are_right(
                keys_in(second@, count_in(second@)),
                capacities_in(first@, count_in(first@)),
                starts,
                slot,
            ),
{
    lemma_header(first@);
    lemma_table(first@, count_in(first@));
    law_build_index(
        reader,
        second,
        Ok(()),
        capacities_in(first@, count_in(first@)),
        starts,
        answers,
    );
}

/// A table that reads the accounts anew does so exactly if the region holds
/// its whole table; it then finds the accounts of the region as it is now, in
/// slots that are as they were, and else is as it was.
pub proof fn law_rebuild_table(
    table: &mut SlotTable,
    mem: &[u8],
    result: Result<(), ShmError>,
    starts: Seq<int>,
    answers: Answers,
)
    requires
        old(table).wf(),
        128 <= mem@.len(),
        places::placed(
            old(table).capacities().len() as int,
            old(table).capacities(),
            starts,
        ),
        call_ensures(SlotTable::build_index, (table, mem), result),
        answers.come_from(*final(table)),
    ensures
        call_requires(SlotTable::build_index, (table, mem)),
        final(table).wf(),
        result is Ok <==> !table_cut_off(mem@, count_in(mem@)),
        result matches Err(error) ==> says_cut_off(error) && *final(table) == *old(table),
        result is Ok ==> answers.are_right(
            keys_in(mem@, count_in(mem@)),
            old(table).capacities(),
            starts,
        ),
{
    lemma_header(mem@);
    assert(region::table_fits(mem@, count_in(mem@)) <==> !table_cut_off(mem@, count_in(mem@)));
    if result is Ok {
        lemma_table(mem@, count_in(mem@));
    }
    places::lemma_table_answers(*final(table), starts, answers);
}

} // verus!
