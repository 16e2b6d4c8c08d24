//! What is collected of the transactions of a batch.
use crate::index::PubkeyIndex;
use crate::laws::lookup;
use crate::pre_accounts_collector;
use crate::pre_accounts_collector::{
    BatchPreAccounts, PreAccountsCollectionRoutines, PreAccountsCollector, TransactionSummary,
    TxPreAccounts,
};
use vstd::prelude::*;

verus! {

/// The positions are in order, and are exactly those among the first `n` at
/// which `wanted` holds.
pub open spec fn picks(positions: Seq<int>, n: int, wanted: spec_fn(int) -> bool) -> bool {
    &&& forall|q: int|
        0 <= q < positions.len() ==> 0 <= #[trigger] positions[q] < n && wanted(positions[q])
    &&& forall|q: int, r: int|
        0 <= q < r < positions.len() ==> #[trigger] positions[q] < #[trigger] positions[r]
    &&& forall|p: int| 0 <= p < n && #[trigger] wanted(p) ==> positions.contains(p)
}

/// The accounts of the transaction that are written and not invoked.
pub open spec fn is_written(transaction: TransactionSummary) -> spec_fn(int) -> bool {
    |p: int| transaction.accounts@[p].is_writable && !transaction.accounts@[p].is_invoked
}

/// The positions at which something was loaded.
pub open spec fn is_loaded(loaded: Seq<Option<Vec<u8>>>) -> spec_fn(int) -> bool {
    |p: int| loaded[p] is Some
}

/// A transaction is watched exactly if the index of programs has a position for
/// the program of one of its instructions.
pub proof fn law_matches_program(
    transaction: TransactionSummary,
    programs: PubkeyIndex,
    found: Seq<Option<usize>>,
    watched: bool,
)
    requires
        programs.wf(),
        found.len() == transaction.program_ids@.len(),
        forall|k: int|
            0 <= k < found.len() ==> call_ensures(
                PubkeyIndex::get,
                (&programs, &transaction.program_ids@[k]),
                #[trigger] found[k],
            ),
        call_ensures(
            pre_accounts_collector::matches_program,
            (&transaction, &programs),
            watched,
        ),
    ensures
        call_requires(pre_accounts_collector::matches_program, (&transaction, &programs)),
        watched <==> exists|k: int| 0 <= k < found.len() && #[trigger] found[k] is Some,
{
    let ids = transaction.program_ids@;
    programs.lemma_len();
    assert forall|k: int| 0 <= k < found.len() implies (#[trigger] found[k] is Some
        <==> programs@.contains(ids[k]@)) by {
        assert(call_ensures(PubkeyIndex::get, (&programs, &ids[k]), found[k]));
        lookup::lemma_found_last(programs@, ids[k]@);
        if programs@.contains(ids[k]@) {
            let j = choose|j: int| 0 <= j < programs@.len() && programs@[j] == ids[k]@;
            assert(programs@[j] == ids[k]@);
        }
    }
    if watched {
        let k = choose|k: int| 0 <= k < ids.len() && programs@.contains((#[trigger] ids[k])@);
        assert(found[k] is Some);
    }
    if exists|k: int| 0 <= k < found.len() && #[trigger] found[k] is Some {
        let k = choose|k: int| 0 <= k < found.len() && #[trigger] found[k] is Some;
        assert(programs@.contains(ids[k]@));
    }
}

/// The positions of the written accounts among the first `n`.
spec fn written_positions(transaction: TransactionSummary, n: int) -> Seq<int>
    decreases n,
{
    if n <= 0 {
        Seq::empty()
    } else {
        let front = written_positions(transaction, n - 1);
        if is_written(transaction)(n - 1) {
            front.push(n - 1)
        } else {
            front
        }
    }
}

/// Adding the last position keeps a pick a pick.
proof fn lemma_picks_next(positions: Seq<int>, n: int, wanted: spec_fn(int) -> bool)
    requires
        0 <= n,
        picks(positions, n, wanted),
    ensures
        wanted(n) ==> picks(positions.push(n), n + 1, wanted),
        !wanted(n) ==> picks(positions, n + 1, wanted),
{
    if wanted(n) {
        let more = positions.push(n);
        assert forall|p: int| 0 <= p < n + 1 && #[trigger] wanted(p) implies more.contains(p) by {
            if p < n {
                assert(positions.contains(p));
                let q = choose|q: int| 0 <= q < positions.len() && positions[q] == p;
                assert(more[q] == p);
            } else {
                assert(more[positions.len() as int] == n);
            }
        }
    }
}

/// The written accounts, as the contracts have them, stand at their positions.
proof fn lemma_written_positions(transaction: TransactionSummary, n: int)
    requires
        0 <= n <= transaction.accounts@.len(),
    ensures
        picks(written_positions(transaction, n), n, is_written(transaction)),
        written_positions(transaction, n).len() == pre_accounts_collector::written_keys(
            transaction.accounts@.take(n),
        ).len(),
        forall|q: int|
            0 <= q < written_positions(transaction, n).len()
                ==> #[trigger] pre_accounts_collector::written_keys(
                transaction.accounts@.take(n),
            )[q] == transaction.accounts@[written_positions(transaction, n)[q]].key@,
    decreases n,
{
    if n > 0 {
        lemma_written_positions(transaction, n - 1);
        assert(transaction.accounts@.take(n).drop_last() =~= transaction.accounts@.take(n - 1));
        lemma_picks_next(
            written_positions(transaction, n - 1),
            n - 1,
            is_written(transaction),
        );
    }
}

/// For a transaction that is watched the keys of its written accounts that are
/// not invoked are to be loaded, all of them and in order; for any other
/// transaction none are.
pub proof fn law_accounts_to_load(
    transaction: TransactionSummary,
    programs: PubkeyIndex,
    watched: bool,
    keys: Vec<[u8; 32]>,
) -> (positions: Seq<int>)
    requires
        programs.wf(),
        call_ensures(
            pre_accounts_collector::matches_program,
            (&transaction, &programs),
            watched,
        ),
        call_ensures(pre_accounts_collector::accounts_to_load, (&transaction, &programs), keys),
    ensures
        call_requires(pre_accounts_collector::accounts_to_load, (&transaction, &programs)),
        !watched ==> keys@.len() == 0,
        watched ==> {
            &&& picks(positions, transaction.accounts@.len() as int, is_written(transaction))
            &&& keys@.len() == positions.len()
            &&& forall|q: int|
                0 <= q < keys@.len() ==> (#[trigger] keys@[q])@
                    == transaction.accounts@[positions[q]].key@
        },
{
    let n = transaction.accounts@.len() as int;
    let views = keys@.map_values(|key: [u8; 32]| key@);
    assert(transaction.accounts@.take(n) =~= transaction.accounts@);
    lemma_written_positions(transaction, n);
    let positions = written_positions(transaction, n);
    assert(views.len() == keys@.len());
    if watched {
        assert forall|q: int| 0 <= q < keys@.len() implies (#[trigger] keys@[q])@
            == transaction.accounts@[positions[q]].key@ by {
            assert(views[q] == keys@[q]@);
        }
    }
    positions
}

/// The positions of what was loaded among the first `n`.
spec fn loaded_positions(loaded: Seq<Option<Vec<u8>>>, n: int) -> Seq<int>
    decreases n,
{
    if n <= 0 {
        Seq::empty()
    } else {
        let front = loaded_positions(loaded, n - 1);
        if is_loaded(loaded)(n - 1) {
            front.push(n - 1)
        } else {
            front
        }
    }
}

/// What was loaded, as the contracts have it, stands at its positions.
proof fn lemma_loaded_positions(keys: Seq<Seq<u8>>, loaded: Seq<Option<Vec<u8>>>, n: int)
    requires
        keys.len() == loaded.len(),
        0 <= n <= loaded.len(),
    ensures
        ({
            let entries = pre_accounts_collector::existing(keys.take(n), loaded.take(n));
            let positions = loaded_positions(loaded, n);
            &&& picks(positions, n, is_loaded(loaded))
            &&& entries.len() == positions.len()
            &&& forall|q: int|
                0 <= q < entries.len() ==> (#[trigger] entries[q]).0 == keys[positions[q]]
                    && entries[q].1 == loaded[positions[q]]->0@
        }),
    decreases n,
{
    if n > 0 {
        lemma_loaded_positions(keys, loaded, n - 1);
        assert(keys.take(n).drop_last() =~= keys.take(n - 1));
        assert(loaded.take(n).drop_last() =~= loaded.take(n - 1));
        lemma_picks_next(loaded_positions(loaded, n - 1), n - 1, is_loaded(loaded));
    }
}

/// The lists hold the same accounts with the same data.
pub open spec fn same_accounts(a: TxPreAccounts, b: TxPreAccounts) -> bool {
    &&& a@.len() == b@.len()
    &&& forall|q: int|
        0 <= q < a@.len() ==> (#[trigger] a@[q]).0@ == b@[q].0@ && a@[q].1@ == b@[q].1@
}

/// The batch is the one before with one list more.
pub open spec fn grew_by_one(before: BatchPreAccounts, after: BatchPreAccounts) -> bool {
    &&& after@.len() == before@.len() + 1
    &&& forall|k: int|
        0 <= k < before@.len() ==> same_accounts(before@[k], #[trigger] after@[k])
}

/// The list has an account for each position at which something was loaded, in
/// order: the key at that position with the data that was loaded there, byte
/// for byte.
pub open spec fn is_collected(
    keys: Seq<[u8; 32]>,
    loaded: Seq<Option<Vec<u8>>>,
    list: TxPreAccounts,
    positions: Seq<int>,
) -> bool {
    &&& picks(positions, keys.len() as int, is_loaded(loaded))
    &&& list@.len() == positions.len()
    &&& forall|q: int|
        #![trigger list@[q]]
        0 <= q < list@.len() ==> {
            &&& list@[q].0@ == keys[positions[q]]@
            &&& list@[q].1@.len() == loaded[positions[q]]->0@.len()
            &&& forall|b: int|
                0 <= b < list@[q].1@.len() ==> #[trigger] list@[q].1@[b]
                    == loaded[positions[q]]->0@[b]
        }
}

/// Batches with views that differ by one list differ by one list.
proof fn lemma_batches(before: BatchPreAccounts, after: BatchPreAccounts, list: Seq<(Seq<u8>, Seq<u8>)>)
    requires
        pre_accounts_collector::batch_view(after@) == pre_accounts_collector::batch_view(
            before@,
        ).push(list),
    ensures
        grew_by_one(before, after),
        pre_accounts_collector::tx_view(after@[before@.len() as int]@) == list,
{
    let a = pre_accounts_collector::batch_view(before@);
    let b = pre_accounts_collector::batch_view(after@);
    assert(a.len() == before@.len());
    assert(b.len() == after@.len());
    assert(b[before@.len() as int] == list);
    assert forall|k: int| 0 <= k < before@.len() implies same_accounts(
        before@[k],
        #[trigger] after@[k],
    ) by {
        let x = pre_accounts_collector::tx_view(before@[k]@);
        let y = pre_accounts_collector::tx_view(after@[k]@);
        assert(a[k] == x);
        assert(b[k] == y);
        assert(x == y);
        assert(x.len() == before@[k]@.len());
        assert(y.len() == after@[k]@.len());
        assert forall|q: int| 0 <= q < before@[k]@.len() implies (#[trigger] before@[k]@[q]).0@
            == after@[k]@[q].0@ && before@[k]@[q].1@ == after@[k]@[q].1@ by {
            assert(x[q] == y[q]);
        }
    }
}

/// What was loaded for the keys of a transaction is what is collected of it.
proof fn lemma_collected(
    keys: Seq<[u8; 32]>,
    wanted: Seq<Seq<u8>>,
    loaded: Seq<Option<Vec<u8>>>,
    list: TxPreAccounts,
)
    requires
        keys.map_values(|key: [u8; 32]| key@) == wanted,
        loaded.len() == keys.len(),
        pre_accounts_collector::tx_view(list@) == pre_accounts_collector::existing(
            wanted,
            loaded,
        ),
    ensures
        is_collected(
            keys,
            loaded,
            list,
            loaded_positions(loaded, loaded.len() as int),
        ),
{
    let n = loaded.len() as int;
    let view = pre_accounts_collector::tx_view(list@);
    assert(wanted.take(n) =~= wanted);
    assert(loaded.take(n) =~= loaded);
    lemma_loaded_positions(wanted, loaded, n);
    let positions = loaded_positions(loaded, n);
    assert(view.len() == list@.len());
    assert forall|q: int|
        #![trigger list@[q]]
        0 <= q < list@.len() implies {
        &&& list@[q].0@ == keys[positions[q]]@
        &&& list@[q].1@ == loaded[positions[q]]->0@
    } by {
        assert(view[q] == (list@[q].0@, list@[q].1@));
        assert(0 <= positions[q] < n);
        assert(wanted[positions[q]] == keys[positions[q]]@);
    }
}

/// Collecting a transaction adds one list to the batch: the keys that were to be
/// loaded and whose accounts exist, in order, each with its data.
pub proof fn law_collect(
    collector: &mut PreAccountsCollector,
    transaction: TransactionSummary,
    programs: PubkeyIndex,
    loaded: Vec<Option<Vec<u8>>>,
    keys: Vec<[u8; 32]>,
    before: BatchPreAccounts,
    after: BatchPreAccounts,
)
    requires
        programs.wf(),
        call_ensures(pre_accounts_collector::accounts_to_load, (&transaction, &programs), keys),
        loaded@.len() == keys@.len(),
        call_ensures(PreAccountsCollector::into_vecs, (*old(collector),), before),
        call_ensures(
            PreAccountsCollector::collect_pre_accounts,
            (collector, &transaction, &programs, &loaded),
            (),
        ),
        call_ensures(PreAccountsCollector::into_vecs, (*final(collector),), after),
    ensures
        call_requires(
            PreAccountsCollector::collect_pre_accounts,
            (collector, &transaction, &programs, &loaded),
        ),
        grew_by_one(before, after),
        exists|positions: Seq<int>| #[trigger]
            is_collected(keys@, loaded@, after@[before@.len() as int], positions),
{
    let wanted = pre_accounts_collector::keys_to_load(transaction, programs@);
    assert(wanted.len() == keys@.len());
    lemma_batches(before, after, pre_accounts_collector::existing(wanted, loaded@));
    lemma_collected(keys@, wanted, loaded@, after@[before@.len() as int]);
}

/// Where collecting may be off: it adds the same list where it is on, and does
/// nothing where it is off.
pub proof fn law_collect_optionally(
    collector: &mut Option<PreAccountsCollector>,
    transaction: TransactionSummary,
    programs: PubkeyIndex,
    loaded: Vec<Option<Vec<u8>>>,
    keys: Vec<[u8; 32]>,
    before: BatchPreAccounts,
    after: BatchPreAccounts,
)
    requires
        programs.wf(),
        call_ensures(pre_accounts_collector::accounts_to_load, (&transaction, &programs), keys),
        *old(collector) is Some ==> loaded@.len() == keys@.len(),
        *old(collector) matches Some(inner) ==> call_ensures(
            PreAccountsCollector::into_vecs,
            (inner,),
            before,
        ),
        call_ensures(
            Option::<PreAccountsCollector>::collect_pre_accounts,
            (collector, &transaction, &programs, &loaded),
            (),
        ),
        *final(collector) matches Some(inner) ==> call_ensures(
            PreAccountsCollector::into_vecs,
            (inner,),
            after,
        ),
    ensures
        call_requires(
            Option::<PreAccountsCollector>::collect_pre_accounts,
            (collector, &transaction, &programs, &loaded),
        ),
        *final(collector) is Some <==> *old(collector) is Some,
        *old(collector) is Some ==> grew_by_one(before, after) && exists|positions: Seq<int>|
            #[trigger]
            is_collected(keys@, loaded@, after@[before@.len() as int], positions),
{
    let wanted = pre_accounts_collector::keys_to_load(transaction, programs@);
    assert(keys@.map_values(|key: [u8; 32]| key@).len() == keys@.len());
    assert(final(collector).collected() is Some <==> old(collector).collected() is Some);
    if *old(collector) is Some {
        lemma_batches(before, after, pre_accounts_collector::existing(wanted, loaded@));
        lemma_collected(keys@, wanted, loaded@, after@[before@.len() as int]);
    }
}

/// A transaction without accounts adds one empty list to the batch.
pub proof fn law_push_empty(
    collector: &mut PreAccountsCollector,
    before: BatchPreAccounts,
    after: BatchPreAccounts,
)
    requires
        call_ensures(PreAccountsCollector::into_vecs, (*old(collector),), before),
        call_ensures(PreAccountsCollector::push_empty, (collector,), ()),
        call_ensures(PreAccountsCollector::into_vecs, (*final(collector),), after),
    ensures
        grew_by_one(before, after),
        after@[before@.len() as int]@.len() == 0,
{
    lemma_batches(before, after, Seq::empty());
    let last = after@[before@.len() as int]@;
    assert(pre_accounts_collector::tx_view(last).len() == last.len());
}

/// Where collecting may be off, a transaction without accounts adds one empty
/// list where it is on, and nothing where it is off.
pub proof fn law_push_empty_optionally(
    collector: &mut Option<PreAccountsCollector>,
    before: BatchPreAccounts,
    after: BatchPreAccounts,
)
    requires
        *old(collector) matches Some(inner) ==> call_ensures(
            PreAccountsCollector::into_vecs,
            (inner,),
            before,
        ),
        call_ensures(Option::<PreAccountsCollector>::push_empty, (collector,), ()),
        *final(collector) matches Some(inner) ==> call_ensures(
            PreAccountsCollector::into_vecs,
            (inner,),
            after,
        ),
    ensures
        *final(collector) is Some <==> *old(collector) is Some,
        *old(collector) is Some ==> grew_by_one(before, after)
            && after@[before@.len() as int]@.len() == 0,
{
    assert(final(collector).collected() is Some <==> old(collector).collected() is Some);
    if *old(collector) is Some {
        lemma_batches(before, after, Seq::empty());
        let last = after@[before@.len() as int]@;
        assert(pre_accounts_collector::tx_view(last).len() == last.len());
    }
}

/// A new collector has an empty batch, and a collector has as many transactions
/// as its batch has lists.
pub proof fn law_collector_len(
    transaction_count: usize,
    fresh: PreAccountsCollector,
    default: PreAccountsCollector,
    fresh_batch: BatchPreAccounts,
    default_batch: BatchPreAccounts,
    collector: PreAccountsCollector,
    batch: BatchPreAccounts,
    expected_len: usize,
    matching: bool,
)
    requires
        call_ensures(
            PreAccountsCollector::new_with_transaction_count,
            (transaction_count,),
            fresh,
        ),
        call_ensures(PreAccountsCollector::default, (), default),
        call_ensures(PreAccountsCollector::into_vecs, (fresh,), fresh_batch),
        call_ensures(PreAccountsCollector::into_vecs, (default,), default_batch),
        call_ensures(PreAccountsCollector::into_vecs, (collector,), batch),
        call_ensures(
            PreAccountsCollector::lengths_match_expected,
            (&collector, expected_len),
            matching,
        ),
    ensures
        fresh_batch@.len() == 0,
        default_batch@.len() == 0,
        matching <==> batch@.len() == expected_len,
{
    assert(pre_accounts_collector::batch_view(fresh_batch@).len() == fresh_batch@.len());
    assert(pre_accounts_collector::batch_view(default_batch@).len() == default_batch@.len());
    assert(pre_accounts_collector::batch_view(batch@).len() == batch@.len());
}

} // verus!
