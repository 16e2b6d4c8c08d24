//! The state of accounts before the transactions of a batch.
use crate::index::PubkeyIndex;
use vstd::prelude::*;

verus! {

/// The accounts of one transaction: their keys and their data.
pub type TxPreAccounts = Vec<([u8; 32], Vec<u8>)>;

/// The accounts of the transactions of a batch.
pub type BatchPreAccounts = Vec<TxPreAccounts>;

/// An account that a transaction names.
pub struct TransactionAccount {
    pub key: [u8; 32],
    pub is_writable: bool,
    pub is_invoked: bool,
}

/// What matters of a transaction here: the programs of its instructions, and
/// its accounts, both in order.
pub struct TransactionSummary {
    pub program_ids: Vec<[u8; 32]>,
    pub accounts: Vec<TransactionAccount>,
}

/// An instruction of the transaction is for one of the programs.
pub open spec fn has_matching_program(
    transaction: TransactionSummary,
    programs: Seq<Seq<u8>>,
) -> bool {
    exists|k: int|
        0 <= k < transaction.program_ids@.len() && programs.contains(
            (#[trigger] transaction.program_ids@[k])@,
        )
}

/// The keys of the accounts that may be written and are not invoked.
pub open spec fn written_keys(accounts: Seq<TransactionAccount>) -> Seq<Seq<u8>>
    decreases accounts.len(),
{
    if accounts.len() == 0 {
        Seq::empty()
    } else {
        let front = written_keys(accounts.drop_last());
        let last = accounts.last();
        if last.is_writable && !last.is_invoked {
            front.push(last.key@)
        } else {
            front
        }
    }
}

/// The keys whose accounts have to be loaded for the transaction.
pub open spec fn keys_to_load(
    transaction: TransactionSummary,
    programs: Seq<Seq<u8>>,
) -> Seq<Seq<u8>> {
    if has_matching_program(transaction, programs) {
        written_keys(transaction.accounts@)
    } else {
        Seq::empty()
    }
}

/// The keys whose accounts exist, each with the data of its account.
pub open spec fn existing(keys: Seq<Seq<u8>>, loaded: Seq<Option<Vec<u8>>>) -> Seq<
    (Seq<u8>, Seq<u8>),
>
    decreases keys.len(),
{
    if keys.len() == 0 || loaded.len() != keys.len() {
        Seq::empty()
    } else {
        let front = existing(keys.drop_last(), loaded.drop_last());
        match loaded.last() {
            Some(data) => front.push((keys.last(), data@)),
            None => front,
        }
    }
}

/// Keys and data of the accounts of a transaction.
pub open spec fn tx_view(accounts: Seq<([u8; 32], Vec<u8>)>) -> Seq<(Seq<u8>, Seq<u8>)> {
    accounts.map_values(|account: ([u8; 32], Vec<u8>)| (account.0@, account.1@))
}

/// Keys and data of the accounts of the transactions of a batch.
pub open spec fn batch_view(batch: Seq<TxPreAccounts>) -> Seq<Seq<(Seq<u8>, Seq<u8>)>> {
    batch.map_values(|accounts: TxPreAccounts| tx_view(accounts@))
}

/// Collecting the accounts of transactions, one transaction after the other.
pub trait PreAccountsCollectionRoutines: Sized {
    /// What has been collected, where collecting is on.
    spec fn collected(&self) -> Option<Seq<Seq<(Seq<u8>, Seq<u8>)>>>;

    /// Adds the accounts of a transaction. `loaded` has, for each of
    /// [`accounts_to_load`], the data of the account or nothing.
    fn collect_pre_accounts(
        &mut self,
        transaction: &TransactionSummary,
        program_ids: &PubkeyIndex,
        loaded: &Vec<Option<Vec<u8>>>,
    )
        requires
            program_ids.wf(),
            old(self).collected() is Some ==> loaded@.len() == keys_to_load(
                *transaction,
                program_ids@,
            ).len(),
        ensures
            final(self).collected() == match old(self).collected() {
                Some(batch) => Some(
                    batch.push(existing(keys_to_load(*transaction, program_ids@), loaded@)),
                ),
                None => None,
            },
    ;

    /// Adds a transaction without accounts.
    fn push_empty(&mut self)
        ensures
            final(self).collected() == match old(self).collected() {
                Some(batch) => Some(batch.push(Seq::empty())),
                None => None,
            },
    ;
}

/// The accounts of the transactions of a batch, as far as they were collected.
#[derive(Debug)]
pub struct PreAccountsCollector {
    pre_accounts: BatchPreAccounts,
}

impl View for PreAccountsCollector {
    type V = Seq<Seq<(Seq<u8>, Seq<u8>)>>;

    closed spec fn view(&self) -> Seq<Seq<(Seq<u8>, Seq<u8>)>> {
        batch_view(self.pre_accounts@)
    }
}

impl Default for PreAccountsCollector {
    fn default() -> (collector: Self)
        ensures
            collector@ == Seq::<Seq<(Seq<u8>, Seq<u8>)>>::empty(),
    {
        PreAccountsCollector::new_with_transaction_count(0)
    }
}

impl PreAccountsCollector {
    /// A collector without transactions, with room for `transaction_count`.
    pub fn new_with_transaction_count(transaction_count: usize) -> (collector: Self)
        ensures
            collector@ == Seq::<Seq<(Seq<u8>, Seq<u8>)>>::empty(),
    {
        let collector = PreAccountsCollector {
            pre_accounts: Vec::with_capacity(transaction_count),
        };
        assert(collector@ =~= Seq::<Seq<(Seq<u8>, Seq<u8>)>>::empty());
        collector
    }

    /// What was collected.
    pub fn into_vecs(self) -> (batch: BatchPreAccounts)
        ensures
            batch_view(batch@) == self@,
    {
        self.pre_accounts
    }

    /// Whether `expected_len` transactions were collected.
    pub fn lengths_match_expected(&self, expected_len: usize) -> (matches: bool)
        ensures
            matches == (self@.len() == expected_len),
    {
        self.pre_accounts.len() == expected_len
    }

    /// Adds the accounts of a transaction.
    fn push(&mut self, accounts: TxPreAccounts)
        ensures
            final(self)@ == old(self)@.push(tx_view(accounts@)),
    {
        self.pre_accounts.push(accounts);
        assert(self@ =~= old(self)@.push(tx_view(accounts@)));
    }
}

/// Whether an instruction of the transaction is for one of the programs.
pub fn matches_program(transaction: &TransactionSummary, program_ids: &PubkeyIndex) -> (matches:
    bool)
    requires
        program_ids.wf(),
    ensures
        matches == has_matching_program(*transaction, program_ids@),
{
    let count: usize = transaction.program_ids.len();
    let mut k: usize = 0;
    while k < count
        invariant
            k <= count,
            count == transaction.program_ids@.len(),
            program_ids.wf(),
            forall|j: int|
                0 <= j < k ==> !program_ids@.contains(
                    (#[trigger] transaction.program_ids@[j])@,
                ),
        decreases count - k,
    {
        let id: [u8; 32] = transaction.program_ids[k];
        proof {
            program_ids.lemma_len();
            crate::index::lemma_last_position(program_ids@, id@);
        }
        match program_ids.get(&id) {
            Some(position) => {
                assert(program_ids@[position as int] == transaction.program_ids@[k as int]@);
                return true;
            },
            None => {},
        }
        k = k + 1;
    }
    false
}

/// The keys of the accounts of the transaction that may be written and are not
/// invoked, in order.
fn written_accounts(transaction: &TransactionSummary) -> (keys: Vec<[u8; 32]>)
    ensures
        keys@.map_values(|key: [u8; 32]| key@) == written_keys(transaction.accounts@),
{
    let mut keys: Vec<[u8; 32]> = Vec::new();
    assert(keys@.map_values(|key: [u8; 32]| key@) =~= Seq::<Seq<u8>>::empty());
    let count: usize = transaction.accounts.len();
    let mut k: usize = 0;
    while k < count
        invariant
            k <= count,
            count == transaction.accounts@.len(),
            keys@.map_values(|key: [u8; 32]| key@) == written_keys(
                transaction.accounts@.take(k as int),
            ),
        decreases count - k,
    {
        let ghost before = keys@;
        let account: &TransactionAccount = &transaction.accounts[k];
        if account.is_writable && !account.is_invoked {
            keys.push(account.key);
            assert(keys@.map_values(|key: [u8; 32]| key@) =~= before.map_values(
                |key: [u8; 32]| key@,
            ).push(account.key@));
        }
        assert(transaction.accounts@.take(k + 1).drop_last() =~= transaction.accounts@.take(
            k as int,
        ));
        k = k + 1;
    }
    assert(transaction.accounts@.take(count as int) =~= transaction.accounts@);
    keys
}

/// The keys of the accounts that have to be loaded for the transaction, in
/// order: those that may be written and are not invoked, if an instruction of
/// the transaction is for one of the programs.
pub fn accounts_to_load(transaction: &TransactionSummary, program_ids: &PubkeyIndex) -> (keys: Vec<
    [u8; 32],
>)
    requires
        program_ids.wf(),
    ensures
        keys@.map_values(|key: [u8; 32]| key@) == keys_to_load(*transaction, program_ids@),
{
    if matches_program(transaction, program_ids) {
        written_accounts(transaction)
    } else {
        let keys: Vec<[u8; 32]> = Vec::new();
        assert(keys@.map_values(|key: [u8; 32]| key@) =~= Seq::<Seq<u8>>::empty());
        keys
    }
}

impl PreAccountsCollectionRoutines for PreAccountsCollector {
    open spec fn collected(&self) -> Option<Seq<Seq<(Seq<u8>, Seq<u8>)>>> {
        Some(self@)
    }

    fn collect_pre_accounts(
        &mut self,
        transaction: &TransactionSummary,
        program_ids: &PubkeyIndex,
        loaded: &Vec<Option<Vec<u8>>>,
    ) {
        if !matches_program(transaction, program_ids) {
            self.push_empty();
            return;
        }
        let keys: Vec<[u8; 32]> = written_accounts(transaction);
        let ghost wanted = keys_to_load(*transaction, program_ids@);
        let mut tx_pre_accounts: TxPreAccounts = Vec::new();
        let count: usize = keys.len();
        let mut k: usize = 0;
        assert(tx_view(tx_pre_accounts@) =~= existing(wanted.take(0), loaded@.take(0)));
        while k < count
            invariant
                k <= count,
                count == keys@.len(),
                wanted == keys@.map_values(|key: [u8; 32]| key@),
                loaded@.len() == count,
                tx_view(tx_pre_accounts@) == existing(
                    wanted.take(k as int),
                    loaded@.take(k as int),
                ),
            decreases count - k,
        {
            let ghost before = tx_pre_accounts@;
            proof {
                assert(wanted.take(k + 1).drop_last() =~= wanted.take(k as int));
                assert(loaded@.take(k + 1).drop_last() =~= loaded@.take(k as int));
            }
            match &loaded[k] {
                Some(data) => {
                    let copied: Vec<u8> = vstd::slice::slice_to_vec(data.as_slice());
                    tx_pre_accounts.push((keys[k], copied));
                    assert(tx_view(tx_pre_accounts@) =~= tx_view(before).push(
                        (keys@[k as int]@, data@),
                    ));
                },
                None => {},
            }
            k = k + 1;
        }
        proof {
            assert(wanted.take(count as int) =~= wanted);
            assert(loaded@.take(count as int) =~= loaded@);
        }
        self.push(tx_pre_accounts);
    }

    fn push_empty(&mut self) {
        let empty: TxPreAccounts = Vec::new();
        assert(tx_view(empty@) =~= Seq::<(Seq<u8>, Seq<u8>)>::empty());
        self.push(empty);
    }
}

impl PreAccountsCollectionRoutines for Option<PreAccountsCollector> {
    open spec fn collected(&self) -> Option<Seq<Seq<(Seq<u8>, Seq<u8>)>>> {
        match self {
            Some(inner) => Some(inner@),
            None => None,
        }
    }

    fn collect_pre_accounts(
        &mut self,
        transaction: &TransactionSummary,
        program_ids: &PubkeyIndex,
        loaded: &Vec<Option<Vec<u8>>>,
    ) {
        if let Some(inner) = self {
            inner.collect_pre_accounts(transaction, program_ids, loaded)
        }
    }

    fn push_empty(&mut self) {
        if let Some(inner) = self {
            inner.push_empty()
        }
    }
}

/// A transaction of a batch: one whose accounts are collected, or one without
/// accounts.
pub enum Recorded {
    Collected { transaction: TransactionSummary, programs: Seq<Seq<u8>>, loaded: Seq<
        Option<Vec<u8>>,
    > },
    Empty,
}

impl Recorded {
    /// What the collector adds for the transaction.
    pub open spec fn entry(self) -> Seq<(Seq<u8>, Seq<u8>)> {
        match self {
            Recorded::Collected { transaction, programs, loaded } => existing(
                keys_to_load(transaction, programs),
                loaded,
            ),
            Recorded::Empty => Seq::empty(),
        }
    }
}

/// What a collector holds after the transactions `recorded`, one call each.
pub open spec fn batch_of(recorded: Seq<Recorded>) -> Seq<Seq<(Seq<u8>, Seq<u8>)>>
    decreases recorded.len(),
{
    if recorded.len() == 0 {
        Seq::empty()
    } else {
        batch_of(recorded.drop_last()).push(recorded.last().entry())
    }
}

/// A collector holds one entry per transaction, in order.
pub proof fn lemma_one_entry_per_transaction(recorded: Seq<Recorded>)
    ensures
        batch_of(recorded).len() == recorded.len(),
        forall|k: int|
            0 <= k < recorded.len() ==> #[trigger] batch_of(recorded)[k] == recorded[k].entry(),
    decreases recorded.len(),
{
    if recorded.len() > 0 {
        lemma_one_entry_per_transaction(recorded.drop_last());
    }
}

/// Only accounts of the transaction that may be written and are not invoked are
/// collected, and only if an instruction is for one of the programs.
pub proof fn lemma_only_written_accounts(
    transaction: TransactionSummary,
    programs: Seq<Seq<u8>>,
    loaded: Seq<Option<Vec<u8>>>,
    k: int,
)
    requires
        0 <= k < existing(keys_to_load(transaction, programs), loaded).len(),
    ensures
        has_matching_program(transaction, programs),
        exists|j: int|
            0 <= j < transaction.accounts@.len() && {
                let account = #[trigger] transaction.accounts@[j];
                &&& account.is_writable && !account.is_invoked
                &&& account.key@ == existing(keys_to_load(transaction, programs), loaded)[k].0
            },
{
    let keys = keys_to_load(transaction, programs);
    lemma_existing_keys(keys, loaded, k);
    let p = choose|p: int|
        0 <= p < keys.len() && #[trigger] keys[p] == existing(keys, loaded)[k].0;
    lemma_written_keys(transaction.accounts@, p);
}

/// Every collected key is one of those that were to be loaded.
proof fn lemma_existing_keys(keys: Seq<Seq<u8>>, loaded: Seq<Option<Vec<u8>>>, k: int)
    requires
        0 <= k < existing(keys, loaded).len(),
    ensures
        exists|p: int| 0 <= p < keys.len() && #[trigger] keys[p] == existing(keys, loaded)[k].0,
    decreases keys.len(),
{
    let front = keys.drop_last();
    let before = existing(front, loaded.drop_last());
    if k < before.len() {
        lemma_existing_keys(front, loaded.drop_last(), k);
        let p = choose|p: int| 0 <= p < front.len() && #[trigger] front[p] == before[k].0;
        assert(keys[p] == front[p]);
    } else {
        assert(keys[keys.len() - 1] == keys.last());
    }
}

/// Every key that may be written belongs to such an account.
proof fn lemma_written_keys(accounts: Seq<TransactionAccount>, p: int)
    requires
        0 <= p < written_keys(accounts).len(),
    ensures
        exists|j: int|
            0 <= j < accounts.len() && {
                let account = #[trigger] accounts[j];
                &&& account.is_writable && !account.is_invoked
                &&& account.key@ == written_keys(accounts)[p]
            },
    decreases accounts.len(),
{
    let front = accounts.drop_last();
    if p < written_keys(front).len() {
        lemma_written_keys(front, p);
        let j = choose|j: int|
            0 <= j < front.len() && {
                let account = #[trigger] front[j];
                &&& account.is_writable && !account.is_invoked
                &&& account.key@ == written_keys(front)[p]
            };
        assert(accounts[j] == front[j]);
    } else {
        assert(accounts[accounts.len() - 1] == accounts.last());
    }
}

} // verus!
