use solana_shm_accounts::index::PubkeyIndex;
use solana_shm_accounts::pre_accounts_collector::{
    accounts_to_load, matches_program, PreAccountsCollectionRoutines, PreAccountsCollector,
    TransactionAccount, TransactionSummary,
};

fn key(n: u8) -> [u8; 32] {
    [n; 32]
}

fn programs(ids: &[u8]) -> PubkeyIndex {
    let mut index = PubkeyIndex::new();
    for id in ids {
        index.insert(key(*id));
    }
    index
}

fn transaction() -> TransactionSummary {
    let account = |n: u8, is_writable: bool, is_invoked: bool| TransactionAccount {
        key: key(n),
        is_writable,
        is_invoked,
    };
    TransactionSummary {
        program_ids: vec![key(100), key(101)],
        accounts: vec![
            account(1, true, false),
            account(2, false, false),
            account(3, true, true),
            account(4, true, false),
            account(5, true, false),
        ],
    }
}

#[test]
fn programs_are_matched_by_instruction() {
    assert!(matches_program(&transaction(), &programs(&[7, 101])));
    assert!(!matches_program(&transaction(), &programs(&[7, 1])));
    assert!(!matches_program(&transaction(), &programs(&[])));
}

#[test]
fn written_accounts_are_loaded() {
    assert_eq!(
        accounts_to_load(&transaction(), &programs(&[100])),
        vec![key(1), key(4), key(5)]
    );
    assert!(accounts_to_load(&transaction(), &programs(&[9])).is_empty());
}

#[test]
fn existing_accounts_are_collected_in_order() {
    let mut collector = PreAccountsCollector::new_with_transaction_count(3);
    let loaded = vec![Some(vec![1, 1]), None, Some(vec![])];
    collector.collect_pre_accounts(&transaction(), &programs(&[100]), &loaded);
    collector.push_empty();
    collector.collect_pre_accounts(&transaction(), &programs(&[9]), &vec![]);
    assert!(collector.lengths_match_expected(3));
    assert!(!collector.lengths_match_expected(2));
    assert_eq!(
        collector.into_vecs(),
        vec![vec![(key(1), vec![1, 1]), (key(5), vec![])], vec![], vec![]]
    );
}

#[test]
fn collecting_can_be_off() {
    let mut off: Option<PreAccountsCollector> = None;
    off.collect_pre_accounts(&transaction(), &programs(&[100]), &vec![]);
    off.push_empty();
    assert!(off.is_none());

    let mut on = Some(PreAccountsCollector::default());
    on.push_empty();
    on.collect_pre_accounts(&transaction(), &programs(&[101]), &vec![None, None, Some(vec![8])]);
    let batch = on.expect("collecting is on").into_vecs();
    assert_eq!(batch, vec![vec![], vec![(key(5), vec![8])]]);
}
