use std::collections::HashMap;

use act::error::Error;
use act::process::{process, InternalTransaction};
use act::stores::{ActStore, MemActStore};
use act::transaction::{Transaction, TransactionType};

#[test]
fn valid_tx_and_over_limit_withdraw() {
    let mut act_store = MemActStore::new();
    let mut tx_store: HashMap<u32, InternalTransaction> = HashMap::new();
    let txs = vec![
        Transaction { tx_type: TransactionType::Deposit, amount: 10000, client: 1, tx: 1 },
        Transaction { tx_type: TransactionType::Deposit, amount: 20000, client: 2, tx: 2 },
        Transaction { tx_type: TransactionType::Deposit, amount: 20000, client: 1, tx: 3 },
        Transaction { tx_type: TransactionType::Withdrawal, amount: 15000, client: 1, tx: 4 },
    ];
    for tx in txs {
        process(tx, &mut act_store, &mut tx_store).unwrap();
    }
    process(
        Transaction { tx_type: TransactionType::Withdrawal, amount: 30000, client: 2, tx: 5 },
        &mut act_store,
        &mut tx_store,
    )
    .expect_err("Withdrawal should fail due to insufficient funds");

    let act = act_store.get_account(1).unwrap();
    assert_eq!(0, act.held());
    assert!(matches!(act.available(), Ok(15000)));

    let act = act_store.get_account(2).unwrap();
    assert_eq!(0, act.held());
    assert!(matches!(act.available(), Ok(20000)));
}

#[test]
fn held_funds() {
    let mut act_store = MemActStore::new();
    let mut tx_store: HashMap<u32, InternalTransaction> = HashMap::new();
    process(
        Transaction { tx_type: TransactionType::Deposit, amount: 10000, client: 1, tx: 1 },
        &mut act_store,
        &mut tx_store,
    )
    .unwrap();
    process(
        Transaction { tx_type: TransactionType::Dispute, amount: 0, client: 1, tx: 1 },
        &mut act_store,
        &mut tx_store,
    )
    .unwrap();
    let act = act_store.get_account(1).unwrap();
    assert_eq!(10000, act.held());
    assert!(matches!(act.available(), Ok(0)));
    process(
        Transaction { tx_type: TransactionType::Withdrawal, amount: 10000, client: 1, tx: 2 },
        &mut act_store,
        &mut tx_store,
    )
    .expect_err("Withdrawal should fail due to held funds");
    let act = act_store.get_account(1).unwrap();
    assert_eq!(10000, act.held());
    assert!(matches!(act.available(), Ok(0)));
    process(
        Transaction { tx_type: TransactionType::Resolve, amount: 0, client: 1, tx: 1 },
        &mut act_store,
        &mut tx_store,
    )
    .unwrap();
    let act = act_store.get_account(1).unwrap();
    assert_eq!(0, act.held());
    assert!(matches!(act.available(), Ok(10000)));
}

#[test]
fn dispute_client_mismatch() {
    let mut act_store = MemActStore::new();
    let mut tx_store: HashMap<u32, InternalTransaction> = HashMap::new();
    process(
        Transaction { tx_type: TransactionType::Deposit, amount: 10000, client: 1, tx: 1 },
        &mut act_store,
        &mut tx_store,
    )
    .unwrap();
    process(
        Transaction { tx_type: TransactionType::Dispute, client: 2, tx: 1, amount: 0 },
        &mut act_store,
        &mut tx_store,
    )
    .expect_err("Dispute should fail due to client mismatch");
    let act = act_store.get_account(1).unwrap();
    assert_eq!(0, act.held());
    assert!(matches!(act.available(), Ok(10000)));
}

#[test]
fn chargeback() {
    let mut act_store = MemActStore::new();
    let mut tx_store: HashMap<u32, InternalTransaction> = HashMap::new();
    let txs = vec![
        Transaction { tx_type: TransactionType::Deposit, amount: 20000, client: 1, tx: 1 },
        Transaction { tx_type: TransactionType::Withdrawal, amount: 10000, client: 1, tx: 2 },
        Transaction { tx_type: TransactionType::Dispute, amount: 0, client: 1, tx: 1 },
    ];
    txs.into_iter().for_each(|tx| {
        process(tx, &mut act_store, &mut tx_store).unwrap();
    });
    let act = act_store.get_account(1).unwrap();
    assert_eq!(20000, act.held());
    assert_eq!(10000, act.total());
    assert!(matches!(act.available(), Ok(-10000)));
    assert!(!act.is_locked());
    process(
        Transaction { tx_type: TransactionType::Chargeback, amount: 0, client: 1, tx: 1 },
        &mut act_store,
        &mut tx_store,
    )
    .unwrap();
    let act = act_store.get_account(1).unwrap();
    assert_eq!(0, act.held());
    assert!(matches!(act.available(), Ok(-10000)));
    assert!(act.is_locked());
}

#[test]
fn resolve() {
    let mut act_store = MemActStore::new();
    let mut tx_store: HashMap<u32, InternalTransaction> = HashMap::new();
    process(
        Transaction { tx_type: TransactionType::Deposit, amount: 10000, client: 1, tx: 1 },
        &mut act_store,
        &mut tx_store,
    )
    .unwrap();
    process(
        Transaction { tx_type: TransactionType::Dispute, amount: 0, client: 1, tx: 1 },
        &mut act_store,
        &mut tx_store,
    )
    .unwrap();
    let act = act_store.get_account(1).unwrap();
    assert_eq!(10000, act.held());
    assert!(matches!(act.available(), Ok(0)));
    process(
        Transaction { tx_type: TransactionType::Resolve, amount: 0, client: 1, tx: 1 },
        &mut act_store,
        &mut tx_store,
    )
    .unwrap();
    let act = act_store.get_account(1).unwrap();
    assert_eq!(0, act.held());
    assert!(matches!(act.available(), Ok(10000)));
}

#[test]
fn lock_unlock_account() {
    let mut act_store = MemActStore::new();
    let mut tx_store: HashMap<u32, InternalTransaction> = HashMap::new();
    process(
        Transaction { tx_type: TransactionType::Deposit, amount: 10000, client: 1, tx: 1 },
        &mut act_store,
        &mut tx_store,
    )
    .unwrap();
    let locked = act_store.lock_account(1);
    assert!(locked);
    let locked = act_store.unlock_account(1);
    assert!(!locked);
    let act = act_store.get_account(1).unwrap();
    assert!(!act.is_locked());
}

#[test]
fn dispute_twice_fails_with_already_disputed() {
    let mut act_store = MemActStore::new();
    let mut tx_store: HashMap<u32, InternalTransaction> = HashMap::new();
    process(
        Transaction { tx_type: TransactionType::Deposit, amount: 10000, client: 1, tx: 1 },
        &mut act_store,
        &mut tx_store,
    )
    .unwrap();
    process(
        Transaction { tx_type: TransactionType::Dispute, amount: 0, client: 1, tx: 1 },
        &mut act_store,
        &mut tx_store,
    )
    .unwrap();
    let second = process(
        Transaction { tx_type: TransactionType::Dispute, amount: 0, client: 1, tx: 1 },
        &mut act_store,
        &mut tx_store,
    );
    assert_eq!(second, Err(Error::AlreadyDisputed));
    let act = act_store.get_account(1).unwrap();
    assert_eq!(10000, act.held());
}

#[test]
fn dispute_of_withdrawal_id_fails_with_not_found() {
    let mut act_store = MemActStore::new();
    let mut tx_store: HashMap<u32, InternalTransaction> = HashMap::new();
    process(
        Transaction { tx_type: TransactionType::Deposit, amount: 10000, client: 1, tx: 1 },
        &mut act_store,
        &mut tx_store,
    )
    .unwrap();
    process(
        Transaction { tx_type: TransactionType::Withdrawal, amount: 5000, client: 1, tx: 2 },
        &mut act_store,
        &mut tx_store,
    )
    .unwrap();
    let disputed = process(
        Transaction { tx_type: TransactionType::Dispute, amount: 0, client: 1, tx: 2 },
        &mut act_store,
        &mut tx_store,
    );
    assert_eq!(disputed, Err(Error::NotFound));
    let act = act_store.get_account(1).unwrap();
    assert_eq!(0, act.held());
    assert!(matches!(act.available(), Ok(5000)));
}

#[test]
fn resolve_undisputed_fails_with_not_disputed() {
    let mut act_store = MemActStore::new();
    let mut tx_store: HashMap<u32, InternalTransaction> = HashMap::new();
    process(
        Transaction { tx_type: TransactionType::Deposit, amount: 10000, client: 1, tx: 1 },
        &mut act_store,
        &mut tx_store,
    )
    .unwrap();
    let resolved = process(
        Transaction { tx_type: TransactionType::Resolve, amount: 0, client: 1, tx: 1 },
        &mut act_store,
        &mut tx_store,
    );
    assert_eq!(resolved, Err(Error::NotDisputed));
}

#[test]
fn deposit_overflow_is_rejected_unchanged() {
    let mut act_store = MemActStore::new();
    let mut tx_store: HashMap<u32, InternalTransaction> = HashMap::new();
    process(
        Transaction { tx_type: TransactionType::Deposit, amount: i64::MAX as u64, client: 1, tx: 1 },
        &mut act_store,
        &mut tx_store,
    )
    .unwrap();
    let overflowed = process(
        Transaction { tx_type: TransactionType::Deposit, amount: 1, client: 1, tx: 2 },
        &mut act_store,
        &mut tx_store,
    );
    assert_eq!(overflowed, Err(Error::Overflow));
    let act = act_store.get_account(1).unwrap();
    assert_eq!(act.total(), i64::MAX);
}

#[test]
fn snapshot_after_deposits_and_withdrawal() {
    let mut act_store = MemActStore::new();
    let mut tx_store: HashMap<u32, InternalTransaction> = HashMap::new();
    let txs = vec![
        Transaction { tx_type: TransactionType::Deposit, amount: 10000, client: 1, tx: 1 },
        Transaction { tx_type: TransactionType::Deposit, amount: 20000, client: 1, tx: 2 },
        Transaction { tx_type: TransactionType::Withdrawal, amount: 15000, client: 1, tx: 3 },
    ];
    for tx in txs {
        process(tx, &mut act_store, &mut tx_store).unwrap();
    }
    let rows = act_store.rows();
    assert_eq!(rows.len(), 1);
    assert_eq!(rows[0].id, 1);
    assert_eq!(rows[0].total, "1.5000");
    assert_eq!(rows[0].held, "0.0000");
    assert_eq!(rows[0].available, "1.5000");
    assert!(!rows[0].locked);
}

#[test]
fn snapshot_after_dispute_and_chargeback() {
    let mut act_store = MemActStore::new();
    let mut tx_store: HashMap<u32, InternalTransaction> = HashMap::new();
    process(
        Transaction { tx_type: TransactionType::Deposit, amount: 20000, client: 1, tx: 1 },
        &mut act_store,
        &mut tx_store,
    )
    .unwrap();
    process(
        Transaction { tx_type: TransactionType::Dispute, amount: 0, client: 1, tx: 1 },
        &mut act_store,
        &mut tx_store,
    )
    .unwrap();
    let rows = act_store.rows();
    assert_eq!(rows.len(), 1);
    assert_eq!(rows[0].id, 1);
    assert_eq!(rows[0].total, "2.0000");
    assert_eq!(rows[0].held, "2.0000");
    assert_eq!(rows[0].available, "0.0000");
    assert!(!rows[0].locked);
    process(
        Transaction { tx_type: TransactionType::Chargeback, amount: 0, client: 1, tx: 1 },
        &mut act_store,
        &mut tx_store,
    )
    .unwrap();
    let rows = act_store.rows();
    assert_eq!(rows.len(), 1);
    assert_eq!(rows[0].id, 1);
    assert_eq!(rows[0].total, "0.0000");
    assert_eq!(rows[0].held, "0.0000");
    assert_eq!(rows[0].available, "0.0000");
    assert!(rows[0].locked);
}

#[test]
fn sum_of_deposits_is_total() {
    let mut act_store = MemActStore::new();
    let mut tx_store: HashMap<u32, InternalTransaction> = HashMap::new();
    let amounts: Vec<u64> = vec![10000, 25000, 1, 4999];
    for (i, amount) in amounts.iter().enumerate() {
        process(
            Transaction {
                tx_type: TransactionType::Deposit,
                amount: *amount,
                client: 1,
                tx: i as u32 + 1,
            },
            &mut act_store,
            &mut tx_store,
        )
        .unwrap();
    }
    let act = act_store.get_account(1).unwrap();
    assert_eq!(act.total(), 40000);
    assert_eq!(act.held(), 0);
    assert!(matches!(act.available(), Ok(40000)));
}

#[test]
fn failed_hold_leaves_dispute_history_unchanged() {
    let mut act_store = MemActStore::new();
    let mut tx_store: HashMap<u32, InternalTransaction> = HashMap::new();
    process(
        Transaction { tx_type: TransactionType::Deposit, amount: 10000, client: 1, tx: 1 },
        &mut act_store,
        &mut tx_store,
    )
    .unwrap();
    // a recorded deposit whose hold cannot succeed: the available balance
    // would leave the representable range
    tx_store.insert(
        2,
        InternalTransaction {
            tx: Transaction { tx_type: TransactionType::Deposit, amount: u64::MAX, client: 1, tx: 2 },
            disputed: false,
        },
    );
    let disputed = process(
        Transaction { tx_type: TransactionType::Dispute, amount: 0, client: 1, tx: 2 },
        &mut act_store,
        &mut tx_store,
    );
    assert_eq!(disputed, Err(Error::Overflow));
    assert!(!tx_store.get(&2).unwrap().disputed);
    let act = act_store.get_account(1).unwrap();
    assert_eq!(act.held(), 0);
    assert_eq!(act.total(), 10000);
    // the record can be reported again; it is not stuck as disputed
    let again = process(
        Transaction { tx_type: TransactionType::Dispute, amount: 0, client: 1, tx: 2 },
        &mut act_store,
        &mut tx_store,
    );
    assert_eq!(again, Err(Error::Overflow));
}

#[test]
fn failed_unhold_leaves_dispute_flag_set() {
    let mut act_store = MemActStore::new();
    let mut tx_store: HashMap<u32, InternalTransaction> = HashMap::new();
    process(
        Transaction { tx_type: TransactionType::Deposit, amount: 10000, client: 1, tx: 1 },
        &mut act_store,
        &mut tx_store,
    )
    .unwrap();
    // an entry marked disputed whose amount exceeds what is actually held
    tx_store.insert(
        2,
        InternalTransaction {
            tx: Transaction { tx_type: TransactionType::Deposit, amount: 5000, client: 1, tx: 2 },
            disputed: true,
        },
    );
    let resolved = process(
        Transaction { tx_type: TransactionType::Resolve, amount: 0, client: 1, tx: 2 },
        &mut act_store,
        &mut tx_store,
    );
    assert_eq!(resolved, Err(Error::InvalidUnhold));
    assert!(tx_store.get(&2).unwrap().disputed);
    let again = process(
        Transaction { tx_type: TransactionType::Resolve, amount: 0, client: 1, tx: 2 },
        &mut act_store,
        &mut tx_store,
    );
    assert_eq!(again, Err(Error::InvalidUnhold));
}

#[test]
fn overflowing_amount_row_is_dropped() {
    let mut act_store = MemActStore::new();
    let mut tx_store: HashMap<u32, InternalTransaction> = HashMap::new();
    let rows = [
        ("deposit", "1", "1", "2.0"),
        ("deposit", "1", "2", "18446744073709551616"),
    ];
    for (t, c, x, a) in rows {
        if let Ok(tx) = act::parse::parse_record(t, c, x, a) {
            let _ = process(tx, &mut act_store, &mut tx_store);
        }
    }
    assert_eq!(tx_store.len(), 1);
    assert!(!tx_store.contains_key(&2));
    let act = act_store.get_account(1).unwrap();
    assert_eq!(act.total(), 20000);
    assert!(matches!(act.available(), Ok(20000)));
}

#[test]
fn failed_withdrawal_leaves_account_identical() {
    let mut account = act::account::Account::with_balance(1, 7000);
    account.hold(2000).expect("Hold failed");
    let before = account;
    let result = account.withdraw(6000);
    assert_eq!(result, Err(Error::InsufficientFunds));
    assert_eq!(account, before);
}
