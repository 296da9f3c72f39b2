//! Tests of the ledger engine: applying entries one at a time and checking
//! the resulting account balances, record counts and lock state.
//!
//! Amounts are fixed-point values in ten-thousandths: `10_0000` is `10.0`.

use payments_engine_rs::transaction_manager::{Transaction, TransactionManager, TransactionType};

#[test]
fn deposit() {
    let mut transaction_manager = TransactionManager::new();
    transaction_manager
        .process_transaction(Transaction::new(TransactionType::Deposit { amount: 10_0000 }, 1, 1))
        .unwrap();
    assert_eq!(transaction_manager.client_account_index.len(), 1);
    let client_account = transaction_manager.client_account_index.get(&1).unwrap();
    assert_eq!(client_account.locked, false);
    assert_eq!(client_account.available, 10_0000);
    assert_eq!(client_account.held, 0);
    assert_eq!(client_account.transaction_index.len(), 1);
    assert_eq!(client_account.client, 1);
}

#[test]
fn withdraw() {
    let mut transaction_manager = TransactionManager::new();
    transaction_manager
        .process_transaction(Transaction::new(TransactionType::Deposit { amount: 10_0000 }, 1, 1))
        .unwrap();
    transaction_manager
        .process_transaction(Transaction::new(
            TransactionType::Withdrawal { amount: 10_0000 },
            1,
            2,
        ))
        .unwrap();
    assert_eq!(transaction_manager.client_account_index.len(), 1);
    let client_account = transaction_manager.client_account_index.get(&1).unwrap();
    assert_eq!(client_account.locked, false);
    assert_eq!(client_account.available, 0);
    assert_eq!(client_account.held, 0);
    assert_eq!(client_account.transaction_index.len(), 2);
    assert_eq!(client_account.client, 1);
}

#[test]
fn withdraw_too_much_is_ignored() {
    let mut transaction_manager = TransactionManager::new();
    transaction_manager
        .process_transaction(Transaction::new(TransactionType::Deposit { amount: 10_0000 }, 1, 1))
        .unwrap();
    transaction_manager
        .process_transaction(Transaction::new(
            TransactionType::Withdrawal { amount: 20_0000 },
            1,
            2,
        ))
        .unwrap();
    assert_eq!(transaction_manager.client_account_index.len(), 1);
    let client_account = transaction_manager.client_account_index.get(&1).unwrap();
    assert_eq!(client_account.locked, false);
    assert_eq!(client_account.available, 10_0000);
    assert_eq!(client_account.held, 0);
    assert_eq!(client_account.transaction_index.len(), 1);
    assert_eq!(client_account.client, 1);
}

#[test]
fn dispute() {
    let mut transaction_manager = TransactionManager::new();
    transaction_manager
        .process_transaction(Transaction::new(TransactionType::Deposit { amount: 10_0000 }, 1, 1))
        .unwrap();
    transaction_manager
        .process_transaction(Transaction::new(TransactionType::Dispute, 1, 1))
        .unwrap();
    assert_eq!(transaction_manager.client_account_index.len(), 1);
    let client_account = transaction_manager.client_account_index.get(&1).unwrap();
    assert_eq!(client_account.locked, false);
    assert_eq!(client_account.available, 0);
    assert_eq!(client_account.held, 10_0000);
    assert_eq!(client_account.transaction_index.len(), 1);
    assert_eq!(client_account.client, 1);
}

#[test]
fn dispute_twice_is_ignored() {
    let mut transaction_manager = TransactionManager::new();
    transaction_manager
        .process_transaction(Transaction::new(TransactionType::Deposit { amount: 10_0000 }, 1, 1))
        .unwrap();
    transaction_manager
        .process_transaction(Transaction::new(TransactionType::Dispute, 1, 1))
        .unwrap();
    transaction_manager
        .process_transaction(Transaction::new(TransactionType::Dispute, 1, 1))
        .unwrap();
    assert_eq!(transaction_manager.client_account_index.len(), 1);
    let client_account = transaction_manager.client_account_index.get(&1).unwrap();
    assert_eq!(client_account.locked, false);
    assert_eq!(client_account.available, 0);
    assert_eq!(client_account.held, 10_0000);
    assert_eq!(client_account.transaction_index.len(), 1);
    assert_eq!(client_account.client, 1);
}

#[test]
fn resolve_disputed_tx() {
    let mut transaction_manager = TransactionManager::new();
    transaction_manager
        .process_transaction(Transaction::new(TransactionType::Deposit { amount: 10_0000 }, 1, 1))
        .unwrap();
    transaction_manager
        .process_transaction(Transaction::new(TransactionType::Dispute, 1, 1))
        .unwrap();
    transaction_manager
        .process_transaction(Transaction::new(TransactionType::Resolve, 1, 1))
        .unwrap();
    assert_eq!(transaction_manager.client_account_index.len(), 1);
    let client_account = transaction_manager.client_account_index.get(&1).unwrap();
    assert_eq!(client_account.locked, false);
    assert_eq!(client_account.available, 10_0000);
    assert_eq!(client_account.held, 0);
    assert_eq!(client_account.transaction_index.len(), 1);
    assert_eq!(client_account.client, 1);
}

#[test]
fn resolve_undisputed_tx_is_ignored() {
    let mut transaction_manager = TransactionManager::new();
    transaction_manager
        .process_transaction(Transaction::new(TransactionType::Deposit { amount: 10_0000 }, 1, 1))
        .unwrap();
    transaction_manager
        .process_transaction(Transaction::new(TransactionType::Resolve, 1, 1))
        .unwrap();
    assert_eq!(transaction_manager.client_account_index.len(), 1);
    let client_account = transaction_manager.client_account_index.get(&1).unwrap();
    assert_eq!(client_account.locked, false);
    assert_eq!(client_account.available, 10_0000);
    assert_eq!(client_account.held, 0);
    assert_eq!(client_account.transaction_index.len(), 1);
    assert_eq!(client_account.client, 1);
}

#[test]
fn chargeback() {
    let mut transaction_manager = TransactionManager::new();
    transaction_manager
        .process_transaction(Transaction::new(TransactionType::Deposit { amount: 10_0000 }, 1, 1))
        .unwrap();
    transaction_manager
        .process_transaction(Transaction::new(TransactionType::Dispute, 1, 1))
        .unwrap();
    transaction_manager
        .process_transaction(Transaction::new(TransactionType::Chargeback, 1, 1))
        .unwrap();
    assert_eq!(transaction_manager.client_account_index.len(), 1);
    let client_account = transaction_manager.client_account_index.get(&1).unwrap();
    assert_eq!(client_account.locked, true);
    assert_eq!(client_account.available, 0);
    assert_eq!(client_account.held, 0);
    assert_eq!(client_account.transaction_index.len(), 1);
    assert_eq!(client_account.client, 1);
}

#[test]
fn chargeback_undisputed_tx_is_ignored() {
    let mut transaction_manager = TransactionManager::new();
    transaction_manager
        .process_transaction(Transaction::new(TransactionType::Deposit { amount: 10_0000 }, 1, 1))
        .unwrap();
    transaction_manager
        .process_transaction(Transaction::new(TransactionType::Chargeback, 1, 1))
        .unwrap();
    assert_eq!(transaction_manager.client_account_index.len(), 1);
    let client_account = transaction_manager.client_account_index.get(&1).unwrap();
    assert_eq!(client_account.locked, false);
    assert_eq!(client_account.available, 10_0000);
    assert_eq!(client_account.held, 0);
    assert_eq!(client_account.transaction_index.len(), 1);
    assert_eq!(client_account.client, 1);
}

#[test]
fn chargeback_withdrawn_amount() {
    let mut transaction_manager = TransactionManager::new();
    transaction_manager
        .process_transaction(Transaction::new(TransactionType::Deposit { amount: 10_0000 }, 1, 1))
        .unwrap();
    transaction_manager
        .process_transaction(Transaction::new(
            TransactionType::Withdrawal { amount: 10_0000 },
            1,
            2,
        ))
        .unwrap();
    transaction_manager
        .process_transaction(Transaction::new(TransactionType::Dispute, 1, 1))
        .unwrap();
    transaction_manager
        .process_transaction(Transaction::new(TransactionType::Chargeback, 1, 1))
        .unwrap();
    assert_eq!(transaction_manager.client_account_index.len(), 1);
    let client_account = transaction_manager.client_account_index.get(&1).unwrap();
    assert_eq!(client_account.locked, true);
    assert_eq!(client_account.available, -10_0000);
    assert_eq!(client_account.held, 0);
    assert_eq!(client_account.transaction_index.len(), 2);
    assert_eq!(client_account.client, 1);
}

#[test]
#[should_panic]
fn deposit_locked_account_panics() {
    let mut transaction_manager = TransactionManager::new();
    transaction_manager
        .process_transaction(Transaction::new(TransactionType::Deposit { amount: 10_0000 }, 1, 1))
        .unwrap();
    transaction_manager
        .process_transaction(Transaction::new(TransactionType::Dispute, 1, 1))
        .unwrap();
    transaction_manager
        .process_transaction(Transaction::new(TransactionType::Chargeback, 1, 1))
        .unwrap();
    transaction_manager
        .process_transaction(Transaction::new(TransactionType::Deposit { amount: 10_0000 }, 1, 2))
        .unwrap();
}

#[test]
fn locked_client_does_not_affect_others() {
    let mut transaction_manager = TransactionManager::new();
    transaction_manager
        .process_transaction(Transaction::new(TransactionType::Deposit { amount: 5_0000 }, 2, 10))
        .unwrap();
    transaction_manager
        .process_transaction(Transaction::new(TransactionType::Deposit { amount: 10_0000 }, 1, 1))
        .unwrap();
    transaction_manager
        .process_transaction(Transaction::new(TransactionType::Dispute, 1, 1))
        .unwrap();
    transaction_manager
        .process_transaction(Transaction::new(TransactionType::Chargeback, 1, 1))
        .unwrap();
    let refused = transaction_manager
        .process_transaction(Transaction::new(TransactionType::Deposit { amount: 1_0000 }, 1, 2));
    assert!(matches!(refused, Err(e) if e.client == 1));
    transaction_manager
        .process_transaction(Transaction::new(TransactionType::Deposit { amount: 2_0000 }, 2, 11))
        .unwrap();
    let other = transaction_manager.client_account_index.get(&2).unwrap();
    assert_eq!(other.locked, false);
    assert_eq!(other.available, 7_0000);
    assert_eq!(other.held, 0);
    let locked = transaction_manager.client_account_index.get(&1).unwrap();
    assert_eq!(locked.locked, true);
    assert_eq!(locked.available, 0);
    assert_eq!(locked.held, 0);
}

#[test]
fn dispute_of_withdrawal_is_ignored() {
    let mut transaction_manager = TransactionManager::new();
    transaction_manager
        .process_transaction(Transaction::new(TransactionType::Deposit { amount: 10_0000 }, 1, 1))
        .unwrap();
    transaction_manager
        .process_transaction(Transaction::new(
            TransactionType::Withdrawal { amount: 4_0000 },
            1,
            2,
        ))
        .unwrap();
    transaction_manager
        .process_transaction(Transaction::new(TransactionType::Dispute, 1, 2))
        .unwrap();
    let client_account = transaction_manager.client_account_index.get(&1).unwrap();
    assert_eq!(client_account.available, 6_0000);
    assert_eq!(client_account.held, 0);
    assert_eq!(client_account.locked, false);
}

#[test]
fn dispute_of_unknown_tx_is_ignored() {
    let mut transaction_manager = TransactionManager::new();
    transaction_manager
        .process_transaction(Transaction::new(TransactionType::Deposit { amount: 10_0000 }, 1, 1))
        .unwrap();
    transaction_manager
        .process_transaction(Transaction::new(TransactionType::Dispute, 1, 99))
        .unwrap();
    let client_account = transaction_manager.client_account_index.get(&1).unwrap();
    assert_eq!(client_account.available, 10_0000);
    assert_eq!(client_account.held, 0);
    assert_eq!(client_account.transaction_index.len(), 1);
}
