use ledger::{Client, LedgerError, Transaction, TransactionService, TransactionType};

fn tx(id: u32, transaction_type: TransactionType, client_id: u16, amount: Option<i64>) -> Transaction {
    Transaction { id, transaction_type, client_id, amount }
}

fn deposit(id: u32, client_id: u16, amount: i64) -> Transaction {
    tx(id, TransactionType::Deposit, client_id, Some(amount))
}

fn withdrawal(id: u32, client_id: u16, amount: i64) -> Transaction {
    tx(id, TransactionType::Withdrawal, client_id, Some(amount))
}

fn client(id: u16, available: i64, held: i64, total: i64, locked: bool) -> Client {
    Client { id, available, held, total, locked }
}

fn run(transactions: &[Transaction]) -> TransactionService {
    let mut svc = TransactionService::new();
    for t in transactions {
        svc.process_transaction(t).unwrap();
    }
    svc
}

fn test_service(transactions: &[Transaction], mut expected_output: Vec<Client>) {
    let svc = run(transactions);
    let mut clients = svc.get_clients_vec();
    clients.sort_by_key(|c| c.id);
    expected_output.sort_by_key(|c| c.id);
    assert_eq!(clients, expected_output);
}

fn many_deposits_and_withdrawals() -> Vec<Transaction> {
    vec![
        deposit(0, 1, 105563),
        deposit(1, 1, 21234),
        deposit(2, 1, 135000),
        deposit(3, 1, 13000),
        withdrawal(4, 1, 58367),
        deposit(5, 2, 105563),
        deposit(6, 3, 21234),
        deposit(7, 2, 135000),
        deposit(8, 3, 13000),
        withdrawal(9, 2, 58367),
        // Withdraw should fail
        withdrawal(10, 3, 58367),
        withdrawal(11, 1, 58367),
    ]
}

#[test]
fn test_deposit() {
    test_service(
        &[
            deposit(0, 1, 105563),
            deposit(1, 1, 21234),
            deposit(2, 1, 135000),
            deposit(3, 1, 13000),
            deposit(4, 2, 105563),
        ],
        vec![client(1, 274797, 0, 274797, false), client(2, 105563, 0, 105563, false)],
    );
}

#[test]
fn test_deposit_withdraw() {
    test_service(
        &many_deposits_and_withdrawals(),
        vec![
            client(1, 158063, 0, 158063, false),
            client(2, 182196, 0, 182196, false),
            client(3, 34234, 0, 34234, false),
        ],
    );
}

#[test]
fn test_disputes() {
    let mut events = many_deposits_and_withdrawals();
    events.extend([
        tx(3, TransactionType::Dispute, 1, None),
        tx(3, TransactionType::Resolve, 1, None),
        tx(5, TransactionType::Dispute, 2, None),
        tx(5, TransactionType::Chargeback, 2, None),
        tx(8, TransactionType::Dispute, 3, None),
    ]);
    test_service(
        &events,
        vec![
            client(1, 158063, 0, 158063, false),
            client(2, 76633, 0, 76633, true),
            client(3, 21234, 13000, 34234, false),
        ],
    );
}

#[test]
fn two_deposits_add_up() {
    let svc = run(&[deposit(1, 1, 10000), deposit(2, 1, 20000)]);
    assert_eq!(svc.get_client(1), Some(client(1, 30000, 0, 30000, false)));
}

#[test]
fn withdrawal_beyond_available_is_ignored() {
    let svc = run(&[deposit(1, 1, 100000), withdrawal(2, 1, 150000)]);
    assert_eq!(svc.get_client(1), Some(client(1, 100000, 0, 100000, false)));
    // The refused withdrawal is still recorded.
    assert_eq!(svc.get_transaction(2), Some(withdrawal(2, 1, 150000)));
}

#[test]
fn withdrawal_of_exactly_available_empties_account() {
    let svc = run(&[deposit(1, 1, 100000), withdrawal(2, 1, 100000)]);
    assert_eq!(svc.get_client(1), Some(client(1, 0, 0, 0, false)));
}

#[test]
fn dispute_moves_funds_to_held() {
    let svc = run(&[deposit(1, 1, 100000), tx(1, TransactionType::Dispute, 1, None)]);
    assert_eq!(svc.get_client(1), Some(client(1, 0, 100000, 100000, false)));
    assert_eq!(svc.get_dispute(1), Some(deposit(1, 1, 100000)));
}

#[test]
fn resolve_returns_held_funds() {
    let svc = run(&[
        deposit(1, 1, 100000),
        tx(1, TransactionType::Dispute, 1, None),
        tx(1, TransactionType::Resolve, 1, None),
    ]);
    assert_eq!(svc.get_client(1), Some(client(1, 100000, 0, 100000, false)));
    assert_eq!(svc.get_dispute(1), None);
}

#[test]
fn chargeback_removes_funds_and_locks() {
    let svc = run(&[
        deposit(1, 1, 100000),
        tx(1, TransactionType::Dispute, 1, None),
        tx(1, TransactionType::Chargeback, 1, None),
        deposit(3, 1, 50000),
    ]);
    assert_eq!(svc.get_client(1), Some(client(1, 0, 0, 0, true)));
    assert_eq!(svc.get_transaction(3), None);
}

#[test]
fn dispute_of_unknown_transaction_is_ignored() {
    let svc = run(&[tx(999, TransactionType::Dispute, 1, None)]);
    assert_eq!(svc.get_client(1), None);
    assert!(svc.get_clients_vec().is_empty());
}

#[test]
fn settling_without_dispute_is_ignored_and_repeatable() {
    let svc = run(&[
        deposit(1, 1, 100000),
        tx(1, TransactionType::Dispute, 1, None),
        tx(1, TransactionType::Resolve, 1, None),
        tx(1, TransactionType::Resolve, 1, None),
        tx(1, TransactionType::Chargeback, 1, None),
    ]);
    assert_eq!(svc.get_client(1), Some(client(1, 100000, 0, 100000, false)));
}

#[test]
fn locked_account_ignores_every_event() {
    let svc = run(&[
        deposit(1, 1, 100000),
        deposit(2, 1, 30000),
        tx(1, TransactionType::Dispute, 1, None),
        tx(2, TransactionType::Dispute, 1, None),
        tx(1, TransactionType::Chargeback, 1, None),
        withdrawal(3, 1, 10000),
        tx(2, TransactionType::Resolve, 1, None),
        tx(2, TransactionType::Chargeback, 1, None),
    ]);
    assert_eq!(svc.get_client(1), Some(client(1, 0, 30000, 30000, true)));
}

#[test]
fn dispute_moves_funds_of_the_recording_client() {
    let svc = run(&[
        deposit(1, 1, 100000),
        deposit(2, 2, 5000),
        tx(1, TransactionType::Dispute, 2, None),
    ]);
    assert_eq!(svc.get_client(1), Some(client(1, 0, 100000, 100000, false)));
    assert_eq!(svc.get_client(2), Some(client(2, 5000, 0, 5000, false)));
}

#[test]
fn repeated_dispute_is_ignored() {
    let svc = run(&[
        deposit(1, 1, 100000),
        tx(1, TransactionType::Dispute, 1, None),
        tx(1, TransactionType::Dispute, 1, None),
    ]);
    assert_eq!(svc.get_client(1), Some(client(1, 0, 100000, 100000, false)));
}

#[test]
fn dispute_after_withdrawal_can_leave_available_negative() {
    let svc = run(&[
        deposit(1, 1, 100000),
        withdrawal(2, 1, 60000),
        tx(1, TransactionType::Dispute, 1, None),
    ]);
    assert_eq!(svc.get_client(1), Some(client(1, -60000, 100000, 40000, false)));
}

#[test]
fn missing_amount_is_an_error_and_changes_nothing() {
    let mut svc = TransactionService::new();
    assert_eq!(
        svc.process_transaction(&tx(1, TransactionType::Deposit, 1, None)),
        Err(LedgerError::MissingAmount)
    );
    assert_eq!(
        svc.process_transaction(&tx(2, TransactionType::Withdrawal, 1, None)),
        Err(LedgerError::MissingAmount)
    );
    assert!(svc.get_clients_vec().is_empty());
}

#[test]
fn negative_amount_is_an_error() {
    let mut svc = TransactionService::new();
    assert_eq!(svc.process_transaction(&deposit(1, 1, -5)), Err(LedgerError::NegativeAmount));
    assert_eq!(svc.get_client(1), None);
}

#[test]
fn reused_transaction_id_is_an_error() {
    let mut svc = run(&[deposit(1, 1, 100000)]);
    assert_eq!(
        svc.process_transaction(&withdrawal(1, 2, 10)),
        Err(LedgerError::DuplicateTransaction)
    );
    assert_eq!(svc.get_client(2), None);
    assert_eq!(svc.get_transaction(1), Some(deposit(1, 1, 100000)));
}

#[test]
fn deposit_beyond_range_is_an_error() {
    let mut svc = run(&[deposit(1, 1, i64::MAX)]);
    assert_eq!(svc.process_transaction(&deposit(2, 1, 1)), Err(LedgerError::Overflow));
    assert_eq!(svc.get_client(1), Some(client(1, i64::MAX, 0, i64::MAX, false)));
}

#[test]
fn dispute_beyond_range_is_an_error() {
    let mut svc = run(&[
        deposit(1, 1, i64::MAX),
        withdrawal(2, 1, i64::MAX),
        deposit(3, 1, i64::MAX),
        withdrawal(4, 1, i64::MAX),
        tx(1, TransactionType::Dispute, 1, None),
    ]);
    assert_eq!(svc.get_client(1), Some(client(1, -i64::MAX, i64::MAX, 0, false)));
    assert_eq!(
        svc.process_transaction(&tx(3, TransactionType::Dispute, 1, None)),
        Err(LedgerError::Overflow)
    );
    assert_eq!(svc.get_client(1), Some(client(1, -i64::MAX, i64::MAX, 0, false)));
}

#[test]
fn clients_are_listed_in_order_of_opening() {
    let svc = run(&[deposit(1, 7, 10), deposit(2, 3, 20), deposit(3, 7, 30)]);
    assert_eq!(
        svc.get_clients_vec(),
        vec![client(7, 40, 0, 40, false), client(3, 20, 0, 20, false)]
    );
}
