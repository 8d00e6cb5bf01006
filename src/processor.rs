use vstd::prelude::*;
use vstd::hash_map::HashMapWithView;
use vstd::hash_set::HashSetWithView;
use vstd::set::fold::{is_fun_commutative, lemma_fold_empty, lemma_fold_insert};
use vstd::set_lib::lemma_set_empty_equivalency_len;
use crate::amount::fits_i64;
use crate::transactions::{Transaction, TransactionType};

verus! {

broadcast use vstd::std_specs::hash::group_hash_axioms;

/// The balances of one client, in units of one ten-thousandth.
#[derive(Debug, Clone, Copy, PartialEq, Eq, Structural)]
pub struct Account {
    pub available: i64,
    pub held: i64,
    pub locked: bool,
}

impl Account {
    pub open spec fn total(self) -> int {
        self.available + self.held
    }

    /// Held funds are never negative and the total fits the unit type.
    pub open spec fn wf(self) -> bool {
        self.held >= 0 && fits_i64(self.total())
    }

    pub open spec fn empty() -> Account {
        Account { available: 0, held: 0, locked: false }
    }
}

/// The reported state of one client; `total` is derived from the balances.
#[derive(Debug, Clone, Copy, PartialEq, Eq, Structural)]
pub struct Client {
    pub id: u16,
    pub available: i64,
    pub held: i64,
    pub total: i64,
    pub locked: bool,
}

pub open spec fn snapshot(id: u16, a: Account) -> Client {
    Client {
        id,
        available: a.available,
        held: a.held,
        total: a.total() as i64,
        locked: a.locked,
    }
}

/// A deposit or withdrawal as it was recorded.
#[derive(Debug, Clone, Copy, PartialEq, Eq, Structural)]
pub struct TransactionRecord {
    pub kind: TransactionType,
    pub client_id: u16,
    pub amount: i64,
}

/// Why an event was refused. A refused event leaves the ledger unchanged.
#[derive(Debug, Clone, Copy, PartialEq, Eq, Structural)]
pub enum LedgerError {
    /// A deposit or withdrawal came without an amount.
    MissingAmount,
    /// A deposit or withdrawal came with an amount below zero.
    NegativeAmount,
    /// A deposit or withdrawal reused the id of a recorded transaction.
    DuplicateTransaction,
    /// A balance would leave the range of the unit type.
    Overflow,
}

/// The abstract state of the ledger.
pub struct LedgerState {
    /// Accounts by client id.
    pub accounts: Map<u16, Account>,
    /// Client ids in the order in which their accounts were opened.
    pub clients: Seq<u16>,
    /// Recorded deposits and withdrawals by transaction id.
    pub records: Map<u32, TransactionRecord>,
    /// Transaction ids under an open dispute.
    pub disputes: Set<u32>,
}

impl LedgerState {
    /// The ledger's invariant: its shape, and every account holds exactly
    /// the amounts of its open disputes.
    pub open spec fn wf(self) -> bool {
        &&& self.shape_wf()
        &&& self.held_matches_disputes()
    }

    pub open spec fn held_matches_disputes(self) -> bool {
        forall|c: u16| #[trigger]
            self.accounts.contains_key(c) ==> self.accounts[c].held == disputed_sum(
                self.disputes,
                self.records,
                c,
            )
    }

    /// Accounts are well formed and listed once each, records belong to
    /// open accounts, and disputes refer to records.
    pub open spec fn shape_wf(self) -> bool {
        &&& self.disputes.finite()
        &&& forall|c: u16| #[trigger] self.accounts.contains_key(c) ==> self.accounts[c].wf()
        &&& self.clients.no_duplicates()
        &&& forall|c: u16|
            #![trigger self.accounts.contains_key(c)]
            #![trigger self.clients.contains(c)]
            self.accounts.contains_key(c) <==> self.clients.contains(c)
        &&& forall|tx: u32| #[trigger]
            self.records.contains_key(tx) ==> {
                let r = self.records[tx];
                &&& self.accounts.contains_key(r.client_id)
                &&& r.amount >= 0
                &&& r.kind.is_recorded_kind()
            }
        &&& forall|tx: u32| #[trigger] self.disputes.contains(tx) ==> self.records.contains_key(tx)
    }

    pub open spec fn empty() -> LedgerState {
        LedgerState {
            accounts: Map::empty(),
            clients: Seq::empty(),
            records: Map::empty(),
            disputes: Set::empty(),
        }
    }

    pub open spec fn is_locked(self, c: u16) -> bool {
        self.accounts.contains_key(c) && self.accounts[c].locked
    }

    /// The account of `c`, or a fresh one if `c` has none yet.
    pub open spec fn account_or_new(self, c: u16) -> Account {
        if self.accounts.contains_key(c) {
            self.accounts[c]
        } else {
            Account::empty()
        }
    }

    /// Stores `a` as the account of `c`, opening it if needed.
    pub open spec fn with_account(self, c: u16, a: Account) -> LedgerState {
        LedgerState {
            accounts: self.accounts.insert(c, a),
            clients: if self.accounts.contains_key(c) {
                self.clients
            } else {
                self.clients.push(c)
            },
            ..self
        }
    }

    pub open spec fn with_record(self, tx: u32, r: TransactionRecord) -> LedgerState {
        LedgerState { records: self.records.insert(tx, r), ..self }
    }

    pub open spec fn with_dispute(self, tx: u32) -> LedgerState {
        LedgerState { disputes: self.disputes.insert(tx), ..self }
    }

    pub open spec fn without_dispute(self, tx: u32) -> LedgerState {
        LedgerState { disputes: self.disputes.remove(tx), ..self }
    }
    /// The effect of a deposit or withdrawal of `amount` by client `c` under
    /// transaction id `tx`.
    pub open spec fn funds_step(
        self,
        kind: TransactionType,
        tx: u32,
        c: u16,
        amount: Option<i64>,
    ) -> Result<LedgerState, LedgerError> {
        if self.is_locked(c) {
            Ok(self)
        } else {
            match amount {
                None => Err(LedgerError::MissingAmount),
                Some(a) => {
                    let acc = self.account_or_new(c);
                    let rec = TransactionRecord { kind, client_id: c, amount: a };
                    if a < 0 {
                        Err(LedgerError::NegativeAmount)
                    } else if self.records.contains_key(tx) {
                        Err(LedgerError::DuplicateTransaction)
                    } else if kind is Deposit {
                        if !fits_i64(acc.total() + a) {
                            Err(LedgerError::Overflow)
                        } else {
                            let next = Account { available: (acc.available + a) as i64, ..acc };
                            Ok(self.with_account(c, next).with_record(tx, rec))
                        }
                    } else {
                        let next = if acc.available >= a {
                            Account { available: (acc.available - a) as i64, ..acc }
                        } else {
                            acc
                        };
                        Ok(self.with_account(c, next).with_record(tx, rec))
                    }
                },
            }
        }
    }

    /// Whether an event of client `c` may act at all: its account exists and
    /// is not locked.
    pub open spec fn is_active(self, c: u16) -> bool {
        self.accounts.contains_key(c) && !self.accounts[c].locked
    }

    /// The effect of a dispute by client `c` of transaction `tx`. The funds
    /// move on the account that owns the recorded transaction.
    pub open spec fn dispute_step(self, tx: u32, c: u16) -> Result<LedgerState, LedgerError> {
        if !self.is_active(c) || !self.records.contains_key(tx) || self.disputes.contains(tx) {
            Ok(self)
        } else {
            let rec = self.records[tx];
            let acc = self.accounts[rec.client_id];
            if acc.locked {
                Ok(self)
            } else if !fits_i64(acc.available - rec.amount) || !fits_i64(acc.held + rec.amount) {
                Err(LedgerError::Overflow)
            } else {
                let next = Account {
                    available: (acc.available - rec.amount) as i64,
                    held: (acc.held + rec.amount) as i64,
                    locked: false,
                };
                Ok(self.with_account(rec.client_id, next).with_dispute(tx))
            }
        }
    }

    /// The effect of settling the dispute of `tx` on behalf of client `c`:
    /// a resolve returns the held funds, a chargeback removes them and locks
    /// the account.
    pub open spec fn settle_step(self, tx: u32, c: u16, chargeback: bool) -> Result<
        LedgerState,
        LedgerError,
    > {
        if !self.is_active(c) || !self.disputes.contains(tx) {
            Ok(self)
        } else {
            let rec = self.records[tx];
            let acc = self.accounts[rec.client_id];
            if acc.locked {
                Ok(self)
            } else {
                let next = if chargeback {
                    Account {
                        available: acc.available,
                        held: (acc.held - rec.amount) as i64,
                        locked: true,
                    }
                } else {
                    Account {
                        available: (acc.available + rec.amount) as i64,
                        held: (acc.held - rec.amount) as i64,
                        locked: false,
                    }
                };
                Ok(self.with_account(rec.client_id, next).without_dispute(tx))
            }
        }
    }

    /// The effect of one event; an error leaves the state as it was.
    pub open spec fn step(self, t: Transaction) -> Result<LedgerState, LedgerError> {
        match t.transaction_type {
            TransactionType::Deposit => self.funds_step(
                TransactionType::Deposit,
                t.id,
                t.client_id,
                t.amount,
            ),
            TransactionType::Withdrawal => self.funds_step(
                TransactionType::Withdrawal,
                t.id,
                t.client_id,
                t.amount,
            ),
            TransactionType::Dispute => self.dispute_step(t.id, t.client_id),
            TransactionType::Resolve => self.settle_step(t.id, t.client_id, false),
            TransactionType::Chargeback => self.settle_step(t.id, t.client_id, true),
        }
    }
}

/// Interprets events one at a time against the accounts, the recorded
/// transactions and the open disputes, all held in memory.
pub struct TransactionService {
    accounts: HashMapWithView<u16, Account>,
    clients: Vec<u16>,
    records: HashMapWithView<u32, TransactionRecord>,
    disputes: HashSetWithView<u32>,
}

impl View for TransactionService {
    type V = LedgerState;

    closed spec fn view(&self) -> LedgerState {
        LedgerState {
            accounts: self.accounts@,
            clients: self.clients@,
            records: self.records@,
            disputes: self.disputes@,
        }
    }
}

impl TransactionService {
    /// An empty ledger.
    pub fn new() -> (r: Self)
        ensures
            r@ == LedgerState::empty(),
            r@.wf(),
    {
        let r = TransactionService {
            accounts: HashMapWithView::new(),
            clients: Vec::new(),
            records: HashMapWithView::new(),
            disputes: HashSetWithView::new(),
        };
        assert(r@.accounts =~= Map::empty());
        assert(r@.clients =~= Seq::empty());
        r
    }

    /// The state of client `c`, if it has an account.
    pub fn get_client(&self, c: u16) -> (r: Option<Client>)
        requires
            self@.wf(),
        ensures
            r == (if self@.accounts.contains_key(c) {
                Some(snapshot(c, self@.accounts[c]))
            } else {
                None
            }),
            r matches Some(cl) ==> cl.total == cl.available + cl.held,
    {
        match self.accounts.get(&c) {
            Some(a) => {
                assert(self@.accounts.contains_key(c));
                Some(Self::client_of(c, a))
            },
            None => None,
        }
    }

    fn client_of(c: u16, a: &Account) -> (r: Client)
        requires
            a.wf(),
        ensures
            r == snapshot(c, *a),
            r.total == r.available + r.held,
    {
        Client {
            id: c,
            available: a.available,
            held: a.held,
            total: a.available + a.held,
            locked: a.locked,
        }
    }

    /// The state of every client, in the order in which the accounts were
    /// opened.
    pub fn get_clients_vec(&self) -> (r: Vec<Client>)
        requires
            self@.wf(),
        ensures
            r@.len() == self@.clients.len(),
            forall|i: int|
                0 <= i < r@.len() ==> #[trigger] r@[i] == snapshot(
                    self@.clients[i],
                    self@.accounts[self@.clients[i]],
                ),
            forall|i: int| 0 <= i < r@.len() ==> #[trigger] r@[i].total == r@[i].available + r@[i].held,
    {
        let mut r: Vec<Client> = Vec::new();
        let mut i: usize = 0;
        while i < self.clients.len()
            invariant
                self@.wf(),
                i <= self.clients@.len(),
                r@.len() == i,
                forall|j: int|
                    0 <= j < i ==> #[trigger] r@[j] == snapshot(
                        self@.clients[j],
                        self@.accounts[self@.clients[j]],
                    ),
                forall|j: int| 0 <= j < i ==> #[trigger] r@[j].total == r@[j].available + r@[j].held,
            decreases self.clients@.len() - i,
        {
            let c = self.clients[i];
            assert(self@.clients[i as int] == c);
            assert(self@.clients.contains(c));
            match self.accounts.get(&c) {
                Some(a) => {
                    r.push(Self::client_of(c, a));
                },
                None => {
                    assert(false);
                },
            }
            i = i + 1;
        }
        r
    }

    /// The recorded deposit or withdrawal with id `tx`, if any.
    pub fn get_transaction(&self, tx: u32) -> (r: Option<Transaction>)
        ensures
            r == (if self@.records.contains_key(tx) {
                Some(transaction_of(tx, self@.records[tx]))
            } else {
                None
            }),
    {
        match self.records.get(&tx) {
            Some(rec) => Some(
                Transaction {
                    id: tx,
                    transaction_type: rec.kind,
                    client_id: rec.client_id,
                    amount: Some(rec.amount),
                },
            ),
            None => None,
        }
    }

    /// The recorded transaction with id `tx`, if it is under an open dispute.
    pub fn get_dispute(&self, tx: u32) -> (r: Option<Transaction>)
        ensures
            r == (if self@.disputes.contains(tx) && self@.records.contains_key(tx) {
                Some(transaction_of(tx, self@.records[tx]))
            } else {
                None
            }),
    {
        if self.disputes.contains(&tx) {
            self.get_transaction(tx)
        } else {
            None
        }
    }
    /// Applies one event. The event takes effect in full or, with an error,
    /// not at all.
    pub fn process_transaction(&mut self, t: &Transaction) -> (r: Result<(), LedgerError>)
        requires
            old(self)@.wf(),
        ensures
            final(self)@.wf(),
            forall|c: u16| #[trigger]
                final(self)@.accounts.contains_key(c) ==> final(self)@.accounts[c].held >= 0,
            match old(self)@.step(*t) {
                Ok(next) => r is Ok && final(self)@ == next,
                Err(e) => r == Err::<(), LedgerError>(e) && final(self)@ == old(self)@,
            },
    {
        proof {
            lemma_step_preserves_wf(self@, *t);
        }
        match t.transaction_type {
            TransactionType::Deposit => self.process_funds(
                TransactionType::Deposit,
                t.id,
                t.client_id,
                t.amount,
            ),
            TransactionType::Withdrawal => self.process_funds(
                TransactionType::Withdrawal,
                t.id,
                t.client_id,
                t.amount,
            ),
            TransactionType::Dispute => self.process_dispute(t.id, t.client_id),
            TransactionType::Resolve => self.process_settle(t.id, t.client_id, false),
            TransactionType::Chargeback => self.process_settle(t.id, t.client_id, true),
        }
    }

    /// Stores `a` as the account of `c`, opening it if needed.
    fn put_account(&mut self, c: u16, a: Account)
        ensures
            final(self)@ == old(self)@.with_account(c, a),
    {
        if !self.accounts.contains_key(&c) {
            self.clients.push(c);
        }
        self.accounts.insert(c, a);
    }

    /// The account of `c`, or a fresh one if `c` has none yet.
    fn account_or_new(&self, c: u16) -> (r: Account)
        ensures
            r == self@.account_or_new(c),
    {
        match self.accounts.get(&c) {
            Some(a) => *a,
            None => Account { available: 0, held: 0, locked: false },
        }
    }

    fn process_funds(
        &mut self,
        kind: TransactionType,
        tx: u32,
        c: u16,
        amount: Option<i64>,
    ) -> (r: Result<(), LedgerError>)
        requires
            old(self)@.wf(),
            kind.is_recorded_kind(),
        ensures
            match old(self)@.funds_step(kind, tx, c, amount) {
                Ok(next) => r is Ok && final(self)@ == next,
                Err(e) => r == Err::<(), LedgerError>(e) && final(self)@ == old(self)@,
            },
    {
        let acc = self.account_or_new(c);
        assert(acc.wf()) by {
            if self@.accounts.contains_key(c) {
            }
        }
        if acc.locked {
            return Ok(());
        }
        let a = match amount {
            None => {
                return Err(LedgerError::MissingAmount);
            },
            Some(a) => a,
        };
        if a < 0 {
            return Err(LedgerError::NegativeAmount);
        }
        if self.records.contains_key(&tx) {
            return Err(LedgerError::DuplicateTransaction);
        }
        let next = match kind {
            TransactionType::Deposit => {
                let total = acc.available + acc.held;
                if total > i64::MAX - a {
                    return Err(LedgerError::Overflow);
                }
                Account { available: acc.available + a, ..acc }
            },
            _ => {
                if acc.available >= a {
                    Account { available: acc.available - a, ..acc }
                } else {
                    acc
                }
            },
        };
        self.put_account(c, next);
        self.records.insert(tx, TransactionRecord { kind, client_id: c, amount: a });
        Ok(())
    }

    /// Whether client `c` has an account that is not locked.
    fn is_active(&self, c: u16) -> (r: bool)
        ensures
            r == self@.is_active(c),
    {
        match self.accounts.get(&c) {
            Some(a) => !a.locked,
            None => false,
        }
    }

    fn process_dispute(&mut self, tx: u32, c: u16) -> (r: Result<(), LedgerError>)
        requires
            old(self)@.wf(),
        ensures
            match old(self)@.dispute_step(tx, c) {
                Ok(next) => r is Ok && final(self)@ == next,
                Err(e) => r == Err::<(), LedgerError>(e) && final(self)@ == old(self)@,
            },
    {
        if !self.is_active(c) || self.disputes.contains(&tx) {
            return Ok(());
        }
        let rec = match self.records.get(&tx) {
            Some(rec) => *rec,
            None => {
                return Ok(());
            },
        };
        assert(self@.records.contains_key(tx));
        let acc = self.account_or_new(rec.client_id);
        if acc.locked {
            return Ok(());
        }
        if acc.available < i64::MIN + rec.amount || acc.held > i64::MAX - rec.amount {
            return Err(LedgerError::Overflow);
        }
        let next = Account {
            available: acc.available - rec.amount,
            held: acc.held + rec.amount,
            locked: false,
        };
        self.put_account(rec.client_id, next);
        self.disputes.insert(tx);
        Ok(())
    }

    fn process_settle(&mut self, tx: u32, c: u16, chargeback: bool) -> (r: Result<
        (),
        LedgerError,
    >)
        requires
            old(self)@.wf(),
        ensures
            match old(self)@.settle_step(tx, c, chargeback) {
                Ok(next) => r is Ok && final(self)@ == next,
                Err(e) => r == Err::<(), LedgerError>(e) && final(self)@ == old(self)@,
            },
    {
        if !self.is_active(c) || !self.disputes.contains(&tx) {
            return Ok(());
        }
        assert(self@.disputes.contains(tx));
        let rec = match self.records.get(&tx) {
            Some(rec) => *rec,
            None => {
                return Ok(());
            },
        };
        let acc = self.account_or_new(rec.client_id);
        assert(acc.wf());
        if acc.locked {
            return Ok(());
        }
        proof {
            let s = self@;
            lemma_disputed_sum_remove(s.disputes, s.records, rec.client_id, tx);
            lemma_disputed_sum_facts(s.disputes.remove(tx), s.records, s.records, rec.client_id);
        }
        let next = if chargeback {
            Account { available: acc.available, held: acc.held - rec.amount, locked: true }
        } else {
            Account {
                available: acc.available + rec.amount,
                held: acc.held - rec.amount,
                locked: false,
            }
        };
        self.put_account(rec.client_id, next);
        self.disputes.remove(&tx);
        Ok(())
    }
}

/// Every event that the ledger accepts keeps its invariants: each account
/// holds a non-negative amount, exactly the sum of its open disputes, and a
/// total within range; every recorded transaction belongs to an open
/// account; and every dispute refers to a recorded transaction.
pub proof fn lemma_step_preserves_wf(s: LedgerState, t: Transaction)
    ensures
        s.wf() ==> match s.step(t) {
            Ok(next) => next.wf(),
            Err(_) => true,
        },
{
    if s.wf() {
        if let Ok(next) = s.step(t) {
            if next != s {
                match t.transaction_type {
                    TransactionType::Deposit | TransactionType::Withdrawal => {
                        lemma_funds_step_wf(s, t);
                    },
                    TransactionType::Dispute => {
                        lemma_dispute_step_wf(s, t.id, t.client_id);
                    },
                    _ => {
                        lemma_settle_step_wf(s, t.id, t.client_id, t.transaction_type is Chargeback);
                    },
                }
            }
        }
    }
}

proof fn lemma_funds_step_wf(s: LedgerState, t: Transaction)
    requires
        s.wf(),
        t.transaction_type is Deposit || t.transaction_type is Withdrawal,
        s.step(t) is Ok,
        !s.is_locked(t.client_id),
        t.amount is Some,
    ensures
        s.step(t)->Ok_0.wf(),
{
    let next = s.step(t)->Ok_0;
    let a = t.amount->0;
    let c = t.client_id;
    let acc = s.account_or_new(c);
    if s.accounts.contains_key(c) {
        assert(acc.wf());
    }
    let na = if t.transaction_type is Deposit {
        Account { available: (acc.available + a) as i64, ..acc }
    } else if acc.available >= a {
        Account { available: (acc.available - a) as i64, ..acc }
    } else {
        acc
    };
    lemma_with_account_wf(s, c, na);
    assert forall|d: u16| #[trigger] next.accounts.contains_key(d) implies next.accounts[d].held
        == disputed_sum(next.disputes, next.records, d) by {
        lemma_disputed_sum_facts(s.disputes, next.records, s.records, d);
        if d == c && !s.accounts.contains_key(c) {
            assert forall|tx: u32| #[trigger] s.disputes.contains(tx) implies next.records[tx].client_id
                != c by {
                assert(s.records.contains_key(tx));
            }
        }
    }
}

proof fn lemma_dispute_step_wf(s: LedgerState, tx: u32, c: u16)
    requires
        s.wf(),
        s.dispute_step(tx, c) is Ok,
        s.dispute_step(tx, c)->Ok_0 != s,
    ensures
        s.dispute_step(tx, c)->Ok_0.wf(),
{
    let next = s.dispute_step(tx, c)->Ok_0;
    let rec = s.records[tx];
    let acc = s.accounts[rec.client_id];
    assert(acc.wf());
    let na = Account {
        available: (acc.available - rec.amount) as i64,
        held: (acc.held + rec.amount) as i64,
        locked: false,
    };
    lemma_with_account_wf(s, rec.client_id, na);
    assert forall|d: u16| #[trigger] next.accounts.contains_key(d) implies next.accounts[d].held
        == disputed_sum(next.disputes, next.records, d) by {
        lemma_disputed_sum_insert(s.disputes, s.records, d, tx);
    }
}

proof fn lemma_settle_step_wf(s: LedgerState, tx: u32, c: u16, chargeback: bool)
    requires
        s.wf(),
        s.settle_step(tx, c, chargeback) is Ok,
        s.settle_step(tx, c, chargeback)->Ok_0 != s,
    ensures
        s.settle_step(tx, c, chargeback)->Ok_0.wf(),
{
    let next = s.settle_step(tx, c, chargeback)->Ok_0;
    let rec = s.records[tx];
    let acc = s.accounts[rec.client_id];
    assert(acc.wf());
    lemma_disputed_sum_remove(s.disputes, s.records, rec.client_id, tx);
    lemma_disputed_sum_facts(s.disputes.remove(tx), s.records, s.records, rec.client_id);
    let na = if chargeback {
        Account { available: acc.available, held: (acc.held - rec.amount) as i64, locked: true }
    } else {
        Account {
            available: (acc.available + rec.amount) as i64,
            held: (acc.held - rec.amount) as i64,
            locked: false,
        }
    };
    lemma_with_account_wf(s, rec.client_id, na);
    assert forall|d: u16| #[trigger] next.accounts.contains_key(d) implies next.accounts[d].held
        == disputed_sum(next.disputes, next.records, d) by {
        lemma_disputed_sum_remove(s.disputes, s.records, d, tx);
    }
}

/// Once an account is locked, no event changes its balances or its lock.
pub proof fn lemma_locked_account_frozen(s: LedgerState, t: Transaction, c: u16)
    requires
        s.wf(),
        s.is_locked(c),
    ensures
        s.step(t) matches Ok(next) ==> next.accounts.contains_key(c) && next.accounts[c]
            == s.accounts[c],
{
}

/// A withdrawal never leaves an account with less than zero available,
/// unless the account already had that negative amount before it.
pub proof fn lemma_withdrawal_keeps_available_nonnegative(s: LedgerState, t: Transaction)
    requires
        s.wf(),
        t.transaction_type is Withdrawal,
    ensures
        s.step(t) matches Ok(next) ==> forall|d: u16| #[trigger]
            next.accounts.contains_key(d) && next.accounts[d].available < 0 ==> s.accounts.contains_key(
                d,
            ) && next.accounts[d].available == s.accounts[d].available,
{
}

/// A resolve or chargeback of a transaction without an open dispute changes
/// nothing, and so repeating an accepted resolve or chargeback changes
/// nothing either.
pub proof fn lemma_settle_without_dispute_is_noop(s: LedgerState, t: Transaction)
    requires
        t.transaction_type is Resolve || t.transaction_type is Chargeback,
    ensures
        !s.disputes.contains(t.id) ==> s.step(t) == Ok::<LedgerState, LedgerError>(s),
        s.step(t) matches Ok(next) ==> next.step(t) == Ok::<LedgerState, LedgerError>(next),
{
    if let Ok(next) = s.step(t) {
        if next != s {
            assert(next.disputes =~= s.disputes.remove(t.id));
        }
    }
}

/// Adds the amount of a disputed transaction when it belongs to client `c`.
pub open spec fn add_disputed(records: Map<u32, TransactionRecord>, c: u16) -> spec_fn(
    int,
    u32,
) -> int {
    |acc: int, tx: u32|
        if records[tx].client_id == c {
            acc + records[tx].amount
        } else {
            acc
        }
}

/// The sum of the amounts of the transactions of `c` among the ids `s`.
pub open spec fn disputed_sum(s: Set<u32>, records: Map<u32, TransactionRecord>, c: u16) -> int {
    s.fold(0int, add_disputed(records, c))
}

proof fn lemma_add_disputed_commutative(records: Map<u32, TransactionRecord>, c: u16)
    ensures
        is_fun_commutative(add_disputed(records, c)),
{
}

/// Taking one id out of the set takes its contribution off the sum.
proof fn lemma_disputed_sum_remove(
    s: Set<u32>,
    records: Map<u32, TransactionRecord>,
    c: u16,
    tx: u32,
)
    requires
        s.finite(),
        s.contains(tx),
    ensures
        disputed_sum(s, records, c) == (add_disputed(records, c))(
            disputed_sum(s.remove(tx), records, c),
            tx,
        ),
{
    lemma_add_disputed_commutative(records, c);
    assert(s.remove(tx).insert(tx) =~= s);
    lemma_fold_insert(s.remove(tx), 0int, add_disputed(records, c), tx);
}

/// Adding a new id to the set adds its contribution to the sum.
proof fn lemma_disputed_sum_insert(
    s: Set<u32>,
    records: Map<u32, TransactionRecord>,
    c: u16,
    tx: u32,
)
    requires
        s.finite(),
        !s.contains(tx),
    ensures
        disputed_sum(s.insert(tx), records, c) == (add_disputed(records, c))(
            disputed_sum(s, records, c),
            tx,
        ),
{
    lemma_add_disputed_commutative(records, c);
    lemma_fold_insert(s, 0int, add_disputed(records, c), tx);
}

/// The sum only depends on the records of the ids in the set; it is zero
/// when none of them belongs to `c`, and never negative when no amount is.
proof fn lemma_disputed_sum_facts(
    s: Set<u32>,
    r1: Map<u32, TransactionRecord>,
    r2: Map<u32, TransactionRecord>,
    c: u16,
)
    requires
        s.finite(),
        forall|tx: u32| #[trigger] s.contains(tx) ==> r1[tx] == r2[tx] && r1[tx].amount >= 0,
    ensures
        disputed_sum(s, r1, c) == disputed_sum(s, r2, c),
        disputed_sum(s, r1, c) >= 0,
        (forall|tx: u32| #[trigger] s.contains(tx) ==> r1[tx].client_id != c) ==> disputed_sum(
            s,
            r1,
            c,
        ) == 0,
    decreases s.len(),
{
    lemma_set_empty_equivalency_len(s);
    if s.len() == 0 {
        lemma_fold_empty(0int, add_disputed(r1, c));
        lemma_fold_empty(0int, add_disputed(r2, c));
    } else {
        let a = s.choose();
        lemma_disputed_sum_facts(s.remove(a), r1, r2, c);
        lemma_disputed_sum_remove(s, r1, c, a);
        lemma_disputed_sum_remove(s, r2, c, a);
    }
}

/// Storing a well-formed account keeps the ledger well formed.
proof fn lemma_with_account_wf(s: LedgerState, c: u16, a: Account)
    requires
        s.shape_wf(),
    ensures
        a.wf() ==> s.with_account(c, a).shape_wf(),
        s.with_account(c, a).accounts.dom() == s.accounts.dom().insert(c),
{
    let n = s.with_account(c, a);
    assert(n.accounts.dom() =~= s.accounts.dom().insert(c));
    if !s.accounts.contains_key(c) {
        assert(!s.clients.contains(c));
        assert forall|d: u16| n.clients.contains(d) <==> s.clients.contains(d) || d == c by {
            if n.clients.contains(d) {
                let i = choose|i: int| 0 <= i < n.clients.len() && n.clients[i] == d;
                if i < s.clients.len() {
                    assert(s.clients[i] == d);
                }
            }
            if d == c {
                assert(n.clients[s.clients.len() as int] == c);
            }
            if s.clients.contains(d) {
                let i = choose|i: int| 0 <= i < s.clients.len() && s.clients[i] == d;
                assert(n.clients[i] == d);
            }
        }
    }
}

/// A recorded transaction as an event.
pub open spec fn transaction_of(tx: u32, r: TransactionRecord) -> Transaction {
    Transaction { id: tx, transaction_type: r.kind, client_id: r.client_id, amount: Some(r.amount) }
}

} // verus!
