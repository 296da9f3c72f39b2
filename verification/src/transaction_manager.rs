//! The ledger engine: processes entries one at a time and maintains the
//! per-client account store together with each account's record index.
//!
//! Amounts and balances are fixed-point decimals in ten-thousandths: the
//! integer `10_000` stands for `1.0`. Amounts carried by entries are `i64`;
//! balances are `i128`, so that long entry streams cannot overflow them.

use vstd::prelude::*;

verus! {

/// The dispute-cycle state of a stored record.
#[derive(Clone, Copy, Debug)]
pub enum TransactionState {
    Executed,
    Disputed,
    Resolved,
    Chargedback,
}

/// The kinds of ledger entries. Only deposits and withdrawals carry an
/// amount (in ten-thousandths); the dispute-cycle entries reference an
/// already stored record by its transaction id instead.
#[derive(Clone, Copy, Debug)]
pub enum TransactionType {
    Deposit { amount: i64 },
    Withdrawal { amount: i64 },
    Dispute,
    Resolve,
    Chargeback,
}

/// One ledger entry, and, once stored in a record index, the record itself
/// together with its dispute-cycle state.
#[derive(Clone, Copy, Debug)]
pub struct Transaction {
    pub transaction_type: TransactionType,
    pub client: u16,
    pub tx: u32,
    pub state: TransactionState,
}

impl Transaction {
    pub fn new(transaction_type: TransactionType, client: u16, tx: u32) -> (t: Transaction)
        ensures
            t == (Transaction { transaction_type, client, tx, state: TransactionState::Executed }),
    {
        Transaction { transaction_type, client, tx, state: TransactionState::Executed }
    }
}

/// The mathematical model of one client account: exact (unbounded) balances,
/// the lock flag, and the stored deposit/withdrawal records in insertion
/// order.
#[verifier::ext_equal]
pub ghost struct AccountModel {
    pub client: u16,
    pub available: int,
    pub held: int,
    pub locked: bool,
    pub records: Seq<Transaction>,
}

/// A client account: balances in ten-thousandths, the lock flag, and the
/// index of this client's stored deposit/withdrawal records.
#[derive(Debug)]
pub struct ClientAccount {
    pub client: u16,
    pub available: i128,
    pub held: i128,
    pub locked: bool,
    pub transaction_index: Vec<Transaction>,
}

impl View for ClientAccount {
    type V = AccountModel;

    open spec fn view(&self) -> AccountModel {
        AccountModel {
            client: self.client,
            available: self.available as int,
            held: self.held as int,
            locked: self.locked,
            records: self.transaction_index@,
        }
    }
}

impl ClientAccount {
    pub fn new(client: u16, available: i128, held: i128) -> (a: ClientAccount)
        ensures
            a@ == (AccountModel {
                client,
                available: available as int,
                held: held as int,
                locked: false,
                records: Seq::<Transaction>::empty(),
            }),
    {
        let a = ClientAccount { client, available, held, locked: false, transaction_index: Vec::new() };
        proof {
            assert(a@.records =~= Seq::<Transaction>::empty());
        }
        a
    }
}

/// Index of the first account of `client`, if one exists.
pub open spec fn lookup_client(m: Seq<AccountModel>, client: u16) -> Option<int>
    decreases m.len(),
{
    if m.len() == 0 {
        None
    } else if m[0].client == client {
        Some(0int)
    } else {
        match lookup_client(m.drop_first(), client) {
            Some(i) => Some(i + 1),
            None => None,
        }
    }
}

/// Index of the first record of `tx`, if one exists.
pub open spec fn lookup_record(rs: Seq<Transaction>, tx: u32) -> Option<int>
    decreases rs.len(),
{
    if rs.len() == 0 {
        None
    } else if rs[0].tx == tx {
        Some(0int)
    } else {
        match lookup_record(rs.drop_first(), tx) {
            Some(i) => Some(i + 1),
            None => None,
        }
    }
}

/// A freshly created account: zero balances, unlocked, no records.
pub open spec fn new_account(client: u16) -> AccountModel {
    AccountModel { client, available: 0, held: 0, locked: false, records: Seq::empty() }
}

/// The account an entry for `client` acts on: the stored one, or a fresh one
/// when none exists yet.
pub open spec fn entry_account(m: Seq<AccountModel>, client: u16) -> AccountModel {
    match lookup_client(m, client) {
        Some(i) => m[i],
        None => new_account(client),
    }
}

/// Whether an entry for `client` is refused outright: the account exists and
/// is locked.
pub open spec fn is_locked(m: Seq<AccountModel>, client: u16) -> bool {
    match lookup_client(m, client) {
        Some(i) => m[i].locked,
        None => false,
    }
}

/// Store a record: a record with the same transaction id is overwritten
/// (last-write-wins), otherwise the record is appended.
pub open spec fn upsert_record(rs: Seq<Transaction>, t: Transaction) -> Seq<Transaction> {
    match lookup_record(rs, t.tx) {
        Some(j) => rs.update(j, t),
        None => rs.push(t),
    }
}

/// The effect of one entry on the account it addresses. Entries that do not
/// apply (unknown transaction id, wrong dispute-cycle state, dispute of a
/// withdrawal, insufficient funds) leave the account unchanged.
pub open spec fn account_after(a: AccountModel, t: Transaction) -> AccountModel {
    match t.transaction_type {
        TransactionType::Deposit { amount } => AccountModel {
            available: a.available + amount,
            records: upsert_record(a.records, t),
            ..a
        },
        TransactionType::Withdrawal { amount } => {
            if a.available >= amount {
                AccountModel {
                    available: a.available - amount,
                    records: upsert_record(a.records, t),
                    ..a
                }
            } else {
                a
            }
        },
        TransactionType::Dispute => {
            match lookup_record(a.records, t.tx) {
                Some(j) => {
                    match a.records[j].transaction_type {
                        TransactionType::Deposit { amount } => {
                            if a.records[j].state is Executed {
                                AccountModel {
                                    available: a.available - amount,
                                    held: a.held + amount,
                                    records: a.records.update(j, Transaction {
                                        state: TransactionState::Disputed,
                                        ..a.records[j]
                                    }),
                                    ..a
                                }
                            } else {
                                a
                            }
                        },
                        _ => a,
                    }
                },
                None => a,
            }
        },
        TransactionType::Resolve => {
            match lookup_record(a.records, t.tx) {
                Some(j) => {
                    match a.records[j].transaction_type {
                        TransactionType::Deposit { amount } => {
                            if a.records[j].state is Disputed {
                                AccountModel {
                                    available: a.available + amount,
                                    held: a.held - amount,
                                    records: a.records.update(j, Transaction {
                                        state: TransactionState::Resolved,
                                        ..a.records[j]
                                    }),
                                    ..a
                                }
                            } else {
                                a
                            }
                        },
                        _ => a,
                    }
                },
                None => a,
            }
        },
        TransactionType::Chargeback => {
            match lookup_record(a.records, t.tx) {
                Some(j) => {
                    match a.records[j].transaction_type {
                        TransactionType::Deposit { amount } => {
                            if a.records[j].state is Disputed {
                                AccountModel {
                                    held: a.held - amount,
                                    locked: true,
                                    records: a.records.update(j, Transaction {
                                        state: TransactionState::Chargedback,
                                        ..a.records[j]
                                    }),
                                    ..a
                                }
                            } else {
                                a
                            }
                        },
                        _ => a,
                    }
                },
                None => a,
            }
        },
    }
}

/// The whole-store effect of one accepted entry: the addressed account is
/// created when absent, then updated by `account_after`; no other account
/// changes.
pub open spec fn apply_entry(m: Seq<AccountModel>, t: Transaction) -> Seq<AccountModel> {
    match lookup_client(m, t.client) {
        Some(i) => m.update(i, account_after(m[i], t)),
        None => m.push(account_after(new_account(t.client), t)),
    }
}

pub open spec fn in_i128(x: int) -> bool {
    i128::MIN <= x <= i128::MAX
}

/// The balances produced by applying `t` stay representable as `i128`.
pub open spec fn apply_in_range(m: Seq<AccountModel>, t: Transaction) -> bool {
    let a2 = account_after(entry_account(m, t.client), t);
    in_i128(a2.available) && in_i128(a2.held)
}

/// A record index is well formed when its transaction ids are distinct.
pub open spec fn records_wf(rs: Seq<Transaction>) -> bool {
    forall|i: int, j: int| 0 <= i < j < rs.len() ==> rs[i].tx != rs[j].tx
}

/// The store is well formed when client ids are distinct and every record
/// index is well formed.
pub open spec fn ledger_wf(m: Seq<AccountModel>) -> bool {
    &&& forall|i: int, j: int| 0 <= i < j < m.len() ==> m[i].client != m[j].client
    &&& forall|i: int| 0 <= i < m.len() ==> records_wf(#[trigger] m[i].records)
}

/// The error raised when an entry addresses a locked account.
#[derive(Clone, Copy, Debug)]
pub struct AccountLockedError {
    pub client: u16,
}

/// The account store: all client accounts, in order of first reference.
#[derive(Debug)]
pub struct AccountStore {
    pub accounts: Vec<ClientAccount>,
}

impl View for AccountStore {
    type V = Seq<AccountModel>;

    open spec fn view(&self) -> Seq<AccountModel> {
        Seq::new(self.accounts@.len(), |i: int| self.accounts@[i]@)
    }
}

impl AccountStore {
    pub fn new() -> (s: AccountStore)
        ensures
            s@ == Seq::<AccountModel>::empty(),
    {
        let s = AccountStore { accounts: Vec::new() };
        proof {
            assert(s@ =~= Seq::<AccountModel>::empty());
        }
        s
    }

    /// Index of the first account of `client`, agreeing with `lookup_client`.
    fn find(&self, client: u16) -> (r: Option<usize>)
        ensures
            match r {
                Some(i) => i < self.accounts.len() && lookup_client(self@, client) == Some(
                    i as int,
                ),
                None => lookup_client(self@, client) is None,
            },
    {
        let n = self.accounts.len();
        let mut k: usize = 0;
        while k < n
            invariant
                n == self.accounts.len(),
                k <= n,
                forall|p: int| 0 <= p < k ==> self@[p].client != client,
            decreases n - k,
        {
            if self.accounts[k].client == client {
                proof {
                    assert(self@[k as int].client == client);
                    lemma_lookup_client_properties(self@, client);
                }
                return Some(k);
            }
            k += 1;
        }
        proof {
            lemma_lookup_client_properties(self@, client);
        }
        None
    }

    pub fn len(&self) -> (n: usize)
        ensures
            n == self@.len(),
    {
        self.accounts.len()
    }

    /// The account of `client`, if one exists.
    pub fn get(&self, client: &u16) -> (r: Option<&ClientAccount>)
        ensures
            match lookup_client(self@, *client) {
                Some(i) => r matches Some(a) && a@ == self@[i],
                None => r is None,
            },
    {
        match self.find(*client) {
            Some(i) => Some(&self.accounts[i]),
            None => None,
        }
    }
}

/// `lookup_client` returns the index of the first matching account.
pub proof fn lemma_lookup_client_properties(m: Seq<AccountModel>, client: u16)
    ensures
        match lookup_client(m, client) {
            Some(i) => {
                &&& 0 <= i < m.len()
                &&& m[i].client == client
                &&& forall|k: int| 0 <= k < i ==> m[k].client != client
            },
            None => forall|k: int| 0 <= k < m.len() ==> m[k].client != client,
        },
    decreases m.len(),
{
    if m.len() > 0 && m[0].client != client {
        let tail = m.drop_first();
        lemma_lookup_client_properties(tail, client);
        match lookup_client(tail, client) {
            Some(i) => {
                assert(tail[i] == m[i + 1]);
                assert forall|k: int| 0 <= k < i + 1 implies m[k].client != client by {
                    if k > 0 {
                        assert(tail[k - 1] == m[k]);
                    }
                }
            },
            None => {
                assert forall|k: int| 0 <= k < m.len() implies m[k].client != client by {
                    if k > 0 {
                        assert(tail[k - 1] == m[k]);
                    }
                }
            },
        }
    }
}

/// `lookup_record` returns the index of the first matching record.
pub proof fn lemma_lookup_record_properties(rs: Seq<Transaction>, tx: u32)
    ensures
        match lookup_record(rs, tx) {
            Some(j) => {
                &&& 0 <= j < rs.len()
                &&& rs[j].tx == tx
                &&& forall|k: int| 0 <= k < j ==> rs[k].tx != tx
            },
            None => forall|k: int| 0 <= k < rs.len() ==> rs[k].tx != tx,
        },
    decreases rs.len(),
{
    if rs.len() > 0 && rs[0].tx != tx {
        let tail = rs.drop_first();
        lemma_lookup_record_properties(tail, tx);
        match lookup_record(tail, tx) {
            Some(j) => {
                assert(tail[j] == rs[j + 1]);
                assert forall|k: int| 0 <= k < j + 1 implies rs[k].tx != tx by {
                    if k > 0 {
                        assert(tail[k - 1] == rs[k]);
                    }
                }
            },
            None => {
                assert forall|k: int| 0 <= k < rs.len() implies rs[k].tx != tx by {
                    if k > 0 {
                        assert(tail[k - 1] == rs[k]);
                    }
                }
            },
        }
    }
}

/// Index of the first record of `tx`, agreeing with `lookup_record`.
fn find_record(rs: &Vec<Transaction>, tx: u32) -> (r: Option<usize>)
    ensures
        match r {
            Some(j) => j < rs.len() && lookup_record(rs@, tx) == Some(j as int),
            None => lookup_record(rs@, tx) is None,
        },
{
    let n = rs.len();
    let mut k: usize = 0;
    while k < n
        invariant
            n == rs.len(),
            k <= n,
            forall|p: int| 0 <= p < k ==> rs@[p].tx != tx,
        decreases n - k,
    {
        if rs[k].tx == tx {
            proof {
                lemma_lookup_record_properties(rs@, tx);
            }
            return Some(k);
        }
        k += 1;
    }
    proof {
        lemma_lookup_record_properties(rs@, tx);
    }
    None
}

/// Replacing an account with one of the same client id does not change which
/// index any client is found at.
proof fn lemma_lookup_client_update_same(m: Seq<AccountModel>, i: int, a: AccountModel, c: u16)
    requires
        0 <= i < m.len(),
        a.client == m[i].client,
    ensures
        lookup_client(m.update(i, a), c) == lookup_client(m, c),
{
    let m2 = m.update(i, a);
    lemma_lookup_client_properties(m, c);
    lemma_lookup_client_properties(m2, c);
    match (lookup_client(m, c), lookup_client(m2, c)) {
        (Some(p), Some(q)) => {
            if p < q {
                assert(m2[p].client == c);
            }
            if q < p {
                assert(m[q].client == c);
            }
        },
        (Some(p), None) => {
            assert(m2[p].client == c);
        },
        (None, Some(q)) => {
            assert(m[q].client == c);
        },
        (None, None) => {},
    }
}

/// Appending an account only affects lookups of its own client, and only
/// when that client was absent.
proof fn lemma_lookup_client_push(m: Seq<AccountModel>, a: AccountModel, c: u16)
    ensures
        lookup_client(m.push(a), c) == (match lookup_client(m, c) {
            Some(i) => Some(i),
            None => if a.client == c {
                Some(m.len() as int)
            } else {
                None
            },
        }),
{
    let m2 = m.push(a);
    lemma_lookup_client_properties(m, c);
    lemma_lookup_client_properties(m2, c);
    match (lookup_client(m, c), lookup_client(m2, c)) {
        (Some(p), Some(q)) => {
            if p < q {
                assert(m2[p].client == c);
            }
            if q < p {
                assert(m[q].client == c);
            }
        },
        (Some(p), None) => {
            assert(m2[p].client == c);
        },
        (None, Some(q)) => {
            if q < m.len() {
                assert(m[q].client == c);
            }
        },
        (None, None) => {
            if a.client == c {
                assert(m2[m.len() as int].client == c);
            }
        },
    }
}

/// Replacing a record with one of the same transaction id does not change
/// which index any transaction id is found at.
proof fn lemma_lookup_record_update_same(rs: Seq<Transaction>, j: int, t: Transaction, tx: u32)
    requires
        0 <= j < rs.len(),
        t.tx == rs[j].tx,
    ensures
        lookup_record(rs.update(j, t), tx) == lookup_record(rs, tx),
{
    let rs2 = rs.update(j, t);
    lemma_lookup_record_properties(rs, tx);
    lemma_lookup_record_properties(rs2, tx);
    match (lookup_record(rs, tx), lookup_record(rs2, tx)) {
        (Some(p), Some(q)) => {
            if p < q {
                assert(rs2[p].tx == tx);
            }
            if q < p {
                assert(rs[q].tx == tx);
            }
        },
        (Some(p), None) => {
            assert(rs2[p].tx == tx);
        },
        (None, Some(q)) => {
            assert(rs[q].tx == tx);
        },
        (None, None) => {},
    }
}

/// Appending a record only affects lookups of its own transaction id, and
/// only when that id was absent.
proof fn lemma_lookup_record_push(rs: Seq<Transaction>, t: Transaction, tx: u32)
    ensures
        lookup_record(rs.push(t), tx) == (match lookup_record(rs, tx) {
            Some(j) => Some(j),
            None => if t.tx == tx {
                Some(rs.len() as int)
            } else {
                None
            },
        }),
{
    let rs2 = rs.push(t);
    lemma_lookup_record_properties(rs, tx);
    lemma_lookup_record_properties(rs2, tx);
    match (lookup_record(rs, tx), lookup_record(rs2, tx)) {
        (Some(p), Some(q)) => {
            if p < q {
                assert(rs2[p].tx == tx);
            }
            if q < p {
                assert(rs[q].tx == tx);
            }
        },
        (Some(p), None) => {
            assert(rs2[p].tx == tx);
        },
        (None, Some(q)) => {
            if q < rs.len() {
                assert(rs[q].tx == tx);
            }
        },
        (None, None) => {
            if t.tx == tx {
                assert(rs2[rs.len() as int].tx == tx);
            }
        },
    }
}

/// After storing a record, looking its transaction id up finds exactly that
/// record.
proof fn lemma_upsert_record_found(rs: Seq<Transaction>, t: Transaction)
    ensures
        lookup_record(upsert_record(rs, t), t.tx) matches Some(j) && upsert_record(rs, t)[j] == t,
{
    match lookup_record(rs, t.tx) {
        Some(j) => {
            lemma_lookup_record_properties(rs, t.tx);
            lemma_lookup_record_update_same(rs, j, t, t.tx);
        },
        None => {
            lemma_lookup_record_push(rs, t, t.tx);
        },
    }
}

/// Overwriting a record with one of the same transaction id keeps the ids
/// distinct.
proof fn lemma_records_wf_update(rs: Seq<Transaction>, j: int, t: Transaction)
    requires
        records_wf(rs),
        0 <= j < rs.len(),
        t.tx == rs[j].tx,
    ensures
        records_wf(rs.update(j, t)),
{
    let rs2 = rs.update(j, t);
    assert forall|i: int, k: int| 0 <= i < k < rs2.len() implies rs2[i].tx != rs2[k].tx by {
        assert(rs2[i].tx == rs[i].tx);
        assert(rs2[k].tx == rs[k].tx);
    }
}

/// Storing a record keeps the transaction ids of a record index distinct.
proof fn lemma_records_wf_upsert(rs: Seq<Transaction>, t: Transaction)
    requires
        records_wf(rs),
    ensures
        records_wf(upsert_record(rs, t)),
{
    lemma_lookup_record_properties(rs, t.tx);
    match lookup_record(rs, t.tx) {
        Some(j) => {
            lemma_records_wf_update(rs, j, t);
        },
        None => {
            let rs2 = rs.push(t);
            assert forall|i: int, k: int| 0 <= i < k < rs2.len() implies rs2[i].tx != rs2[k].tx by {
                if k == rs.len() {
                    assert(rs2[i] == rs[i]);
                } else {
                    assert(rs2[i] == rs[i]);
                    assert(rs2[k] == rs[k]);
                }
            }
        },
    }
}

/// Applying an entry to an account keeps its client id and the
/// well-formedness of its record index.
proof fn lemma_account_after_wf(a: AccountModel, t: Transaction)
    requires
        records_wf(a.records),
    ensures
        account_after(a, t).client == a.client,
        records_wf(account_after(a, t).records),
{
    match t.transaction_type {
        TransactionType::Deposit { amount } => {
            lemma_records_wf_upsert(a.records, t);
        },
        TransactionType::Withdrawal { amount } => {
            if a.available >= amount {
                lemma_records_wf_upsert(a.records, t);
            }
        },
        _ => {
            match lookup_record(a.records, t.tx) {
                Some(j) => {
                    lemma_lookup_record_properties(a.records, t.tx);
                    let r = a.records[j];
                    lemma_records_wf_update(
                        a.records,
                        j,
                        Transaction { state: TransactionState::Disputed, ..r },
                    );
                    lemma_records_wf_update(
                        a.records,
                        j,
                        Transaction { state: TransactionState::Resolved, ..r },
                    );
                    lemma_records_wf_update(
                        a.records,
                        j,
                        Transaction { state: TransactionState::Chargedback, ..r },
                    );
                },
                None => {},
            }
        },
    }
}

/// Applying an entry preserves well-formedness of the whole store.
pub proof fn lemma_apply_entry_wf(m: Seq<AccountModel>, t: Transaction)
    requires
        ledger_wf(m),
    ensures
        ledger_wf(apply_entry(m, t)),
{
    lemma_lookup_client_properties(m, t.client);
    match lookup_client(m, t.client) {
        Some(i) => {
            lemma_account_after_wf(m[i], t);
            let m2 = m.update(i, account_after(m[i], t));
            assert forall|p: int, q: int| 0 <= p < q < m2.len() implies m2[p].client
                != m2[q].client by {
                assert(m2[p].client == m[p].client);
                assert(m2[q].client == m[q].client);
            }
            assert forall|p: int| 0 <= p < m2.len() implies records_wf(#[trigger] m2[p].records) by {
                if p != i {
                    assert(m2[p] == m[p]);
                }
            }
        },
        None => {
            lemma_account_after_wf(new_account(t.client), t);
            let m2 = m.push(account_after(new_account(t.client), t));
            assert forall|p: int, q: int| 0 <= p < q < m2.len() implies m2[p].client
                != m2[q].client by {
                assert(m2[p] == m[p]);
                if q < m.len() {
                    assert(m2[q] == m[q]);
                }
            }
            assert forall|p: int| 0 <= p < m2.len() implies records_wf(#[trigger] m2[p].records) by {
                if p < m.len() {
                    assert(m2[p] == m[p]);
                }
            }
        },
    }
}

/// Processor for entries and owner of the account store.
#[derive(Debug)]
pub struct TransactionManager {
    pub client_account_index: AccountStore,
}

impl View for TransactionManager {
    type V = Seq<AccountModel>;

    open spec fn view(&self) -> Seq<AccountModel> {
        self.client_account_index@
    }
}

impl TransactionManager {
    pub fn new() -> (m: TransactionManager)
        ensures
            m@ == Seq::<AccountModel>::empty(),
    {
        TransactionManager { client_account_index: AccountStore::new() }
    }

    /// Apply a single entry.
    ///
    /// An entry addressing a locked account is refused with
    /// `AccountLockedError` and leaves the store unchanged; every other entry
    /// is accepted and takes effect exactly as `apply_entry` describes
    /// (which includes the silent no-op outcomes).
    pub fn process_transaction(&mut self, transaction: Transaction) -> (r: Result<
        (),
        AccountLockedError,
    >)
        requires
            !is_locked(old(self)@, transaction.client) ==> apply_in_range(
                old(self)@,
                transaction,
            ),
        ensures
            is_locked(old(self)@, transaction.client) ==> {
                &&& r matches Err(e) && e.client == transaction.client
                &&& final(self)@ == old(self)@
            },
            !is_locked(old(self)@, transaction.client) ==> {
                &&& r is Ok
                &&& final(self)@ == apply_entry(old(self)@, transaction)
            },
            ledger_wf(old(self)@) ==> ledger_wf(final(self)@),
    {
        let ghost m0: Seq<AccountModel> = self@;
        let client = transaction.client;
        let idx: usize;
        match self.client_account_index.find(client) {
            Some(i) => {
                idx = i;
            },
            None => {
                idx = self.client_account_index.accounts.len();
                self.client_account_index.accounts.push(ClientAccount::new(client, 0, 0));
                proof {
                    assert(self@ =~= m0.push(new_account(client)));
                }
            },
        }
        let ghost created = lookup_client(m0, client) is None;
        if self.client_account_index.accounts[idx].locked {
            // A fresh account is never locked, so the store was not changed
            // on this path.
            return Err(AccountLockedError { client });
        }
        let ghost a0: AccountModel = self@[idx as int];
        proof {
            if created {
                assert(a0 == new_account(client));
            } else {
                assert(a0 == m0[lookup_client(m0, client)->Some_0]);
            }
            assert(a0 == entry_account(m0, client));
        }
        let acct = &mut self.client_account_index.accounts[idx];
        match transaction.transaction_type {
            TransactionType::Deposit { amount } => {
                acct.available = acct.available + amount as i128;
                match find_record(&acct.transaction_index, transaction.tx) {
                    Some(j) => acct.transaction_index.set(j, transaction),
                    None => acct.transaction_index.push(transaction),
                }
            },
            TransactionType::Withdrawal { amount } => {
                if acct.available >= amount as i128 {
                    acct.available = acct.available - amount as i128;
                    match find_record(&acct.transaction_index, transaction.tx) {
                        Some(j) => acct.transaction_index.set(j, transaction),
                        None => acct.transaction_index.push(transaction),
                    }
                }
            },
            TransactionType::Dispute => {
                match find_record(&acct.transaction_index, transaction.tx) {
                    Some(j) => {
                        let rec = acct.transaction_index[j];
                        match (rec.transaction_type, rec.state) {
                            (TransactionType::Deposit { amount }, TransactionState::Executed) => {
                                acct.available = acct.available - amount as i128;
                                acct.held = acct.held + amount as i128;
                                acct.transaction_index.set(j, Transaction {
                                    state: TransactionState::Disputed,
                                    ..rec
                                });
                            },
                            _ => {},
                        }
                    },
                    None => {},
                }
            },
            TransactionType::Resolve => {
                match find_record(&acct.transaction_index, transaction.tx) {
                    Some(j) => {
                        let rec = acct.transaction_index[j];
                        match (rec.transaction_type, rec.state) {
                            (TransactionType::Deposit { amount }, TransactionState::Disputed) => {
                                acct.available = acct.available + amount as i128;
                                acct.held = acct.held - amount as i128;
                                acct.transaction_index.set(j, Transaction {
                                    state: TransactionState::Resolved,
                                    ..rec
                                });
                            },
                            _ => {},
                        }
                    },
                    None => {},
                }
            },
            TransactionType::Chargeback => {
                match find_record(&acct.transaction_index, transaction.tx) {
                    Some(j) => {
                        let rec = acct.transaction_index[j];
                        match (rec.transaction_type, rec.state) {
                            (TransactionType::Deposit { amount }, TransactionState::Disputed) => {
                                acct.held = acct.held - amount as i128;
                                acct.locked = true;
                                acct.transaction_index.set(j, Transaction {
                                    state: TransactionState::Chargedback,
                                    ..rec
                                });
                            },
                            _ => {},
                        }
                    },
                    None => {},
                }
            },
        }
        proof {
            assert(self@ =~= apply_entry(m0, transaction));
            if ledger_wf(m0) {
                lemma_apply_entry_wf(m0, transaction);
            }
        }
        Ok(())
    }
}

/// A decoded entry carries a non-negative amount (the decoder never produces
/// a negative one).
pub open spec fn entry_wf(t: Transaction) -> bool {
    match t.transaction_type {
        TransactionType::Deposit { amount } => amount >= 0,
        TransactionType::Withdrawal { amount } => amount >= 0,
        _ => true,
    }
}

/// The largest amount a single entry can carry.
pub open spec fn amount_limit() -> int {
    i64::MAX as int
}

/// Balances of an account that has seen at most `k` entries: each entry
/// moves `available`, `held` and their sum by at most one amount.
pub open spec fn account_bounded(a: AccountModel, k: int) -> bool {
    &&& -(k * amount_limit()) <= a.available <= k * amount_limit()
    &&& -(k * amount_limit()) <= a.held <= k * amount_limit()
    &&& -(k * amount_limit()) <= a.available + a.held <= k * amount_limit()
    &&& forall|j: int| 0 <= j < a.records.len() ==> entry_wf(#[trigger] a.records[j])
}

pub open spec fn ledger_bounded(m: Seq<AccountModel>, k: int) -> bool {
    forall|i: int| 0 <= i < m.len() ==> account_bounded(#[trigger] m[i], k)
}

/// Applying one well-formed entry to a store bounded by `k` entries yields a
/// store bounded by `k + 1`, and while `k + 1` still fits in 64 bits the new
/// balances fit in `i128`.
pub proof fn lemma_apply_entry_bounded(m: Seq<AccountModel>, t: Transaction, k: int)
    requires
        ledger_bounded(m, k),
        entry_wf(t),
        0 <= k,
        k + 1 <= u64::MAX,
    ensures
        ledger_bounded(apply_entry(m, t), k + 1),
        apply_in_range(m, t),
{
    let lim = amount_limit();
    lemma_lookup_client_properties(m, t.client);
    let a0 = entry_account(m, t.client);
    assert(account_bounded(a0, k));
    let a2 = account_after(a0, t);
    assert(account_bounded(a2, k + 1)) by {
        match t.transaction_type {
            TransactionType::Deposit { amount } => {
                assert forall|j: int|
                    0 <= j < a2.records.len() implies entry_wf(#[trigger] a2.records[j]) by {
                    lemma_lookup_record_properties(a0.records, t.tx);
                    match lookup_record(a0.records, t.tx) {
                        Some(p) => {
                            if j != p {
                                assert(a2.records[j] == a0.records[j]);
                            }
                        },
                        None => {
                            if j < a0.records.len() {
                                assert(a2.records[j] == a0.records[j]);
                            }
                        },
                    }
                }
            },
            TransactionType::Withdrawal { amount } => {
                if a0.available >= amount {
                    assert forall|j: int|
                        0 <= j < a2.records.len() implies entry_wf(#[trigger] a2.records[j]) by {
                        lemma_lookup_record_properties(a0.records, t.tx);
                        match lookup_record(a0.records, t.tx) {
                            Some(p) => {
                                if j != p {
                                    assert(a2.records[j] == a0.records[j]);
                                }
                            },
                            None => {
                                if j < a0.records.len() {
                                    assert(a2.records[j] == a0.records[j]);
                                }
                            },
                        }
                    }
                }
            },
            _ => {
                match lookup_record(a0.records, t.tx) {
                    Some(j0) => {
                        lemma_lookup_record_properties(a0.records, t.tx);
                        assert(entry_wf(a0.records[j0]));
                        assert forall|j: int|
                            0 <= j < a2.records.len() implies entry_wf(
                            #[trigger] a2.records[j],
                        ) by {
                            if j != j0 && a2.records.len() == a0.records.len() {
                                assert(a2.records[j] == a0.records[j]);
                            }
                        }
                    },
                    None => {},
                }
            },
        }
    }
    assert(ledger_bounded(apply_entry(m, t), k + 1)) by {
        match lookup_client(m, t.client) {
            Some(i) => {
                let m2 = m.update(i, a2);
                assert forall|p: int| 0 <= p < m2.len() implies account_bounded(
                    #[trigger] m2[p],
                    k + 1,
                ) by {
                    if p != i {
                        assert(m2[p] == m[p]);
                        assert(account_bounded(m[p], k));
                    }
                }
            },
            None => {
                let m2 = m.push(a2);
                assert forall|p: int| 0 <= p < m2.len() implies account_bounded(
                    #[trigger] m2[p],
                    k + 1,
                ) by {
                    if p < m.len() {
                        assert(m2[p] == m[p]);
                        assert(account_bounded(m[p], k));
                    }
                }
            },
        }
    }
    assert((k + 1) * lim <= 0xffff_ffff_ffff_ffff * 0x7fff_ffff_ffff_ffff) by (nonlinear_arith)
        requires
            0 <= k,
            k + 1 <= 0xffff_ffff_ffff_ffff,
            lim == 0x7fff_ffff_ffff_ffff,
    ;
}

/// An entry touches no account but the one of its own client: lookups for
/// every other client, and those clients' accounts and lock state, are
/// unchanged.
pub proof fn lemma_apply_entry_frame(m: Seq<AccountModel>, t: Transaction, c: u16)
    requires
        c != t.client,
    ensures
        entry_account(apply_entry(m, t), c) == entry_account(m, c),
        is_locked(apply_entry(m, t), c) == is_locked(m, c),
        lookup_client(apply_entry(m, t), c) == lookup_client(m, c),
{
    lemma_lookup_client_properties(m, t.client);
    match lookup_client(m, t.client) {
        Some(i) => {
            let a2 = account_after(m[i], t);
            assert(a2.client == m[i].client);
            lemma_lookup_client_update_same(m, i, a2, c);
            lemma_lookup_client_properties(m, c);
        },
        None => {
            let a2 = account_after(new_account(t.client), t);
            assert(a2.client == t.client);
            lemma_lookup_client_push(m, a2, c);
            lemma_lookup_client_properties(m, c);
        },
    }
}

/// Depositing an amount and then immediately disputing the same transaction
/// id holds exactly that amount: relative to the state before the deposit,
/// `held` grows by the amount and `available` is back where it started, for
/// any non-negative amount.
pub proof fn lemma_deposit_then_dispute(m: Seq<AccountModel>, client: u16, tx: u32, amount: i64)
    requires
        amount >= 0,
    ensures
        ({
            let d = Transaction {
                transaction_type: TransactionType::Deposit { amount },
                client,
                tx,
                state: TransactionState::Executed,
            };
            let q = Transaction {
                transaction_type: TransactionType::Dispute,
                client,
                tx,
                state: TransactionState::Executed,
            };
            let a0 = entry_account(m, client);
            let af = entry_account(apply_entry(apply_entry(m, d), q), client);
            &&& af.available == a0.available
            &&& af.held == a0.held + amount
            &&& af.locked == a0.locked
        }),
{
    let d = Transaction {
        transaction_type: TransactionType::Deposit { amount },
        client,
        tx,
        state: TransactionState::Executed,
    };
    let q = Transaction {
        transaction_type: TransactionType::Dispute,
        client,
        tx,
        state: TransactionState::Executed,
    };
    let a0 = entry_account(m, client);
    let a1 = account_after(a0, d);
    let m1 = apply_entry(m, d);
    lemma_lookup_client_properties(m, client);
    lemma_upsert_record_found(a0.records, d);
    match lookup_client(m, client) {
        Some(i) => {
            lemma_lookup_client_update_same(m, i, a1, client);
            assert(m1[i] == a1);
            let a2 = account_after(a1, q);
            lemma_lookup_client_update_same(m1, i, a2, client);
            assert(entry_account(apply_entry(m1, q), client) == a2);
        },
        None => {
            lemma_lookup_client_push(m, a1, client);
            let n = m.len() as int;
            assert(m1[n] == a1);
            let a2 = account_after(a1, q);
            lemma_lookup_client_update_same(m1, n, a2, client);
            assert(entry_account(apply_entry(m1, q), client) == a2);
        },
    }
}

/// Disputing the same transaction id twice has the same effect as disputing
/// it once: the second dispute is a no-op.
pub proof fn lemma_dispute_idempotent(m: Seq<AccountModel>, client: u16, tx: u32)
    ensures
        ({
            let q = Transaction {
                transaction_type: TransactionType::Dispute,
                client,
                tx,
                state: TransactionState::Executed,
            };
            apply_entry(apply_entry(m, q), q) == apply_entry(m, q)
        }),
{
    let q = Transaction {
        transaction_type: TransactionType::Dispute,
        client,
        tx,
        state: TransactionState::Executed,
    };
    lemma_lookup_client_properties(m, client);
    match lookup_client(m, client) {
        Some(i) => {
            let a0 = m[i];
            let a1 = account_after(a0, q);
            let m1 = apply_entry(m, q);
            lemma_lookup_client_update_same(m, i, a1, client);
            assert(m1[i] == a1);
            match lookup_record(a0.records, tx) {
                Some(j) => {
                    lemma_lookup_record_properties(a0.records, tx);
                    match a0.records[j].transaction_type {
                        TransactionType::Deposit { amount } => {
                            if a0.records[j].state is Executed {
                                let rec2 = Transaction {
                                    state: TransactionState::Disputed,
                                    ..a0.records[j]
                                };
                                lemma_lookup_record_update_same(a0.records, j, rec2, tx);
                                assert(a1.records[j] == rec2);
                                assert(account_after(a1, q) == a1);
                            } else {
                                assert(a1 == a0);
                            }
                        },
                        _ => {
                            assert(a1 == a0);
                        },
                    }
                },
                None => {
                    assert(a1 == a0);
                },
            }
            assert(apply_entry(m1, q) =~= m1.update(i, account_after(m1[i], q)));
            assert(m1.update(i, a1) =~= m1);
        },
        None => {
            let a1 = account_after(new_account(client), q);
            assert(lookup_record(Seq::<Transaction>::empty(), tx) is None);
            assert(a1 == new_account(client));
            let m1 = apply_entry(m, q);
            lemma_lookup_client_push(m, a1, client);
            let n = m.len() as int;
            assert(m1[n] == a1);
            assert(account_after(a1, q) == a1);
            assert(apply_entry(m1, q) =~= m1.update(n, a1));
            assert(m1.update(n, a1) =~= m1);
        },
    }
}

/// Resolving a transaction that is not currently disputed (or not recorded
/// at all) is a no-op: the store is unchanged.
pub proof fn lemma_resolve_undisputed_noop(m: Seq<AccountModel>, client: u16, tx: u32)
    requires
        lookup_client(m, client) matches Some(i) && (match lookup_record(m[i].records, tx) {
            Some(j) => !(m[i].records[j].state is Disputed),
            None => true,
        }),
    ensures
        ({
            let q = Transaction {
                transaction_type: TransactionType::Resolve,
                client,
                tx,
                state: TransactionState::Executed,
            };
            apply_entry(m, q) == m
        }),
{
    let q = Transaction {
        transaction_type: TransactionType::Resolve,
        client,
        tx,
        state: TransactionState::Executed,
    };
    let i = lookup_client(m, client)->Some_0;
    lemma_lookup_client_properties(m, client);
    assert(account_after(m[i], q) == m[i]);
    assert(apply_entry(m, q) =~= m);
}

/// A withdrawal of more than the available balance is a no-op: balances and
/// the record index are unchanged.
pub proof fn lemma_withdrawal_insufficient_noop(
    m: Seq<AccountModel>,
    client: u16,
    tx: u32,
    amount: i64,
)
    requires
        lookup_client(m, client) matches Some(i) && m[i].available < amount,
    ensures
        ({
            let w = Transaction {
                transaction_type: TransactionType::Withdrawal { amount },
                client,
                tx,
                state: TransactionState::Executed,
            };
            apply_entry(m, w) == m
        }),
{
    let w = Transaction {
        transaction_type: TransactionType::Withdrawal { amount },
        client,
        tx,
        state: TransactionState::Executed,
    };
    let i = lookup_client(m, client)->Some_0;
    lemma_lookup_client_properties(m, client);
    assert(account_after(m[i], w) == m[i]);
    assert(apply_entry(m, w) =~= m);
}

/// Charging back a disputed deposit releases the held amount, locks the
/// account, and leaves every other client's account untouched. Once locked,
/// every further entry for this client is refused (see
/// `TransactionManager::process_transaction`).
pub proof fn lemma_chargeback_locks(m: Seq<AccountModel>, client: u16, tx: u32)
    requires
        lookup_client(m, client) matches Some(i) && (lookup_record(
            m[i].records,
            tx,
        ) matches Some(j) && m[i].records[j].transaction_type matches TransactionType::Deposit {
            amount,
        } && m[i].records[j].state is Disputed),
    ensures
        ({
            let cb = Transaction {
                transaction_type: TransactionType::Chargeback,
                client,
                tx,
                state: TransactionState::Executed,
            };
            let m2 = apply_entry(m, cb);
            let i = lookup_client(m, client)->Some_0;
            let j = lookup_record(m[i].records, tx)->Some_0;
            let amount = m[i].records[j].transaction_type->Deposit_amount;
            &&& is_locked(m2, client)
            &&& entry_account(m2, client).held == m[i].held - amount
            &&& entry_account(m2, client).available == m[i].available
            &&& forall|c: u16| c != client ==> entry_account(m2, c) == entry_account(m, c)
                && is_locked(m2, c) == is_locked(m, c)
        }),
{
    let cb = Transaction {
        transaction_type: TransactionType::Chargeback,
        client,
        tx,
        state: TransactionState::Executed,
    };
    let m2 = apply_entry(m, cb);
    let i = lookup_client(m, client)->Some_0;
    lemma_lookup_client_properties(m, client);
    lemma_lookup_record_properties(m[i].records, tx);
    let a2 = account_after(m[i], cb);
    lemma_lookup_client_update_same(m, i, a2, client);
    assert(m2[i] == a2);
    assert(a2.locked);
    assert forall|c: u16| c != client implies entry_account(m2, c) == entry_account(m, c)
        && is_locked(m2, c) == is_locked(m, c) by {
        lemma_apply_entry_frame(m, cb, c);
    }
}

} // verus!
