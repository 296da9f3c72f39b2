//! A payment engine that replays a sequential log of ledger entries
//! (deposit, withdrawal, dispute, resolve, chargeback) against per-client
//! accounts and renders a final balance snapshot.
//!
//! The entry stream arrives as delimited text (see `csv_reader`), is applied
//! one entry at a time by the `transaction_manager`, and the resulting
//! accounts are encoded as delimited text again (see `csv_writer`).
//!
//! All monetary values are fixed-point decimals with four implied fractional
//! digits: the integer `10_000` stands for the decimal value `1.0`.

use vstd::prelude::*;

pub mod csv_reader;
pub mod csv_writer;
pub mod transaction_manager;

use crate::csv_reader::{
    CsvReader, DecodeError, spec_after_header, spec_read, lemma_spec_read_consumes,
    lemma_spec_read_wf,
};
use crate::csv_writer::{CsvWriter, render, render_rows, header_bytes, lemma_render_rows_push};
use crate::transaction_manager::{
    AccountLockedError, AccountModel, TransactionManager, amount_limit, apply_entry, in_i128,
    is_locked, ledger_bounded, lemma_apply_entry_bounded,
};

verus! {

/// Why a run stops early: a row that does not decode, or an entry that
/// addresses a locked account. Either aborts the run with no snapshot.
#[derive(Clone, Copy, Debug)]
pub enum RunError {
    Decode(DecodeError),
    Locked(AccountLockedError),
}

/// What the engine runs over: the entry stream source and the snapshot sink.
pub struct Config {
    pub reader: Vec<u8>,
    pub writer: Vec<u8>,
}

/// The outcome of replaying the remaining entry text against a store:
/// either the final store, or the first fatal error, in source order.
pub open spec fn spec_replay(s: Seq<u8>, m: Seq<AccountModel>) -> Result<
    Seq<AccountModel>,
    RunError,
>
    decreases s.len(),
        via spec_replay_decreases
{
    match spec_read(s) {
        Err(e) => Err(RunError::Decode(e)),
        Ok(opt) => match opt {
            None => Ok(m),
            Some(pair) => if is_locked(m, pair.0.client) {
                Err(RunError::Locked(AccountLockedError { client: pair.0.client }))
            } else {
                spec_replay(pair.1, apply_entry(m, pair.0))
            },
        },
    }
}

#[via_fn]
proof fn spec_replay_decreases(s: Seq<u8>, m: Seq<AccountModel>) {
    lemma_spec_read_consumes(s);
}

/// Encode every account of the store, in store order, after the header.
fn write_snapshot(transaction_manager: &TransactionManager, writer: Vec<u8>) -> (w: Vec<u8>)
    requires
        forall|i: int| 0 <= i < transaction_manager@.len() ==> in_i128(
            #[trigger] transaction_manager@[i].available + transaction_manager@[i].held,
        ),
    ensures
        w@ == writer@ + render(transaction_manager@),
{
    let ghost m: Seq<AccountModel> = transaction_manager@;
    let ghost w0: Seq<u8> = writer@;
    let mut csv_writer = CsvWriter::new(writer);
    let store = &transaction_manager.client_account_index;
    let n = store.len();
    let mut i: usize = 0;
    while i < n
        invariant
            n == m.len(),
            i <= n,
            m == transaction_manager@,
            store == &transaction_manager.client_account_index,
            forall|p: int| 0 <= p < m.len() ==> in_i128(#[trigger] m[p].available + m[p].held),
            i == 0 ==> csv_writer@ == w0 && !csv_writer.started(),
            i > 0 ==> csv_writer@ == w0 + header_bytes() + render_rows(m.take(i as int))
                && csv_writer.started(),
        decreases n - i,
    {
        let account = &store.accounts[i];
        proof {
            assert(account@ == m[i as int]);
        }
        csv_writer.write(account);
        proof {
            reveal_with_fuel(render_rows, 3);
            if i == 0 {
                assert(m.take(1).drop_first() =~= Seq::<AccountModel>::empty());
                assert(m.take(1)[0] == m[0]);
                assert(csv_writer@ =~= w0 + header_bytes() + render_rows(m.take(1)));
            } else {
                assert(m.take(i as int).push(m[i as int]) =~= m.take(i as int + 1));
                lemma_render_rows_push(m.take(i as int), m[i as int]);
                assert(csv_writer@ =~= w0 + header_bytes() + render_rows(m.take(i as int + 1)));
            }
        }
        i += 1;
    }
    proof {
        if n == 0 {
            assert(csv_writer@ =~= w0 + render(m));
        } else {
            assert(m.take(n as int) =~= m);
            assert(csv_writer@ =~= w0 + render(m));
        }
    }
    csv_writer.into_inner()
}

/// Run the payments engine with the given configuration.
///
/// The entries of `config.reader` are decoded and applied one at a time, in
/// order. The first fatal outcome ends the run: a row that does not decode,
/// or an entry addressing a locked account. Otherwise the final accounts are
/// encoded after whatever `config.writer` already holds, and the filled sink
/// is returned — exactly the outcome `spec_replay` describes.
#[verifier::loop_isolation(false)]
pub fn run(config: Config) -> (r: Result<Vec<u8>, RunError>)
    ensures
        match spec_replay(spec_after_header(config.reader@), Seq::<AccountModel>::empty()) {
            Ok(m) => r matches Ok(w) && w@ == config.writer@ + render(m),
            Err(e) => r matches Err(e2) && e2 == e,
        },
{
    let ghost input: Seq<u8> = config.reader@;
    let rlen: usize = config.reader.len();
    let mut transaction_manager = TransactionManager::new();
    let mut csv_reader = CsvReader::new(config.reader);
    let ghost n0: int = csv_reader@.len() as int;
    let ghost mut k: int = 0;
    proof {
        assert(spec_replay(spec_after_header(input), Seq::<AccountModel>::empty()) == spec_replay(
            csv_reader@,
            transaction_manager@,
        ));
    }
    loop
        invariant
            csv_reader.wf(),
            0 <= k,
            k + csv_reader@.len() <= n0,
            n0 <= usize::MAX,
            ledger_bounded(transaction_manager@, k),
            spec_replay(spec_after_header(input), Seq::<AccountModel>::empty()) == spec_replay(
                csv_reader@,
                transaction_manager@,
            ),
        decreases csv_reader@.len(),
    {
        let ghost rem: Seq<u8> = csv_reader@;
        let ghost m: Seq<AccountModel> = transaction_manager@;
        proof {
            lemma_spec_read_consumes(rem);
            lemma_spec_read_wf(rem);
        }
        match csv_reader.next() {
            Err(e) => {
                return Err(RunError::Decode(e));
            },
            Ok(None) => {
                proof {
                    assert(spec_replay(rem, m) == Ok::<Seq<AccountModel>, RunError>(m));
                    assert forall|p: int| 0 <= p < m.len() implies in_i128(
                        #[trigger] m[p].available + m[p].held,
                    ) by {
                        assert(k * amount_limit() <= 0xffff_ffff_ffff_ffff * amount_limit());
                    }
                }
                let w = write_snapshot(&transaction_manager, config.writer);
                proof {
                    assert(w@ == config.writer@ + render(m));
                }
                return Ok(w);
            },
            Ok(Some(transaction)) => {
                proof {
                    lemma_apply_entry_bounded(m, transaction, k);
                }
                match transaction_manager.process_transaction(transaction) {
                    Err(e) => {
                        proof {
                            assert(e == (AccountLockedError { client: transaction.client }));
                            assert(spec_replay(rem, m) == Err::<Seq<AccountModel>, RunError>(
                                RunError::Locked(e),
                            ));
                        }
                        return Err(RunError::Locked(e));
                    },
                    Ok(()) => {
                        proof {
                            k = k + 1;
                        }
                    },
                }
            },
        }
    }
}

} // verus!
