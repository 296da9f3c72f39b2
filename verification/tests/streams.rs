//! Tests of whole runs: delimited text in, delimited text out.

use payments_engine_rs::csv_reader::{CsvReader, DecodeError};
use payments_engine_rs::csv_writer::CsvWriter;
use payments_engine_rs::transaction_manager::{ClientAccount, TransactionType};
use payments_engine_rs::{Config, RunError, run};

fn run_str(input: &str) -> Result<String, RunError> {
    let reader = input.as_bytes().to_vec();
    match run(Config { reader, writer: vec![] }) {
        Ok(writer) => Ok(String::from_utf8(writer).unwrap()),
        Err(e) => Err(e),
    }
}

#[test]
fn process_transactions() {
    let reader = "type,client,tx,amount\n\
        deposit,1,1,1.0\n\
        withdrawal,1,2,1.0\n\
        dispute,1,1,\n\
        resolve,1,1,\n\
        deposit,1,3,1.0\n\
        withdrawal,1,4,1.0\n\
        dispute,1,3,\n\
        chargeback,1,3,"
        .as_bytes()
        .to_vec();
    let writer = run(Config { reader, writer: vec![] }).unwrap();
    assert_eq!(
        "client,available,held,total,locked\n1,-1.0,0.0,-1.0,true\n",
        std::str::from_utf8(&writer).unwrap()
    );
}

#[test]
fn process_transactions_with_spaces() {
    let reader = "type, client, tx, amount\n\
         deposit, 1, 1, 1.0\n\
         withdrawal,  1,  2, 1.0\n"
        .as_bytes()
        .to_vec();
    let writer = run(Config { reader, writer: vec![] }).unwrap();
    assert_eq!(
        "client,available,held,total,locked\n1,0.0,0.0,0.0,false\n",
        std::str::from_utf8(&writer).unwrap()
    );
}

#[test]
fn process_transactions_with_4_decimals() {
    let reader = "type,client,tx,amount\n\
        deposit,1,1,1.9999\n\
        withdrawal,1,2,0.1111\n"
        .as_bytes()
        .to_vec();
    let writer = run(Config { reader, writer: vec![] }).unwrap();
    assert_eq!(
        "client,available,held,total,locked\n1,1.8888,0.0,1.8888,false\n",
        std::str::from_utf8(&writer).unwrap()
    );
}

#[test]
fn header_only_gives_empty_output() {
    assert_eq!(run_str("type,client,tx,amount\n").unwrap(), "");
    assert_eq!(run_str("type,client,tx,amount").unwrap(), "");
}

#[test]
fn accounts_appear_in_order_of_first_reference() {
    let out = run_str(
        "type,client,tx,amount\n\
         deposit,7,1,2.5\n\
         deposit,3,2,0.25\n\
         deposit,7,3,1.0\n",
    )
    .unwrap();
    assert_eq!(
        out,
        "client,available,held,total,locked\n7,3.5,0.0,3.5,false\n3,0.25,0.0,0.25,false\n"
    );
}

#[test]
fn amounts_without_dot_and_with_leading_dot() {
    let out = run_str(
        "type,client,tx,amount\n\
         deposit,1,1,5\n\
         withdrawal,1,2,.5\n",
    )
    .unwrap();
    assert_eq!(out, "client,available,held,total,locked\n1,4.5,0.0,4.5,false\n");
}

#[test]
fn extra_fractional_digits_are_truncated() {
    let out = run_str("type,client,tx,amount\ndeposit,1,1,1.99999\n").unwrap();
    assert_eq!(out, "client,available,held,total,locked\n1,1.9999,0.0,1.9999,false\n");
}

#[test]
fn blank_lines_are_skipped() {
    let out = run_str("type,client,tx,amount\n\ndeposit,1,1,1.0\n\n").unwrap();
    assert_eq!(out, "client,available,held,total,locked\n1,1.0,0.0,1.0,false\n");
}

#[test]
fn row_with_too_few_fields_is_fatal() {
    let r = run_str("type,client,tx,amount\ndeposit,1\n");
    assert!(matches!(r, Err(RunError::Decode(DecodeError::FieldCount))));
}

#[test]
fn unknown_entry_type_is_fatal() {
    let r = run_str("type,client,tx,amount\ntransfer,1,1,1.0\n");
    assert!(matches!(r, Err(RunError::Decode(DecodeError::EntryType))));
}

#[test]
fn bad_client_id_is_fatal() {
    let r = run_str("type,client,tx,amount\ndeposit,70000,1,1.0\n");
    assert!(matches!(r, Err(RunError::Decode(DecodeError::ClientId))));
    let r2 = run_str("type,client,tx,amount\ndeposit,x,1,1.0\n");
    assert!(matches!(r2, Err(RunError::Decode(DecodeError::ClientId))));
}

#[test]
fn bad_tx_id_is_fatal() {
    let r = run_str("type,client,tx,amount\ndeposit,1,5000000000,1.0\n");
    assert!(matches!(r, Err(RunError::Decode(DecodeError::TxId))));
}

#[test]
fn negative_or_malformed_amount_is_fatal() {
    let r = run_str("type,client,tx,amount\ndeposit,1,1,-1.0\n");
    assert!(matches!(r, Err(RunError::Decode(DecodeError::Amount))));
    let r2 = run_str("type,client,tx,amount\ndeposit,1,1,1.2.3\n");
    assert!(matches!(r2, Err(RunError::Decode(DecodeError::Amount))));
}

#[test]
fn missing_amount_is_fatal() {
    let r = run_str("type,client,tx,amount\ndeposit,1,1,\n");
    assert!(matches!(r, Err(RunError::Decode(DecodeError::MissingAmount))));
    let r2 = run_str("type,client,tx,amount\nwithdrawal,1,1\n");
    assert!(matches!(r2, Err(RunError::Decode(DecodeError::MissingAmount))));
}

#[test]
fn entry_for_locked_account_aborts_the_run() {
    let r = run_str(
        "type,client,tx,amount\n\
         deposit,1,1,1.0\n\
         dispute,1,1,\n\
         chargeback,1,1,\n\
         deposit,1,2,1.0\n",
    );
    assert!(matches!(r, Err(RunError::Locked(e)) if e.client == 1));
}

#[test]
fn output_is_appended_to_the_given_writer() {
    let reader = "type,client,tx,amount\ndeposit,1,1,1.0\n".as_bytes().to_vec();
    let writer = "existing\n".as_bytes().to_vec();
    let out = run(Config { reader, writer }).unwrap();
    assert_eq!(
        std::str::from_utf8(&out).unwrap(),
        "existing\nclient,available,held,total,locked\n1,1.0,0.0,1.0,false\n"
    );
}

#[test]
fn reader_hands_out_entries_in_order() {
    let mut reader = CsvReader::new(
        "type,client,tx,amount\ndeposit,1,7,2.5\ndispute,1,7,\n".as_bytes().to_vec(),
    );
    let first = reader.next().unwrap().unwrap();
    assert_eq!(first.client, 1);
    assert_eq!(first.tx, 7);
    assert!(matches!(first.transaction_type, TransactionType::Deposit { amount: 2_5000 }));
    let second = reader.next().unwrap().unwrap();
    assert!(matches!(second.transaction_type, TransactionType::Dispute));
    assert!(reader.next().unwrap().is_none());
}

#[test]
fn writer_emits_header_once() {
    let mut writer = CsvWriter::new(vec![]);
    let first = ClientAccount::new(3, 1_5000, 5000);
    writer.write(&first);
    let second = ClientAccount::new(4, 0, 0);
    writer.write(&second);
    let out = writer.into_inner();
    assert_eq!(
        std::str::from_utf8(&out).unwrap(),
        "client,available,held,total,locked\n3,1.5,0.5,2.0,false\n4,0.0,0.0,0.0,false\n"
    );
}
