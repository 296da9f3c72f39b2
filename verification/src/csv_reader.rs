//! Decoder for the delimited-text entry stream.
//!
//! The source is a header line followed by one entry per line, with fields
//! `type,client,tx,amount` separated by commas. Whitespace around fields is
//! tolerated, rows may omit the amount field, and amounts are non-negative
//! decimals whose fractional digits are kept to four (extra digits are
//! truncated toward zero). Malformed rows are decoding errors, which the
//! caller treats as fatal.

use vstd::prelude::*;
use crate::transaction_manager::{Transaction, TransactionState, TransactionType, entry_wf};

verus! {

/// The reasons a row can fail to decode.
#[derive(Clone, Copy, Debug, PartialEq, Eq)]
pub enum DecodeError {
    /// The row does not have three or four fields.
    FieldCount,
    /// The first field is not one of the five entry keywords.
    EntryType,
    /// The client field is not an unsigned 16-bit integer.
    ClientId,
    /// The tx field is not an unsigned 32-bit integer.
    TxId,
    /// The amount field is present but not a representable decimal.
    Amount,
    /// A deposit or withdrawal row without an amount.
    MissingAmount,
}

/// The five entry keywords of the source format.
#[derive(Clone, Copy, Debug)]
pub enum RecordType {
    Deposit,
    Withdrawal,
    Dispute,
    Resolve,
    Chargeback,
}

/// One decoded row, before it is turned into an entry.
#[derive(Clone, Copy, Debug)]
pub struct Record {
    pub transaction_type: RecordType,
    pub client: u16,
    pub tx: u32,
    pub amount: Option<i64>,
}

pub open spec fn is_ws(b: u8) -> bool {
    b == 9 || b == 10 || b == 12 || b == 13 || b == 32
}

pub open spec fn is_digit(b: u8) -> bool {
    48 <= b <= 57
}

pub open spec fn all_digits(s: Seq<u8>) -> bool {
    forall|i: int| 0 <= i < s.len() ==> is_digit(#[trigger] s[i])
}

/// The numeric value of a digit string, most significant digit first.
pub open spec fn digits_val(s: Seq<u8>) -> int
    decreases s.len(),
{
    if s.len() == 0 {
        0
    } else {
        digits_val(s.drop_last()) * 10 + (s.last() - 48)
    }
}

pub open spec fn pow10(k: int) -> int
    decreases k,
{
    if k <= 0 {
        1
    } else {
        10 * pow10(k - 1)
    }
}

/// Split at the first occurrence of `sep`: the part before it, the part
/// after it, and whether it occurs at all (if not, the remainder is empty).
pub open spec fn split_once(s: Seq<u8>, sep: u8) -> (Seq<u8>, Seq<u8>, bool)
    decreases s.len(),
{
    if s.len() == 0 {
        (s, Seq::empty(), false)
    } else if s[0] == sep {
        (Seq::empty(), s.drop_first(), true)
    } else {
        let r = split_once(s.drop_first(), sep);
        (seq![s[0]] + r.0, r.1, r.2)
    }
}

/// Split into comma-separated fields; there is always at least one field.
pub open spec fn comma_split(s: Seq<u8>) -> Seq<Seq<u8>>
    decreases s.len(),
{
    if s.len() == 0 {
        seq![Seq::empty()]
    } else if s[0] == 44 {
        seq![Seq::<u8>::empty()] + comma_split(s.drop_first())
    } else {
        let r = comma_split(s.drop_first());
        seq![seq![s[0]] + r[0]] + r.drop_first()
    }
}

pub open spec fn trim_front(s: Seq<u8>) -> Seq<u8>
    decreases s.len(),
{
    if s.len() > 0 && is_ws(s[0]) {
        trim_front(s.drop_first())
    } else {
        s
    }
}

pub open spec fn trim_back(s: Seq<u8>) -> Seq<u8>
    decreases s.len(),
{
    if s.len() > 0 && is_ws(s.last()) {
        trim_back(s.drop_last())
    } else {
        s
    }
}

/// A field with surrounding whitespace removed.
pub open spec fn trim(s: Seq<u8>) -> Seq<u8> {
    trim_back(trim_front(s))
}

/// The value of an unsigned decimal field, when it is one.
pub open spec fn spec_u64(s: Seq<u8>) -> Option<u64> {
    if s.len() > 0 && all_digits(s) && digits_val(s) <= u64::MAX {
        Some(digits_val(s) as u64)
    } else {
        None
    }
}

/// The value of the fractional digits, truncated toward zero to four digits
/// and scaled to ten-thousandths.
pub open spec fn frac_val(s: Seq<u8>) -> int {
    if s.len() >= 4 {
        digits_val(s.take(4))
    } else {
        digits_val(s) * pow10(4 - s.len())
    }
}

/// The value of an amount field in ten-thousandths: digits, optionally
/// followed by a dot and further digits, with at least one digit in all.
/// Negative or non-numeric text, and values beyond the representable range,
/// are rejected.
pub open spec fn spec_amount(s: Seq<u8>) -> Option<i64> {
    let parts = split_once(s, 46);
    let ip = parts.0;
    let fp = parts.1;
    if all_digits(ip) && all_digits(fp) && ip.len() + fp.len() > 0 && digits_val(ip) * 10000
        + frac_val(fp) <= i64::MAX {
        Some((digits_val(ip) * 10000 + frac_val(fp)) as i64)
    } else {
        None
    }
}

pub open spec fn kw_deposit(s: Seq<u8>) -> bool {
    s.len() == 7 && s[0] == 100 && s[1] == 101 && s[2] == 112 && s[3] == 111 && s[4] == 115
        && s[5] == 105 && s[6] == 116
}

pub open spec fn kw_withdrawal(s: Seq<u8>) -> bool {
    s.len() == 10 && s[0] == 119 && s[1] == 105 && s[2] == 116 && s[3] == 104 && s[4] == 100
        && s[5] == 114 && s[6] == 97 && s[7] == 119 && s[8] == 97 && s[9] == 108
}

pub open spec fn kw_dispute(s: Seq<u8>) -> bool {
    s.len() == 7 && s[0] == 100 && s[1] == 105 && s[2] == 115 && s[3] == 112 && s[4] == 117
        && s[5] == 116 && s[6] == 101
}

pub open spec fn kw_resolve(s: Seq<u8>) -> bool {
    s.len() == 7 && s[0] == 114 && s[1] == 101 && s[2] == 115 && s[3] == 111 && s[4] == 108
        && s[5] == 118 && s[6] == 101
}

pub open spec fn kw_chargeback(s: Seq<u8>) -> bool {
    s.len() == 10 && s[0] == 99 && s[1] == 104 && s[2] == 97 && s[3] == 114 && s[4] == 103
        && s[5] == 101 && s[6] == 98 && s[7] == 97 && s[8] == 99 && s[9] == 107
}

/// The entry keyword a field spells, when it spells one.
pub open spec fn spec_record_type(s: Seq<u8>) -> Option<RecordType> {
    if kw_deposit(s) {
        Some(RecordType::Deposit)
    } else if kw_withdrawal(s) {
        Some(RecordType::Withdrawal)
    } else if kw_dispute(s) {
        Some(RecordType::Dispute)
    } else if kw_resolve(s) {
        Some(RecordType::Resolve)
    } else if kw_chargeback(s) {
        Some(RecordType::Chargeback)
    } else {
        None
    }
}

/// How one row decodes: its fields after trimming, in the order
/// `type,client,tx,amount`, with the amount optional or empty.
pub open spec fn spec_parse_line(line: Seq<u8>) -> Result<Record, DecodeError> {
    let fs = comma_split(line);
    if fs.len() < 3 || fs.len() > 4 {
        Err(DecodeError::FieldCount)
    } else {
        match spec_record_type(trim(fs[0])) {
            None => Err(DecodeError::EntryType),
            Some(rt) => match spec_u64(trim(fs[1])) {
                None => Err(DecodeError::ClientId),
                Some(client) => if client > u16::MAX {
                    Err(DecodeError::ClientId)
                } else {
                    match spec_u64(trim(fs[2])) {
                        None => Err(DecodeError::TxId),
                        Some(tx) => if tx > u32::MAX {
                            Err(DecodeError::TxId)
                        } else {
                            if fs.len() == 4 && trim(fs[3]).len() > 0 {
                                match spec_amount(trim(fs[3])) {
                                    None => Err(DecodeError::Amount),
                                    Some(a) => Ok(Record {
                                        transaction_type: rt,
                                        client: client as u16,
                                        tx: tx as u32,
                                        amount: Some(a),
                                    }),
                                }
                            } else {
                                Ok(Record {
                                    transaction_type: rt,
                                    client: client as u16,
                                    tx: tx as u32,
                                    amount: None,
                                })
                            }
                        },
                    }
                },
            },
        }
    }
}

/// How a decoded row becomes an entry: deposits and withdrawals require the
/// amount, the dispute-cycle entries ignore it.
pub open spec fn spec_to_transaction(r: Record) -> Result<Transaction, DecodeError> {
    match r.transaction_type {
        RecordType::Deposit => match r.amount {
            Some(a) => Ok(Transaction {
                transaction_type: TransactionType::Deposit { amount: a },
                client: r.client,
                tx: r.tx,
                state: TransactionState::Executed,
            }),
            None => Err(DecodeError::MissingAmount),
        },
        RecordType::Withdrawal => match r.amount {
            Some(a) => Ok(Transaction {
                transaction_type: TransactionType::Withdrawal { amount: a },
                client: r.client,
                tx: r.tx,
                state: TransactionState::Executed,
            }),
            None => Err(DecodeError::MissingAmount),
        },
        RecordType::Dispute => Ok(Transaction {
            transaction_type: TransactionType::Dispute,
            client: r.client,
            tx: r.tx,
            state: TransactionState::Executed,
        }),
        RecordType::Resolve => Ok(Transaction {
            transaction_type: TransactionType::Resolve,
            client: r.client,
            tx: r.tx,
            state: TransactionState::Executed,
        }),
        RecordType::Chargeback => Ok(Transaction {
            transaction_type: TransactionType::Chargeback,
            client: r.client,
            tx: r.tx,
            state: TransactionState::Executed,
        }),
    }
}

/// The next entry of the remaining source text: empty lines are skipped; the
/// first nonempty line either decodes to an entry, leaving the text after
/// its line terminator, or fails.
pub open spec fn spec_read(s: Seq<u8>) -> Result<Option<(Transaction, Seq<u8>)>, DecodeError>
    decreases s.len(),
{
    if s.len() == 0 {
        Ok(None)
    } else if s[0] == 10 {
        spec_read(s.drop_first())
    } else {
        let parts = split_once(s, 10);
        match spec_parse_line(parts.0) {
            Ok(rec) => match spec_to_transaction(rec) {
                Ok(t) => Ok(Some((t, parts.1))),
                Err(e) => Err(e),
            },
            Err(e) => Err(e),
        }
    }
}

/// The source text after the header line.
pub open spec fn spec_after_header(s: Seq<u8>) -> Seq<u8> {
    split_once(s, 10).1
}

/// Splitting consumes at least the separator: the remainder of a nonempty
/// text is strictly shorter.
proof fn lemma_split_once_rest_len(s: Seq<u8>, sep: u8)
    ensures
        s.len() == 0 ==> split_once(s, sep).1.len() == 0,
        s.len() > 0 ==> split_once(s, sep).1.len() < s.len(),
    decreases s.len(),
{
    if s.len() > 0 && s[0] != sep {
        lemma_split_once_rest_len(s.drop_first(), sep);
    }
}

/// Reading an entry strictly shortens the remaining text.
pub proof fn lemma_spec_read_consumes(s: Seq<u8>)
    ensures
        match spec_read(s) {
            Ok(Some(pair)) => pair.1.len() < s.len(),
            _ => true,
        },
    decreases s.len(),
{
    if s.len() > 0 {
        if s[0] == 10 {
            lemma_spec_read_consumes(s.drop_first());
            assert(spec_read(s) == spec_read(s.drop_first()));
        } else {
            lemma_split_once_rest_len(s, 10);
            assert(split_once(s, 10).1.len() < s.len());
        }
    }
}

/// `pow10` is positive.
proof fn lemma_pow10_pos(k: int)
    ensures
        pow10(k) >= 1,
    decreases k,
{
    if k > 0 {
        lemma_pow10_pos(k - 1);
    }
}

/// A decoded amount is never negative.
proof fn lemma_spec_amount_nonneg(s: Seq<u8>)
    ensures
        spec_amount(s) matches Some(a) ==> a >= 0,
{
    let parts = split_once(s, 46);
    let ip = parts.0;
    let fp = parts.1;
    if all_digits(ip) && all_digits(fp) {
        lemma_digits_val_bound(ip);
        if fp.len() >= 4 {
            assert(all_digits(fp.take(4)));
            lemma_digits_val_bound(fp.take(4));
        } else {
            lemma_digits_val_bound(fp);
            lemma_pow10_pos(4 - fp.len());
            assert(digits_val(fp) * pow10(4 - fp.len()) >= 0) by (nonlinear_arith)
                requires
                    digits_val(fp) >= 0,
                    pow10(4 - fp.len()) >= 0,
            ;
        }
        assert(digits_val(ip) * 10000 >= 0) by (nonlinear_arith)
            requires
                digits_val(ip) >= 0,
        ;
    }
}

/// Every decoded entry carries a non-negative amount.
pub proof fn lemma_spec_read_wf(s: Seq<u8>)
    ensures
        match spec_read(s) {
            Ok(Some(pair)) => entry_wf(pair.0),
            _ => true,
        },
    decreases s.len(),
{
    if s.len() > 0 {
        if s[0] == 10 {
            lemma_spec_read_wf(s.drop_first());
            assert(spec_read(s) == spec_read(s.drop_first()));
        } else {
            let line = split_once(s, 10).0;
            let fs = comma_split(line);
            if 3 <= fs.len() <= 4 {
                if fs.len() == 4 {
                    lemma_spec_amount_nonneg(trim(fs[3]));
                }
            }
        }
    }
}

/// A digit string's value is non-negative and below ten to its length.
proof fn lemma_digits_val_bound(s: Seq<u8>)
    requires
        all_digits(s),
    ensures
        0 <= digits_val(s) < pow10(s.len() as int),
    decreases s.len(),
{
    if s.len() > 0 {
        assert(all_digits(s.drop_last()));
        lemma_digits_val_bound(s.drop_last());
    }
}

/// Extending a digit string never decreases its value.
proof fn lemma_digits_val_mono(s: Seq<u8>, i: int)
    requires
        all_digits(s),
        0 <= i <= s.len(),
    ensures
        digits_val(s.take(i)) <= digits_val(s),
    decreases s.len() - i,
{
    if i == s.len() {
        assert(s.take(i) =~= s);
    } else {
        assert(all_digits(s.take(i)));
        lemma_digits_val_bound(s.take(i));
        assert(s.take(i + 1).drop_last() =~= s.take(i));
        assert(s.take(i + 1).last() == s[i]);
        lemma_digits_val_mono(s, i + 1);
    }
}

/// Where the first occurrence of `sep` sits, `split_once` cuts.
proof fn lemma_split_once_found(s: Seq<u8>, sep: u8, i: int)
    requires
        0 <= i < s.len(),
        s[i] == sep,
        forall|k: int| 0 <= k < i ==> s[k] != sep,
    ensures
        split_once(s, sep).0 == s.take(i),
        split_once(s, sep).1 == s.skip(i + 1),
        split_once(s, sep).2,
    decreases i,
{
    if i == 0 {
        assert(s.take(0) =~= Seq::<u8>::empty());
        assert(s.skip(1) =~= s.drop_first());
    } else {
        let tail = s.drop_first();
        assert(tail[i - 1] == s[i]);
        assert forall|k: int| 0 <= k < i - 1 implies tail[k] != sep by {
            assert(tail[k] == s[k + 1]);
        }
        lemma_split_once_found(tail, sep, i - 1);
        assert(seq![s[0]] + tail.take(i - 1) =~= s.take(i));
        assert(tail.skip(i) =~= s.skip(i + 1));
    }
}

/// With no occurrence of `sep`, `split_once` keeps everything.
proof fn lemma_split_once_none(s: Seq<u8>, sep: u8)
    requires
        forall|k: int| 0 <= k < s.len() ==> s[k] != sep,
    ensures
        split_once(s, sep).0 == s,
        split_once(s, sep).1 == Seq::<u8>::empty(),
        !split_once(s, sep).2,
    decreases s.len(),
{
    if s.len() > 0 {
        let tail = s.drop_first();
        assert forall|k: int| 0 <= k < tail.len() implies tail[k] != sep by {
            assert(tail[k] == s[k + 1]);
        }
        lemma_split_once_none(tail, sep);
        assert(seq![s[0]] + tail =~= s);
    }
}

/// Where the first comma sits, the first field ends.
proof fn lemma_comma_split_step(s: Seq<u8>, i: int)
    requires
        0 <= i < s.len(),
        s[i] == 44,
        forall|k: int| 0 <= k < i ==> s[k] != 44,
    ensures
        comma_split(s) =~~= seq![s.take(i)] + comma_split(s.skip(i + 1)),
    decreases i,
{
    if i == 0 {
        assert(s.take(0) =~= Seq::<u8>::empty());
        assert(s.skip(1) =~= s.drop_first());
    } else {
        let tail = s.drop_first();
        assert(tail[i - 1] == s[i]);
        assert forall|k: int| 0 <= k < i - 1 implies tail[k] != 44 by {
            assert(tail[k] == s[k + 1]);
        }
        lemma_comma_split_step(tail, i - 1);
        let r = comma_split(tail);
        assert(r[0] == tail.take(i - 1));
        assert(r.drop_first() =~~= comma_split(tail.skip(i)));
        assert(seq![s[0]] + tail.take(i - 1) =~= s.take(i));
        assert(tail.skip(i) =~= s.skip(i + 1));
        assert(comma_split(s) =~~= seq![s.take(i)] + comma_split(s.skip(i + 1)));
    }
}

/// A comma-free text is a single field.
proof fn lemma_comma_split_none(s: Seq<u8>)
    requires
        forall|k: int| 0 <= k < s.len() ==> s[k] != 44,
    ensures
        comma_split(s) =~~= seq![s],
    decreases s.len(),
{
    if s.len() > 0 {
        let tail = s.drop_first();
        assert forall|k: int| 0 <= k < tail.len() implies tail[k] != 44 by {
            assert(tail[k] == s[k + 1]);
        }
        lemma_comma_split_none(tail);
        let r = comma_split(tail);
        assert(r[0] == tail);
        assert(seq![s[0]] + tail =~= s);
        assert(r.drop_first() =~~= Seq::<Seq<u8>>::empty());
        assert(comma_split(s) =~~= seq![s]);
    }
}

/// Where the leading whitespace ends, `trim_front` cuts.
proof fn lemma_trim_front_at(s: Seq<u8>, a: int)
    requires
        0 <= a <= s.len(),
        forall|k: int| 0 <= k < a ==> is_ws(s[k]),
        a < s.len() ==> !is_ws(s[a]),
    ensures
        trim_front(s) == s.skip(a),
    decreases a,
{
    if a == 0 {
        assert(s.skip(0) =~= s);
    } else {
        let tail = s.drop_first();
        assert forall|k: int| 0 <= k < a - 1 implies is_ws(tail[k]) by {
            assert(tail[k] == s[k + 1]);
        }
        assert(a - 1 < tail.len() ==> !is_ws(tail[a - 1]));
        lemma_trim_front_at(tail, a - 1);
        assert(tail.skip(a - 1) =~= s.skip(a));
    }
}

/// Where the trailing whitespace begins, `trim_back` cuts.
proof fn lemma_trim_back_at(s: Seq<u8>, b: int)
    requires
        0 <= b <= s.len(),
        forall|k: int| b <= k < s.len() ==> is_ws(s[k]),
        b > 0 ==> !is_ws(s[b - 1]),
    ensures
        trim_back(s) == s.take(b),
    decreases s.len(),
{
    if b == s.len() {
        assert(s.take(b) =~= s);
    } else {
        assert(is_ws(s.last()));
        let head = s.drop_last();
        assert forall|k: int| b <= k < head.len() implies is_ws(head[k]) by {
            assert(head[k] == s[k]);
        }
        lemma_trim_back_at(head, b);
        assert(head.take(b) =~= s.take(b));
    }
}

/// Index of the first occurrence of `sep` at or after `from`.
fn find_byte(v: &Vec<u8>, from: usize, sep: u8) -> (r: Option<usize>)
    requires
        from <= v.len(),
    ensures
        match r {
            Some(i) => {
                &&& from <= i < v.len()
                &&& v@[i as int] == sep
                &&& forall|k: int| from <= k < i ==> v@[k] != sep
            },
            None => forall|k: int| from <= k < v.len() ==> v@[k] != sep,
        },
{
    let n = v.len();
    let mut i: usize = from;
    while i < n
        invariant
            from <= i <= n,
            n == v.len(),
            forall|k: int| from <= k < i ==> v@[k] != sep,
        decreases n - i,
    {
        if v[i] == sep {
            return Some(i);
        }
        i += 1;
    }
    None
}

/// Copy of the bytes in `[from, to)`.
fn copy_range(v: &Vec<u8>, from: usize, to: usize) -> (r: Vec<u8>)
    requires
        from <= to <= v.len(),
    ensures
        r@ == v@.subrange(from as int, to as int),
{
    let mut r: Vec<u8> = Vec::new();
    let mut i: usize = from;
    proof {
        assert(r@ =~= v@.subrange(from as int, from as int));
    }
    while i < to
        invariant
            from <= i <= to <= v.len(),
            r@ == v@.subrange(from as int, i as int),
        decreases to - i,
    {
        r.push(v[i]);
        proof {
            assert(v@.subrange(from as int, i as int).push(v@[i as int]) =~= v@.subrange(
                from as int,
                i as int + 1,
            ));
        }
        i += 1;
    }
    r
}

/// Whether every byte is a decimal digit.
fn check_digits(v: &Vec<u8>) -> (r: bool)
    ensures
        r == all_digits(v@),
{
    let n = v.len();
    let mut i: usize = 0;
    while i < n
        invariant
            i <= n,
            n == v.len(),
            forall|k: int| 0 <= k < i ==> is_digit(#[trigger] v@[k]),
        decreases n - i,
    {
        if v[i] < 48 || v[i] > 57 {
            return false;
        }
        i += 1;
    }
    true
}

/// Copy of a field with surrounding whitespace removed.
fn trim_vec(v: &Vec<u8>) -> (r: Vec<u8>)
    ensures
        r@ == trim(v@),
{
    let n = v.len();
    let mut a: usize = 0;
    while a < n && (v[a] == 9 || v[a] == 10 || v[a] == 12 || v[a] == 13 || v[a] == 32)
        invariant
            a <= n,
            n == v.len(),
            forall|k: int| 0 <= k < a ==> is_ws(#[trigger] v@[k]),
        decreases n - a,
    {
        a += 1;
    }
    let mut b: usize = n;
    while b > a && (v[b - 1] == 9 || v[b - 1] == 10 || v[b - 1] == 12 || v[b - 1] == 13 || v[b - 1]
        == 32)
        invariant
            a <= b <= n,
            n == v.len(),
            forall|k: int| b <= k < n ==> is_ws(#[trigger] v@[k]),
        decreases b,
    {
        b -= 1;
    }
    proof {
        lemma_trim_front_at(v@, a as int);
        let sk = v@.skip(a as int);
        assert forall|k: int| b - a <= k < sk.len() implies is_ws(sk[k]) by {
            assert(sk[k] == v@[k + a]);
        }
        if b > a {
            assert(!is_ws(sk[b - a - 1]));
        }
        lemma_trim_back_at(sk, b - a);
        assert(sk.take(b - a) =~= v@.subrange(a as int, b as int));
    }
    copy_range(v, a, b)
}

/// The value of an all-digit field, exactly when it is one and fits.
fn parse_u64(v: &Vec<u8>) -> (r: Option<u64>)
    ensures
        r == spec_u64(v@),
{
    let n = v.len();
    if n == 0 {
        return None;
    }
    let mut acc: u64 = 0;
    let mut i: usize = 0;
    proof {
        assert(v@.take(0) =~= Seq::<u8>::empty());
    }
    while i < n
        invariant
            i <= n,
            n == v.len(),
            all_digits(v@.take(i as int)),
            acc == digits_val(v@.take(i as int)),
        decreases n - i,
    {
        let b = v[i];
        if b < 48 || b > 57 {
            return None;
        }
        let d = (b - 48) as u64;
        proof {
            assert(v@.take(i as int + 1).drop_last() =~= v@.take(i as int));
            assert(v@.take(i as int + 1).last() == v@[i as int]);
            assert(all_digits(v@.take(i as int + 1)));
        }
        if acc > (u64::MAX - d) / 10 {
            proof {
                assert(digits_val(v@.take(i as int + 1)) > u64::MAX);
                if all_digits(v@) {
                    lemma_digits_val_mono(v@, i as int + 1);
                }
            }
            return None;
        }
        acc = acc * 10 + d;
        i += 1;
    }
    proof {
        assert(v@.take(n as int) =~= v@);
    }
    Some(acc)
}

/// `frac_val` written out over the first four digits.
proof fn lemma_frac_unfold(s: Seq<u8>)
    requires
        all_digits(s),
    ensures
        frac_val(s) == (if s.len() > 0 {
            (s[0] - 48) * 1000
        } else {
            0
        }) + (if s.len() > 1 {
            (s[1] - 48) * 100
        } else {
            0
        }) + (if s.len() > 2 {
            (s[2] - 48) * 10
        } else {
            0
        }) + (if s.len() > 3 {
            s[3] - 48
        } else {
            0
        }),
        0 <= frac_val(s) <= 9999,
{
    reveal_with_fuel(pow10, 6);
    reveal_with_fuel(digits_val, 6);
    if s.len() == 0 {
        assert(frac_val(s) == 0 * pow10(4));
    } else if s.len() == 1 {
        assert(is_digit(s[0]));
        assert(s.drop_last() =~= Seq::<u8>::empty());
        let d = digits_val(s);
        assert(d == s[0] - 48);
        assert(d * pow10(3) == d * 1000) by (nonlinear_arith)
            requires
                pow10(3) == 1000,
        ;
    } else if s.len() == 2 {
        assert(is_digit(s[0]) && is_digit(s[1]));
        assert(s.drop_last().drop_last() =~= Seq::<u8>::empty());
        assert(s.drop_last().last() == s[0]);
        let d = digits_val(s);
        assert(d == (s[0] - 48) * 10 + (s[1] - 48));
        assert(d * pow10(2) == d * 100) by (nonlinear_arith)
            requires
                pow10(2) == 100,
        ;
    } else if s.len() == 3 {
        assert(is_digit(s[0]) && is_digit(s[1]) && is_digit(s[2]));
        let s2 = s.drop_last();
        let s1 = s2.drop_last();
        assert(s1.drop_last() =~= Seq::<u8>::empty());
        assert(s1.last() == s[0]);
        assert(s2.last() == s[1]);
        let d = digits_val(s);
        assert(d == ((s[0] - 48) * 10 + (s[1] - 48)) * 10 + (s[2] - 48));
        assert(d * pow10(1) == d * 10) by (nonlinear_arith)
            requires
                pow10(1) == 10,
        ;
    } else {
        assert(is_digit(s[0]) && is_digit(s[1]) && is_digit(s[2]) && is_digit(s[3]));
        let t = s.take(4);
        let t3 = t.drop_last();
        let t2 = t3.drop_last();
        let t1 = t2.drop_last();
        assert(t1.drop_last() =~= Seq::<u8>::empty());
        assert(t1.last() == s[0]);
        assert(t2.last() == s[1]);
        assert(t3.last() == s[2]);
        assert(t.last() == s[3]);
    }
}

/// The value of an amount field, exactly when `spec_amount` gives one.
fn parse_amount(v: &Vec<u8>) -> (r: Option<i64>)
    ensures
        r == spec_amount(v@),
{
    let n = v.len();
    let ip: Vec<u8>;
    let fp: Vec<u8>;
    match find_byte(v, 0, 46) {
        Some(di) => {
            ip = copy_range(v, 0, di);
            fp = copy_range(v, di + 1, n);
            proof {
                lemma_split_once_found(v@, 46, di as int);
                assert(v@.subrange(0, di as int) =~= v@.take(di as int));
                assert(v@.subrange(di as int + 1, n as int) =~= v@.skip(di as int + 1));
            }
        },
        None => {
            ip = copy_range(v, 0, n);
            fp = Vec::new();
            proof {
                lemma_split_once_none(v@, 46);
                assert(v@.subrange(0, n as int) =~= v@);
                assert(fp@ =~= Seq::<u8>::empty());
            }
        },
    }
    if !check_digits(&ip) {
        return None;
    }
    if !check_digits(&fp) {
        return None;
    }
    if ip.len() == 0 && fp.len() == 0 {
        return None;
    }
    let l = fp.len();
    let d0: u64 = if 0 < l {
        (fp[0] - 48) as u64
    } else {
        0
    };
    let d1: u64 = if 1 < l {
        (fp[1] - 48) as u64
    } else {
        0
    };
    let d2: u64 = if 2 < l {
        (fp[2] - 48) as u64
    } else {
        0
    };
    let d3: u64 = if 3 < l {
        (fp[3] - 48) as u64
    } else {
        0
    };
    let f: u64 = d0 * 1000 + d1 * 100 + d2 * 10 + d3;
    proof {
        lemma_frac_unfold(fp@);
        assert(f == frac_val(fp@));
    }
    let u: u64;
    if ip.len() == 0 {
        u = 0;
        proof {
            assert(ip@ =~= Seq::<u8>::empty());
            assert(digits_val(ip@) == 0);
        }
    } else {
        match parse_u64(&ip) {
            Some(x) => {
                u = x;
                proof {
                    lemma_digits_val_bound(ip@);
                    assert(u as int == digits_val(ip@));
                }
            },
            None => {
                proof {
                    lemma_digits_val_bound(ip@);
                    assert(digits_val(ip@) * 10000 >= digits_val(ip@)) by (nonlinear_arith)
                        requires
                            digits_val(ip@) >= 0,
                    ;
                }
                return None;
            },
        }
    }
    let big: u128 = (u as u128) * 10000 + (f as u128);
    proof {
        assert(big == (u as int) * 10000 + (f as int));
        assert(big == digits_val(ip@) * 10000 + frac_val(fp@));
    }
    if big > 0x7fff_ffff_ffff_ffffu128 {
        return None;
    }
    Some(big as i64)
}

/// The entry keyword a field spells, exactly as `spec_record_type` reads it.
fn record_type_of(v: &Vec<u8>) -> (r: Option<RecordType>)
    ensures
        r == spec_record_type(v@),
{
    let n = v.len();
    if n == 7 {
        if v[0] == 100 && v[1] == 101 && v[2] == 112 && v[3] == 111 && v[4] == 115 && v[5]
            == 105 && v[6] == 116 {
            return Some(RecordType::Deposit);
        }
        if v[0] == 100 && v[1] == 105 && v[2] == 115 && v[3] == 112 && v[4] == 117 && v[5]
            == 116 && v[6] == 101 {
            return Some(RecordType::Dispute);
        }
        if v[0] == 114 && v[1] == 101 && v[2] == 115 && v[3] == 111 && v[4] == 108 && v[5]
            == 118 && v[6] == 101 {
            return Some(RecordType::Resolve);
        }
    }
    if n == 10 {
        if v[0] == 119 && v[1] == 105 && v[2] == 116 && v[3] == 104 && v[4] == 100 && v[5]
            == 114 && v[6] == 97 && v[7] == 119 && v[8] == 97 && v[9] == 108 {
            return Some(RecordType::Withdrawal);
        }
        if v[0] == 99 && v[1] == 104 && v[2] == 97 && v[3] == 114 && v[4] == 103 && v[5]
            == 101 && v[6] == 98 && v[7] == 97 && v[8] == 99 && v[9] == 107 {
            return Some(RecordType::Chargeback);
        }
    }
    None
}

/// The views of a list of copied fields.
pub open spec fn field_views(fs: Seq<Vec<u8>>) -> Seq<Seq<u8>> {
    Seq::new(fs.len(), |i: int| fs[i]@)
}

/// Collect the comma-separated fields of `line` from `from` on.
fn split_commas_from(line: &Vec<u8>, from: usize, fs: &mut Vec<Vec<u8>>)
    requires
        from <= line.len(),
    ensures
        field_views(final(fs)@) == field_views(old(fs)@) + comma_split(line@.skip(from as int)),
    decreases line.len() - from,
{
    let ghost fs0: Seq<Vec<u8>> = fs@;
    match find_byte(line, from, 44) {
        Some(ci) => {
            let f = copy_range(line, from, ci);
            fs.push(f);
            let ghost fs1: Seq<Vec<u8>> = fs@;
            proof {
                let s = line@.skip(from as int);
                assert(s[ci - from as int] == 44);
                assert forall|k: int| 0 <= k < ci - from as int implies s[k] != 44 by {
                    assert(s[k] == line@[k + from]);
                }
                lemma_comma_split_step(s, ci - from as int);
                assert(s.take(ci - from as int) =~= line@.subrange(from as int, ci as int));
                assert(s.skip(ci - from as int + 1) =~= line@.skip(ci as int + 1));
                assert(field_views(fs1) =~~= field_views(fs0) + seq![f@]);
            }
            split_commas_from(line, ci + 1, fs);
            proof {
                assert(field_views(fs0) + comma_split(line@.skip(from as int)) =~~= field_views(
                    fs1,
                ) + comma_split(line@.skip(ci as int + 1)));
            }
        },
        None => {
            let f = copy_range(line, from, line.len());
            fs.push(f);
            proof {
                let s = line@.skip(from as int);
                assert forall|k: int| 0 <= k < s.len() implies s[k] != 44 by {
                    assert(s[k] == line@[k + from]);
                }
                lemma_comma_split_none(s);
                assert(line@.subrange(from as int, line@.len() as int) =~= s);
                assert(field_views(fs@) =~~= field_views(fs0) + seq![s]);
            }
        },
    }
}

/// The comma-separated fields of `line`.
fn split_commas(line: &Vec<u8>) -> (fs: Vec<Vec<u8>>)
    ensures
        field_views(fs@) == comma_split(line@),
{
    let mut fs: Vec<Vec<u8>> = Vec::new();
    proof {
        assert(field_views(fs@) =~~= Seq::<Seq<u8>>::empty());
    }
    split_commas_from(line, 0, &mut fs);
    proof {
        assert(line@.skip(0) =~= line@);
        assert(Seq::<Seq<u8>>::empty() + comma_split(line@) =~~= comma_split(line@));
    }
    fs
}

/// Decode one row, exactly as `spec_parse_line` reads it.
fn parse_line(line: &Vec<u8>) -> (r: Result<Record, DecodeError>)
    ensures
        r == spec_parse_line(line@),
{
    let fs = split_commas(line);
    proof {
        assert(fs@.len() == comma_split(line@).len());
    }
    if fs.len() < 3 || fs.len() > 4 {
        return Err(DecodeError::FieldCount);
    }
    let t0 = trim_vec(&fs[0]);
    proof {
        assert(fs@[0]@ == comma_split(line@)[0]);
    }
    let rt: RecordType;
    match record_type_of(&t0) {
        Some(x) => {
            rt = x;
        },
        None => {
            return Err(DecodeError::EntryType);
        },
    }
    let t1 = trim_vec(&fs[1]);
    proof {
        assert(fs@[1]@ == comma_split(line@)[1]);
    }
    let client: u16;
    match parse_u64(&t1) {
        Some(c) => {
            if c > 0xffff {
                return Err(DecodeError::ClientId);
            }
            client = c as u16;
        },
        None => {
            return Err(DecodeError::ClientId);
        },
    }
    let t2 = trim_vec(&fs[2]);
    proof {
        assert(fs@[2]@ == comma_split(line@)[2]);
    }
    let tx: u32;
    match parse_u64(&t2) {
        Some(c) => {
            if c > 0xffff_ffff {
                return Err(DecodeError::TxId);
            }
            tx = c as u32;
        },
        None => {
            return Err(DecodeError::TxId);
        },
    }
    let amount: Option<i64>;
    if fs.len() == 4 {
        let t3 = trim_vec(&fs[3]);
        proof {
            assert(fs@[3]@ == comma_split(line@)[3]);
        }
        if t3.len() > 0 {
            match parse_amount(&t3) {
                Some(a) => {
                    amount = Some(a);
                },
                None => {
                    return Err(DecodeError::Amount);
                },
            }
        } else {
            amount = None;
        }
    } else {
        amount = None;
    }
    Ok(Record { transaction_type: rt, client, tx, amount })
}

impl Record {
    /// Turn a decoded row into an entry, exactly as `spec_to_transaction`
    /// does.
    pub fn to_transaction(self) -> (r: Result<Transaction, DecodeError>)
        ensures
            r == spec_to_transaction(self),
    {
        match self.transaction_type {
            RecordType::Deposit => match self.amount {
                Some(a) => Ok(Transaction::new(
                    TransactionType::Deposit { amount: a },
                    self.client,
                    self.tx,
                )),
                None => Err(DecodeError::MissingAmount),
            },
            RecordType::Withdrawal => match self.amount {
                Some(a) => Ok(Transaction::new(
                    TransactionType::Withdrawal { amount: a },
                    self.client,
                    self.tx,
                )),
                None => Err(DecodeError::MissingAmount),
            },
            RecordType::Dispute => Ok(Transaction::new(
                TransactionType::Dispute,
                self.client,
                self.tx,
            )),
            RecordType::Resolve => Ok(Transaction::new(
                TransactionType::Resolve,
                self.client,
                self.tx,
            )),
            RecordType::Chargeback => Ok(Transaction::new(
                TransactionType::Chargeback,
                self.client,
                self.tx,
            )),
        }
    }
}

/// Reader over the entry stream: hands out one decoded entry at a time,
/// lazily, in source order.
pub struct CsvReader {
    input: Vec<u8>,
    pos: usize,
}

impl View for CsvReader {
    type V = Seq<u8>;

    closed spec fn view(&self) -> Seq<u8> {
        self.input@.skip(self.pos as int)
    }
}

impl CsvReader {
    pub closed spec fn wf(&self) -> bool {
        self.pos <= self.input.len()
    }

    /// Start reading after the header line, which is skipped unexamined.
    pub fn new(reader: Vec<u8>) -> (r: CsvReader)
        ensures
            r.wf(),
            r@ == spec_after_header(reader@),
            r@.len() <= reader@.len(),
    {
        let n = reader.len();
        let pos: usize;
        match find_byte(&reader, 0, 10) {
            Some(i) => {
                pos = i + 1;
                proof {
                    lemma_split_once_found(reader@, 10, i as int);
                }
            },
            None => {
                pos = n;
                proof {
                    lemma_split_once_none(reader@, 10);
                    assert(reader@.skip(n as int) =~= Seq::<u8>::empty());
                }
            },
        }
        CsvReader { input: reader, pos }
    }

    /// The next entry of the stream: `Ok(None)` at the end, the decoded
    /// entry otherwise, or the decoding error of the first bad row.
    pub fn next(&mut self) -> (r: Result<Option<Transaction>, DecodeError>)
        requires
            old(self).wf(),
        ensures
            final(self).wf(),
            match spec_read(old(self)@) {
                Ok(opt) => match opt {
                    Some(pair) => r == Ok::<Option<Transaction>, DecodeError>(Some(pair.0))
                        && final(self)@ == pair.1,
                    None => r == Ok::<Option<Transaction>, DecodeError>(None),
                },
                Err(e) => r == Err::<Option<Transaction>, DecodeError>(e),
            },
    {
        let n = self.input.len();
        while self.pos < n && self.input[self.pos] == 10
            invariant
                self.pos <= n,
                n == self.input.len(),
                self.input == old(self).input,
                spec_read(self.input@.skip(self.pos as int)) == spec_read(old(self)@),
            decreases n - self.pos,
        {
            proof {
                assert(self.input@.skip(self.pos as int).drop_first() =~= self.input@.skip(
                    self.pos as int + 1,
                ));
            }
            self.pos = self.pos + 1;
        }
        if self.pos == n {
            proof {
                assert(self.input@.skip(n as int) =~= Seq::<u8>::empty());
            }
            return Ok(None);
        }
        let ghost s: Seq<u8> = self.input@.skip(self.pos as int);
        let line: Vec<u8>;
        match find_byte(&self.input, self.pos, 10) {
            Some(nl) => {
                line = copy_range(&self.input, self.pos, nl);
                proof {
                    let p = self.pos as int;
                    assert(s[nl - p] == 10);
                    assert forall|k: int| 0 <= k < nl - p implies s[k] != 10 by {
                        assert(s[k] == self.input@[k + p]);
                    }
                    lemma_split_once_found(s, 10, nl - p);
                    assert(s.take(nl - p) =~= self.input@.subrange(p, nl as int));
                    assert(s.skip(nl - p + 1) =~= self.input@.skip(nl as int + 1));
                }
                self.pos = nl + 1;
            },
            None => {
                line = copy_range(&self.input, self.pos, n);
                proof {
                    let p = self.pos as int;
                    assert forall|k: int| 0 <= k < s.len() implies s[k] != 10 by {
                        assert(s[k] == self.input@[k + p]);
                    }
                    lemma_split_once_none(s, 10);
                    assert(s =~= self.input@.subrange(p, n as int));
                    assert(self.input@.skip(n as int) =~= Seq::<u8>::empty());
                }
                self.pos = n;
            },
        }
        match parse_line(&line) {
            Err(e) => Err(e),
            Ok(rec) => match rec.to_transaction() {
                Err(e) => Err(e),
                Ok(t) => Ok(Some(t)),
            },
        }
    }
}

} // verus!


