//! Encoder for the final account snapshot.
//!
//! Each account becomes one row with fields `client,available,held,total,
//! locked`, after a header row that is emitted before the first account.
//! Balances are printed as decimals with the trailing zeros of the
//! fractional part removed, but at least one fractional digit kept, so the
//! fixed-point value `10_000` prints as `1.0`. `total` is computed as
//! `available + held`.

use vstd::prelude::*;
use crate::transaction_manager::{AccountModel, ClientAccount, in_i128};

verus! {

/// The decimal digits of `n`, most significant first; empty for zero.
pub open spec fn digits_of(n: int) -> Seq<u8>
    decreases n,
{
    if n <= 0 {
        Seq::empty()
    } else {
        digits_of(n / 10) + seq![(n % 10 + 48) as u8]
    }
}

/// An unsigned number as decimal text.
pub open spec fn fmt_nat(n: int) -> Seq<u8> {
    if n == 0 {
        seq![48u8]
    } else {
        digits_of(n)
    }
}

/// The four fractional digits of a value in `[0, 9999]`, zero padded.
pub open spec fn frac4_digits(f: int) -> Seq<u8> {
    seq![
        (f / 1000 % 10 + 48) as u8,
        (f / 100 % 10 + 48) as u8,
        (f / 10 % 10 + 48) as u8,
        (f % 10 + 48) as u8,
    ]
}

/// Remove trailing zero digits, keeping at least one digit.
pub open spec fn strip_zeros(s: Seq<u8>) -> Seq<u8>
    decreases s.len(),
{
    if s.len() > 1 && s.last() == 48 {
        strip_zeros(s.drop_last())
    } else {
        s
    }
}

/// A balance in ten-thousandths as decimal text: optional sign, the whole
/// part, a dot, and the fractional digits with trailing zeros removed but
/// at least one digit kept.
pub open spec fn fmt_dec(v: int) -> Seq<u8> {
    let a = if v >= 0 {
        v
    } else {
        -v
    };
    (if v < 0 {
        seq![45u8]
    } else {
        Seq::<u8>::empty()
    }) + fmt_nat(a / 10000) + seq![46u8] + strip_zeros(frac4_digits(a % 10000))
}

pub open spec fn fmt_bool(b: bool) -> Seq<u8> {
    if b {
        seq![116u8, 114, 117, 101]
    } else {
        seq![102u8, 97, 108, 115, 101]
    }
}

/// The header row `client,available,held,total,locked` with its terminator.
pub open spec fn header_bytes() -> Seq<u8> {
    seq![
        99u8, 108, 105, 101, 110, 116, 44, 97, 118, 97, 105, 108, 97, 98, 108, 101, 44, 104, 101,
        108, 100, 44, 116, 111, 116, 97, 108, 44, 108, 111, 99, 107, 101, 100, 10,
    ]
}

/// One account as a row: client, available, held, total (their sum), locked.
#[verifier::opaque]
pub open spec fn render_row(a: AccountModel) -> Seq<u8> {
    fmt_nat(a.client as int) + seq![44u8] + fmt_dec(a.available) + seq![44u8] + fmt_dec(a.held)
        + seq![44u8] + fmt_dec(a.available + a.held) + seq![44u8] + fmt_bool(a.locked) + seq![10u8]
}

pub open spec fn render_rows(m: Seq<AccountModel>) -> Seq<u8>
    decreases m.len(),
{
    if m.len() == 0 {
        Seq::empty()
    } else {
        render_row(m[0]) + render_rows(m.drop_first())
    }
}

/// The whole snapshot: nothing at all for an empty store, otherwise the
/// header followed by one row per account, in store order.
pub open spec fn render(m: Seq<AccountModel>) -> Seq<u8> {
    if m.len() == 0 {
        Seq::empty()
    } else {
        header_bytes() + render_rows(m)
    }
}

/// Concatenation of byte sequences is associative.
proof fn lemma_seq_assoc(x: Seq<u8>, y: Seq<u8>, z: Seq<u8>)
    ensures
        (x + y) + z == x + (y + z),
{
    assert((x + y) + z =~= x + (y + z));
}

/// The empty sequence is a unit for concatenation.
proof fn lemma_seq_unit(x: Seq<u8>)
    ensures
        x + Seq::<u8>::empty() == x,
        Seq::<u8>::empty() + x == x,
{
    assert(x + Seq::<u8>::empty() =~= x);
    assert(Seq::<u8>::empty() + x =~= x);
}

/// Rendering one more account appends one more row.
#[verifier::rlimit(100)]
pub proof fn lemma_render_rows_push(m: Seq<AccountModel>, a: AccountModel)
    ensures
        render_rows(m.push(a)) == render_rows(m) + render_row(a),
    decreases m.len(),
{
    reveal_with_fuel(render_rows, 3);
    if m.len() == 0 {
        assert(m.push(a).drop_first() =~= Seq::<AccountModel>::empty());
        assert(m.push(a)[0] == a);
        lemma_seq_unit(render_row(a));
    } else {
        assert(m.push(a).drop_first() =~= m.drop_first().push(a));
        assert(m.push(a)[0] == m[0]);
        lemma_render_rows_push(m.drop_first(), a);
        lemma_seq_assoc(render_row(m[0]), render_rows(m.drop_first()), render_row(a));
    }
}

/// Append the digits of `n` (nothing for zero).
fn push_digits(n: u128, out: &mut Vec<u8>)
    ensures
        final(out)@ == old(out)@ + digits_of(n as int),
    decreases n,
{
    if n == 0 {
        proof {
            assert(old(out)@ + digits_of(0) =~= old(out)@);
        }
    } else {
        push_digits(n / 10, out);
        out.push((n % 10) as u8 + 48);
        proof {
            assert((old(out)@ + digits_of(n as int / 10)).push((n as int % 10 + 48) as u8)
                =~= old(out)@ + digits_of(n as int));
        }
    }
}

/// Append an unsigned number as decimal text.
fn push_nat(n: u128, out: &mut Vec<u8>)
    ensures
        final(out)@ == old(out)@ + fmt_nat(n as int),
{
    if n == 0 {
        out.push(48);
        proof {
            assert(old(out)@.push(48u8) =~= old(out)@ + fmt_nat(0));
        }
    } else {
        push_digits(n, out);
    }
}

/// Append a balance in ten-thousandths as decimal text.
#[verifier::rlimit(100)]
fn push_dec(v: i128, out: &mut Vec<u8>)
    ensures
        final(out)@ == old(out)@ + fmt_dec(v as int),
{
    let a: u128;
    if v >= 0 {
        a = v as u128;
    } else {
        out.push(45);
        a = ((-(v + 1)) as u128) + 1;
        proof {
            assert(a == -(v as int));
        }
    }
    let ghost base: Seq<u8> = out@;
    push_nat(a / 10000, out);
    out.push(46);
    let frac: u128 = a % 10000;
    let ghost mid: Seq<u8> = out@;
    out.push((frac / 1000 % 10) as u8 + 48);
    out.push((frac / 100 % 10) as u8 + 48);
    out.push((frac / 10 % 10) as u8 + 48);
    out.push((frac % 10) as u8 + 48);
    let ghost full: Seq<u8> = frac4_digits(frac as int);
    proof {
        assert(out@ =~= mid + full);
        assert(out@.skip(mid.len() as int) =~= full);
        assert(out@.take(mid.len() as int) =~= mid);
    }
    let floor: usize = out.len() - 3;
    while out.len() > floor && out[out.len() - 1] == 48
        invariant
            out.len() >= floor >= 1,
            floor == mid.len() + 1,
            out@.len() <= mid.len() + 4,
            mid == out@.take(mid.len() as int),
            strip_zeros(full) == strip_zeros(out@.skip(mid.len() as int)),
        decreases out.len(),
    {
        let ghost pre: Seq<u8> = out@;
        out.pop();
        proof {
            assert(pre.skip(mid.len() as int).drop_last() =~= out@.skip(mid.len() as int));
            assert(pre.skip(mid.len() as int).len() > 1);
            assert(pre.skip(mid.len() as int).last() == 48);
            assert(out@.take(mid.len() as int) =~= pre.take(mid.len() as int));
        }
    }
    proof {
        let tail = out@.skip(mid.len() as int);
        assert(strip_zeros(tail) == tail);
        assert(out@ =~= mid + tail);
        let sign: Seq<u8> = if v < 0 {
            seq![45u8]
        } else {
            Seq::<u8>::empty()
        };
        assert(base =~= old(out)@ + sign);
        assert(mid =~= ((old(out)@ + sign) + fmt_nat(a as int / 10000)) + seq![46u8]);
        assert(fmt_dec(v as int) == ((sign + fmt_nat(a as int / 10000)) + seq![46u8])
            + strip_zeros(frac4_digits(a as int % 10000)));
        assert(strip_zeros(frac4_digits(a as int % 10000)) == tail);
        assert(out@ =~= old(out)@ + fmt_dec(v as int));
    }
}

/// Append `true` or `false`.
fn push_bool(b: bool, out: &mut Vec<u8>)
    ensures
        final(out)@ == old(out)@ + fmt_bool(b),
{
    if b {
        out.push(116);
        out.push(114);
        out.push(117);
        out.push(101);
    } else {
        out.push(102);
        out.push(97);
        out.push(108);
        out.push(115);
        out.push(101);
    }
    proof {
        assert(out@ =~= old(out)@ + fmt_bool(b));
    }
}

/// One encoded row, with `total` derived from the balances.
pub struct Record {
    pub client: u16,
    pub available: i128,
    pub held: i128,
    pub total: i128,
    pub locked: bool,
}

impl Record {
    /// Build the row values of one account. `total` is always the sum of
    /// the two balance components.
    pub fn new(client_account: &ClientAccount) -> (r: Record)
        requires
            in_i128(client_account@.available + client_account@.held),
        ensures
            r.client == client_account@.client,
            r.available == client_account@.available,
            r.held == client_account@.held,
            r.total == r.available + r.held,
            r.locked == client_account@.locked,
    {
        Record {
            client: client_account.client,
            available: client_account.available,
            held: client_account.held,
            total: client_account.available + client_account.held,
            locked: client_account.locked,
        }
    }
}

/// Writer for the account snapshot: accumulates encoded rows, emitting the
/// header before the first one.
pub struct CsvWriter {
    writer: Vec<u8>,
    header_written: bool,
}

impl View for CsvWriter {
    type V = Seq<u8>;

    closed spec fn view(&self) -> Seq<u8> {
        self.writer@
    }
}

impl CsvWriter {
    /// Whether anything has been written yet.
    pub closed spec fn started(&self) -> bool {
        self.header_written
    }

    /// Wrap a sink; what it already holds is kept.
    pub fn new(writer: Vec<u8>) -> (r: CsvWriter)
        ensures
            r@ == writer@,
            !r.started(),
    {
        CsvWriter { writer, header_written: false }
    }

    /// Append one account's row, preceded by the header row if this is the
    /// first one.
    pub fn write(&mut self, client_account: &ClientAccount)
        requires
            in_i128(client_account@.available + client_account@.held),
        ensures
            final(self)@ == old(self)@ + (if old(self).started() {
                Seq::<u8>::empty()
            } else {
                header_bytes()
            }) + render_row(client_account@),
            final(self).started(),
    {
        let ghost w0: Seq<u8> = self.writer@;
        if !self.header_written {
            self.push_header();
            self.header_written = true;
        }
        let ghost w1: Seq<u8> = self.writer@;
        let rec = Record::new(client_account);
        push_nat(rec.client as u128, &mut self.writer);
        self.writer.push(44);
        push_dec(rec.available, &mut self.writer);
        self.writer.push(44);
        push_dec(rec.held, &mut self.writer);
        self.writer.push(44);
        push_dec(rec.total, &mut self.writer);
        self.writer.push(44);
        push_bool(rec.locked, &mut self.writer);
        self.writer.push(10);
        proof {
            reveal(render_row);
            assert(self.writer@ =~= w1 + render_row(client_account@));
            assert(self.writer@ =~= w0 + (if old(self).started() {
                Seq::<u8>::empty()
            } else {
                header_bytes()
            }) + render_row(client_account@));
        }
    }

    /// Append the header row.
    fn push_header(&mut self)
        ensures
            final(self)@ == old(self)@ + header_bytes(),
            final(self).header_written == old(self).header_written,
    {
        let h: [u8; 35] = [
            99, 108, 105, 101, 110, 116, 44, 97, 118, 97, 105, 108, 97, 98, 108, 101, 44, 104,
            101, 108, 100, 44, 116, 111, 116, 97, 108, 44, 108, 111, 99, 107, 101, 100, 10,
        ];
        let mut i: usize = 0;
        while i < 35
            invariant
                i <= 35,
                self.writer@ == old(self).writer@ + header_bytes().take(i as int),
                self.header_written == old(self).header_written,
                h@ == header_bytes(),
        decreases 35 - i,
        {
            self.writer.push(h[i]);
            proof {
                assert((old(self).writer@ + header_bytes().take(i as int)).push(header_bytes()[i as int])
                    =~= old(self).writer@ + header_bytes().take(i as int + 1));
            }
            i += 1;
        }
        proof {
            assert(header_bytes().take(35) =~= header_bytes());
        }
    }

    /// Hand the sink back.
    pub fn into_inner(self) -> (w: Vec<u8>)
        ensures
            w@ == self@,
    {
        self.writer
    }
}

} // verus!
