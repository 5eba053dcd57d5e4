//! The text codec for inter-instance messages. Every event is encoded as a
//! sequence of ASCII bytes: a one-byte tag followed by fixed-width decimal
//! fields (each `i32` as ten digits of the value offset by 2^31, least
//! significant digit first). The exact grammar is private to the runtime;
//! its contract is that decoding an encoding yields the original event,
//! which `lemma_event_round_trip` proves.

use vstd::prelude::*;
use vstd::arithmetic::div_mod::{
    lemma_fundamental_div_mod, lemma_fundamental_div_mod_converse, lemma_div_is_ordered,
    lemma_div_denominator,
};
use vstd::assert_seqs_equal;

use crate::messages::{
    Operation, LogEntry, AppendEntryRequest, AppendEntryRequestModel, AppendEntryResponse,
    ClientEnqueueRequest, ClientEnqueueResponse, Events, EventsModel,
};

verus! {

pub open spec fn pow10(k: nat) -> int
    decreases k,
{
    if k == 0 {
        1
    } else {
        10 * pow10((k - 1) as nat)
    }
}

proof fn lemma_pow10_pos(k: nat)
    ensures
        pow10(k) >= 1,
    decreases k,
{
    if k > 0 {
        lemma_pow10_pos((k - 1) as nat);
    }
}

/// 10^10, the count of values ten digits can carry.
proof fn lemma_pow10_10()
    ensures
        pow10(10) == 10_000_000_000,
{
    reveal_with_fuel(pow10, 11);
}

/// The digits of `n`, least significant first, `k` of them.
pub open spec fn spec_enc_digits(n: int, k: nat) -> Seq<u8>
    decreases k,
{
    if k == 0 {
        Seq::empty()
    } else {
        seq![(48 + (n % 10)) as u8] + spec_enc_digits(n / 10, (k - 1) as nat)
    }
}

/// The value the digit bytes `s` denote, least significant first; `None`
/// when some byte is not a digit.
pub open spec fn spec_dec_digits(s: Seq<u8>) -> Option<int>
    decreases s.len(),
{
    if s.len() == 0 {
        Some(0)
    } else if 48 <= s[0] <= 57 {
        match spec_dec_digits(s.skip(1)) {
            Some(v) => Some((s[0] - 48) + 10 * v),
            None => None,
        }
    } else {
        None
    }
}

proof fn lemma_enc_digits_len(n: int, k: nat)
    ensures
        spec_enc_digits(n, k).len() == k,
    decreases k,
{
    if k > 0 {
        lemma_enc_digits_len(n / 10, (k - 1) as nat);
    }
}

/// Every byte of a decodable digit string is a decimal digit.
proof fn lemma_dec_digits_digit(s: Seq<u8>, i: int)
    requires
        spec_dec_digits(s) is Some,
        0 <= i < s.len(),
    ensures
        48 <= s[i] <= 57,
    decreases i,
{
    if i > 0 {
        lemma_dec_digits_digit(s.skip(1), i - 1);
    }
}

/// Decoded digit strings denote values below 10^len.
proof fn lemma_dec_digits_bound(s: Seq<u8>)
    requires
        spec_dec_digits(s) is Some,
    ensures
        0 <= spec_dec_digits(s).unwrap() < pow10(s.len()),
    decreases s.len(),
{
    if s.len() == 0 {
    } else {
        lemma_dec_digits_bound(s.skip(1));
        lemma_pow10_pos((s.len() - 1) as nat);
        let v = spec_dec_digits(s.skip(1)).unwrap();
        assert((s[0] - 48) + 10 * v < 10 * pow10((s.len() - 1) as nat)) by {
            assert(v <= pow10((s.len() - 1) as nat) - 1);
            assert(10 * v <= 10 * (pow10((s.len() - 1) as nat) - 1)) by (nonlinear_arith)
                requires
                    v <= pow10((s.len() - 1) as nat) - 1,
            ;
        }
    }
}

/// Reading back the digits of `n` yields `n`.
proof fn lemma_digits_round_trip(n: int, k: nat)
    requires
        0 <= n < pow10(k),
    ensures
        spec_enc_digits(n, k).len() == k,
        spec_dec_digits(spec_enc_digits(n, k)) == Some(n),
    decreases k,
{
    lemma_enc_digits_len(n, k);
    if k == 0 {
    } else {
        let p = pow10((k - 1) as nat);
        lemma_pow10_pos((k - 1) as nat);
        lemma_fundamental_div_mod(n, 10);
        // n / 10 < pow10(k - 1)
        lemma_div_is_ordered(n, 10 * p - 1, 10);
        lemma_fundamental_div_mod_converse(10 * p - 1, 10, p - 1, 9);
        lemma_digits_round_trip(n / 10, (k - 1) as nat);
        let d: u8 = (48 + (n % 10)) as u8;
        let rest = spec_enc_digits(n / 10, (k - 1) as nat);
        assert_seqs_equal!((seq![d] + rest).skip(1) == rest);
        assert(spec_dec_digits(seq![d] + rest) == Some((d - 48) + 10 * (n / 10)));
    }
}

/// Append the ten digit bytes of `n` to `out`.
fn push_digits(out: &mut Vec<u8>, n: u64)
    requires
        n < 10_000_000_000,
    ensures
        final(out)@ == old(out)@ + spec_enc_digits(n as int, 10),
{
    proof {
        lemma_pow10_10();
    }
    let mut m: u64 = n;
    let mut i: usize = 0;
    while i < 10
        invariant
            0 <= i <= 10,
            n < 10_000_000_000,
            m == n as int / pow10(i as nat),
            out@ == old(out)@ + spec_enc_digits(n as int, i as nat),
        decreases 10 - i,
    {
        proof {
            lemma_pow10_pos(i as nat);
            lemma_pow10_10();
            // m stays within u64 range and the next division lines up
            lemma_div_is_ordered(0, n as int, pow10(i as nat));
            lemma_div_denominator(n as int, pow10(i as nat), 10);
            lemma_enc_snoc(n as int, i as nat);
            lemma_fundamental_div_mod(n as int, pow10(i as nat));
        }
        let d: u8 = (m % 10) as u8;
        out.push(48 + d);
        m = m / 10;
        i = i + 1;
    }
}

/// The digits of `n` grow one at a time at the end: `k + 1` digits are the
/// first `k` digits followed by digit `k`.
proof fn lemma_enc_snoc(n: int, k: nat)
    requires
        n >= 0,
    ensures
        spec_enc_digits(n, k + 1) == spec_enc_digits(n, k) + seq![
            (48 + ((n / pow10(k)) % 10)) as u8,
        ],
    decreases k,
{
    lemma_pow10_pos(k);
    if k == 0 {
        lemma_fundamental_div_mod_converse(n, 1, n, 0);
        assert(n / pow10(0) == n);
        assert(spec_enc_digits(n, 1) == seq![(48 + (n % 10)) as u8] + spec_enc_digits(n / 10, 0));
        assert(spec_enc_digits(n / 10, 0) =~= Seq::<u8>::empty());
        assert(spec_enc_digits(n, 0) =~= Seq::<u8>::empty());
        assert_seqs_equal!(
            seq![(48 + (n % 10)) as u8] + Seq::<u8>::empty()
            == Seq::<u8>::empty() + seq![(48 + (n % 10)) as u8]
        );
    } else {
        lemma_div_is_ordered(0, n, 10);
        lemma_enc_snoc(n / 10, (k - 1) as nat);
        lemma_div_denominator(n, 10, pow10((k - 1) as nat));
        let d0: u8 = (48 + (n % 10)) as u8;
        assert_seqs_equal!(
            seq![d0] + (spec_enc_digits(n / 10, (k - 1) as nat)
                + seq![(48 + ((n / 10 / pow10((k - 1) as nat)) % 10)) as u8])
            == (seq![d0] + spec_enc_digits(n / 10, (k - 1) as nat))
                + seq![(48 + ((n / 10 / pow10((k - 1) as nat)) % 10)) as u8]
        );
    }
}

/// Read the ten digit bytes at `pos`; `None` when one is not a digit.
fn read_digits(s: &Vec<u8>, pos: usize) -> (r: Option<u64>)
    requires
        pos + 10 <= s@.len(),
    ensures
        match r {
            Some(v) => spec_dec_digits(s@.subrange(pos as int, pos as int + 10)) == Some(v as int),
            None => spec_dec_digits(s@.subrange(pos as int, pos as int + 10)) is None,
        },
{
    let ghost whole = s@.subrange(pos as int, pos as int + 10);
    let slen = s.len();
    let mut val: u64 = 0;
    let mut i: usize = 0;
    // scan from the most significant digit down, accumulating
    while i < 10
        invariant
            0 <= i <= 10,
            pos + 10 <= slen,
            slen == s@.len(),
            whole == s@.subrange(pos as int, pos as int + 10),
            spec_dec_digits(whole.skip(10 - i as int)) == Some(val as int),
            val < pow10(i as nat),
        decreases 10 - i,
    {
        proof {
            lemma_pow10_10();
            lemma_pow10_pos(i as nat);
            lemma_pow10_monotone((i + 1) as nat, 10);
        }
        let idx = pos + (9 - i);
        let b = s[idx];
        if b < 48 || b > 57 {
            proof {
                if spec_dec_digits(whole) is Some {
                    lemma_dec_digits_digit(whole, 9 - i as int);
                    assert(false);
                }
            }
            return None;
        }
        proof {
            assert_seqs_equal!(
                whole.skip(9 - i as int)
                == seq![whole[9 - i as int]] + whole.skip(10 - i as int)
            );
            assert_seqs_equal!(
                whole.skip(9 - i as int).skip(1) == whole.skip(10 - i as int)
            );
            assert(whole[9 - i as int] == s@[pos + 9 - i as int]);
        }
        val = val * 10 + (b - 48) as u64;
        i = i + 1;
    }
    proof {
        assert_seqs_equal!(whole.skip(0) == whole);
    }
    Some(val)
}

proof fn lemma_pow10_monotone(a: nat, b: nat)
    requires
        a <= b,
    ensures
        pow10(a) <= pow10(b),
    decreases b,
{
    lemma_pow10_pos(a);
    if a < b {
        lemma_pow10_monotone(a, (b - 1) as nat);
        lemma_pow10_pos((b - 1) as nat);
    }
}

/// The encoding of an `i32`: ten digits of the value offset by 2^31.
pub open spec fn spec_enc_i32(v: i32) -> Seq<u8> {
    spec_enc_digits(v as int + 0x8000_0000, 10)
}

/// The `i32` the ten bytes of `s` denote, when they do.
pub open spec fn spec_dec_i32(s: Seq<u8>) -> Option<i32> {
    if s.len() != 10 {
        None
    } else {
        match spec_dec_digits(s) {
            Some(v) => if v < 0x1_0000_0000 {
                Some((v - 0x8000_0000) as i32)
            } else {
                None
            },
            None => None,
        }
    }
}

pub proof fn lemma_i32_round_trip(v: i32)
    ensures
        spec_enc_i32(v).len() == 10,
        spec_dec_i32(spec_enc_i32(v)) == Some(v),
{
    lemma_pow10_10();
    lemma_digits_round_trip(v as int + 0x8000_0000, 10);
}

fn push_i32(out: &mut Vec<u8>, v: i32)
    ensures
        final(out)@ == old(out)@ + spec_enc_i32(v),
{
    let n: u64 = ((v as i64) + 0x8000_0000) as u64;
    push_digits(out, n);
}

fn read_i32(s: &Vec<u8>, pos: usize) -> (r: Option<i32>)
    requires
        pos + 10 <= s@.len(),
    ensures
        match r {
            Some(v) => spec_dec_i32(s@.subrange(pos as int, pos as int + 10)) == Some(v),
            None => spec_dec_i32(s@.subrange(pos as int, pos as int + 10)) is None,
        },
{
    match read_digits(s, pos) {
        Some(v) => {
            if v < 0x1_0000_0000 {
                Some(((v as i64) - 0x8000_0000) as i32)
            } else {
                None
            }
        },
        None => None,
    }
}

pub open spec fn spec_enc_bool(b: bool) -> Seq<u8> {
    if b {
        seq![84u8]
    } else {
        seq![70u8]
    }
}

pub open spec fn spec_dec_bool(b: u8) -> Option<bool> {
    if b == 84 {
        Some(true)
    } else if b == 70 {
        Some(false)
    } else {
        None
    }
}

pub open spec fn spec_enc_op(o: Option<Operation>) -> u8 {
    match o {
        None => 88,
        Some(Operation::Nop) => 78,
        Some(Operation::Enqueue) => 69,
        Some(Operation::Dequeue) => 68,
    }
}

pub open spec fn spec_dec_op(b: u8) -> Option<Option<Operation>> {
    if b == 88 {
        Some(None)
    } else if b == 78 {
        Some(Some(Operation::Nop))
    } else if b == 69 {
        Some(Some(Operation::Enqueue))
    } else if b == 68 {
        Some(Some(Operation::Dequeue))
    } else {
        None
    }
}

/// An optional integer: a presence byte then ten digit bytes (filler zeros
/// when absent).
pub open spec fn spec_enc_opt_i32(o: Option<i32>) -> Seq<u8> {
    match o {
        Some(v) => seq![83u8] + spec_enc_i32(v),
        None => seq![78u8] + spec_enc_digits(0, 10),
    }
}

pub open spec fn spec_dec_opt_i32(s: Seq<u8>) -> Option<Option<i32>> {
    if s.len() != 11 {
        None
    } else if s[0] == 83 {
        match spec_dec_i32(s.skip(1)) {
            Some(v) => Some(Some(v)),
            None => None,
        }
    } else if s[0] == 78 {
        Some(None)
    } else {
        None
    }
}

proof fn lemma_opt_i32_round_trip(o: Option<i32>)
    ensures
        spec_enc_opt_i32(o).len() == 11,
        spec_dec_opt_i32(spec_enc_opt_i32(o)) == Some(o),
{
    match o {
        Some(v) => {
            lemma_i32_round_trip(v);
            assert_seqs_equal!((seq![83u8] + spec_enc_i32(v)).skip(1) == spec_enc_i32(v));
        },
        None => {
            lemma_enc_digits_len(0, 10);
        },
    }
}

fn push_opt_i32(out: &mut Vec<u8>, o: &Option<i32>)
    ensures
        final(out)@ == old(out)@ + spec_enc_opt_i32(*o),
{
    match o {
        Some(v) => {
            out.push(83);
            push_i32(out, *v);
            proof {
                assert_seqs_equal!(
                    final(out)@ == old(out)@ + spec_enc_opt_i32(Some(*v))
                );
            }
        },
        None => {
            out.push(78);
            push_digits(out, 0);
            proof {
                assert_seqs_equal!(
                    final(out)@ == old(out)@ + spec_enc_opt_i32(None::<i32>)
                );
            }
        },
    }
}

fn read_opt_i32(s: &Vec<u8>, pos: usize) -> (r: Option<Option<i32>>)
    requires
        pos + 11 <= s@.len(),
    ensures
        match r {
            Some(o) => spec_dec_opt_i32(s@.subrange(pos as int, pos as int + 11)) == Some(o),
            None => spec_dec_opt_i32(s@.subrange(pos as int, pos as int + 11)) is None,
        },
{
    let ghost sub = s@.subrange(pos as int, pos as int + 11);
    let slen = s.len();
    assert(pos + 11 <= slen);
    let tag = s[pos];
    if tag == 83 {
        proof {
            assert_seqs_equal!(sub.skip(1) == s@.subrange(pos as int + 1, pos as int + 11));
        }
        match read_i32(s, pos + 1) {
            Some(v) => Some(Some(v)),
            None => None,
        }
    } else if tag == 78 {
        Some(None)
    } else {
        None
    }
}

/// The encoding of one log entry: 43 bytes.
pub open spec fn spec_enc_entry(e: LogEntry) -> Seq<u8> {
    spec_enc_i32(e.index) + spec_enc_i32(e.term) + seq![spec_enc_op(e.operation)]
        + spec_enc_opt_i32(e.requester) + spec_enc_opt_i32(e.arguments)
}

pub open spec fn spec_dec_entry(s: Seq<u8>) -> Option<LogEntry> {
    if s.len() != 43 {
        None
    } else {
        match (
            spec_dec_i32(s.subrange(0, 10)),
            spec_dec_i32(s.subrange(10, 20)),
            spec_dec_op(s[20]),
            spec_dec_opt_i32(s.subrange(21, 32)),
            spec_dec_opt_i32(s.subrange(32, 43)),
        ) {
            (Some(index), Some(term), Some(operation), Some(requester), Some(arguments)) => Some(
                LogEntry { index, term, operation, requester, arguments },
            ),
            _ => None,
        }
    }
}

proof fn lemma_entry_len(e: LogEntry)
    ensures
        spec_enc_entry(e).len() == 43,
{
    lemma_i32_round_trip(e.index);
    lemma_i32_round_trip(e.term);
    lemma_opt_i32_round_trip(e.requester);
    lemma_opt_i32_round_trip(e.arguments);
}

pub proof fn lemma_entry_round_trip(e: LogEntry)
    ensures
        spec_enc_entry(e).len() == 43,
        spec_dec_entry(spec_enc_entry(e)) == Some(e),
{
    lemma_i32_round_trip(e.index);
    lemma_i32_round_trip(e.term);
    lemma_opt_i32_round_trip(e.requester);
    lemma_opt_i32_round_trip(e.arguments);
    let s = spec_enc_entry(e);
    assert_seqs_equal!(s.subrange(0, 10) == spec_enc_i32(e.index));
    assert_seqs_equal!(s.subrange(10, 20) == spec_enc_i32(e.term));
    assert(s[20] == spec_enc_op(e.operation));
    assert_seqs_equal!(s.subrange(21, 32) == spec_enc_opt_i32(e.requester));
    assert_seqs_equal!(s.subrange(32, 43) == spec_enc_opt_i32(e.arguments));
}

fn push_entry(out: &mut Vec<u8>, e: &LogEntry)
    ensures
        final(out)@ == old(out)@ + spec_enc_entry(*e),
{
    push_i32(out, e.index);
    push_i32(out, e.term);
    let op: u8 = match e.operation {
        None => 88,
        Some(Operation::Nop) => 78,
        Some(Operation::Enqueue) => 69,
        Some(Operation::Dequeue) => 68,
    };
    out.push(op);
    push_opt_i32(out, &e.requester);
    push_opt_i32(out, &e.arguments);
    proof {
        assert_seqs_equal!(final(out)@ == old(out)@ + spec_enc_entry(*e));
    }
}

fn read_entry(s: &Vec<u8>, pos: usize) -> (r: Option<LogEntry>)
    requires
        pos + 43 <= s@.len(),
    ensures
        match r {
            Some(e) => spec_dec_entry(s@.subrange(pos as int, pos as int + 43)) == Some(e),
            None => spec_dec_entry(s@.subrange(pos as int, pos as int + 43)) is None,
        },
{
    let ghost sub = s@.subrange(pos as int, pos as int + 43);
    let slen = s.len();
    assert(pos + 43 <= slen);
    proof {
        assert_seqs_equal!(sub.subrange(0, 10) == s@.subrange(pos as int, pos as int + 10));
        assert_seqs_equal!(sub.subrange(10, 20) == s@.subrange(pos as int + 10, pos as int + 20));
        assert_seqs_equal!(sub.subrange(21, 32) == s@.subrange(pos as int + 21, pos as int + 32));
        assert_seqs_equal!(sub.subrange(32, 43) == s@.subrange(pos as int + 32, pos as int + 43));
        assert(sub[20] == s@[pos + 20]);
    }
    let index = match read_i32(s, pos) {
        Some(v) => v,
        None => {
            return None;
        },
    };
    let term = match read_i32(s, pos + 10) {
        Some(v) => v,
        None => {
            return None;
        },
    };
    let opb = s[pos + 20];
    let operation: Option<Operation> = if opb == 88 {
        None
    } else if opb == 78 {
        Some(Operation::Nop)
    } else if opb == 69 {
        Some(Operation::Enqueue)
    } else if opb == 68 {
        Some(Operation::Dequeue)
    } else {
        return None;
    };
    let requester = match read_opt_i32(s, pos + 21) {
        Some(o) => o,
        None => {
            return None;
        },
    };
    let arguments = match read_opt_i32(s, pos + 32) {
        Some(o) => o,
        None => {
            return None;
        },
    };
    Some(LogEntry { index, term, operation, requester, arguments })
}

/// The concatenated encodings of a list of entries.
pub open spec fn spec_enc_entries(es: Seq<LogEntry>) -> Seq<u8>
    decreases es.len(),
{
    if es.len() == 0 {
        Seq::empty()
    } else {
        spec_enc_entries(es.drop_last()) + spec_enc_entry(es.last())
    }
}

proof fn lemma_enc_entries_len(es: Seq<LogEntry>)
    ensures
        spec_enc_entries(es).len() == 43 * es.len(),
    decreases es.len(),
{
    if es.len() > 0 {
        lemma_enc_entries_len(es.drop_last());
        lemma_entry_len(es.last());
    }
}

proof fn lemma_enc_entries_first(es: Seq<LogEntry>)
    requires
        es.len() > 0,
    ensures
        spec_enc_entries(es) == spec_enc_entry(es.first()) + spec_enc_entries(es.skip(1)),
    decreases es.len(),
{
    if es.len() == 1 {
        assert(es.drop_last() =~= Seq::<LogEntry>::empty());
        assert(es.skip(1) =~= Seq::<LogEntry>::empty());
        assert(es.last() == es.first());
        assert_seqs_equal!(
            Seq::<u8>::empty() + spec_enc_entry(es.last())
            == spec_enc_entry(es.first()) + Seq::<u8>::empty()
        );
    } else {
        lemma_enc_entries_first(es.drop_last());
        assert(es.drop_last().first() == es.first());
        assert_seqs_equal!(es.drop_last().skip(1) == es.skip(1).drop_last());
        assert(es.skip(1).last() == es.last());
        assert(es.skip(1).len() > 0);
        assert_seqs_equal!(
            (spec_enc_entry(es.first()) + spec_enc_entries(es.skip(1).drop_last()))
                + spec_enc_entry(es.last())
            == spec_enc_entry(es.first())
                + (spec_enc_entries(es.skip(1).drop_last()) + spec_enc_entry(es.last()))
        );
    }
}

/// Decode exactly `n` entries out of `s`; `s` must hold nothing else.
pub open spec fn spec_dec_entries(s: Seq<u8>, n: nat) -> Option<Seq<LogEntry>>
    decreases n,
{
    if n == 0 {
        if s.len() == 0 {
            Some(Seq::empty())
        } else {
            None
        }
    } else if s.len() < 43 {
        None
    } else {
        match (spec_dec_entry(s.take(43)), spec_dec_entries(s.skip(43), (n - 1) as nat)) {
            (Some(e), Some(rest)) => Some(seq![e] + rest),
            _ => None,
        }
    }
}

proof fn lemma_dec_entries_size(s: Seq<u8>, n: nat)
    requires
        spec_dec_entries(s, n) is Some,
    ensures
        s.len() == 43 * n,
        spec_dec_entries(s, n).unwrap().len() == n,
    decreases n,
{
    if n > 0 {
        lemma_dec_entries_size(s.skip(43), (n - 1) as nat);
    }
}

proof fn lemma_entries_round_trip(es: Seq<LogEntry>)
    ensures
        spec_dec_entries(spec_enc_entries(es), es.len()) == Some(es),
    decreases es.len(),
{
    if es.len() == 0 {
    } else {
        lemma_enc_entries_first(es);
        lemma_entries_round_trip(es.skip(1));
        lemma_entry_round_trip(es.first());
        lemma_enc_entries_len(es.skip(1));
        let s = spec_enc_entries(es);
        assert_seqs_equal!(s.take(43) == spec_enc_entry(es.first()));
        assert_seqs_equal!(s.skip(43) == spec_enc_entries(es.skip(1)));
        assert_seqs_equal!(seq![es.first()] + es.skip(1) == es);
    }
}

/// Whether an event can be encoded: entry lists fit the count field.
pub open spec fn event_wf(m: EventsModel) -> bool {
    match m {
        EventsModel::AppendEntryRequest(r) => r.entries.len() < 0x1_0000_0000,
        _ => true,
    }
}

/// The full encoding of one event: a tag byte then the fields.
pub open spec fn spec_enc_event(m: EventsModel) -> Seq<u8> {
    match m {
        EventsModel::ClientEnqueueResponse(r) => seq![82u8] + spec_enc_i32(r.val) + spec_enc_i32(
            r.client_id,
        ) + spec_enc_i32(r.log_index),
        EventsModel::LogEntry(e) => seq![76u8] + spec_enc_entry(e),
        EventsModel::AppendEntryRequest(r) => seq![65u8] + spec_enc_i32(r.term) + spec_enc_i32(
            r.leader_id,
        ) + spec_enc_i32(r.prev_log_index) + spec_enc_i32(r.prev_log_term) + spec_enc_i32(
            r.leader_commit,
        ) + spec_enc_digits(r.entries.len() as int, 10) + spec_enc_entries(r.entries),
        EventsModel::AppendEntryResponse(r) => seq![80u8] + spec_enc_i32(r.term) + spec_enc_i32(
            r.log_index,
        ) + spec_enc_bool(r.success),
        EventsModel::ClientEnqueueRequest(r) => seq![81u8] + spec_enc_i32(r.val) + spec_enc_i32(
            r.client_id,
        ),
    }
}

/// What a byte string decodes to, when it is a whole well-formed encoding.
pub open spec fn spec_dec_event(s: Seq<u8>) -> Option<EventsModel> {
    if s.len() == 0 {
        None
    } else if s[0] == 82 {
        if s.len() == 31 {
            match (
                spec_dec_i32(s.subrange(1, 11)),
                spec_dec_i32(s.subrange(11, 21)),
                spec_dec_i32(s.subrange(21, 31)),
            ) {
                (Some(val), Some(client_id), Some(log_index)) => Some(
                    EventsModel::ClientEnqueueResponse(
                        ClientEnqueueResponse { val, client_id, log_index },
                    ),
                ),
                _ => None,
            }
        } else {
            None
        }
    } else if s[0] == 76 {
        if s.len() == 44 {
            match spec_dec_entry(s.subrange(1, 44)) {
                Some(e) => Some(EventsModel::LogEntry(e)),
                None => None,
            }
        } else {
            None
        }
    } else if s[0] == 65 {
        if s.len() >= 61 {
            match (
                spec_dec_i32(s.subrange(1, 11)),
                spec_dec_i32(s.subrange(11, 21)),
                spec_dec_i32(s.subrange(21, 31)),
                spec_dec_i32(s.subrange(31, 41)),
                spec_dec_i32(s.subrange(41, 51)),
                spec_dec_digits(s.subrange(51, 61)),
            ) {
                (
                    Some(term),
                    Some(leader_id),
                    Some(prev_log_index),
                    Some(prev_log_term),
                    Some(leader_commit),
                    Some(count),
                ) => if count >= 0 {
                    match spec_dec_entries(s.skip(61), count as nat) {
                        Some(entries) => Some(
                            EventsModel::AppendEntryRequest(
                                AppendEntryRequestModel {
                                    term,
                                    leader_id,
                                    prev_log_index,
                                    prev_log_term,
                                    entries,
                                    leader_commit,
                                },
                            ),
                        ),
                        None => None,
                    }
                } else {
                    None
                },
                _ => None,
            }
        } else {
            None
        }
    } else if s[0] == 80 {
        if s.len() == 22 {
            match (
                spec_dec_i32(s.subrange(1, 11)),
                spec_dec_i32(s.subrange(11, 21)),
                spec_dec_bool(s[21]),
            ) {
                (Some(term), Some(log_index), Some(success)) => Some(
                    EventsModel::AppendEntryResponse(
                        AppendEntryResponse { term, log_index, success },
                    ),
                ),
                _ => None,
            }
        } else {
            None
        }
    } else if s[0] == 81 {
        if s.len() == 21 {
            match (spec_dec_i32(s.subrange(1, 11)), spec_dec_i32(s.subrange(11, 21))) {
                (Some(val), Some(client_id)) => Some(
                    EventsModel::ClientEnqueueRequest(ClientEnqueueRequest { val, client_id }),
                ),
                _ => None,
            }
        } else {
            None
        }
    } else {
        None
    }
}

/// Encode one event as bytes.
#[verifier::loop_isolation(false)]
pub fn encode_event(e: &Events) -> (out: Vec<u8>)
    requires
        event_wf(e@),
    ensures
        out@ == spec_enc_event(e@),
{
    let mut out: Vec<u8> = Vec::new();
    match e {
        Events::ClientEnqueueResponse(r) => {
            out.push(82);
            push_i32(&mut out, r.val);
            push_i32(&mut out, r.client_id);
            push_i32(&mut out, r.log_index);
            proof {
                assert_seqs_equal!(out@ == spec_enc_event(e@));
            }
        },
        Events::LogEntry(entry) => {
            out.push(76);
            push_entry(&mut out, entry);
            proof {
                assert_seqs_equal!(out@ == spec_enc_event(e@));
            }
        },
        Events::AppendEntryRequest(r) => {
            out.push(65);
            push_i32(&mut out, r.term);
            push_i32(&mut out, r.leader_id);
            push_i32(&mut out, r.prev_log_index);
            push_i32(&mut out, r.prev_log_term);
            push_i32(&mut out, r.leader_commit);
            push_digits(&mut out, r.entries.len() as u64);
            let ghost header = out@;
            let mut i: usize = 0;
            while i < r.entries.len()
                invariant
                    0 <= i <= r.entries@.len(),
                    out@ == header + spec_enc_entries(r.entries@.subrange(0, i as int)),
                decreases r.entries@.len() - i,
            {
                push_entry(&mut out, &r.entries[i]);
                proof {
                    let pre = r.entries@.subrange(0, i as int);
                    let post = r.entries@.subrange(0, i as int + 1);
                    assert(post.last() == r.entries@[i as int]);
                    assert_seqs_equal!(post.drop_last() == pre);
                    assert_seqs_equal!(
                        (header + spec_enc_entries(pre)) + spec_enc_entry(r.entries@[i as int])
                        == header + (spec_enc_entries(pre) + spec_enc_entry(r.entries@[i as int]))
                    );
                }
                i = i + 1;
            }
            proof {
                assert(r.entries@.subrange(0, r.entries@.len() as int) =~= r.entries@);
                assert_seqs_equal!(out@ == spec_enc_event(e@));
            }
        },
        Events::AppendEntryResponse(r) => {
            out.push(80);
            push_i32(&mut out, r.term);
            push_i32(&mut out, r.log_index);
            out.push(if r.success { 84 } else { 70 });
            proof {
                assert_seqs_equal!(out@ == spec_enc_event(e@));
            }
        },
        Events::ClientEnqueueRequest(r) => {
            out.push(81);
            push_i32(&mut out, r.val);
            push_i32(&mut out, r.client_id);
            proof {
                assert_seqs_equal!(out@ == spec_enc_event(e@));
            }
        },
    }
    out
}

/// Decode a whole byte string into one event; `None` when it is not an
/// encoding the grammar produces.
#[verifier::loop_isolation(false)]
pub fn decode_event(s: &Vec<u8>) -> (r: Option<Events>)
    ensures
        match r {
            Some(ev) => spec_dec_event(s@) == Some(ev@),
            None => spec_dec_event(s@) is None,
        },
{
    let slen = s.len();
    if slen == 0 {
        return None;
    }
    let tag = s[0];
    if tag == 82 {
        if slen != 31 {
            return None;
        }
        let val = match read_i32(s, 1) {
            Some(v) => v,
            None => {
                return None;
            },
        };
        let client_id = match read_i32(s, 11) {
            Some(v) => v,
            None => {
                return None;
            },
        };
        let log_index = match read_i32(s, 21) {
            Some(v) => v,
            None => {
                return None;
            },
        };
        Some(Events::ClientEnqueueResponse(ClientEnqueueResponse { val, client_id, log_index }))
    } else if tag == 76 {
        if slen != 44 {
            return None;
        }
        match read_entry(s, 1) {
            Some(entry) => Some(Events::LogEntry(entry)),
            None => None,
        }
    } else if tag == 65 {
        if slen < 61 {
            return None;
        }
        let term = match read_i32(s, 1) {
            Some(v) => v,
            None => {
                return None;
            },
        };
        let leader_id = match read_i32(s, 11) {
            Some(v) => v,
            None => {
                return None;
            },
        };
        let prev_log_index = match read_i32(s, 21) {
            Some(v) => v,
            None => {
                return None;
            },
        };
        let prev_log_term = match read_i32(s, 31) {
            Some(v) => v,
            None => {
                return None;
            },
        };
        let leader_commit = match read_i32(s, 41) {
            Some(v) => v,
            None => {
                return None;
            },
        };
        let count = match read_digits(s, 51) {
            Some(v) => v,
            None => {
                return None;
            },
        };
        let ghost cnat = count as nat;
        proof {
            lemma_dec_digits_bound(s@.subrange(51, 61));
            lemma_pow10_10();
        }
        if (slen as u64 - 61) != count * 43 {
            proof {
                lemma_dec_entries_mismatch(s@.skip(61), cnat);
            }
            return None;
        }
        proof {
            assert(count * 43 == slen - 61);
            assert(count <= count * 43) by (nonlinear_arith)
                requires
                    count >= 0,
            ;
        }
        let count_usize: usize = count as usize;
        let mut entries: Vec<LogEntry> = Vec::new();
        let mut i: usize = 0;
        while i < count_usize
            invariant
                0 <= i <= count_usize,
                count_usize == cnat,
                slen == s@.len(),
                61 + 43 * cnat == slen,
                entries@.len() == i,
                match spec_dec_entries(s@.skip(61 + 43 * i as int), (cnat - i) as nat) {
                    Some(rest) => spec_dec_entries(s@.skip(61), cnat) == Some(entries@ + rest),
                    None => spec_dec_entries(s@.skip(61), cnat) is None,
                },
            decreases count_usize - i,
        {
            let pos = 61 + 43 * i;
            let ghost tail = s@.skip(61 + 43 * i as int);
            proof {
                assert(43 * (i as int) < 43 * (cnat as int));
                assert_seqs_equal!(tail.take(43)
                    == s@.subrange(61 + 43 * i as int, 61 + 43 * i as int + 43));
                assert_seqs_equal!(tail.skip(43) == s@.skip(61 + 43 * (i as int + 1)));
            }
            let entry = match read_entry(s, pos) {
                Some(en) => en,
                None => {
                    proof {
                        assert(spec_dec_entry(tail.take(43)) is None);
                        assert(tail.len() == 43 * ((cnat - i) as int));
                        assert(spec_dec_entries(tail, (cnat - i) as nat) is None);
                        assert(spec_dec_entries(s@.skip(61), cnat) is None);
                        assert(spec_dec_event(s@) is None);
                    }
                    return None;
                },
            };
            entries.push(entry);
            proof {
                let ghost prev_entries = entries@.drop_last();
                assert(spec_dec_entry(tail.take(43)) == Some(entry));
                match spec_dec_entries(s@.skip(61 + 43 * (i as int + 1)), (cnat - i - 1) as nat) {
                    Some(rest2) => {
                        assert(spec_dec_entries(tail, (cnat - i) as nat) == Some(
                            seq![entry] + rest2,
                        ));
                        assert_seqs_equal!(
                            prev_entries + (seq![entry] + rest2) == entries@ + rest2
                        );
                    },
                    None => {
                        assert(spec_dec_entries(tail, (cnat - i) as nat) is None);
                    },
                }
            }
            i = i + 1;
        }
        proof {
            assert(s@.skip(61 + 43 * cnat as int).len() == 0);
            assert(spec_dec_entries(s@.skip(61 + 43 * cnat as int), 0) == Some(
                Seq::<LogEntry>::empty(),
            ));
            assert_seqs_equal!(entries@ + Seq::<LogEntry>::empty() == entries@);
        }
        Some(
            Events::AppendEntryRequest(
                AppendEntryRequest {
                    term,
                    leader_id,
                    prev_log_index,
                    prev_log_term,
                    entries,
                    leader_commit,
                },
            ),
        )
    } else if tag == 80 {
        if slen != 22 {
            return None;
        }
        let term = match read_i32(s, 1) {
            Some(v) => v,
            None => {
                return None;
            },
        };
        let log_index = match read_i32(s, 11) {
            Some(v) => v,
            None => {
                return None;
            },
        };
        let sb = s[21];
        let success = if sb == 84 {
            true
        } else if sb == 70 {
            false
        } else {
            return None;
        };
        Some(Events::AppendEntryResponse(AppendEntryResponse { term, log_index, success }))
    } else if tag == 81 {
        if slen != 21 {
            return None;
        }
        let val = match read_i32(s, 1) {
            Some(v) => v,
            None => {
                return None;
            },
        };
        let client_id = match read_i32(s, 11) {
            Some(v) => v,
            None => {
                return None;
            },
        };
        Some(Events::ClientEnqueueRequest(ClientEnqueueRequest { val, client_id }))
    } else {
        None
    }
}

proof fn lemma_dec_entries_mismatch(s: Seq<u8>, n: nat)
    requires
        s.len() != 43 * n,
    ensures
        spec_dec_entries(s, n) is None,
{
    if spec_dec_entries(s, n) is Some {
        lemma_dec_entries_size(s, n);
    }
}

/// The codec is round-trippable: decoding the encoding of any well-formed
/// event yields that event.
pub proof fn lemma_event_round_trip(m: EventsModel)
    requires
        event_wf(m),
    ensures
        spec_dec_event(spec_enc_event(m)) == Some(m),
{
    let s = spec_enc_event(m);
    match m {
        EventsModel::ClientEnqueueResponse(r) => {
            lemma_i32_round_trip(r.val);
            lemma_i32_round_trip(r.client_id);
            lemma_i32_round_trip(r.log_index);
            assert_seqs_equal!(s.subrange(1, 11) == spec_enc_i32(r.val));
            assert_seqs_equal!(s.subrange(11, 21) == spec_enc_i32(r.client_id));
            assert_seqs_equal!(s.subrange(21, 31) == spec_enc_i32(r.log_index));
        },
        EventsModel::LogEntry(e) => {
            lemma_entry_round_trip(e);
            assert_seqs_equal!(s.subrange(1, 44) == spec_enc_entry(e));
        },
        EventsModel::AppendEntryRequest(r) => {
            lemma_i32_round_trip(r.term);
            lemma_i32_round_trip(r.leader_id);
            lemma_i32_round_trip(r.prev_log_index);
            lemma_i32_round_trip(r.prev_log_term);
            lemma_i32_round_trip(r.leader_commit);
            lemma_pow10_10();
            lemma_digits_round_trip(r.entries.len() as int, 10);
            lemma_enc_entries_len(r.entries);
            lemma_entries_round_trip(r.entries);
            assert_seqs_equal!(s.subrange(1, 11) == spec_enc_i32(r.term));
            assert_seqs_equal!(s.subrange(11, 21) == spec_enc_i32(r.leader_id));
            assert_seqs_equal!(s.subrange(21, 31) == spec_enc_i32(r.prev_log_index));
            assert_seqs_equal!(s.subrange(31, 41) == spec_enc_i32(r.prev_log_term));
            assert_seqs_equal!(s.subrange(41, 51) == spec_enc_i32(r.leader_commit));
            assert_seqs_equal!(s.subrange(51, 61)
                == spec_enc_digits(r.entries.len() as int, 10));
            assert_seqs_equal!(s.skip(61) == spec_enc_entries(r.entries));
            assert(spec_dec_event(s) =~~= Some(m));
        },
        EventsModel::AppendEntryResponse(r) => {
            lemma_i32_round_trip(r.term);
            lemma_i32_round_trip(r.log_index);
            assert_seqs_equal!(s.subrange(1, 11) == spec_enc_i32(r.term));
            assert_seqs_equal!(s.subrange(11, 21) == spec_enc_i32(r.log_index));
            assert(s[21] == spec_enc_bool(r.success)[0]);
        },
        EventsModel::ClientEnqueueRequest(r) => {
            lemma_i32_round_trip(r.val);
            lemma_i32_round_trip(r.client_id);
            assert_seqs_equal!(s.subrange(1, 11) == spec_enc_i32(r.val));
            assert_seqs_equal!(s.subrange(11, 21) == spec_enc_i32(r.client_id));
        },
    }
}

} // verus!
