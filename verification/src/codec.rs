//! The record codec: the fixed-width key+count record, its textual and
//! binary encodings, and its total order over keys.

use vstd::prelude::*;
use vstd::string::StrSliceExecFns;
use vstd::string::StringSliceAdditionalSpecFns;

verus! {

/// A single record: a 160-bit key held as five 32-bit words in order of
/// decreasing significance (`w0` is most significant), plus a count.
/// The key orders records; the count does not.
#[derive(Clone, Copy, Debug, PartialEq, Eq, Structural)]
pub struct Entry {
    pub w0: u32,
    pub w1: u32,
    pub w2: u32,
    pub w3: u32,
    pub w4: u32,
    pub count: u32,
}

/// The fatal error kinds of the pipeline. Every failure aborts the whole
/// sort: a silently dropped or misordered record would corrupt every
/// downstream lookup.
#[derive(Clone, Copy, Debug, PartialEq, Eq, Structural)]
pub enum Error {
    /// A line whose key is not exactly 40 hexadecimal characters, or whose
    /// count is not a decimal integer that fits in 32 bits.
    MalformedRecord,
    /// An open, read, write, flush or seal failure on a file.
    IoFailure,
    /// Temporary storage could not be allocated.
    ResourceExhaustion,
}

/// Strict lexicographic order on the five key words, most significant first.
pub open spec fn key_lt(a: Entry, b: Entry) -> bool {
    a.w0 < b.w0 || (a.w0 == b.w0 && (a.w1 < b.w1 || (a.w1 == b.w1 && (a.w2 < b.w2 || (a.w2
        == b.w2 && (a.w3 < b.w3 || (a.w3 == b.w3 && a.w4 < b.w4)))))))
}

/// Two records carry the same key (their counts may differ).
pub open spec fn key_eq(a: Entry, b: Entry) -> bool {
    a.w0 == b.w0 && a.w1 == b.w1 && a.w2 == b.w2 && a.w3 == b.w3 && a.w4 == b.w4
}

/// Non-strict key order: the order every run and the final output obey.
pub open spec fn key_le(a: Entry, b: Entry) -> bool {
    key_lt(a, b) || key_eq(a, b)
}

/// ASCII hexadecimal digit, either case.
pub open spec fn is_hex_digit(b: u8) -> bool {
    (48 <= b && b <= 57) || (65 <= b && b <= 70) || (97 <= b && b <= 102)
}

/// Numeric value of a hexadecimal digit byte.
pub open spec fn hex_digit_val(b: u8) -> int {
    if 48 <= b && b <= 57 {
        b - 48
    } else if 65 <= b && b <= 70 {
        b - 55
    } else {
        b - 87
    }
}

/// Value of eight hexadecimal digit bytes, most significant first.
pub open spec fn hex8_val(s: Seq<u8>) -> u32
    recommends
        s.len() == 8,
{
    (((((((hex_digit_val(s[0]) * 16 + hex_digit_val(s[1])) * 16 + hex_digit_val(s[2])) * 16
        + hex_digit_val(s[3])) * 16 + hex_digit_val(s[4])) * 16 + hex_digit_val(s[5])) * 16
        + hex_digit_val(s[6])) * 16 + hex_digit_val(s[7])) as u32
}

/// A well-formed key: exactly 40 hexadecimal digit bytes.
pub open spec fn valid_key(s: Seq<u8>) -> bool {
    s.len() == 40 && forall|i: int| 0 <= i < 40 ==> is_hex_digit(#[trigger] s[i])
}

/// Word `k` of a 40-digit key: the value of digits `[8k, 8k+8)`.
pub open spec fn key_word(s: Seq<u8>, k: int) -> u32
    recommends
        s.len() == 40,
        0 <= k < 5,
{
    hex8_val(s.subrange(8 * k, 8 * k + 8))
}

/// ASCII decimal digit.
pub open spec fn is_dec_digit(b: u8) -> bool {
    48 <= b && b <= 57
}

/// Value of a decimal digit string, most significant first.
pub open spec fn dec_val(s: Seq<u8>) -> int
    decreases s.len(),
{
    if s.len() == 0 {
        0
    } else {
        dec_val(s.drop_last()) * 10 + s.last() - 48
    }
}

/// A well-formed count: a non-empty digit string whose value fits in 32 bits.
pub open spec fn valid_count(s: Seq<u8>) -> bool {
    s.len() >= 1 && (forall|i: int| 0 <= i < s.len() ==> is_dec_digit(#[trigger] s[i]))
        && dec_val(s) <= u32::MAX
}

/// A well-formed input line: a 40-digit key, a colon, and a count.
pub open spec fn valid_line(s: Seq<u8>) -> bool {
    s.len() >= 42 && valid_key(s.subrange(0, 40)) && s[40] == 58 && valid_count(
        s.subrange(41, s.len() as int),
    )
}

/// The record a well-formed line denotes.
pub open spec fn line_record(s: Seq<u8>) -> Entry
    recommends
        valid_line(s),
{
    Entry {
        w0: key_word(s.subrange(0, 40), 0),
        w1: key_word(s.subrange(0, 40), 1),
        w2: key_word(s.subrange(0, 40), 2),
        w3: key_word(s.subrange(0, 40), 3),
        w4: key_word(s.subrange(0, 40), 4),
        count: dec_val(s.subrange(41, s.len() as int)) as u32,
    }
}

/// The value of a digit string is never below the value of any of its
/// prefixes: appended digits only grow it.
proof fn lemma_dec_val_prefix(s: Seq<u8>, k: int)
    requires
        forall|i: int| 0 <= i < s.len() ==> is_dec_digit(#[trigger] s[i]),
        0 <= k <= s.len(),
    ensures
        dec_val(s.subrange(0, k)) >= 0,
        dec_val(s) >= dec_val(s.subrange(0, k)),
    decreases s.len(),
{
    if s.len() == 0 {
        assert(s.subrange(0, k) =~= s);
    } else if k == s.len() {
        assert(s.subrange(0, k) =~= s);
        lemma_dec_val_prefix(s.drop_last(), k - 1);
    } else {
        let t = s.drop_last();
        assert(t.subrange(0, k) =~= s.subrange(0, k));
        lemma_dec_val_prefix(t, k);
    }
}

/// The uppercase hexadecimal digit byte for a value below 16.
pub open spec fn hex_byte_of(d: int) -> u8 {
    if d < 10 {
        (48 + d) as u8
    } else {
        (55 + d) as u8
    }
}

/// The eight uppercase hexadecimal digits of a 32-bit word, most
/// significant first.
pub open spec fn hex8_of(w: u32) -> Seq<u8> {
    let r6 = w / 16;
    let r5 = r6 / 16;
    let r4 = r5 / 16;
    let r3 = r4 / 16;
    let r2 = r3 / 16;
    let r1 = r2 / 16;
    let r0 = r1 / 16;
    seq![
        hex_byte_of((r0 % 16) as int),
        hex_byte_of((r1 % 16) as int),
        hex_byte_of((r2 % 16) as int),
        hex_byte_of((r3 % 16) as int),
        hex_byte_of((r4 % 16) as int),
        hex_byte_of((r5 % 16) as int),
        hex_byte_of((r6 % 16) as int),
        hex_byte_of((w % 16) as int),
    ]
}

/// The canonical decimal digit string of a non-negative number.
pub open spec fn dec_text_of(n: int) -> Seq<u8>
    decreases n,
{
    if n < 10 {
        seq![(48 + n) as u8]
    } else {
        dec_text_of(n / 10).push((48 + n % 10) as u8)
    }
}

/// The textual encoding of a record: 40 uppercase hexadecimal digits, a
/// colon, and the decimal count.
pub open spec fn text_of(e: Entry) -> Seq<u8> {
    hex8_of(e.w0) + hex8_of(e.w1) + hex8_of(e.w2) + hex8_of(e.w3) + hex8_of(e.w4) + seq![58u8]
        + dec_text_of(e.count as int)
}

/// The four bytes of a 32-bit word, least significant first.
pub open spec fn le4(w: u32) -> Seq<u8> {
    let r1 = w / 256;
    let r2 = r1 / 256;
    let r3 = r2 / 256;
    seq![(w % 256) as u8, (r1 % 256) as u8, (r2 % 256) as u8, (r3 % 256) as u8]
}

/// The fixed 24-byte binary encoding of a record: the five key words, then
/// the count, each as four little-endian bytes.
pub open spec fn bin_of(e: Entry) -> Seq<u8> {
    le4(e.w0) + le4(e.w1) + le4(e.w2) + le4(e.w3) + le4(e.w4) + le4(e.count)
}

/// The word read from the four little-endian bytes at offset `k`.
pub open spec fn le4_val(s: Seq<u8>, k: int) -> u32
    recommends
        0 <= k,
        k + 4 <= s.len(),
{
    (s[k] + s[k + 1] * 256 + s[k + 2] * 65536 + s[k + 3] * 16777216) as u32
}

/// The record a 24-byte binary encoding denotes.
pub open spec fn bin_record(s: Seq<u8>) -> Entry
    recommends
        s.len() == 24,
{
    Entry {
        w0: le4_val(s, 0),
        w1: le4_val(s, 4),
        w2: le4_val(s, 8),
        w3: le4_val(s, 12),
        w4: le4_val(s, 16),
        count: le4_val(s, 20),
    }
}

/// The hexadecimal digits of a word read back as that word: one half of
/// the textual round trip.
pub proof fn lemma_hex8_round_trip(w: u32)
    ensures
        hex8_of(w).len() == 8,
        forall|i: int| 0 <= i < 8 ==> is_hex_digit(#[trigger] hex8_of(w)[i]),
        hex8_val(hex8_of(w)) == w,
{
    let s = hex8_of(w);
    let r6 = w / 16;
    let r5 = r6 / 16;
    let r4 = r5 / 16;
    let r3 = r4 / 16;
    let r2 = r3 / 16;
    let r1 = r2 / 16;
    let r0 = r1 / 16;
    assert(r0 < 16);
    assert(forall|d: int| 0 <= d < 16 ==> is_hex_digit(#[trigger] hex_byte_of(d)));
    assert(forall|d: int| 0 <= d < 16 ==> hex_digit_val(#[trigger] hex_byte_of(d)) == d);
    assert(s[0] == hex_byte_of((r0 % 16) as int));
    assert(s[1] == hex_byte_of((r1 % 16) as int));
    assert(s[2] == hex_byte_of((r2 % 16) as int));
    assert(s[3] == hex_byte_of((r3 % 16) as int));
    assert(s[4] == hex_byte_of((r4 % 16) as int));
    assert(s[5] == hex_byte_of((r5 % 16) as int));
    assert(s[6] == hex_byte_of((r6 % 16) as int));
    assert(s[7] == hex_byte_of((w % 16) as int));
    assert(r0 % 16 == r0);
    assert(r0 * 16 + r1 % 16 == r1);
    assert(r1 * 16 + r2 % 16 == r2);
    assert(r2 * 16 + r3 % 16 == r3);
    assert(r3 * 16 + r4 % 16 == r4);
    assert(r4 * 16 + r5 % 16 == r5);
    assert(r5 * 16 + r6 % 16 == r6);
    assert(r6 * 16 + w % 16 == w);
}

/// The digit string of a number is made of digits and reads back as that
/// number: the other half of the textual round trip.
pub proof fn lemma_dec_round_trip(n: int)
    requires
        0 <= n,
    ensures
        dec_text_of(n).len() >= 1,
        forall|i: int| 0 <= i < dec_text_of(n).len() ==> is_dec_digit(#[trigger] dec_text_of(n)[i]),
        dec_val(dec_text_of(n)) == n,
    decreases n,
{
    if n < 10 {
        let s = dec_text_of(n);
        assert(s.drop_last() =~= Seq::<u8>::empty());
        assert(dec_val(s) == dec_val(s.drop_last()) * 10 + s.last() - 48);
    } else {
        lemma_dec_round_trip(n / 10);
        let t = dec_text_of(n / 10);
        let s = dec_text_of(n);
        assert(s == t.push((48 + n % 10) as u8));
        assert(s.drop_last() =~= t);
        assert(dec_val(s) == dec_val(t) * 10 + s.last() - 48);
        assert(forall|i: int| 0 <= i < s.len() - 1 ==> s[i] == t[i]);
    }
}

/// Four little-endian bytes of a word read back as that word.
proof fn lemma_le4_round_trip(w: u32)
    ensures
        le4(w).len() == 4,
        le4_val(le4(w), 0) == w,
{
    let r1 = w / 256;
    let r2 = r1 / 256;
    let r3 = r2 / 256;
    assert(r3 < 256);
    assert(w == 256 * r1 + w % 256);
    assert(r1 == 256 * r2 + r1 % 256);
    assert(r2 == 256 * r3 + r2 % 256);
}

/// A record decoded from its own binary encoding is itself.
pub proof fn lemma_binary_round_trip(e: Entry)
    ensures
        bin_of(e).len() == 24,
        bin_record(bin_of(e)) == e,
{
    lemma_le4_round_trip(e.w0);
    lemma_le4_round_trip(e.w1);
    lemma_le4_round_trip(e.w2);
    lemma_le4_round_trip(e.w3);
    lemma_le4_round_trip(e.w4);
    lemma_le4_round_trip(e.count);
    let s = bin_of(e);
    assert(le4_val(s, 0) == le4_val(le4(e.w0), 0)) by {
        assert(s[0] == le4(e.w0)[0] && s[1] == le4(e.w0)[1] && s[2] == le4(e.w0)[2] && s[3] == le4(
            e.w0,
        )[3]);
    }
    assert(le4_val(s, 4) == le4_val(le4(e.w1), 0)) by {
        assert(s[4] == le4(e.w1)[0] && s[5] == le4(e.w1)[1] && s[6] == le4(e.w1)[2] && s[7] == le4(
            e.w1,
        )[3]);
    }
    assert(le4_val(s, 8) == le4_val(le4(e.w2), 0)) by {
        assert(s[8] == le4(e.w2)[0] && s[9] == le4(e.w2)[1] && s[10] == le4(e.w2)[2] && s[11]
            == le4(e.w2)[3]);
    }
    assert(le4_val(s, 12) == le4_val(le4(e.w3), 0)) by {
        assert(s[12] == le4(e.w3)[0] && s[13] == le4(e.w3)[1] && s[14] == le4(e.w3)[2] && s[15]
            == le4(e.w3)[3]);
    }
    assert(le4_val(s, 16) == le4_val(le4(e.w4), 0)) by {
        assert(s[16] == le4(e.w4)[0] && s[17] == le4(e.w4)[1] && s[18] == le4(e.w4)[2] && s[19]
            == le4(e.w4)[3]);
    }
    assert(le4_val(s, 20) == le4_val(le4(e.count), 0)) by {
        assert(s[20] == le4(e.count)[0] && s[21] == le4(e.count)[1] && s[22] == le4(e.count)[2]
            && s[23] == le4(e.count)[3]);
    }
}

/// Every byte of a textual encoding is printable ASCII.
#[verifier::rlimit(100)]
proof fn lemma_text_bytes_ascii(e: Entry)
    ensures
        forall|i: int| 0 <= i < text_of(e).len() ==> text_of(e)[i] < 128,
{
    lemma_hex8_round_trip(e.w0);
    lemma_hex8_round_trip(e.w1);
    lemma_hex8_round_trip(e.w2);
    lemma_hex8_round_trip(e.w3);
    lemma_hex8_round_trip(e.w4);
    lemma_dec_round_trip(e.count as int);
    let t = text_of(e);
    assert forall|i: int| 0 <= i < t.len() implies t[i] < 128 by {
        if i < 8 {
            assert(t[i] == hex8_of(e.w0)[i]);
        } else if i < 16 {
            assert(t[i] == hex8_of(e.w1)[i - 8]);
        } else if i < 24 {
            assert(t[i] == hex8_of(e.w2)[i - 16]);
        } else if i < 32 {
            assert(t[i] == hex8_of(e.w3)[i - 24]);
        } else if i < 40 {
            assert(t[i] == hex8_of(e.w4)[i - 32]);
        } else if i == 40 {
            assert(t[i] == 58);
        } else {
            assert(t[i] == dec_text_of(e.count as int)[i - 41]);
        }
    }
}

/// A record parsed back from its own textual encoding is itself.
#[verifier::rlimit(100)]
pub proof fn lemma_text_round_trip(e: Entry)
    ensures
        valid_line(text_of(e)),
        line_record(text_of(e)) == e,
{
    lemma_hex8_round_trip(e.w0);
    lemma_hex8_round_trip(e.w1);
    lemma_hex8_round_trip(e.w2);
    lemma_hex8_round_trip(e.w3);
    lemma_hex8_round_trip(e.w4);
    lemma_dec_round_trip(e.count as int);
    let t = text_of(e);
    let key = t.subrange(0, 40);
    assert(key.subrange(0, 8) =~= hex8_of(e.w0));
    assert(key.subrange(8, 16) =~= hex8_of(e.w1));
    assert(key.subrange(16, 24) =~= hex8_of(e.w2));
    assert(key.subrange(24, 32) =~= hex8_of(e.w3));
    assert(key.subrange(32, 40) =~= hex8_of(e.w4));
    assert forall|i: int| 0 <= i < 40 implies is_hex_digit(#[trigger] key[i]) by {
        if i < 8 {
            assert(key[i] == hex8_of(e.w0)[i]);
        } else if i < 16 {
            assert(key[i] == hex8_of(e.w1)[i - 8]);
        } else if i < 24 {
            assert(key[i] == hex8_of(e.w2)[i - 16]);
        } else if i < 32 {
            assert(key[i] == hex8_of(e.w3)[i - 24]);
        } else {
            assert(key[i] == hex8_of(e.w4)[i - 32]);
        }
    }
    assert(t[40] == 58);
    assert(t.subrange(41, t.len() as int) =~= dec_text_of(e.count as int));
    assert(valid_line(t));
    assert(key_word(key, 0) == e.w0);
    assert(key_word(key, 1) == e.w1);
    assert(key_word(key, 2) == e.w2);
    assert(key_word(key, 3) == e.w3);
    assert(key_word(key, 4) == e.w4);
}

/// The uppercase hexadecimal digit byte for a value below 16.
fn hex_byte(d: u32) -> (b: u8)
    requires
        d < 16,
    ensures
        b == hex_byte_of(d as int),
{
    if d < 10 {
        48 + d as u8
    } else {
        55 + d as u8
    }
}

/// Appends the eight hexadecimal digits of one key word.
fn push_hex8(out: &mut Vec<u8>, w: u32)
    ensures
        final(out)@ == old(out)@ + hex8_of(w),
{
    let r6 = w / 16;
    let r5 = r6 / 16;
    let r4 = r5 / 16;
    let r3 = r4 / 16;
    let r2 = r3 / 16;
    let r1 = r2 / 16;
    let r0 = r1 / 16;
    out.push(hex_byte(r0 % 16));
    out.push(hex_byte(r1 % 16));
    out.push(hex_byte(r2 % 16));
    out.push(hex_byte(r3 % 16));
    out.push(hex_byte(r4 % 16));
    out.push(hex_byte(r5 % 16));
    out.push(hex_byte(r6 % 16));
    out.push(hex_byte(w % 16));
    proof {
        assert(out@ =~= old(out)@ + hex8_of(w));
    }
}

/// Appends the decimal digits of the count, most significant first.
fn push_decimal(out: &mut Vec<u8>, n: u32)
    ensures
        final(out)@ == old(out)@ + dec_text_of(n as int),
    decreases n,
{
    if n < 10 {
        out.push(48 + n as u8);
        proof {
            assert(out@ =~= old(out)@ + dec_text_of(n as int));
        }
    } else {
        push_decimal(out, n / 10);
        out.push(48 + (n % 10) as u8);
        proof {
            assert(out@ =~= old(out)@ + dec_text_of(n as int));
        }
    }
}

/// Relies on `String::from_utf8`: ASCII bytes are valid UTF-8, and decode
/// to the characters whose code points equal the byte values.
#[verifier::external_body]
fn ascii_to_string(v: Vec<u8>) -> (s: String)
    requires
        forall|i: int| 0 <= i < v@.len() ==> v@[i] < 128,
    ensures
        s@ == Seq::new(v@.len(), |i: int| v@[i] as char),
{
    String::from_utf8(v).unwrap()
}

/// Little-endian bytes of one word, in order of increasing significance.
fn le4_parts(w: u32) -> (r: (u8, u8, u8, u8))
    ensures
        seq![r.0, r.1, r.2, r.3] == le4(w),
{
    let b0 = (w % 256) as u8;
    let r1 = w / 256;
    let b1 = (r1 % 256) as u8;
    let r2 = r1 / 256;
    let b2 = (r2 % 256) as u8;
    let r3 = r2 / 256;
    let b3 = (r3 % 256) as u8;
    proof {
        assert(seq![b0, b1, b2, b3] =~= le4(w));
    }
    (b0, b1, b2, b3)
}

/// The word held in the four little-endian bytes at offset `k`.
fn word_from(bytes: &[u8; 24], k: usize) -> (w: u32)
    requires
        k + 4 <= 24,
    ensures
        w == le4_val(bytes@, k as int),
{
    let b0 = bytes[k] as u32;
    let b1 = bytes[k + 1] as u32;
    let b2 = bytes[k + 2] as u32;
    let b3 = bytes[k + 3] as u32;
    b0 + b1 * 256 + b2 * 65536 + b3 * 16777216
}

/// The binary encoding of a whole run: each record's 24 bytes in order.
pub open spec fn bin_run_of(es: Seq<Entry>) -> Seq<u8>
    decreases es.len(),
{
    if es.len() == 0 {
        Seq::empty()
    } else {
        bin_run_of(es.drop_last()) + bin_of(es.last())
    }
}

/// The records a binary run denotes, one per 24-byte slot.
pub open spec fn bin_run_records(s: Seq<u8>) -> Seq<Entry>
    recommends
        s.len() % 24 == 0,
{
    Seq::new(s.len() / 24, |i: int| bin_record(s.subrange(24 * i, 24 * i + 24)))
}

/// The textual encoding of a whole run: one newline-terminated line per
/// record.
pub open spec fn text_run_of(es: Seq<Entry>) -> Seq<u8>
    decreases es.len(),
{
    if es.len() == 0 {
        Seq::empty()
    } else {
        text_run_of(es.drop_last()) + text_of(es.last()) + seq![10u8]
    }
}

/// A binary run is as long as its records demand.
pub proof fn lemma_bin_run_len(es: Seq<Entry>)
    ensures
        bin_run_of(es).len() == 24 * es.len(),
    decreases es.len(),
{
    if es.len() > 0 {
        lemma_bin_run_len(es.drop_last());
        lemma_binary_round_trip(es.last());
    }
}

/// A run decoded from its own binary encoding is itself, record for
/// record.
#[verifier::rlimit(100)]
pub proof fn lemma_run_round_trip(es: Seq<Entry>)
    ensures
        bin_run_of(es).len() == 24 * es.len(),
        bin_run_of(es).len() % 24 == 0,
        bin_run_records(bin_run_of(es)) == es,
    decreases es.len(),
{
    lemma_bin_run_len(es);
    if es.len() == 0 {
        assert(bin_run_records(bin_run_of(es)) =~= es);
    } else {
        let front = es.drop_last();
        let b = bin_run_of(es);
        let bf = bin_run_of(front);
        lemma_run_round_trip(front);
        lemma_binary_round_trip(es.last());
        assert(b.subrange(24 * front.len() as int, 24 * front.len() as int + 24) =~= bin_of(
            es.last(),
        ));
        assert forall|i: int| 0 <= i < front.len() implies #[trigger] b.subrange(24 * i, 24 * i + 24)
            =~= bf.subrange(24 * i, 24 * i + 24) by {}
        assert forall|i: int| 0 <= i < es.len() implies bin_run_records(b)[i] == es[i] by {
            if i < front.len() {
                assert(bin_record(b.subrange(24 * i, 24 * i + 24)) == bin_record(
                    bf.subrange(24 * i, 24 * i + 24),
                ));
                assert(bin_run_records(bf)[i] == front[i]);
            } else {
                assert(bin_record(b.subrange(24 * i, 24 * i + 24)) == bin_record(
                    bin_of(es.last()),
                ));
            }
        }
        assert(bin_run_records(b) =~= es);
    }
}

/// Serializes a whole run in its fixed-width binary form.
pub fn encode_run(entries: &Vec<Entry>) -> (r: Vec<u8>)
    ensures
        r@ == bin_run_of(entries@),
{
    let mut out: Vec<u8> = Vec::new();
    let mut i: usize = 0;
    while i < entries.len()
        invariant
            i <= entries@.len(),
            out@ == bin_run_of(entries@.subrange(0, i as int)),
        decreases entries@.len() - i,
    {
        let e = entries[i];
        let bytes = e.to_le_bytes();
        let mut j: usize = 0;
        while j < 24
            invariant
                j <= 24,
                bytes@ == bin_of(entries@[i as int]),
                i < entries@.len(),
                out@ == bin_run_of(entries@.subrange(0, i as int)) + bytes@.subrange(0, j as int),
            decreases 24 - j,
        {
            out.push(bytes[j]);
            j += 1;
            proof {
                assert(out@ =~= bin_run_of(entries@.subrange(0, i as int)) + bytes@.subrange(
                    0,
                    j as int,
                ));
            }
        }
        i += 1;
        proof {
            let pre = entries@.subrange(0, i as int);
            assert(pre.drop_last() =~= entries@.subrange(0, i - 1));
            assert(bytes@.subrange(0, 24) =~= bytes@);
            assert(out@ =~= bin_run_of(pre));
        }
    }
    proof {
        assert(entries@.subrange(0, entries@.len() as int) =~= entries@);
    }
    out
}

/// Serializes a whole run in its textual form, one line per record.
pub fn encode_text_run(entries: &Vec<Entry>) -> (r: Vec<u8>)
    ensures
        r@ == text_run_of(entries@),
{
    let mut out: Vec<u8> = Vec::new();
    let mut i: usize = 0;
    while i < entries.len()
        invariant
            i <= entries@.len(),
            out@ == text_run_of(entries@.subrange(0, i as int)),
        decreases entries@.len() - i,
    {
        let e = entries[i];
        let mut line = e.encode_text();
        line.push(10);
        let mut j: usize = 0;
        let m = line.len();
        while j < m
            invariant
                j <= m,
                m == line@.len(),
                i < entries@.len(),
                line@ == text_of(entries@[i as int]) + seq![10u8],
                out@ == text_run_of(entries@.subrange(0, i as int)) + line@.subrange(0, j as int),
            decreases m - j,
        {
            let b = line[j];
            out.push(b);
            j += 1;
            proof {
                assert(out@ =~= text_run_of(entries@.subrange(0, i as int)) + line@.subrange(
                    0,
                    j as int,
                ));
            }
        }
        i += 1;
        proof {
            let pre = entries@.subrange(0, i as int);
            assert(pre.drop_last() =~= entries@.subrange(0, i - 1));
            assert(line@.subrange(0, m as int) =~= line@);
            assert(out@ =~= text_run_of(pre));
        }
    }
    proof {
        assert(entries@.subrange(0, entries@.len() as int) =~= entries@);
    }
    out
}

/// The record held in the 24 bytes of `bytes` starting at `p`.
fn record_at(bytes: &Vec<u8>, p: usize) -> (r: Entry)
    requires
        p + 24 <= bytes.len(),
    ensures
        r == bin_record(bytes@.subrange(p as int, p as int + 24)),
{
    let chunk: [u8; 24] = [
        bytes[p],
        bytes[p + 1],
        bytes[p + 2],
        bytes[p + 3],
        bytes[p + 4],
        bytes[p + 5],
        bytes[p + 6],
        bytes[p + 7],
        bytes[p + 8],
        bytes[p + 9],
        bytes[p + 10],
        bytes[p + 11],
        bytes[p + 12],
        bytes[p + 13],
        bytes[p + 14],
        bytes[p + 15],
        bytes[p + 16],
        bytes[p + 17],
        bytes[p + 18],
        bytes[p + 19],
        bytes[p + 20],
        bytes[p + 21],
        bytes[p + 22],
        bytes[p + 23],
    ];
    proof {
        assert(chunk@ =~= bytes@.subrange(p as int, p as int + 24));
    }
    Entry::from_le_bytes(&chunk)
}

/// Deserializes a binary run: exactly inverse to [`encode_run`] on whole
/// runs. A trailing partial record means the run is corrupt and is fatal.
pub fn decode_run(bytes: &Vec<u8>) -> (r: Result<Vec<Entry>, Error>)
    ensures
        bytes@.len() % 24 == 0 ==> (r matches Ok(es) && es@ == bin_run_records(bytes@)),
        bytes@.len() % 24 != 0 ==> r == Err::<Vec<Entry>, Error>(Error::MalformedRecord),
{
    let n = bytes.len();
    if n % 24 != 0 {
        return Err(Error::MalformedRecord);
    }
    let count = n / 24;
    let mut out: Vec<Entry> = Vec::new();
    let mut i: usize = 0;
    while i < count
        invariant
            n == bytes@.len(),
            n % 24 == 0,
            count == n / 24,
            i <= count,
            out@.len() == i,
            forall|k: int|
                0 <= k < i ==> #[trigger] out@[k] == bin_record(
                    bytes@.subrange(24 * k, 24 * k + 24),
                ),
        decreases count - i,
    {
        proof {
            assert(24 * (i + 1) <= 24 * count == n) by (nonlinear_arith)
                requires
                    i < count,
                    24 * count == n,
            ;
        }
        let e = record_at(bytes, 24 * i);
        out.push(e);
        i += 1;
    }
    proof {
        assert(out@ =~= bin_run_records(bytes@));
    }
    Ok(out)
}

/// Numeric value of one hexadecimal digit byte.
fn hex_digit(b: u8) -> (d: u32)
    requires
        is_hex_digit(b),
    ensures
        d == hex_digit_val(b),
        d < 16,
{
    if 48 <= b && b <= 57 {
        (b - 48) as u32
    } else if 65 <= b && b <= 70 {
        (b - 55) as u32
    } else {
        (b - 87) as u32
    }
}

/// Value of the eight hexadecimal digits of `line` starting at `k`.
fn parse_word(line: &Vec<u8>, k: usize) -> (w: u32)
    requires
        k <= 32,
        line@.len() >= 40,
        forall|j: int| k <= j < k + 8 ==> is_hex_digit(#[trigger] line@[j]),
    ensures
        w == hex8_val(line@.subrange(k as int, k as int + 8)),
{
    let d0 = hex_digit(line[k]);
    let d1 = hex_digit(line[k + 1]);
    let d2 = hex_digit(line[k + 2]);
    let d3 = hex_digit(line[k + 3]);
    let d4 = hex_digit(line[k + 4]);
    let d5 = hex_digit(line[k + 5]);
    let d6 = hex_digit(line[k + 6]);
    let d7 = hex_digit(line[k + 7]);
    let w = ((((((d0 * 16 + d1) * 16 + d2) * 16 + d3) * 16 + d4) * 16 + d5) * 16 + d6) * 16 + d7;
    proof {
        let sub = line@.subrange(k as int, k as int + 8);
        assert(sub[0] == line@[k as int]);
        assert(sub[1] == line@[k as int + 1]);
        assert(sub[2] == line@[k as int + 2]);
        assert(sub[3] == line@[k as int + 3]);
        assert(sub[4] == line@[k as int + 4]);
        assert(sub[5] == line@[k as int + 5]);
        assert(sub[6] == line@[k as int + 6]);
        assert(sub[7] == line@[k as int + 7]);
    }
    w
}

/// Checks that the first 40 bytes of `line` are hexadecimal digits.
fn check_key(line: &Vec<u8>) -> (ok: bool)
    requires
        line@.len() >= 42,
    ensures
        ok == valid_key(line@.subrange(0, 40)),
{
    let mut i: usize = 0;
    while i < 40
        invariant
            line@.len() >= 42,
            i <= 40,
            forall|j: int| 0 <= j < i ==> is_hex_digit(#[trigger] line@[j]),
        decreases 40 - i,
    {
        let b = line[i];
        if !((48 <= b && b <= 57) || (65 <= b && b <= 70) || (97 <= b && b <= 102)) {
            assert(line@.subrange(0, 40)[i as int] == line@[i as int]);
            return false;
        }
        i += 1;
    }
    assert forall|j: int| 0 <= j < 40 implies is_hex_digit(#[trigger] line@.subrange(0, 40)[j]) by {
        assert(line@.subrange(0, 40)[j] == line@[j]);
    }
    true
}

/// Parses the decimal count that follows the colon, rejecting anything that
/// is not a digit string whose value fits in 32 bits.
fn parse_count(line: &Vec<u8>) -> (r: Result<u32, Error>)
    requires
        line@.len() >= 42,
    ensures
        valid_count(line@.subrange(41, line@.len() as int)) ==> r == Ok::<u32, Error>(
            dec_val(line@.subrange(41, line@.len() as int)) as u32,
        ),
        !valid_count(line@.subrange(41, line@.len() as int)) ==> r == Err::<u32, Error>(
            Error::MalformedRecord,
        ),
{
    let ghost cpart = line@.subrange(41, line@.len() as int);
    proof {
        assert(forall|j: int| 0 <= j < cpart.len() ==> cpart[j] == line@[41 + j]);
    }
    let n = line.len();
    let mut acc: u64 = 0;
    let mut i: usize = 41;
    while i < n
        invariant
            n == line@.len(),
            42 <= n,
            41 <= i <= n,
            cpart == line@.subrange(41, line@.len() as int),
            forall|j: int| 0 <= j < cpart.len() ==> cpart[j] == line@[41 + j],
            forall|j: int| 41 <= j < i ==> is_dec_digit(#[trigger] line@[j]),
            acc <= u32::MAX,
            acc == dec_val(line@.subrange(41, i as int)),
        decreases n - i,
    {
        let b = line[i];
        if b < 48 || b > 57 {
            assert(!valid_count(cpart)) by {
                assert(cpart[i - 41] == line@[i as int]);
            }
            return Err(Error::MalformedRecord);
        }
        acc = acc * 10 + (b - 48) as u64;
        proof {
            assert(line@.subrange(41, i + 1).drop_last() =~= line@.subrange(41, i as int));
            assert(line@.subrange(41, i + 1).last() == line@[i as int]);
        }
        if acc > 0xFFFF_FFFF {
            proof {
                if valid_count(cpart) {
                    assert(cpart.subrange(0, i + 1 - 41) =~= line@.subrange(41, i + 1));
                    lemma_dec_val_prefix(cpart, i + 1 - 41);
                }
            }
            return Err(Error::MalformedRecord);
        }
        i += 1;
    }
    assert(line@.subrange(41, n as int) =~= cpart);
    Ok(acc as u32)
}

impl Entry {
    /// Parses one input line, the single admission point for external data.
    /// Parsing is strict: anything but a 40-digit hexadecimal key, a colon,
    /// and an in-range decimal count is rejected as fatal.
    #[verifier::rlimit(100)]
    pub fn parse(line: &Vec<u8>) -> (r: Result<Entry, Error>)
        ensures
            valid_line(line@) ==> r == Ok::<Entry, Error>(line_record(line@)),
            !valid_line(line@) ==> r == Err::<Entry, Error>(Error::MalformedRecord),
    {
        let n = line.len();
        if n < 42 {
            return Err(Error::MalformedRecord);
        }
        if !check_key(line) {
            return Err(Error::MalformedRecord);
        }
        if line[40] != 58 {
            return Err(Error::MalformedRecord);
        }
        let count = match parse_count(line) {
            Ok(c) => c,
            Err(e) => {
                return Err(e);
            },
        };
        proof {
            let key = line@.subrange(0, 40);
            assert forall|j: int| 0 <= j < 40 implies is_hex_digit(#[trigger] line@[j]) by {
                assert(key[j] == line@[j]);
                assert(is_hex_digit(key[j]));
            }
        }
        let w0 = parse_word(line, 0);
        let w1 = parse_word(line, 8);
        let w2 = parse_word(line, 16);
        let w3 = parse_word(line, 24);
        let w4 = parse_word(line, 32);
        proof {
            let key = line@.subrange(0, 40);
            assert(key.subrange(0, 8) =~= line@.subrange(0, 8));
            assert(key.subrange(8, 16) =~= line@.subrange(8, 16));
            assert(key.subrange(16, 24) =~= line@.subrange(16, 24));
            assert(key.subrange(24, 32) =~= line@.subrange(24, 32));
            assert(key.subrange(32, 40) =~= line@.subrange(32, 40));
        }
        Ok(Entry { w0, w1, w2, w3, w4, count })
    }

    /// Parses one input line given as a string slice.
    pub fn from_str(s: &str) -> (r: Result<Entry, Error>)
        ensures
            valid_line(s.spec_bytes()) ==> r == Ok::<Entry, Error>(line_record(s.spec_bytes())),
            !valid_line(s.spec_bytes()) ==> r == Err::<Entry, Error>(Error::MalformedRecord),
    {
        let bytes = s.as_bytes_vec();
        Entry::parse(&bytes)
    }

    /// Serializes the record into its fixed 24-byte binary form.
    pub fn to_le_bytes(self) -> (r: [u8; 24])
        ensures
            r@ == bin_of(self),
    {
        let a = le4_parts(self.w0);
        let b = le4_parts(self.w1);
        let c = le4_parts(self.w2);
        let d = le4_parts(self.w3);
        let e = le4_parts(self.w4);
        let f = le4_parts(self.count);
        let r: [u8; 24] = [
            a.0,
            a.1,
            a.2,
            a.3,
            b.0,
            b.1,
            b.2,
            b.3,
            c.0,
            c.1,
            c.2,
            c.3,
            d.0,
            d.1,
            d.2,
            d.3,
            e.0,
            e.1,
            e.2,
            e.3,
            f.0,
            f.1,
            f.2,
            f.3,
        ];
        proof {
            assert(r@ =~= bin_of(self));
        }
        r
    }

    /// Deserializes a record from its fixed 24-byte binary form; the exact
    /// inverse of [`Entry::to_le_bytes`].
    pub fn from_le_bytes(bytes: &[u8; 24]) -> (r: Entry)
        ensures
            r == bin_record(bytes@),
    {
        let w0 = word_from(bytes, 0);
        let w1 = word_from(bytes, 4);
        let w2 = word_from(bytes, 8);
        let w3 = word_from(bytes, 12);
        let w4 = word_from(bytes, 16);
        let count = word_from(bytes, 20);
        Entry { w0, w1, w2, w3, w4, count }
    }

    /// Serializes the record into its textual form, as bytes.
    pub fn encode_text(&self) -> (r: Vec<u8>)
        ensures
            r@ == text_of(*self),
    {
        let mut out: Vec<u8> = Vec::new();
        push_hex8(&mut out, self.w0);
        push_hex8(&mut out, self.w1);
        push_hex8(&mut out, self.w2);
        push_hex8(&mut out, self.w3);
        push_hex8(&mut out, self.w4);
        out.push(58);
        push_decimal(&mut out, self.count);
        proof {
            assert(out@ =~= text_of(*self));
        }
        out
    }

    /// Serializes the record into its textual form
    /// `"{40-hex-upper}:{decimal}"`.
    pub fn to_string(&self) -> (r: String)
        ensures
            r@ == Seq::new(text_of(*self).len(), |i: int| text_of(*self)[i] as char),
    {
        let bytes = self.encode_text();
        proof {
            lemma_text_bytes_ascii(*self);
        }
        ascii_to_string(bytes)
    }

    /// Compares two records by key alone, consistent with [`key_le`].
    pub fn compare(&self, other: &Entry) -> (r: core::cmp::Ordering)
        ensures
            r == core::cmp::Ordering::Less <==> key_lt(*self, *other),
            r == core::cmp::Ordering::Equal <==> key_eq(*self, *other),
            r == core::cmp::Ordering::Greater <==> key_lt(*other, *self),
    {
        if self.w0 != other.w0 {
            if self.w0 < other.w0 {
                core::cmp::Ordering::Less
            } else {
                core::cmp::Ordering::Greater
            }
        } else if self.w1 != other.w1 {
            if self.w1 < other.w1 {
                core::cmp::Ordering::Less
            } else {
                core::cmp::Ordering::Greater
            }
        } else if self.w2 != other.w2 {
            if self.w2 < other.w2 {
                core::cmp::Ordering::Less
            } else {
                core::cmp::Ordering::Greater
            }
        } else if self.w3 != other.w3 {
            if self.w3 < other.w3 {
                core::cmp::Ordering::Less
            } else {
                core::cmp::Ordering::Greater
            }
        } else if self.w4 != other.w4 {
            if self.w4 < other.w4 {
                core::cmp::Ordering::Less
            } else {
                core::cmp::Ordering::Greater
            }
        } else {
            core::cmp::Ordering::Equal
        }
    }

    /// Decides `key_le` directly; the comparison the sort and the merge use.
    pub fn key_le(&self, other: &Entry) -> (r: bool)
        ensures
            r == key_le(*self, *other),
    {
        match self.compare(other) {
            core::cmp::Ordering::Greater => false,
            _ => true,
        }
    }
}

} // verus!
