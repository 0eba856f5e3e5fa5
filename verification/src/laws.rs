//! The laws that tie the decoder and the encoder together: decoding a
//! canonical encoding recovers the value exactly, and a buffer that decodes
//! successfully re-encodes to itself whenever it was canonical to begin with.

use vstd::prelude::*;

use crate::bencode::BValue;
use crate::bencode::keys_sorted;
use crate::bencode::lemma_insert_max;
use crate::bencode::spec_insert;
use crate::bencode::wf;
use crate::decode::DecodeError;
use crate::decode::all_digits;
use crate::decode::dec_bytes;
use crate::decode::dec_dict;
use crate::decode::dec_int;
use crate::decode::dec_list;
use crate::decode::dec_val;
use crate::decode::digits_val;
use crate::decode::int_span_ok;
use crate::decode::int_span_val;
use crate::decode::is_digit;
use crate::decode::lemma_dec_list_ok;
use crate::decode::lemma_dec_val_ok;
use crate::decode::lemma_seek_bounds;
use crate::decode::lemma_seek_found;
use crate::decode::lemma_seek_none;
use crate::decode::seek;
use crate::encode::dec_rep;
use crate::encode::int_rep;
use crate::encode::spec_encode;
use crate::encode::spec_encode_bytes;
use crate::encode::spec_encode_items;
use crate::encode::spec_encode_pairs;

verus! {

broadcast use
    vstd::seq::axiom_seq_index_decreases,
    vstd::std_specs::vec::axiom_vec_index_decreases,
    vstd::std_specs::vec::axiom_vec_decreases_to_view;

/// The digit run of a nonnegative integer is non-empty, all digits, starts
/// with a zero only for zero itself, and is read back to the same number.
pub proof fn lemma_dec_rep(n: int)
    requires
        n >= 0,
    ensures
        dec_rep(n).len() >= 1,
        all_digits(dec_rep(n)),
        digits_val(dec_rep(n)) == n,
        dec_rep(n)[0] == 48 ==> n == 0 && dec_rep(n).len() == 1,
    decreases n,
{
    if n < 10 {
        let r = dec_rep(n);
        assert(r =~= seq![(48 + n) as u8]);
        assert(r.drop_last() =~= Seq::<u8>::empty());
        assert(digits_val(r) == digits_val(r.drop_last()) * 10 + (r.last() - 48));
        assert(digits_val(r.drop_last()) == 0);
    } else {
        lemma_dec_rep(n / 10);
        let r = dec_rep(n);
        assert(r == dec_rep(n / 10).push((48 + n % 10) as u8));
        assert(r.drop_last() =~= dec_rep(n / 10));
        assert forall|i: int| 0 <= i < r.len() implies is_digit(#[trigger] r[i]) by {
            if i < r.len() - 1 {
                assert(r[i] == dec_rep(n / 10)[i]);
            }
        }
        assert(r[0] == dec_rep(n / 10)[0]);
        assert(digits_val(r) == (n / 10) * 10 + n % 10);
    }
}

/// The signed representation of an integer in the 64-bit range satisfies the
/// integer span grammar and is read back to the same number.
pub proof fn lemma_int_rep(n: int)
    requires
        i64::MIN <= n <= i64::MAX,
    ensures
        int_rep(n).len() >= 1,
        int_span_ok(int_rep(n)),
        int_span_val(int_rep(n)) == n,
        forall|i: int| 0 <= i < int_rep(n).len() ==> #[trigger] int_rep(n)[i] != 101,
    {
    let s = int_rep(n);
    if n >= 0 {
        lemma_dec_rep(n);
        assert forall|i: int| 0 <= i < s.len() implies #[trigger] s[i] != 101 by {
            assert(is_digit(s[i]));
        }
    } else {
        lemma_dec_rep(-n);
        assert(s == seq![45u8] + dec_rep(-n));
        assert(s.skip(1) =~= dec_rep(-n));
        assert(s[0] == 45);
        if s.len() == 2 && s[1] == 48 {
            assert(dec_rep(-n)[0] == 48);
            assert(false);
        }
        assert forall|i: int| 0 <= i < s.len() implies #[trigger] s[i] != 101 by {
            if i > 0 {
                assert(is_digit(dec_rep(-n)[i - 1]));
            }
        }
    }
}

/// The first byte of any encoding is a digit, `i`, `l`, or `d` - never the
/// terminator `e` or the colon.
pub proof fn lemma_enc_first_byte(v: BValue)
    ensures
        spec_encode(v).len() >= 1,
        is_digit(spec_encode(v)[0]) || spec_encode(v)[0] == 105 || spec_encode(v)[0] == 108
            || spec_encode(v)[0] == 100,
{
    match v {
        BValue::Bytes(s) => {
            lemma_dec_rep(s.len() as int);
            assert(spec_encode(v)[0] == dec_rep(s.len() as int)[0]);
        },
        BValue::Int(n) => {
            assert(spec_encode(v)[0] == 105);
        },
        BValue::List(vs) => {
            assert(spec_encode(v)[0] == 108);
        },
        BValue::Dict(ps) => {
            assert(spec_encode(v)[0] == 100);
        },
    }
}

/// Splitting a known subrange of `b` into two adjacent parts.
proof fn lemma_subrange_split(b: Seq<u8>, pos: int, x: Seq<u8>, y: Seq<u8>)
    requires
        0 <= pos,
        pos + x.len() + y.len() <= b.len(),
        b.subrange(pos, pos + x.len() + y.len()) == x + y,
    ensures
        b.subrange(pos, pos + x.len()) == x,
        b.subrange(pos + x.len(), pos + x.len() + y.len()) == y,
        forall|j: int| 0 <= j < x.len() ==> b[pos + j] == #[trigger] x[j],
        forall|j: int| 0 <= j < y.len() ==> b[pos + x.len() + j] == #[trigger] y[j],
        x.len() > 0 ==> b[pos] == x[0],
        y.len() > 0 ==> b[pos + x.len()] == y[0],
{
    let w = b.subrange(pos, pos + x.len() + y.len());
    assert forall|j: int| 0 <= j < x.len() implies b[pos + j] == #[trigger] x[j] by {
        assert(w[j] == b[pos + j]);
        assert(w[j] == (x + y)[j]);
    }
    assert forall|j: int| 0 <= j < y.len() implies b[pos + x.len() + j] == #[trigger] y[j] by {
        assert(w[x.len() + j] == b[pos + x.len() + j]);
        assert(w[x.len() + j] == (x + y)[x.len() + j]);
    }
    assert(b.subrange(pos, pos + x.len()) =~= x);
    assert(b.subrange(pos + x.len(), pos + x.len() + y.len()) =~= y);
    if x.len() > 0 {
        assert(b[pos + 0] == x[0]);
    }
    if y.len() > 0 {
        assert(b[pos + x.len() + 0] == y[0]);
    }
}

/// A byte-string encoding sitting at `pos` inside `b` parses back to exactly
/// its bytes, ending just past the encoding.
pub proof fn lemma_dec_bytes_enc(b: Seq<u8>, pos: int, s: Seq<u8>)
    requires
        0 <= pos,
        pos + spec_encode_bytes(s).len() <= b.len(),
        b.subrange(pos, pos + spec_encode_bytes(s).len()) == spec_encode_bytes(s),
    ensures
        dec_bytes(b, pos) == Ok::<(Seq<u8>, int), DecodeError>(
            (s, pos + spec_encode_bytes(s).len()),
        ),
{
    let digits = dec_rep(s.len() as int);
    let dl = digits.len();
    lemma_dec_rep(s.len() as int);
    assert(spec_encode_bytes(s) == digits + seq![58u8] + s);
    lemma_subrange_split(b, pos, digits + seq![58u8], s);
    lemma_subrange_split(b, pos, digits, seq![58u8]);
    assert(b[pos + dl] == 58);
    assert forall|m: int| pos <= m < pos + dl implies b[m] != 58 by {
        assert(b[m] == digits[m - pos]);
        assert(is_digit(digits[m - pos]));
    }
    lemma_seek_found(b, pos, 58, pos + dl);
    assert(b.subrange(pos, pos + dl) =~= digits);
    assert(digits_val(b.subrange(pos, pos + dl)) == s.len());
    assert(b.subrange(pos + dl + 1, pos + dl + 1 + s.len()) =~= s);
}

/// Decoding an encoded value embedded in a larger buffer recovers exactly
/// that value and consumes exactly its encoding. This is the heart of the
/// decode-of-encode round trip.
pub proof fn lemma_round_trip_at(b: Seq<u8>, pos: int, v: BValue)
    requires
        wf(v),
        0 <= pos,
        pos + spec_encode(v).len() <= b.len(),
        b.subrange(pos, pos + spec_encode(v).len()) == spec_encode(v),
    ensures
        dec_val(b, pos) == Ok::<(BValue, int), DecodeError>((v, pos + spec_encode(v).len())),
    decreases v, 0int,
{
    let enc = spec_encode(v);
    lemma_enc_first_byte(v);
    assert(b[pos] == enc[0]);
    match v {
        BValue::Bytes(s) => {
            lemma_dec_rep(s.len() as int);
            assert(is_digit(b[pos]));
            lemma_dec_bytes_enc(b, pos, s);
        },
        BValue::Int(n) => {
            lemma_int_rep(n);
            let ir = int_rep(n);
            assert(enc == seq![105u8] + ir + seq![101u8]);
            lemma_subrange_split(b, pos, seq![105u8] + ir, seq![101u8]);
            lemma_subrange_split(b, pos, seq![105u8], ir);
            assert(b[pos + 1 + ir.len()] == 101);
            assert forall|m: int| pos + 1 <= m < pos + 1 + ir.len() implies b[m] != 101 by {
                assert(b[m] == ir[m - pos - 1]);
            }
            lemma_seek_found(b, pos + 1, 101, pos + 1 + ir.len());
            assert(b.subrange(pos + 1, pos + 1 + ir.len()) =~= ir);
            assert(dec_int(b, pos + 1) == Ok::<(BValue, int), DecodeError>(
                (BValue::Int(n), pos + enc.len()),
            ));
        },
        BValue::List(vs) => {
            let items = spec_encode_items(vs, 0);
            assert(enc == seq![108u8] + items + seq![101u8]);
            lemma_subrange_split(b, pos, seq![108u8] + items, seq![101u8]);
            lemma_subrange_split(b, pos, seq![108u8], items);
            assert(b[pos + 1 + items.len()] == 101);
            lemma_round_trip_items(b, pos + 1, vs, 0);
            assert(vs.skip(0) =~= vs);
        },
        BValue::Dict(ps) => {
            let pairs = spec_encode_pairs(ps, 0);
            assert(enc == seq![100u8] + pairs + seq![101u8]);
            lemma_subrange_split(b, pos, seq![100u8] + pairs, seq![101u8]);
            lemma_subrange_split(b, pos, seq![100u8], pairs);
            assert(b[pos + 1 + pairs.len()] == 101);
            lemma_round_trip_pairs(b, pos + 1, ps, 0);
            assert(ps.take(0) =~= Seq::<(Seq<u8>, BValue)>::empty());
        },
    }
}

/// List elements encoded one after another from index `i`, followed by the
/// terminator, parse back to exactly the remaining elements.
proof fn lemma_round_trip_items(b: Seq<u8>, pos: int, vs: Seq<BValue>, i: int)
    requires
        0 <= i <= vs.len(),
        forall|j: int| 0 <= j < vs.len() ==> wf(#[trigger] vs[j]),
        0 <= pos,
        pos + spec_encode_items(vs, i).len() + 1 <= b.len(),
        b.subrange(pos, pos + spec_encode_items(vs, i).len()) == spec_encode_items(vs, i),
        b[pos + spec_encode_items(vs, i).len()] == 101,
    ensures
        dec_list(b, pos) == Ok::<(Seq<BValue>, int), DecodeError>(
            (vs.skip(i), pos + spec_encode_items(vs, i).len() + 1),
        ),
    decreases vs, vs.len() - i,
{
    let items = spec_encode_items(vs, i);
    if i == vs.len() {
        assert(items.len() == 0);
        assert(b[pos] == 101);
        assert(vs.skip(i) =~= Seq::<BValue>::empty());
    } else {
        let enc_i = spec_encode(vs[i]);
        let rest = spec_encode_items(vs, i + 1);
        assert(items == enc_i + rest);
        lemma_subrange_split(b, pos, enc_i, rest);
        lemma_enc_first_byte(vs[i]);
        assert(b[pos] == enc_i[0]);
        assert(b[pos] != 101);
        lemma_round_trip_at(b, pos, vs[i]);
        let p2 = pos + enc_i.len();
        lemma_round_trip_items(b, p2, vs, i + 1);
        assert(seq![vs[i]] + vs.skip(i + 1) =~= vs.skip(i));
    }
}

/// Dictionary entries encoded in stored (ascending-key) order from index
/// `i`, followed by the terminator, parse back to exactly the full entry
/// sequence: each decoded pair is appended, since its key exceeds all keys
/// before it.
proof fn lemma_round_trip_pairs(b: Seq<u8>, pos: int, ps: Seq<(Seq<u8>, BValue)>, i: int)
    requires
        0 <= i <= ps.len(),
        keys_sorted(ps),
        forall|j: int| 0 <= j < ps.len() ==> wf(#[trigger] ps[j].1),
        0 <= pos,
        pos + spec_encode_pairs(ps, i).len() + 1 <= b.len(),
        b.subrange(pos, pos + spec_encode_pairs(ps, i).len()) == spec_encode_pairs(ps, i),
        b[pos + spec_encode_pairs(ps, i).len()] == 101,
    ensures
        dec_dict(b, pos, ps.take(i)) == Ok::<(Seq<(Seq<u8>, BValue)>, int), DecodeError>(
            (ps, pos + spec_encode_pairs(ps, i).len() + 1),
        ),
    decreases ps, ps.len() - i,
{
    let pairs = spec_encode_pairs(ps, i);
    if i == ps.len() {
        assert(pairs.len() == 0);
        assert(b[pos] == 101);
        assert(ps.take(i) =~= ps);
    } else {
        let k = ps[i].0;
        let enc_k = spec_encode_bytes(k);
        let enc_v = spec_encode(ps[i].1);
        let rest = spec_encode_pairs(ps, i + 1);
        assert(pairs == enc_k + enc_v + rest);
        assert((enc_k + enc_v) + rest =~= enc_k + enc_v + rest);
        lemma_subrange_split(b, pos, enc_k + enc_v, rest);
        lemma_subrange_split(b, pos, enc_k, enc_v);
        lemma_dec_rep(k.len() as int);
        assert(b[pos] == enc_k[0]);
        assert(b[pos] == dec_rep(k.len() as int)[0]);
        assert(b[pos] != 101);
        lemma_dec_bytes_enc(b, pos, k);
        let p2 = pos + enc_k.len();
        lemma_round_trip_at(b, p2, ps[i].1);
        let p3 = p2 + enc_v.len();
        assert forall|j: int| 0 <= j < ps.take(i).len() implies lex_lt_key(ps.take(i)[j], k) by {
            assert(ps.take(i)[j] == ps[j]);
        }
        lemma_insert_max(ps.take(i), k, ps[i].1);
        assert(ps.take(i).push((k, ps[i].1)) =~= ps.take(i + 1));
        lemma_round_trip_pairs(b, p3, ps, i + 1);
    }
}

/// Helper naming for the sortedness trigger in `lemma_round_trip_pairs`.
spec fn lex_lt_key(p: (Seq<u8>, BValue), k: Seq<u8>) -> bool {
    crate::bencode::lex_lt(p.0, k)
}

/// Round trip, decode-of-encode: decoding the canonical encoding of any
/// well-formed value yields that value back, consuming the whole buffer.
pub proof fn lemma_decode_of_encode(v: BValue)
    requires
        wf(v),
    ensures
        dec_val(spec_encode(v), 0) == Ok::<(BValue, int), DecodeError>(
            (v, spec_encode(v).len() as int),
        ),
{
    let b = spec_encode(v);
    assert(b.subrange(0, b.len() as int) =~= b);
    lemma_round_trip_at(b, 0, v);
}

/// Round trip, encode-of-decode: a buffer that is the canonical encoding of
/// some well-formed value decodes successfully, and re-encoding the decoded
/// value reproduces the buffer byte for byte.
pub proof fn lemma_encode_of_decode(b: Seq<u8>, v0: BValue)
    requires
        wf(v0),
        b == spec_encode(v0),
    ensures
        dec_val(b, 0) matches Ok((v, p)) && spec_encode(v) == b && p == b.len(),
{
    lemma_decode_of_encode(v0);
}

/// Malformed lookahead: a buffer whose first byte starts no production fails
/// with `UnexpectedCharacter` carrying that byte.
pub proof fn lemma_unexpected_character(b: Seq<u8>)
    requires
        b.len() > 0,
        b[0] != 105,
        b[0] != 108,
        b[0] != 100,
        !is_digit(b[0]),
    ensures
        dec_val(b, 0) == Err::<(BValue, int), DecodeError>(
            DecodeError::UnexpectedCharacter(b[0]),
        ),
{
}

/// How `seek` behaves on a truncated buffer: a hit below the cut survives,
/// a hit at or past the cut disappears, a miss stays a miss.
proof fn lemma_seek_take(b: Seq<u8>, pos: int, t: u8, j: int)
    requires
        0 <= pos,
        0 <= j <= b.len(),
    ensures
        match seek(b, pos, t) {
            Some(q) => if q < j {
                seek(b.take(j), pos, t) == Some(q)
            } else {
                seek(b.take(j), pos, t) == None::<int>
            },
            None => seek(b.take(j), pos, t) == None::<int>,
        },
{
    let b2 = b.take(j);
    lemma_seek_bounds(b, pos, t);
    match seek(b, pos, t) {
        Some(q) => {
            if q < j {
                assert(b2[q] == b[q]);
                assert forall|m: int| pos <= m < q implies b2[m] != t by {
                    assert(b2[m] == b[m]);
                }
                lemma_seek_found(b2, pos, t, q);
            } else {
                assert forall|m: int| pos <= m < b2.len() implies b2[m] != t by {
                    assert(b2[m] == b[m]);
                }
                lemma_seek_none(b2, pos, t);
            }
        },
        None => {
            assert forall|m: int| pos <= m < b2.len() implies b2[m] != t by {
                assert(b2[m] == b[m]);
            }
            lemma_seek_none(b2, pos, t);
        },
    }
}

/// Truncating a buffer after a byte string leaves its parse untouched;
/// truncating inside it turns the parse into an end-of-input failure.
proof fn lemma_trunc_bytes(b: Seq<u8>, pos: int, j: int)
    requires
        0 <= pos,
        dec_bytes(b, pos) is Ok,
        0 <= j <= b.len(),
    ensures
        ({
            let (s, end) = dec_bytes(b, pos)->Ok_0;
            &&& (j >= end ==> dec_bytes(b.take(j), pos) == Ok::<(Seq<u8>, int), DecodeError>(
                (s, end),
            ))
            &&& (j < end ==> dec_bytes(b.take(j), pos) == Err::<(Seq<u8>, int), DecodeError>(
                DecodeError::UnexpectedEndOfInput,
            ))
        }),
{
    let b2 = b.take(j);
    lemma_seek_bounds(b, pos, 58);
    lemma_seek_take(b, pos, 58, j);
    let colon = seek(b, pos, 58)->Some_0;
    let span = b.subrange(pos, colon);
    let n = digits_val(span);
    crate::decode::lemma_digits_nonneg(span);
    let end = colon + 1 + n;
    if colon < j {
        assert(b2.subrange(pos, colon) =~= span);
        if j >= end {
            assert(b2.subrange(colon + 1, colon + 1 + n) =~= b.subrange(colon + 1, colon + 1 + n));
        }
    }
}

/// Truncating a buffer after an integer leaves its parse untouched;
/// truncating inside it turns the parse into an end-of-input failure.
proof fn lemma_trunc_int(b: Seq<u8>, pos: int, j: int)
    requires
        0 <= pos,
        dec_int(b, pos) is Ok,
        0 <= j <= b.len(),
    ensures
        ({
            let (v, end) = dec_int(b, pos)->Ok_0;
            &&& (j >= end ==> dec_int(b.take(j), pos) == Ok::<(BValue, int), DecodeError>(
                (v, end),
            ))
            &&& (j < end ==> dec_int(b.take(j), pos) == Err::<(BValue, int), DecodeError>(
                DecodeError::UnexpectedEndOfInput,
            ))
        }),
{
    let b2 = b.take(j);
    lemma_seek_bounds(b, pos, 101);
    lemma_seek_take(b, pos, 101, j);
    let e_idx = seek(b, pos, 101)->Some_0;
    if e_idx < j {
        assert(b2.subrange(pos, e_idx) =~= b.subrange(pos, e_idx));
    }
}

/// Truncating a buffer inside one parsed value turns the parse into an
/// end-of-input failure; truncating at or past its end leaves it untouched.
proof fn lemma_trunc_val(b: Seq<u8>, pos: int, j: int)
    requires
        dec_val(b, pos) is Ok,
        0 <= j <= b.len(),
    ensures
        ({
            let (v, end) = dec_val(b, pos)->Ok_0;
            &&& (j >= end ==> dec_val(b.take(j), pos) == Ok::<(BValue, int), DecodeError>(
                (v, end),
            ))
            &&& (j < end ==> dec_val(b.take(j), pos) == Err::<(BValue, int), DecodeError>(
                DecodeError::UnexpectedEndOfInput,
            ))
        }),
    decreases b.len() - pos, 1int,
{
    let b2 = b.take(j);
    let (v, end) = dec_val(b, pos)->Ok_0;
    lemma_dec_val_ok(b, pos);
    if pos >= j {
        assert(dec_val(b2, pos) == Err::<(BValue, int), DecodeError>(
            DecodeError::UnexpectedEndOfInput,
        ));
    } else {
        assert(b2[pos] == b[pos]);
        if b[pos] == 105 {
            lemma_trunc_int(b, pos + 1, j);
        } else if b[pos] == 108 {
            lemma_trunc_list(b, pos + 1, j);
        } else if b[pos] == 100 {
            lemma_trunc_dict(b, pos + 1, Seq::empty(), j);
        } else {
            lemma_trunc_bytes(b, pos, j);
        }
    }
}

/// The list form of `lemma_trunc_val`.
proof fn lemma_trunc_list(b: Seq<u8>, pos: int, j: int)
    requires
        0 <= pos,
        dec_list(b, pos) is Ok,
        0 <= j <= b.len(),
    ensures
        ({
            let (vs, p) = dec_list(b, pos)->Ok_0;
            &&& (j >= p ==> dec_list(b.take(j), pos) == Ok::<(Seq<BValue>, int), DecodeError>(
                (vs, p),
            ))
            &&& (j < p ==> dec_list(b.take(j), pos) == Err::<(Seq<BValue>, int), DecodeError>(
                DecodeError::UnexpectedEndOfInput,
            ))
        }),
    decreases b.len() - pos, 2int,
{
    let b2 = b.take(j);
    let (vs, p) = dec_list(b, pos)->Ok_0;
    if 0 <= pos < b.len() && b[pos] == 101 {
        if pos < j {
            assert(b2[pos] == b[pos]);
        } else {
            assert(dec_val(b2, pos) == Err::<(BValue, int), DecodeError>(
                DecodeError::UnexpectedEndOfInput,
            ));
        }
    } else {
        lemma_dec_val_ok(b, pos);
        let (v, p2) = dec_val(b, pos)->Ok_0;
        lemma_dec_list_ok(b, p2);
        lemma_trunc_val(b, pos, j);
        if pos >= j {
            assert(dec_val(b2, pos) == Err::<(BValue, int), DecodeError>(
                DecodeError::UnexpectedEndOfInput,
            ));
        } else {
            assert(b2[pos] == b[pos]);
            if j >= p2 {
                lemma_trunc_list(b, p2, j);
            }
        }
    }
}

/// The dictionary form of `lemma_trunc_val`.
proof fn lemma_trunc_dict(b: Seq<u8>, pos: int, acc: Seq<(Seq<u8>, BValue)>, j: int)
    requires
        0 <= pos,
        dec_dict(b, pos, acc) is Ok,
        0 <= j <= b.len(),
    ensures
        ({
            let (ps, p) = dec_dict(b, pos, acc)->Ok_0;
            &&& (j >= p ==> dec_dict(b.take(j), pos, acc) == Ok::<
                (Seq<(Seq<u8>, BValue)>, int),
                DecodeError,
            >((ps, p)))
            &&& (j < p ==> dec_dict(b.take(j), pos, acc) == Err::<
                (Seq<(Seq<u8>, BValue)>, int),
                DecodeError,
            >(DecodeError::UnexpectedEndOfInput))
        }),
    decreases b.len() - pos, 2int,
{
    let b2 = b.take(j);
    let (ps, p) = dec_dict(b, pos, acc)->Ok_0;
    if 0 <= pos < b.len() && b[pos] == 101 {
        if pos < j {
            assert(b2[pos] == b[pos]);
        } else {
            lemma_seek_take(b, pos, 58, j);
            assert(seek(b2, pos, 58) is None);
        }
    } else {
        crate::decode::lemma_dec_bytes_ok(b, pos);
        let (k, p2) = dec_bytes(b, pos)->Ok_0;
        lemma_dec_val_ok(b, p2);
        let (v, p3) = dec_val(b, p2)->Ok_0;
        crate::decode::lemma_dec_dict_advance(b, p3, spec_insert(acc, k, v));
        lemma_trunc_bytes(b, pos, j);
        if pos >= j {
            lemma_seek_take(b, pos, 58, j);
            assert(seek(b2, pos, 58) is None);
        } else {
            assert(b2[pos] == b[pos]);
            if j >= p2 {
                lemma_trunc_val(b, p2, j);
                if j >= p3 {
                    lemma_trunc_dict(b, p3, spec_insert(acc, k, v), j);
                }
            }
        }
    }
}

/// Truncation: every strict prefix of a buffer that decodes successfully
/// fails to decode with an end-of-input error - never another error, never a
/// different value.
pub proof fn lemma_truncation(b: Seq<u8>, j: int)
    requires
        dec_val(b, 0) is Ok,
        0 <= j < dec_val(b, 0)->Ok_0.1,
    ensures
        dec_val(b.take(j), 0) == Err::<(BValue, int), DecodeError>(
            DecodeError::UnexpectedEndOfInput,
        ),
{
    lemma_dec_val_ok(b, 0);
    lemma_trunc_val(b, 0, j);
}

} // verus!
