//! The encoder: a value tree to its unique canonical byte encoding.

use vstd::prelude::*;

use crate::bencode::BValue;
use crate::bencode::BencodeType;
use crate::bencode::Dictionary;
use crate::bencode::views_of_list;

verus! {

broadcast use
    vstd::seq::axiom_seq_index_decreases,
    vstd::std_specs::vec::axiom_vec_index_decreases,
    vstd::std_specs::vec::axiom_vec_decreases_to_view;

/// Decimal digit run of a nonnegative integer, most significant digit first,
/// without leading zeros (`0` is the single digit `0`).
pub open spec fn dec_rep(n: int) -> Seq<u8>
    decreases n,
{
    if n < 0 {
        Seq::empty()
    } else if n < 10 {
        seq![(48 + n) as u8]
    } else {
        dec_rep(n / 10).push((48 + n % 10) as u8)
    }
}

/// Decimal representation of a signed integer: a minus sign for negatives,
/// then the digit run of the magnitude.
pub open spec fn int_rep(n: int) -> Seq<u8> {
    if n < 0 {
        seq![45u8] + dec_rep(-n)
    } else {
        dec_rep(n)
    }
}

/// Canonical encoding of a byte string: its decimal length, a colon, then the
/// bytes themselves.
pub open spec fn spec_encode_bytes(s: Seq<u8>) -> Seq<u8> {
    dec_rep(s.len() as int) + seq![58u8] + s
}

/// Canonical encoding of a value: the unique byte representation the format
/// assigns to it. Dictionaries are emitted in stored order, which for a
/// well-formed value is ascending key order.
pub open spec fn spec_encode(v: BValue) -> Seq<u8>
    decreases v, 0int,
{
    match v {
        BValue::Bytes(s) => spec_encode_bytes(s),
        BValue::Int(n) => seq![105u8] + int_rep(n) + seq![101u8],
        BValue::List(vs) => seq![108u8] + spec_encode_items(vs, 0) + seq![101u8],
        BValue::Dict(ps) => seq![100u8] + spec_encode_pairs(ps, 0) + seq![101u8],
    }
}

/// Concatenated encodings of the list elements from index `i` on.
pub open spec fn spec_encode_items(vs: Seq<BValue>, i: int) -> Seq<u8>
    decreases vs, vs.len() - i, 1int,
{
    if 0 <= i < vs.len() {
        spec_encode(vs[i]) + spec_encode_items(vs, i + 1)
    } else {
        Seq::empty()
    }
}

/// Concatenated key/value encodings of the dictionary entries from index `i`
/// on.
pub open spec fn spec_encode_pairs(ps: Seq<(Seq<u8>, BValue)>, i: int) -> Seq<u8>
    decreases ps, ps.len() - i, 1int,
{
    if 0 <= i < ps.len() {
        spec_encode_bytes(ps[i].0) + spec_encode(ps[i].1) + spec_encode_pairs(ps, i + 1)
    } else {
        Seq::empty()
    }
}

/// Append the decimal digit run of `n`.
fn push_decimal(out: &mut Vec<u8>, n: u64)
    ensures
        final(out)@ == old(out)@ + dec_rep(n as int),
    decreases n,
{
    if n < 10 {
        out.push(48 + n as u8);
        proof {
            assert(final(out)@ =~= old(out)@ + dec_rep(n as int));
        }
    } else {
        push_decimal(out, n / 10);
        out.push(48 + (n % 10) as u8);
        proof {
            assert(final(out)@ =~= old(out)@ + dec_rep(n as int));
        }
    }
}

/// Append the decimal representation of a signed integer.
fn push_signed(out: &mut Vec<u8>, n: i64)
    ensures
        final(out)@ == old(out)@ + int_rep(n as int),
{
    if n >= 0 {
        push_decimal(out, n as u64);
    } else {
        out.push(45);
        let m: u64 = (-(n as i128)) as u64;
        push_decimal(out, m);
        proof {
            assert(final(out)@ =~= old(out)@ + int_rep(n as int));
        }
    }
}

/// Append the bytes of `s` verbatim.
fn push_bytes(out: &mut Vec<u8>, s: &Vec<u8>)
    ensures
        final(out)@ == old(out)@ + s@,
{
    let ghost base = out@;
    let mut j: usize = 0;
    while j < s.len()
        invariant
            0 <= j <= s@.len(),
            out@ == base + s@.take(j as int),
        decreases s@.len() - j,
    {
        out.push(s[j]);
        j = j + 1;
        proof {
            assert(base + s@.take(j - 1).push(s@[j - 1]) =~= base + s@.take(j as int));
        }
    }
    proof {
        assert(base + s@.take(s@.len() as int) =~= base + s@);
    }
}

/// Append the byte-string encoding of `s`: decimal length, colon, bytes.
fn push_bytestring(out: &mut Vec<u8>, s: &Vec<u8>)
    ensures
        final(out)@ == old(out)@ + spec_encode_bytes(s@),
{
    push_decimal(out, s.len() as u64);
    out.push(58);
    push_bytes(out, s);
    proof {
        assert(final(out)@ =~= old(out)@ + spec_encode_bytes(s@));
    }
}

/// Append the canonical encoding of `v`.
pub fn encode_value(v: &BencodeType, out: &mut Vec<u8>)
    ensures
        final(out)@ == old(out)@ + spec_encode(v@),
    decreases v,
{
    match v {
        BencodeType::ByteString(s) => {
            push_bytestring(out, s);
        },
        BencodeType::Integer(n) => {
            out.push(105);
            push_signed(out, *n);
            out.push(101);
            proof {
                assert(final(out)@ =~= old(out)@ + spec_encode(v@));
            }
        },
        BencodeType::List(l) => {
            out.push(108);
            encode_items(l, out);
            out.push(101);
            proof {
                assert(final(out)@ =~= old(out)@ + spec_encode(v@));
            }
        },
        BencodeType::Dictionary(d) => {
            out.push(100);
            encode_entries(&d.entries, out);
            out.push(101);
            proof {
                assert(final(out)@ =~= old(out)@ + spec_encode(v@));
            }
        },
    }
}

/// Append the encodings of all elements of `l` in order.
fn encode_items(l: &Vec<BencodeType>, out: &mut Vec<u8>)
    ensures
        final(out)@ == old(out)@ + spec_encode_items(views_of_list(l@), 0),
    decreases l,
{
    let ghost vs = views_of_list(l@);
    let ghost base = out@;
    let mut j: usize = 0;
    while j < l.len()
        invariant
            0 <= j <= l@.len(),
            vs == views_of_list(l@),
            vs.len() == l@.len(),
            out@ + spec_encode_items(vs, j as int) == base + spec_encode_items(vs, 0),
        decreases l@.len() - j,
    {
        let ghost pre = out@;
        encode_value(&l[j], out);
        proof {
            assert(vs[j as int] == l@[j as int]@);
            assert((pre + spec_encode(vs[j as int])) + spec_encode_items(vs, j + 1) =~= pre + (
            spec_encode(vs[j as int]) + spec_encode_items(vs, j + 1)));
        }
        j = j + 1;
    }
    proof {
        assert(out@ + spec_encode_items(vs, l@.len() as int) =~= out@);
    }
}

/// Append the key/value encodings of all entries in order.
fn encode_entries(es: &Vec<(Vec<u8>, BencodeType)>, out: &mut Vec<u8>)
    ensures
        final(out)@ == old(out)@ + spec_encode_pairs(
            crate::bencode::views_of_entries(es@),
            0,
        ),
    decreases es,
{
    let ghost ps = crate::bencode::views_of_entries(es@);
    let ghost base = out@;
    let mut j: usize = 0;
    while j < es.len()
        invariant
            0 <= j <= es@.len(),
            ps == crate::bencode::views_of_entries(es@),
            ps.len() == es@.len(),
            out@ + spec_encode_pairs(ps, j as int) == base + spec_encode_pairs(ps, 0),
        decreases es@.len() - j,
    {
        let ghost pre = out@;
        push_bytestring(out, &es[j].0);
        encode_value(&es[j].1, out);
        proof {
            assert(ps[j as int] == (es@[j as int].0@, es@[j as int].1@));
            assert(((pre + spec_encode_bytes(ps[j as int].0)) + spec_encode(ps[j as int].1))
                + spec_encode_pairs(ps, j + 1) =~= pre + (spec_encode_bytes(ps[j as int].0) + (
            spec_encode(ps[j as int].1) + spec_encode_pairs(ps, j + 1))));
            assert(spec_encode_bytes(ps[j as int].0) + spec_encode(ps[j as int].1)
                + spec_encode_pairs(ps, j + 1) =~= spec_encode_bytes(ps[j as int].0) + (
            spec_encode(ps[j as int].1) + spec_encode_pairs(ps, j + 1)));
        }
        j = j + 1;
    }
    proof {
        assert(out@ + spec_encode_pairs(ps, es@.len() as int) =~= out@);
    }
}

/// Anything that serializes itself to canonical bencode bytes.
pub trait Encodable {
    /// The canonical byte encoding this value serializes to.
    spec fn enc_spec(&self) -> Seq<u8>;

    /// Serialize to canonical bencode bytes.
    fn encode(&self) -> (res: Vec<u8>)
        ensures
            res@ == self.enc_spec(),
    ;
}

impl Encodable for Vec<u8> {
    open spec fn enc_spec(&self) -> Seq<u8> {
        spec_encode_bytes(self@)
    }

    fn encode(&self) -> (res: Vec<u8>)
        ensures
            res@ == self.enc_spec(),
    {
        let mut out: Vec<u8> = Vec::new();
        push_bytestring(&mut out, self);
        proof {
            assert(out@ =~= self.enc_spec());
        }
        out
    }
}

impl Encodable for i64 {
    open spec fn enc_spec(&self) -> Seq<u8> {
        spec_encode(BValue::Int(*self as int))
    }

    fn encode(&self) -> (res: Vec<u8>)
        ensures
            res@ == self.enc_spec(),
    {
        let mut out: Vec<u8> = Vec::new();
        out.push(105);
        push_signed(&mut out, *self);
        out.push(101);
        proof {
            assert(out@ =~= self.enc_spec());
        }
        out
    }
}

impl Encodable for Vec<BencodeType> {
    open spec fn enc_spec(&self) -> Seq<u8> {
        spec_encode(BValue::List(views_of_list(self@)))
    }

    fn encode(&self) -> (res: Vec<u8>)
        ensures
            res@ == self.enc_spec(),
    {
        let mut out: Vec<u8> = Vec::new();
        out.push(108);
        encode_items(self, &mut out);
        out.push(101);
        proof {
            assert(out@ =~= self.enc_spec());
        }
        out
    }
}

impl Encodable for Dictionary {
    open spec fn enc_spec(&self) -> Seq<u8> {
        spec_encode(BValue::Dict(self@))
    }

    fn encode(&self) -> (res: Vec<u8>)
        ensures
            res@ == self.enc_spec(),
    {
        let mut out: Vec<u8> = Vec::new();
        out.push(100);
        encode_entries(&self.entries, &mut out);
        out.push(101);
        proof {
            assert(out@ =~= self.enc_spec());
        }
        out
    }
}

impl Encodable for BencodeType {
    open spec fn enc_spec(&self) -> Seq<u8> {
        spec_encode(self@)
    }

    fn encode(&self) -> (res: Vec<u8>)
        ensures
            res@ == self.enc_spec(),
    {
        let mut out: Vec<u8> = Vec::new();
        encode_value(self, &mut out);
        proof {
            assert(out@ =~= self.enc_spec());
        }
        out
    }
}

/// Serialize a value to its canonical bencode bytes.
pub fn encode<T: Encodable>(value: &T) -> (res: Vec<u8>)
    ensures
        res@ == value.enc_spec(),
{
    value.encode()
}

} // verus!
