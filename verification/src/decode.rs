//! The decoder: a cursor-based recursive-descent parser from bytes to the
//! value tree, validating the input against the format grammar.

use vstd::prelude::*;

use crate::bencode::BValue;
use crate::bencode::BencodeType;
use crate::bencode::Dictionary;
use crate::bencode::keys_sorted;
use crate::bencode::lemma_insert_sorted;
use crate::bencode::spec_insert;
use crate::bencode::wf;

verus! {

/// The kinds of decode failure.
#[derive(Debug, Clone, Copy, PartialEq, Eq, Structural)]
pub enum DecodeError {
    /// An integer or length literal violates the grammar: empty, a stray
    /// leading zero, negative zero, a non-digit, or a value outside the
    /// signed 64-bit range.
    InvalidInteger,
    /// A production needed bytes beyond the end of the buffer.
    UnexpectedEndOfInput,
    /// The lookahead byte at the cursor starts no production.
    UnexpectedCharacter(u8),
    /// A production expected a byte string but found another kind.
    UnexpectedFormat,
}

/// Position of the first occurrence of `t` at or after `pos`, if any.
pub open spec fn seek(b: Seq<u8>, pos: int, t: u8) -> Option<int>
    decreases b.len() - pos,
{
    if pos < 0 || pos >= b.len() {
        None
    } else if b[pos] == t {
        Some(pos)
    } else {
        seek(b, pos + 1, t)
    }
}

/// An ASCII decimal digit.
pub open spec fn is_digit(c: u8) -> bool {
    48 <= c <= 57
}

/// Every byte is an ASCII decimal digit.
pub open spec fn all_digits(s: Seq<u8>) -> bool {
    forall|i: int| 0 <= i < s.len() ==> is_digit(#[trigger] s[i])
}

/// Numeric value of a digit run, most significant digit first.
pub open spec fn digits_val(s: Seq<u8>) -> int
    decreases s.len(),
{
    if s.len() == 0 {
        0
    } else {
        digits_val(s.drop_last()) * 10 + (s.last() - 48)
    }
}

/// Signed value of an integer span: an optional minus sign, then digits.
pub open spec fn int_span_val(s: Seq<u8>) -> int {
    if s.len() > 0 && s[0] == 45 {
        -digits_val(s.skip(1))
    } else {
        digits_val(s)
    }
}

/// The grammar rules for the span between `i` and `e`: non-empty, no leading
/// zero on a multi-digit span, no literal `-0`, an optional minus sign
/// followed by at least one digit, and a value that fits a signed 64-bit
/// integer.
pub open spec fn int_span_ok(s: Seq<u8>) -> bool {
    &&& s.len() > 0
    &&& !(s.len() > 1 && s[0] == 48)
    &&& !(s.len() == 2 && s[0] == 45 && s[1] == 48)
    &&& if s[0] == 45 {
        s.len() > 1 && all_digits(s.skip(1))
    } else {
        all_digits(s)
    }
    &&& i64::MIN <= int_span_val(s) <= i64::MAX
}

/// Parse a byte string at `pos`: a digit run, a colon, then exactly that many
/// bytes. Returns the bytes and the position after them.
pub open spec fn dec_bytes(b: Seq<u8>, pos: int) -> Result<(Seq<u8>, int), DecodeError> {
    match seek(b, pos, 58) {
        None => Err(DecodeError::UnexpectedEndOfInput),
        Some(colon) => {
            let span = b.subrange(pos, colon);
            if span.len() == 0 || !all_digits(span) {
                Err(DecodeError::InvalidInteger)
            } else {
                let n = digits_val(span);
                if colon + 1 + n > b.len() {
                    Err(DecodeError::UnexpectedEndOfInput)
                } else {
                    Ok((b.subrange(colon + 1, colon + 1 + n), colon + 1 + n))
                }
            }
        },
    }
}

/// Parse an integer body at `pos` (just after the leading `i`): the span up
/// to the terminating `e`, held to the integer grammar rules.
pub open spec fn dec_int(b: Seq<u8>, pos: int) -> Result<(BValue, int), DecodeError> {
    match seek(b, pos, 101) {
        None => Err(DecodeError::UnexpectedEndOfInput),
        Some(e_idx) => {
            let span = b.subrange(pos, e_idx);
            if int_span_ok(span) {
                Ok((BValue::Int(int_span_val(span)), e_idx + 1))
            } else {
                Err(DecodeError::InvalidInteger)
            }
        },
    }
}

/// Parse one value at `pos`, dispatching on the lookahead byte, and return it
/// with the position of the first unconsumed byte.
pub open spec fn dec_val(b: Seq<u8>, pos: int) -> Result<(BValue, int), DecodeError>
    decreases b.len() - pos, 1int,
{
    if pos < 0 || pos >= b.len() {
        Err(DecodeError::UnexpectedEndOfInput)
    } else if b[pos] == 105 {
        dec_int(b, pos + 1)
    } else if b[pos] == 108 {
        match dec_list(b, pos + 1) {
            Ok((vs, p)) => Ok((BValue::List(vs), p)),
            Err(e) => Err(e),
        }
    } else if b[pos] == 100 {
        match dec_dict(b, pos + 1, Seq::empty()) {
            Ok((ps, p)) => Ok((BValue::Dict(ps), p)),
            Err(e) => Err(e),
        }
    } else if is_digit(b[pos]) {
        match dec_bytes(b, pos) {
            Ok((s, p)) => Ok((BValue::Bytes(s), p)),
            Err(e) => Err(e),
        }
    } else {
        Err(DecodeError::UnexpectedCharacter(b[pos]))
    }
}

/// Parse list elements from `pos` up to and over the terminating `e`. The
/// bound checks on intermediate positions only discharge termination; parsing
/// always advances, so they never fail (`lemma_dec_val_ok`).
pub open spec fn dec_list(b: Seq<u8>, pos: int) -> Result<(Seq<BValue>, int), DecodeError>
    decreases b.len() - pos, 2int,
{
    if 0 <= pos < b.len() && b[pos] == 101 {
        Ok((Seq::empty(), pos + 1))
    } else {
        match dec_val(b, pos) {
            Err(e) => Err(e),
            Ok((v, p2)) => if pos < p2 <= b.len() {
                match dec_list(b, p2) {
                    Err(e) => Err(e),
                    Ok((vs, p3)) => Ok((seq![v] + vs, p3)),
                }
            } else {
                Err(DecodeError::UnexpectedEndOfInput)
            },
        }
    }
}

/// Parse dictionary entries from `pos` up to and over the terminating `e`,
/// inserting each key/value pair into `acc` (an equal key is overwritten, the
/// last occurrence winning).
pub open spec fn dec_dict(b: Seq<u8>, pos: int, acc: Seq<(Seq<u8>, BValue)>) -> Result<
    (Seq<(Seq<u8>, BValue)>, int),
    DecodeError,
>
    decreases b.len() - pos, 2int,
{
    if 0 <= pos < b.len() && b[pos] == 101 {
        Ok((acc, pos + 1))
    } else {
        match dec_bytes(b, pos) {
            Err(e) => Err(e),
            Ok((k, p2)) => if pos < p2 <= b.len() {
                match dec_val(b, p2) {
                    Err(e) => Err(e),
                    Ok((v, p3)) => if pos < p3 <= b.len() {
                        dec_dict(b, p3, spec_insert(acc, k, v))
                    } else {
                        Err(DecodeError::UnexpectedEndOfInput)
                    },
                }
            } else {
                Err(DecodeError::UnexpectedEndOfInput)
            },
        }
    }
}

/// `seek` finds `t` at `j` exactly when `j` is the first position at or after
/// `pos` holding `t`.
pub proof fn lemma_seek_found(b: Seq<u8>, pos: int, t: u8, j: int)
    requires
        0 <= pos <= j < b.len(),
        b[j] == t,
        forall|m: int| pos <= m < j ==> b[m] != t,
    ensures
        seek(b, pos, t) == Some(j),
    decreases j - pos,
{
    if pos < j {
        lemma_seek_found(b, pos + 1, t, j);
    }
}

/// `seek` finds nothing when `t` does not occur at or after `pos`.
pub proof fn lemma_seek_none(b: Seq<u8>, pos: int, t: u8)
    requires
        forall|m: int| pos <= m < b.len() ==> b[m] != t,
    ensures
        seek(b, pos, t) == None::<int>,
    decreases b.len() - pos,
{
    if 0 <= pos < b.len() {
        lemma_seek_none(b, pos + 1, t);
    }
}

/// What `seek` means: a found position is the first at or after `pos` to
/// hold `t`; when nothing is found, `t` occurs nowhere at or after `pos`.
pub proof fn lemma_seek_bounds(b: Seq<u8>, pos: int, t: u8)
    ensures
        seek(b, pos, t) matches Some(j) ==> 0 <= pos <= j < b.len() && b[j] == t && (forall|
            m: int,
        |
            pos <= m < j ==> b[m] != t),
        0 <= pos && seek(b, pos, t) is None ==> forall|m: int| pos <= m < b.len() ==> b[m] != t,
    decreases b.len() - pos,
{
    if 0 <= pos < b.len() && b[pos] != t {
        lemma_seek_bounds(b, pos + 1, t);
    }
}

/// A digit run has a nonnegative value.
pub proof fn lemma_digits_nonneg(s: Seq<u8>)
    requires
        all_digits(s),
    ensures
        digits_val(s) >= 0,
    decreases s.len(),
{
    if s.len() > 0 {
        let d = s.drop_last();
        assert(forall|i: int| 0 <= i < d.len() ==> d[i] == s[i]);
        lemma_digits_nonneg(d);
    }
}

/// A prefix of a digit run is worth no more than the whole run.
pub proof fn lemma_digits_prefix(s: Seq<u8>, m: int)
    requires
        all_digits(s),
        0 <= m <= s.len(),
    ensures
        digits_val(s.take(m)) <= digits_val(s),
    decreases s.len(),
{
    if m < s.len() {
        let d = s.drop_last();
        assert(forall|i: int| 0 <= i < d.len() ==> d[i] == s[i]);
        assert(s.take(m) =~= d.take(m));
        lemma_digits_prefix(d, m);
        lemma_digits_nonneg(d);
    } else {
        assert(s.take(m) =~= s);
    }
}

/// A successful parse consumes at least one byte, never runs past the end of
/// the buffer, and yields a well-formed value.
pub proof fn lemma_dec_val_ok(b: Seq<u8>, pos: int)
    ensures
        dec_val(b, pos) matches Ok((v, p)) ==> pos < p <= b.len() && wf(v),
    decreases b.len() - pos, 1int,
{
    if 0 <= pos < b.len() {
        if b[pos] == 105 {
            lemma_dec_int_ok(b, pos + 1);
        } else if b[pos] == 108 {
            lemma_dec_list_ok(b, pos + 1);
        } else if b[pos] == 100 {
            lemma_dec_dict_ok(b, pos + 1, Seq::empty());
        } else if is_digit(b[pos]) {
            lemma_dec_bytes_ok(b, pos);
        }
    }
}

/// A successful byte-string parse advances and stays in bounds.
pub proof fn lemma_dec_bytes_ok(b: Seq<u8>, pos: int)
    ensures
        dec_bytes(b, pos) matches Ok((s, p)) ==> pos < p <= b.len(),
{
    lemma_seek_bounds(b, pos, 58);
    if dec_bytes(b, pos) is Ok {
        let colon = seek(b, pos, 58)->Some_0;
        let span = b.subrange(pos, colon);
        lemma_digits_nonneg(span);
    }
}

/// A successful integer parse advances, stays in bounds, and fits the width.
pub proof fn lemma_dec_int_ok(b: Seq<u8>, pos: int)
    ensures
        dec_int(b, pos) matches Ok((v, p)) ==> pos < p <= b.len() && wf(v),
{
    lemma_seek_bounds(b, pos, 101);
}

/// A successful list parse advances, stays in bounds, and yields well-formed
/// elements.
pub proof fn lemma_dec_list_ok(b: Seq<u8>, pos: int)
    ensures
        dec_list(b, pos) matches Ok((vs, p)) ==> pos < p <= b.len() && (forall|i: int|
            0 <= i < vs.len() ==> wf(#[trigger] vs[i])),
    decreases b.len() - pos, 2int,
{
    if !(0 <= pos < b.len() && b[pos] == 101) {
        lemma_dec_val_ok(b, pos);
        if dec_val(b, pos) is Ok {
            let (v, p2) = dec_val(b, pos)->Ok_0;
            if pos < p2 <= b.len() {
                lemma_dec_list_ok(b, p2);
                if dec_list(b, p2) is Ok {
                    let (vs, p3) = dec_list(b, p2)->Ok_0;
                    assert(forall|i: int|
                        0 <= i < (seq![v] + vs).len() ==> (i == 0 || (seq![v] + vs)[i] == vs[i
                            - 1]));
                }
            }
        }
    }
}

/// A successful dictionary parse advances, stays in bounds, and keeps the
/// accumulated entries sorted and well-formed.
pub proof fn lemma_dec_dict_ok(b: Seq<u8>, pos: int, acc: Seq<(Seq<u8>, BValue)>)
    requires
        keys_sorted(acc),
        forall|i: int| 0 <= i < acc.len() ==> wf(#[trigger] acc[i].1),
    ensures
        dec_dict(b, pos, acc) matches Ok((ps, p)) ==> pos < p <= b.len() && keys_sorted(ps) && (
        forall|i: int| 0 <= i < ps.len() ==> wf(#[trigger] ps[i].1)),
    decreases b.len() - pos, 2int,
{
    if !(0 <= pos < b.len() && b[pos] == 101) {
        lemma_dec_bytes_ok(b, pos);
        if dec_bytes(b, pos) is Ok {
            let (k, p2) = dec_bytes(b, pos)->Ok_0;
            if pos < p2 <= b.len() {
                lemma_dec_val_ok(b, p2);
                if dec_val(b, p2) is Ok {
                    let (v, p3) = dec_val(b, p2)->Ok_0;
                    if pos < p3 <= b.len() {
                        lemma_insert_sorted(acc, k, v);
                        let acc2 = spec_insert(acc, k, v);
                        assert forall|i: int| 0 <= i < acc2.len() implies wf(
                            #[trigger] acc2[i].1,
                        ) by {
                            if acc2[i] != (k, v) {
                                let j = choose|j: int|
                                    0 <= j < acc.len() && acc[j] == acc2[i];
                                assert(wf(acc[j].1));
                            }
                        }
                        lemma_dec_dict_ok(b, p3, acc2);
                    }
                }
            }
        }
    }
}

/// A successful dictionary parse advances and stays in bounds, for any
/// accumulator.
pub proof fn lemma_dec_dict_advance(b: Seq<u8>, pos: int, acc: Seq<(Seq<u8>, BValue)>)
    ensures
        dec_dict(b, pos, acc) matches Ok((ps, p)) ==> pos < p <= b.len(),
    decreases b.len() - pos, 2int,
{
    if !(0 <= pos < b.len() && b[pos] == 101) {
        lemma_dec_bytes_ok(b, pos);
        if dec_bytes(b, pos) is Ok {
            let (k, p2) = dec_bytes(b, pos)->Ok_0;
            if pos < p2 <= b.len() {
                lemma_dec_val_ok(b, p2);
                if dec_val(b, p2) is Ok {
                    let (v, p3) = dec_val(b, p2)->Ok_0;
                    if pos < p3 <= b.len() {
                        lemma_dec_dict_advance(b, p3, spec_insert(acc, k, v));
                    }
                }
            }
        }
    }
}

/// The decoder: holds the input buffer and a cursor, the current read
/// position; each successful `decode` advances the cursor past the value it
/// consumed and leaves it at the first unconsumed byte.
#[derive(Debug)]
pub struct Decoder<'a> {
    input: &'a [u8],
    cursor: usize,
}

impl<'a> Decoder<'a> {
    /// The input buffer being decoded.
    pub closed spec fn inp(&self) -> Seq<u8> {
        self.input@
    }

    /// The cursor: the current read position.
    pub closed spec fn pos(&self) -> int {
        self.cursor as int
    }

    /// The cursor never runs past the end of the buffer; `new` establishes
    /// this and every method keeps it.
    pub open spec fn in_bounds(&self) -> bool {
        0 <= self.pos() <= self.inp().len()
    }

    /// A decoder positioned at the start of `input`.
    pub fn new(input: &'a [u8]) -> (d: Decoder<'a>)
        ensures
            d.inp() == input@,
            d.pos() == 0,
            d.in_bounds(),
    {
        Decoder { input, cursor: 0 }
    }

    /// The byte at position `i`.
    fn byte_at(&self, i: usize) -> (c: u8)
        requires
            i < self.inp().len(),
        ensures
            c == self.inp()[i as int],
    {
        *vstd::slice::slice_index_get(self.input, i)
    }

    /// Advance the cursor over one byte.
    fn consume_byte(&mut self)
        requires
            old(self).pos() < old(self).inp().len(),
        ensures
            final(self).inp() == old(self).inp(),
            final(self).pos() == old(self).pos() + 1,
    {
        let _n: usize = self.input.len();
        self.cursor += 1;
    }

    /// Scan forward from `from` for the first occurrence of `t`.
    fn scan_for(&self, from: usize, t: u8) -> (r: Option<usize>)
        ensures
            match seek(self.inp(), from as int, t) {
                Some(j) => r matches Some(ju) && ju as int == j,
                None => r is None,
            },
    {
        let ghost b = self.inp();
        let mut j: usize = from;
        while j < self.input.len()
            invariant
                from <= j,
                b == self.inp(),
                forall|m: int| from <= m < j ==> b[m] != t,
            decreases b.len() - j,
        {
            if self.byte_at(j) == t {
                proof {
                    lemma_seek_found(b, from as int, t, j as int);
                }
                return Some(j);
            }
            j += 1;
        }
        proof {
            lemma_seek_none(b, from as int, t);
        }
        None
    }

    /// Decode one value at the cursor, dispatching on the lookahead byte:
    /// `i` starts an integer, `l` a list, `d` a dictionary, a decimal digit a
    /// byte string; any other byte fails, as does an exhausted buffer. On
    /// success the returned value is well-formed and the cursor stands just
    /// past the bytes that encode it; the result and the new cursor are
    /// exactly what the grammar (`dec_val`) assigns to the input.
    pub fn decode(&mut self) -> (res: Result<BencodeType, DecodeError>)
        requires
            old(self).in_bounds(),
        ensures
            final(self).inp() == old(self).inp(),
            final(self).in_bounds(),
            match dec_val(old(self).inp(), old(self).pos()) {
                Ok((v, p)) => res matches Ok(x) && x@ == v && wf(v) && final(self).pos() == p,
                Err(e) => res matches Err(e2) && e2 == e,
            },
        decreases old(self).inp().len() - old(self).pos(), 2int,
    {
        proof {
            lemma_dec_val_ok(old(self).inp(), old(self).pos());
        }
        if self.cursor >= self.input.len() {
            return Err(DecodeError::UnexpectedEndOfInput);
        }
        let c = self.byte_at(self.cursor);
        if c == 105 {
            self.decode_integer()
        } else if c == 108 {
            self.decode_list()
        } else if c == 100 {
            self.decode_dictionary()
        } else if 48 <= c && c <= 57 {
            self.decode_bytestring()
        } else {
            Err(DecodeError::UnexpectedCharacter(c))
        }
    }

    /// Decode a byte string at the cursor: a decimal length, a colon, then
    /// exactly that many bytes, returned verbatim.
    #[verifier::loop_isolation(false)]
    fn decode_bytestring(&mut self) -> (res: Result<BencodeType, DecodeError>)
        requires
            old(self).in_bounds(),
        ensures
            final(self).inp() == old(self).inp(),
            final(self).in_bounds(),
            match dec_bytes(old(self).inp(), old(self).pos()) {
                Ok((s, p)) => res matches Ok(x) && x@ == BValue::Bytes(s) && final(self).pos()
                    == p,
                Err(e) => res matches Err(e2) && e2 == e,
            },
    {
        let ghost b = self.inp();
        let buf_len: usize = self.input.len();
        let start = self.cursor;
        let colon = match self.scan_for(start, 58) {
            None => {
                return Err(DecodeError::UnexpectedEndOfInput);
            },
            Some(j) => j,
        };
        proof {
            lemma_seek_bounds(b, start as int, 58);
        }
        let ghost span = b.subrange(start as int, colon as int);
        if colon == start {
            return Err(DecodeError::InvalidInteger);
        }
        // Every byte of the length run must be a decimal digit.
        let mut k = start;
        while k < colon
            invariant
                start <= k <= colon <= b.len(),
                b == self.inp(),
                self.cursor == start,
                span == b.subrange(start as int, colon as int),
                forall|m: int| start <= m < k ==> is_digit(#[trigger] b[m]),
            decreases colon - k,
        {
            let c = self.byte_at(k);
            if c < 48 || c > 57 {
                proof {
                    assert(span[k - start] == b[k as int]);
                    assert(!all_digits(span));
                }
                return Err(DecodeError::InvalidInteger);
            }
            k += 1;
        }
        proof {
            assert forall|m: int| 0 <= m < span.len() implies is_digit(#[trigger] span[m]) by {
                assert(span[m] == b[m + start]);
            }
        }
        // Accumulate the length; a value too large for `usize` cannot be
        // satisfied by the remaining bytes of any buffer.
        let mut n: usize = 0;
        let mut k2 = start;
        while k2 < colon
            invariant
                start <= k2 <= colon <= b.len(),
                b == self.inp(),
                self.cursor == start,
                colon < b.len(),
                b.len() == buf_len,
                span == b.subrange(start as int, colon as int),
                all_digits(span),
                n as int == digits_val(b.subrange(start as int, k2 as int)),
            decreases colon - k2,
        {
            proof {
                assert(span[k2 - start] == b[k2 as int]);
            }
            let d: u8 = self.byte_at(k2) - 48;
            let ghost pfx = b.subrange(start as int, k2 as int);
            proof {
                assert(b.subrange(start as int, k2 + 1).drop_last() =~= pfx);
            }
            if n > (usize::MAX - d as usize) / 10 {
                proof {
                    assert(digits_val(b.subrange(start as int, k2 + 1)) > usize::MAX);
                    assert(b.subrange(start as int, k2 + 1) =~= span.take(k2 + 1 - start));
                    lemma_digits_prefix(span, k2 + 1 - start);
                    assert(digits_val(span) > usize::MAX);
                    assert(b.len() <= usize::MAX);
                }
                return Err(DecodeError::UnexpectedEndOfInput);
            }
            n = n * 10 + d as usize;
            k2 += 1;
        }
        proof {
            assert(b.subrange(start as int, colon as int) =~= span);
        }
        self.cursor = colon + 1;
        let remaining = self.input.len() - (colon + 1);
        if n > remaining {
            return Err(DecodeError::UnexpectedEndOfInput);
        }
        let bytes_slice = vstd::slice::slice_subrange(self.input, colon + 1, colon + 1 + n);
        let bytes = vstd::slice::slice_to_vec(bytes_slice);
        self.cursor = colon + 1 + n;
        Ok(BencodeType::ByteString(bytes))
    }

    /// Decode an integer at the cursor: `i`, an optional minus sign and a
    /// digit run with no stray leading zero and no negative zero, then `e`.
    #[verifier::loop_isolation(false)]
    fn decode_integer(&mut self) -> (res: Result<BencodeType, DecodeError>)
        requires
            old(self).in_bounds(),
            old(self).pos() < old(self).inp().len(),
            old(self).inp()[old(self).pos()] == 105,
        ensures
            final(self).inp() == old(self).inp(),
            final(self).in_bounds(),
            match dec_int(old(self).inp(), old(self).pos() + 1) {
                Ok((v, p)) => res matches Ok(x) && x@ == v && final(self).pos() == p,
                Err(e) => res matches Err(e2) && e2 == e,
            },
    {
        let ghost b = self.inp();
        let buf_len: usize = self.input.len();
        self.consume_byte();
        let start = self.cursor;
        let e_idx = match self.scan_for(start, 101) {
            None => {
                return Err(DecodeError::UnexpectedEndOfInput);
            },
            Some(j) => j,
        };
        proof {
            lemma_seek_bounds(b, start as int, 101);
        }
        let ghost span = b.subrange(start as int, e_idx as int);
        self.cursor = e_idx + 1;
        if e_idx == start {
            return Err(DecodeError::InvalidInteger);
        }
        let first = self.byte_at(start);
        proof {
            assert(span[0] == b[start as int]);
        }
        if e_idx - start > 1 && first == 48 {
            return Err(DecodeError::InvalidInteger);
        }
        let neg = first == 45;
        if neg && e_idx - start == 2 && self.byte_at(start + 1) == 48 {
            proof {
                assert(span[1] == b[start + 1]);
            }
            return Err(DecodeError::InvalidInteger);
        }
        let ds = if neg {
            start + 1
        } else {
            start
        };
        let ghost digits = b.subrange(ds as int, e_idx as int);
        proof {
            if neg {
                assert(digits =~= span.skip(1));
            } else {
                assert(digits =~= span);
            }
        }
        if ds == e_idx {
            return Err(DecodeError::InvalidInteger);
        }
        // Every byte of the span after the sign must be a decimal digit.
        let mut k = ds;
        while k < e_idx
            invariant
                ds <= k <= e_idx < b.len(),
                b == self.inp(),
                b.len() == buf_len,
                self.cursor == e_idx + 1,
                digits == b.subrange(ds as int, e_idx as int),
                forall|m: int| ds <= m < k ==> is_digit(#[trigger] b[m]),
            decreases e_idx - k,
        {
            let c = self.byte_at(k);
            if c < 48 || c > 57 {
                proof {
                    assert(digits[k - ds] == b[k as int]);
                    assert(!all_digits(digits));
                }
                return Err(DecodeError::InvalidInteger);
            }
            k += 1;
        }
        proof {
            assert forall|m: int| 0 <= m < digits.len() implies is_digit(#[trigger] digits[m]) by {
                assert(digits[m] == b[m + ds]);
            }
        }
        // Accumulate the magnitude, bounded by the signed 64-bit range.
        let limit: u64 = if neg {
            9223372036854775808
        } else {
            9223372036854775807
        };
        let mut mag: u64 = 0;
        let mut k2 = ds;
        while k2 < e_idx
            invariant
                ds <= k2 <= e_idx < b.len(),
                start <= ds <= e_idx,
                b == self.inp(),
                b.len() == buf_len,
                self.cursor == e_idx + 1,
                span == b.subrange(start as int, e_idx as int),
                digits == b.subrange(ds as int, e_idx as int),
                neg ==> span[0] == 45 && digits == span.skip(1) && span.len() >= 2,
                !neg ==> digits == span,
                all_digits(digits),
                limit == if neg { 9223372036854775808u64 } else { 9223372036854775807u64 },
                mag as int == digits_val(b.subrange(ds as int, k2 as int)),
                mag <= limit,
            decreases e_idx - k2,
        {
            proof {
                assert(digits[k2 - ds] == b[k2 as int]);
            }
            let d: u8 = self.byte_at(k2) - 48;
            let ghost pfx = b.subrange(ds as int, k2 as int);
            proof {
                assert(b.subrange(ds as int, k2 + 1).drop_last() =~= pfx);
            }
            if mag > (limit - d as u64) / 10 {
                proof {
                    assert(digits_val(b.subrange(ds as int, k2 + 1)) > limit);
                    assert(b.subrange(ds as int, k2 + 1) =~= digits.take(k2 + 1 - ds));
                    lemma_digits_prefix(digits, k2 + 1 - ds);
                    assert(digits_val(digits) > limit);
                    if neg {
                        assert(int_span_val(span) == -digits_val(digits));
                        assert(int_span_val(span) < i64::MIN);
                    } else {
                        assert(int_span_val(span) == digits_val(digits));
                        assert(int_span_val(span) > i64::MAX);
                    }
                    assert(!int_span_ok(span));
                }
                return Err(DecodeError::InvalidInteger);
            }
            mag = mag * 10 + d as u64;
            k2 += 1;
        }
        proof {
            assert(b.subrange(ds as int, e_idx as int) =~= digits);
        }
        let value: i64 = if neg {
            if mag == 9223372036854775808 {
                i64::MIN
            } else {
                -(mag as i64)
            }
        } else {
            mag as i64
        };
        proof {
            assert(int_span_ok(span));
            assert(value as int == int_span_val(span));
        }
        Ok(BencodeType::Integer(value))
    }

    /// Decode a list at the cursor: `l`, any number of values, then `e`.
    #[verifier::loop_isolation(false)]
    fn decode_list(&mut self) -> (res: Result<BencodeType, DecodeError>)
        requires
            old(self).in_bounds(),
            old(self).pos() < old(self).inp().len(),
            old(self).inp()[old(self).pos()] == 108,
        ensures
            final(self).inp() == old(self).inp(),
            final(self).in_bounds(),
            match dec_list(old(self).inp(), old(self).pos() + 1) {
                Ok((vs, p)) => res matches Ok(x) && x@ == BValue::List(vs) && final(self).pos()
                    == p,
                Err(e) => res matches Err(e2) && e2 == e,
            },
        decreases old(self).inp().len() - old(self).pos(), 1int,
    {
        let ghost b = self.inp();
        self.consume_byte();
        let ghost start = self.pos();
        let mut items: Vec<BencodeType> = Vec::new();
        proof {
            assert(crate::bencode::views_of_list(items@) =~= Seq::<BValue>::empty());
        }
        loop
            invariant
                self.in_bounds(),
                b == self.inp(),
                start <= self.pos() <= b.len(),
                match dec_list(b, self.pos()) {
                    Ok((vs, p)) => dec_list(b, start) == Ok::<_, DecodeError>(
                        (crate::bencode::views_of_list(items@) + vs, p),
                    ),
                    Err(e) => dec_list(b, start) == Err::<(Seq<BValue>, int), _>(e),
                },
            decreases b.len() - self.pos(),
        {
            if self.cursor == self.input.len() {
                proof {
                    assert(dec_val(b, self.pos()) == Err::<(BValue, int), DecodeError>(
                        DecodeError::UnexpectedEndOfInput,
                    ));
                    assert(dec_list(b, self.pos()) == Err::<(Seq<BValue>, int), DecodeError>(
                        DecodeError::UnexpectedEndOfInput,
                    ));
                }
                return Err(DecodeError::UnexpectedEndOfInput);
            }
            if self.byte_at(self.cursor) == 101 {
                self.consume_byte();
                proof {
                    assert(crate::bencode::views_of_list(items@) + Seq::<BValue>::empty()
                        =~= crate::bencode::views_of_list(items@));
                }
                return Ok(BencodeType::List(items));
            }
            let ghost cur = self.pos();
            let ghost pre = items@;
            match self.decode() {
                Err(e) => {
                    return Err(e);
                },
                Ok(x) => {
                    proof {
                        lemma_dec_val_ok(b, cur);
                    }
                    items.push(x);
                    proof {
                        let vs0 = crate::bencode::views_of_list(pre);
                        let vs1 = crate::bencode::views_of_list(items@);
                        assert(vs1 =~= vs0.push(x@));
                        let (v, p2) = dec_val(b, cur)->Ok_0;
                        assert forall|rest: Seq<BValue>| true implies vs0 + (seq![x@] + rest)
                            == vs1 + rest by {
                            assert(vs0 + (seq![x@] + rest) =~= vs1 + rest);
                        }
                    }
                },
            }
        }
    }

    /// Decode a dictionary at the cursor: `d`, any number of byte-string keys
    /// each followed by a value, then `e`. Pairs land at their sorted
    /// position; an equal key is overwritten, the last occurrence winning.
    #[verifier::loop_isolation(false)]
    fn decode_dictionary(&mut self) -> (res: Result<BencodeType, DecodeError>)
        requires
            old(self).in_bounds(),
            old(self).pos() < old(self).inp().len(),
            old(self).inp()[old(self).pos()] == 100,
        ensures
            final(self).inp() == old(self).inp(),
            final(self).in_bounds(),
            match dec_dict(old(self).inp(), old(self).pos() + 1, Seq::empty()) {
                Ok((ps, p)) => res matches Ok(x) && x@ == BValue::Dict(ps) && final(self).pos()
                    == p,
                Err(e) => res matches Err(e2) && e2 == e,
            },
        decreases old(self).inp().len() - old(self).pos(), 1int,
    {
        let ghost b = self.inp();
        self.consume_byte();
        let ghost start = self.pos();
        let mut dict = Dictionary::new();
        loop
            invariant
                self.in_bounds(),
                b == self.inp(),
                start <= self.pos() <= b.len(),
                dict.well_formed(),
                match dec_dict(b, self.pos(), dict@) {
                    Ok((ps, p)) => dec_dict(b, start, Seq::empty()) == Ok::<_, DecodeError>(
                        (ps, p),
                    ),
                    Err(e) => dec_dict(b, start, Seq::empty()) == Err::<
                        (Seq<(Seq<u8>, BValue)>, int),
                        _,
                    >(e),
                },
            decreases b.len() - self.pos(),
        {
            if self.cursor == self.input.len() {
                return Err(DecodeError::UnexpectedEndOfInput);
            }
            if self.byte_at(self.cursor) == 101 {
                self.consume_byte();
                return Ok(BencodeType::Dictionary(dict));
            }
            let ghost cur = self.pos();
            let k = match self.decode_bytestring() {
                Err(e) => {
                    return Err(e);
                },
                Ok(k) => k,
            };
            proof {
                lemma_dec_bytes_ok(b, cur);
            }
            let k_inner = match k {
                BencodeType::ByteString(inner) => inner,
                _ => {
                    proof {
                        assert(false);
                    }
                    return Err(DecodeError::UnexpectedFormat);
                },
            };
            let ghost cur2 = self.pos();
            let v = match self.decode() {
                Err(e) => {
                    return Err(e);
                },
                Ok(v) => v,
            };
            proof {
                lemma_dec_val_ok(b, cur2);
            }
            dict.insert(k_inner, v);
        }
    }
}

/// Decode one value from the start of the buffer. The result, or the error,
/// is exactly what the grammar (`dec_val`) assigns to the bytes; a returned
/// value is well-formed.
pub fn decode(input: &Vec<u8>) -> (res: Result<BencodeType, DecodeError>)
    ensures
        match dec_val(input@, 0) {
            Ok((v, p)) => res matches Ok(x) && x@ == v && wf(v),
            Err(e) => res matches Err(e2) && e2 == e,
        },
{
    let mut d = Decoder::new(input.as_slice());
    proof {
        lemma_dec_val_ok(input@, 0);
    }
    d.decode()
}

} // verus!
