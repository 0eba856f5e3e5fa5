//! The bencode value tree and its mathematical model.

use vstd::prelude::*;

verus! {

broadcast use
    vstd::seq::axiom_seq_index_decreases,
    vstd::std_specs::vec::axiom_vec_index_decreases,
    vstd::std_specs::vec::axiom_vec_decreases_to_view;

/// Mathematical model of a bencode value: the tagged tree that contracts
/// speak of. Dictionaries are modelled as the sequence of key/value pairs in
/// the order they are stored, which for a well-formed value is strictly
/// ascending byte-lexicographic key order.
#[verifier::ext_equal]
pub enum BValue {
    Bytes(Seq<u8>),
    Int(int),
    List(Seq<BValue>),
    Dict(Seq<(Seq<u8>, BValue)>),
}

/// Strict byte-lexicographic order on byte sequences: `a` comes before `b`
/// when at the first differing position `a` has the smaller byte, or when `a`
/// is a strict prefix of `b`.
pub open spec fn lex_lt(a: Seq<u8>, b: Seq<u8>) -> bool
    decreases a.len(),
{
    if b.len() == 0 {
        false
    } else if a.len() == 0 {
        true
    } else if a[0] < b[0] {
        true
    } else if a[0] > b[0] {
        false
    } else {
        lex_lt(a.drop_first(), b.drop_first())
    }
}

/// `lex_lt` is a strict order: it is asymmetric, and two sequences that are
/// unordered either way are equal.
pub proof fn lemma_lex_total(a: Seq<u8>, b: Seq<u8>)
    ensures
        lex_lt(a, b) ==> !lex_lt(b, a) && a != b,
        !lex_lt(a, b) && !lex_lt(b, a) ==> a == b,
    decreases a.len(),
{
    if a.len() > 0 && b.len() > 0 && a[0] == b[0] {
        lemma_lex_total(a.drop_first(), b.drop_first());
        if a.drop_first() == b.drop_first() {
            assert forall|i: int| 0 <= i < a.len() implies a[i] == b[i] by {
                if i > 0 {
                    assert(a[i] == a.drop_first()[i - 1]);
                    assert(b[i] == b.drop_first()[i - 1]);
                }
            }
            assert(a =~= b);
        }
        if a == b {
            assert(a.drop_first() =~= b.drop_first());
        }
    } else {
        if !lex_lt(a, b) && !lex_lt(b, a) {
            assert(a =~= b);
        }
        if a == b && a.len() > 0 {
            assert(a[0] == b[0]);
        }
    }
}

/// `lex_lt` is transitive.
pub proof fn lemma_lex_trans(a: Seq<u8>, b: Seq<u8>, c: Seq<u8>)
    requires
        lex_lt(a, b),
        lex_lt(b, c),
    ensures
        lex_lt(a, c),
    decreases a.len(),
{
    if a.len() > 0 && b.len() > 0 && c.len() > 0 && a[0] == b[0] && b[0] == c[0] {
        lemma_lex_trans(a.drop_first(), b.drop_first(), c.drop_first());
    }
}

/// Sequences equal up to index `i` compare the same way their tails from `i`
/// do.
pub proof fn lemma_lex_skip(a: Seq<u8>, b: Seq<u8>, i: int)
    requires
        0 <= i <= a.len(),
        i <= b.len(),
        forall|j: int| 0 <= j < i ==> a[j] == b[j],
    ensures
        lex_lt(a, b) == lex_lt(a.skip(i), b.skip(i)),
    decreases i,
{
    if i > 0 {
        lemma_lex_skip(a.drop_first(), b.drop_first(), i - 1);
        assert(a.drop_first().skip(i - 1) =~= a.skip(i));
        assert(b.drop_first().skip(i - 1) =~= b.skip(i));
    } else {
        assert(a.skip(0) =~= a);
        assert(b.skip(0) =~= b);
    }
}

/// The dictionary representation: key/value entries kept in strictly
/// ascending byte-lexicographic key order, so keys are unique and iteration
/// yields the canonical order.
#[derive(Debug, PartialEq, Eq)]
pub struct Dictionary {
    pub entries: Vec<(Vec<u8>, BencodeType)>,
}

/// A bencode value: a byte string, a signed 64-bit integer, an ordered list,
/// or a key-sorted dictionary.
#[derive(Debug, PartialEq, Eq)]
pub enum BencodeType {
    ByteString(Vec<u8>),
    Integer(i64),
    List(Vec<BencodeType>),
    Dictionary(Dictionary),
}

/// Element-wise view of a sequence of values.
pub open spec fn views_of_list(l: Seq<BencodeType>) -> Seq<BValue>
    decreases l,
{
    Seq::new(
        l.len(),
        |i: int|
            if 0 <= i < l.len() {
                l[i]@
            } else {
                arbitrary()
            },
    )
}

/// Element-wise view of dictionary entries.
pub open spec fn views_of_entries(es: Seq<(Vec<u8>, BencodeType)>) -> Seq<(Seq<u8>, BValue)>
    decreases es,
{
    Seq::new(
        es.len(),
        |i: int|
            if 0 <= i < es.len() {
                (es[i].0@, es[i].1@)
            } else {
                arbitrary()
            },
    )
}

impl View for Dictionary {
    type V = Seq<(Seq<u8>, BValue)>;

    open spec fn view(&self) -> Seq<(Seq<u8>, BValue)>
        decreases self,
    {
        views_of_entries(self.entries@)
    }
}

impl View for BencodeType {
    type V = BValue;

    open spec fn view(&self) -> BValue
        decreases self,
    {
        match self {
            BencodeType::ByteString(s) => BValue::Bytes(s@),
            BencodeType::Integer(i) => BValue::Int(*i as int),
            BencodeType::List(l) => BValue::List(views_of_list(l@)),
            BencodeType::Dictionary(d) => BValue::Dict(d@),
        }
    }
}

/// Keys occur in strictly ascending byte-lexicographic order.
pub open spec fn keys_sorted(ps: Seq<(Seq<u8>, BValue)>) -> bool {
    forall|i: int, j: int| 0 <= i < j < ps.len() ==> lex_lt(ps[i].0, ps[j].0)
}

/// Well-formed value trees: integers fit the signed 64-bit width, and every
/// dictionary stores its keys in strictly ascending order. These are exactly
/// the values the encoder maps to canonical bytes.
pub open spec fn wf(v: BValue) -> bool
    decreases v,
{
    match v {
        BValue::Bytes(_) => true,
        BValue::Int(n) => i64::MIN <= n <= i64::MAX,
        BValue::List(vs) => forall|i: int| 0 <= i < vs.len() ==> wf(#[trigger] vs[i]),
        BValue::Dict(ps) => keys_sorted(ps) && forall|i: int|
            0 <= i < ps.len() ==> wf(#[trigger] ps[i].1),
    }
}

/// Insertion into a key-sorted pair sequence: an existing entry with the same
/// key is overwritten, otherwise the new pair lands at its ordered position.
pub open spec fn spec_insert(
    ps: Seq<(Seq<u8>, BValue)>,
    k: Seq<u8>,
    v: BValue,
) -> Seq<(Seq<u8>, BValue)>
    decreases ps.len(),
{
    if ps.len() == 0 {
        seq![(k, v)]
    } else if lex_lt(k, ps[0].0) {
        seq![(k, v)] + ps
    } else if k == ps[0].0 {
        seq![(k, v)] + ps.drop_first()
    } else {
        seq![ps[0]] + spec_insert(ps.drop_first(), k, v)
    }
}

/// Insertion keeps keys sorted, and every stored pair afterwards is the new
/// pair or one of the old pairs.
pub proof fn lemma_insert_sorted(ps: Seq<(Seq<u8>, BValue)>, k: Seq<u8>, v: BValue)
    requires
        keys_sorted(ps),
    ensures
        keys_sorted(spec_insert(ps, k, v)),
        forall|i: int| 0 <= i < spec_insert(ps, k, v).len() ==> (#[trigger] spec_insert(
            ps,
            k,
            v,
        )[i] == (k, v) || exists|j: int| 0 <= j < ps.len() && ps[j] == spec_insert(ps, k, v)[i]),
    decreases ps.len(),
{
    let r = spec_insert(ps, k, v);
    if ps.len() == 0 {
    } else if lex_lt(k, ps[0].0) {
        assert forall|i: int, j: int| 0 <= i < j < r.len() implies lex_lt(r[i].0, r[j].0) by {
            if i == 0 {
                if j > 1 {
                    lemma_lex_trans(k, ps[0].0, ps[j - 1].0);
                }
            } else {
                assert(r[i] == ps[i - 1] && r[j] == ps[j - 1]);
            }
        }
        assert forall|i: int| 0 <= i < r.len() implies (#[trigger] r[i] == (k, v) || exists|j: int|
            0 <= j < ps.len() && ps[j] == r[i]) by {
            if i > 0 {
                assert(ps[i - 1] == r[i]);
            }
        }
    } else if k == ps[0].0 {
        assert forall|i: int, j: int| 0 <= i < j < r.len() implies lex_lt(r[i].0, r[j].0) by {
            if i == 0 {
                assert(r[j] == ps[j]);
            } else {
                assert(r[i] == ps[i] && r[j] == ps[j]);
            }
        }
        assert forall|i: int| 0 <= i < r.len() implies (#[trigger] r[i] == (k, v) || exists|j: int|
            0 <= j < ps.len() && ps[j] == r[i]) by {
            if i > 0 {
                assert(ps[i] == r[i]);
            }
        }
    } else {
        lemma_lex_total(k, ps[0].0);
        assert(lex_lt(ps[0].0, k));
        let rest = ps.drop_first();
        assert(forall|i: int| 0 <= i < rest.len() ==> #[trigger] rest[i] == ps[i + 1]);
        lemma_insert_sorted(rest, k, v);
        let ri = spec_insert(rest, k, v);
        assert(r == seq![ps[0]] + ri);
        assert forall|i: int, j: int| 0 <= i < j < r.len() implies lex_lt(r[i].0, r[j].0) by {
            if i == 0 {
                assert(r[j] == ri[j - 1]);
                if ri[j - 1] == (k, v) {
                } else {
                    let jj = choose|jj: int| 0 <= jj < rest.len() && rest[jj] == ri[j - 1];
                    assert(lex_lt(ps[0].0, ps[jj + 1].0));
                }
            } else {
                assert(r[i] == ri[i - 1] && r[j] == ri[j - 1]);
            }
        }
        assert forall|i: int| 0 <= i < r.len() implies (#[trigger] r[i] == (k, v) || exists|j: int|
            0 <= j < ps.len() && ps[j] == r[i]) by {
            if i == 0 {
                assert(ps[0] == r[0]);
            } else {
                assert(r[i] == ri[i - 1]);
                if ri[i - 1] != (k, v) {
                    let jj = choose|jj: int| 0 <= jj < rest.len() && rest[jj] == ri[i - 1];
                    assert(ps[jj + 1] == r[i]);
                }
            }
        }
    }
}

/// Inserting a key greater than every stored key appends the pair at the end.
pub proof fn lemma_insert_max(ps: Seq<(Seq<u8>, BValue)>, k: Seq<u8>, v: BValue)
    requires
        forall|i: int| 0 <= i < ps.len() ==> lex_lt(#[trigger] ps[i].0, k),
    ensures
        spec_insert(ps, k, v) == ps.push((k, v)),
    decreases ps.len(),
{
    if ps.len() == 0 {
        assert(spec_insert(ps, k, v) =~= ps.push((k, v)));
    } else {
        lemma_lex_total(k, ps[0].0);
        let rest = ps.drop_first();
        assert forall|i: int| 0 <= i < rest.len() implies lex_lt(#[trigger] rest[i].0, k) by {
            assert(rest[i] == ps[i + 1]);
        }
        lemma_insert_max(rest, k, v);
        assert(seq![ps[0]] + rest.push((k, v)) =~= ps.push((k, v)));
    }
}

/// Insertions with distinct keys commute: a dictionary built by a sequence
/// of inserts holds the same entries in the same (ascending) order whatever
/// the order of the inserts.
pub proof fn lemma_insert_commutes(
    ps: Seq<(Seq<u8>, BValue)>,
    k1: Seq<u8>,
    v1: BValue,
    k2: Seq<u8>,
    v2: BValue,
)
    requires
        keys_sorted(ps),
        k1 != k2,
    ensures
        spec_insert(spec_insert(ps, k1, v1), k2, v2) == spec_insert(spec_insert(ps, k2, v2), k1, v1),
    decreases ps.len(),
{
    lemma_lex_total(k1, k2);
    lemma_lex_total(k2, k1);
    if ps.len() == 0 {
        let q1 = spec_insert(ps, k1, v1);
        let q2 = spec_insert(ps, k2, v2);
        assert(q1 == seq![(k1, v1)] && q2 == seq![(k2, v2)]);
        assert(q1[0] == (k1, v1) && q2[0] == (k2, v2));
        assert(q1.drop_first() =~= ps);
        assert(q2.drop_first() =~= ps);
        if lex_lt(k1, k2) {
            assert(spec_insert(q1, k2, v2) == seq![q1[0]] + spec_insert(ps, k2, v2));
            assert(spec_insert(q2, k1, v1) == seq![(k1, v1)] + q2);
            assert(seq![q1[0]] + q2 =~= seq![(k1, v1)] + q2);
        } else {
            assert(spec_insert(q2, k1, v1) == seq![q2[0]] + spec_insert(ps, k1, v1));
            assert(spec_insert(q1, k2, v2) == seq![(k2, v2)] + q1);
            assert(seq![q2[0]] + q1 =~= seq![(k2, v2)] + q1);
        }
    } else {
        let h = ps[0];
        let rest = ps.drop_first();
        assert(forall|i: int| 0 <= i < rest.len() ==> #[trigger] rest[i] == ps[i + 1]);
        lemma_lex_total(k1, h.0);
        lemma_lex_total(k2, h.0);
        let q1 = spec_insert(ps, k1, v1);
        let q2 = spec_insert(ps, k2, v2);
        if !lex_lt(k1, h.0) && k1 != h.0 && !lex_lt(k2, h.0) && k2 != h.0 {
            // Both keys land after the head: recurse into the tail.
            assert(q1 == seq![h] + spec_insert(rest, k1, v1));
            assert(q2 == seq![h] + spec_insert(rest, k2, v2));
            assert(q1.drop_first() =~= spec_insert(rest, k1, v1));
            assert(q2.drop_first() =~= spec_insert(rest, k2, v2));
            assert(q1[0] == h && q2[0] == h);
            lemma_insert_commutes(rest, k1, v1, k2, v2);
            assert(spec_insert(q1, k2, v2) == seq![h] + spec_insert(
                spec_insert(rest, k1, v1),
                k2,
                v2,
            ));
            assert(spec_insert(q2, k1, v1) == seq![h] + spec_insert(
                spec_insert(rest, k2, v2),
                k1,
                v1,
            ));
        } else if lex_lt(k1, h.0) || k1 == h.0 {
            // k1 is at or before the head.
            lemma_insert_front(ps, k1, v1, k2, v2);
        } else {
            // Symmetric: k2 is at or before the head.
            lemma_insert_front(ps, k2, v2, k1, v1);
        }
    }
}

/// The case of `lemma_insert_commutes` where the first key lands at or
/// before the head of the sequence.
proof fn lemma_insert_front(
    ps: Seq<(Seq<u8>, BValue)>,
    k1: Seq<u8>,
    v1: BValue,
    k2: Seq<u8>,
    v2: BValue,
)
    requires
        keys_sorted(ps),
        k1 != k2,
        ps.len() > 0,
        lex_lt(k1, ps[0].0) || k1 == ps[0].0,
    ensures
        spec_insert(spec_insert(ps, k1, v1), k2, v2) == spec_insert(spec_insert(ps, k2, v2), k1, v1),
{
    let h = ps[0];
    let rest = ps.drop_first();
    assert(forall|i: int| 0 <= i < rest.len() ==> #[trigger] rest[i] == ps[i + 1]);
    lemma_lex_total(k1, k2);
    lemma_lex_total(k1, h.0);
    lemma_lex_total(k2, h.0);
    let q1 = spec_insert(ps, k1, v1);
    let q2 = spec_insert(ps, k2, v2);
    if k1 == h.0 {
        // k1 replaces the head.
        assert(q1 == seq![(k1, v1)] + rest);
        assert(q1.drop_first() =~= rest);
        if lex_lt(k2, k1) {
            assert(spec_insert(q1, k2, v2) == seq![(k2, v2)] + q1);
            assert(q2 == seq![(k2, v2)] + ps);
            assert(q2.drop_first() =~= ps);
            assert(q2[0] == (k2, v2));
            assert(spec_insert(q2, k1, v1) == seq![(k2, v2)] + spec_insert(ps, k1, v1));
        } else {
            assert(spec_insert(q1, k2, v2) == seq![(k1, v1)] + spec_insert(rest, k2, v2));
            assert(q2 == seq![h] + spec_insert(rest, k2, v2));
            assert(q2.drop_first() =~= spec_insert(rest, k2, v2));
            assert(q2[0] == h);
            assert(spec_insert(q2, k1, v1) == seq![(k1, v1)] + spec_insert(rest, k2, v2));
        }
    } else {
        // k1 goes strictly before the head.
        assert(q1 == seq![(k1, v1)] + ps);
        assert(q1.drop_first() =~= ps);
        assert(q1[0] == (k1, v1));
        if lex_lt(k2, k1) {
            assert(spec_insert(q1, k2, v2) == seq![(k2, v2)] + q1);
            lemma_lex_trans(k2, k1, h.0);
            assert(q2 == seq![(k2, v2)] + ps);
            assert(q2.drop_first() =~= ps);
            assert(q2[0] == (k2, v2));
            assert(spec_insert(q2, k1, v1) == seq![(k2, v2)] + spec_insert(ps, k1, v1));
            assert(spec_insert(q2, k1, v1) =~= spec_insert(q1, k2, v2));
        } else {
            assert(lex_lt(k1, k2));
            assert(spec_insert(q1, k2, v2) == seq![(k1, v1)] + spec_insert(ps, k2, v2));
            if lex_lt(k2, h.0) {
                assert(q2 == seq![(k2, v2)] + ps);
                assert(q2[0] == (k2, v2));
                assert(spec_insert(q2, k1, v1) == seq![(k1, v1)] + q2);
            } else if k2 == h.0 {
                assert(q2 == seq![(k2, v2)] + rest);
                assert(q2[0] == (k2, v2));
                assert(spec_insert(q2, k1, v1) == seq![(k1, v1)] + q2);
            } else {
                assert(q2 == seq![h] + spec_insert(rest, k2, v2));
                assert(q2[0] == h);
                assert(spec_insert(q2, k1, v1) == seq![(k1, v1)] + q2);
            }
        }
    }
}

/// Three-way comparison result for byte-string keys.
enum KeyCmp {
    Lt,
    Eq,
    Gt,
}

/// Compare two byte strings in byte-lexicographic order.
fn lex_cmp(a: &Vec<u8>, b: &Vec<u8>) -> (r: KeyCmp)
    ensures
        r matches KeyCmp::Lt <==> lex_lt(a@, b@),
        r matches KeyCmp::Eq <==> a@ == b@,
        r matches KeyCmp::Gt <==> lex_lt(b@, a@),
{
    proof {
        lemma_lex_total(a@, b@);
    }
    let mut i: usize = 0;
    loop
        invariant
            0 <= i <= a@.len(),
            i <= b@.len(),
            forall|j: int| 0 <= j < i ==> a@[j] == b@[j],
        decreases a@.len() - i,
    {
        proof {
            lemma_lex_skip(a@, b@, i as int);
            lemma_lex_skip(b@, a@, i as int);
        }
        if i == a.len() && i == b.len() {
            proof {
                assert(a@ =~= b@);
            }
            return KeyCmp::Eq;
        }
        if i == a.len() {
            return KeyCmp::Lt;
        }
        if i == b.len() {
            return KeyCmp::Gt;
        }
        let x = a[i];
        let y = b[i];
        if x < y {
            proof {
                assert(a@.skip(i as int)[0] == x && b@.skip(i as int)[0] == y);
            }
            return KeyCmp::Lt;
        }
        if x > y {
            proof {
                assert(a@.skip(i as int)[0] == x && b@.skip(i as int)[0] == y);
            }
            return KeyCmp::Gt;
        }
        i = i + 1;
    }
}

/// `spec_insert` into a sorted sequence, located at the first position whose
/// key is not below `k`, is a take/replace-or-splice/skip of the original.
proof fn lemma_insert_at(ps: Seq<(Seq<u8>, BValue)>, k: Seq<u8>, v: BValue, i: int)
    requires
        0 <= i <= ps.len(),
        forall|j: int| 0 <= j < i ==> lex_lt(#[trigger] ps[j].0, k),
        i < ps.len() ==> !lex_lt(ps[i].0, k),
    ensures
        i < ps.len() && ps[i].0 == k ==> spec_insert(ps, k, v) == ps.update(i, (k, v)),
        !(i < ps.len() && ps[i].0 == k) ==> spec_insert(ps, k, v) == ps.take(i) + seq![(k, v)]
            + ps.skip(i),
    decreases i,
{
    if i == 0 {
        if ps.len() == 0 {
            assert(spec_insert(ps, k, v) =~= ps.take(0) + seq![(k, v)] + ps.skip(0));
        } else if ps[0].0 == k {
            lemma_lex_total(k, ps[0].0);
            assert(seq![(k, v)] + ps.drop_first() =~= ps.update(0, (k, v)));
        } else {
            lemma_lex_total(k, ps[0].0);
            assert(lex_lt(k, ps[0].0));
            assert(seq![(k, v)] + ps =~= ps.take(0) + seq![(k, v)] + ps.skip(0));
        }
    } else {
        lemma_lex_total(k, ps[0].0);
        let rest = ps.drop_first();
        assert forall|j: int| 0 <= j < i - 1 implies lex_lt(#[trigger] rest[j].0, k) by {
            assert(rest[j] == ps[j + 1]);
        }
        assert(i - 1 < rest.len() ==> rest[i - 1] == ps[i]);
        lemma_insert_at(rest, k, v, i - 1);
        if i < ps.len() && ps[i].0 == k {
            assert(seq![ps[0]] + rest.update(i - 1, (k, v)) =~= ps.update(i, (k, v)));
        } else {
            assert(seq![ps[0]] + (rest.take(i - 1) + seq![(k, v)] + rest.skip(i - 1)) =~= ps.take(
                i,
            ) + seq![(k, v)] + ps.skip(i));
        }
    }
}

impl Dictionary {
    /// An empty dictionary.
    pub fn new() -> (d: Dictionary)
        ensures
            d@ == Seq::<(Seq<u8>, BValue)>::empty(),
    {
        let d = Dictionary { entries: Vec::new() };
        proof {
            assert(d@ =~= Seq::<(Seq<u8>, BValue)>::empty());
        }
        d
    }

    /// Number of stored entries.
    pub fn len(&self) -> (n: usize)
        ensures
            n == self@.len(),
    {
        self.entries.len()
    }

    /// Whether the stored entries are in strictly ascending key order; all
    /// dictionaries built through `new` and `insert` are.
    pub open spec fn well_formed(&self) -> bool {
        keys_sorted(self@)
    }

    /// Insert a key/value pair, overwriting an entry with an equal key, at
    /// the position that keeps the keys in ascending order.
    pub fn insert(&mut self, key: Vec<u8>, value: BencodeType)
        requires
            old(self).well_formed(),
        ensures
            final(self)@ == spec_insert(old(self)@, key@, value@),
            final(self).well_formed(),
    {
        let ghost ps = self@;
        let mut i: usize = 0;
        let mut eq_found: bool = false;
        loop
            invariant_except_break
                !eq_found,
            invariant
                self == old(self),
                ps == self@,
                ps.len() == self.entries@.len(),
                0 <= i <= self.entries@.len(),
                forall|j: int| 0 <= j < i ==> lex_lt(#[trigger] ps[j].0, key@),
            ensures
                self == old(self),
                0 <= i <= ps.len(),
                forall|j: int| 0 <= j < i ==> lex_lt(#[trigger] ps[j].0, key@),
                i < ps.len() ==> !lex_lt(ps[i as int].0, key@),
                eq_found <==> (i < ps.len() && ps[i as int].0 == key@),
            decreases self.entries@.len() - i,
        {
            if i == self.entries.len() {
                break;
            }
            proof {
                assert(ps[i as int].0 == self.entries@[i as int].0@);
                lemma_lex_total(self.entries@[i as int].0@, key@);
                lemma_lex_total(key@, self.entries@[i as int].0@);
            }
            match lex_cmp(&self.entries[i].0, &key) {
                KeyCmp::Lt => {
                    i = i + 1;
                },
                KeyCmp::Eq => {
                    eq_found = true;
                    break;
                },
                KeyCmp::Gt => {
                    break;
                },
            }
        }
        proof {
            lemma_insert_at(ps, key@, value@, i as int);
            lemma_insert_sorted(ps, key@, value@);
        }
        if eq_found {
            self.entries[i] = (key, value);
            proof {
                assert(self@ =~= ps.update(i as int, (key@, value@)));
            }
        } else {
            self.entries.insert(i, (key, value));
            proof {
                assert(self@ =~= ps.take(i as int) + seq![(key@, value@)] + ps.skip(i as int));
            }
        }
    }
}

} // verus!
