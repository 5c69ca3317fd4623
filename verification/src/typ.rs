use vstd::prelude::*;

use crate::errors::ConverterError;

verus! {

// ---------------------------------------------------------------------------
// Mathematical model of a Bencode value tree
// ---------------------------------------------------------------------------

/// The model of a Bencode value: a tagged tree over unbounded integers and
/// byte sequences. Dictionaries are association sequences; in canonical form
/// (see [`wf`]) their keys are strictly increasing in byte-lexicographic
/// order, which makes the encoding of a tree unique.
pub enum ValueModel {
    Int(int),
    Bytes(Seq<u8>),
    List(Seq<ValueModel>),
    Dict(Seq<(Seq<u8>, ValueModel)>),
}

/// Strict byte-lexicographic order on byte sequences: `a` comes before `b`
/// when `a` is a proper prefix of `b`, or the first differing byte of `a` is
/// smaller.
pub open spec fn bytes_lt(a: Seq<u8>, b: Seq<u8>) -> bool
    decreases a.len(),
{
    if b.len() == 0 {
        false
    } else if a.len() == 0 {
        true
    } else if a[0] < b[0] {
        true
    } else if a[0] > b[0] {
        false
    } else {
        bytes_lt(a.subrange(1, a.len() as int), b.subrange(1, b.len() as int))
    }
}

/// ASCII decimal digit.
pub open spec fn is_digit(b: u8) -> bool {
    0x30 <= b <= 0x39
}

/// Minimal decimal digits of a non-negative integer: no leading zero except
/// for the single digit `0` itself.
pub open spec fn dec_digits(n: int) -> Seq<u8>
    recommends
        n >= 0,
    decreases n,
{
    if n < 0 {
        seq![0x30u8]
    } else if n < 10 {
        seq![(0x30 + n) as u8]
    } else {
        dec_digits(n / 10).push((0x30 + n % 10) as u8)
    }
}

/// Decimal digits of a signed integer: a `-` sign followed by the digits of
/// the magnitude when negative.
pub open spec fn int_digits(i: int) -> Seq<u8> {
    if i < 0 {
        seq![0x2du8] + dec_digits(-i)
    } else {
        dec_digits(i)
    }
}

/// The numeric value of a sequence of ASCII digits, most significant first.
pub open spec fn digits_val(ds: Seq<u8>) -> int
    decreases ds.len(),
{
    if ds.len() == 0 {
        0
    } else {
        digits_val(ds.drop_last()) * 10 + (ds.last() - 0x30)
    }
}

/// The encoding of one byte string: decimal length, a colon, the raw bytes.
pub open spec fn bstr_enc(s: Seq<u8>) -> Seq<u8> {
    dec_digits(s.len() as int) + seq![0x3au8] + s
}

/// The canonical encoding of a value tree.
pub open spec fn enc(m: ValueModel) -> Seq<u8>
    decreases m, 0int,
{
    match m {
        ValueModel::Int(i) => seq![0x69u8] + int_digits(i) + seq![0x65u8],
        ValueModel::Bytes(s) => bstr_enc(s),
        ValueModel::List(items) => seq![0x6cu8] + enc_items(items, 0) + seq![0x65u8],
        ValueModel::Dict(ps) => seq![0x64u8] + enc_pairs(ps, 0) + seq![0x65u8],
    }
}

/// Concatenated encodings of the list items from index `i` on.
pub open spec fn enc_items(items: Seq<ValueModel>, i: int) -> Seq<u8>
    decreases items, items.len() - i,
{
    if i < 0 || i >= items.len() {
        Seq::empty()
    } else {
        enc(items[i]) + enc_items(items, i + 1)
    }
}

/// Concatenated `key value` encodings of the dictionary entries from index
/// `i` on; each key is encoded as a byte string.
pub open spec fn enc_pairs(ps: Seq<(Seq<u8>, ValueModel)>, i: int) -> Seq<u8>
    decreases ps, ps.len() - i,
{
    if i < 0 || i >= ps.len() {
        Seq::empty()
    } else {
        bstr_enc(ps[i].0) + enc(ps[i].1) + enc_pairs(ps, i + 1)
    }
}

// ---------------------------------------------------------------------------
// Canonical well-formedness
// ---------------------------------------------------------------------------

/// A canonical value tree: every integer has a magnitude that fits in a
/// signed 64-bit word, every byte string and dictionary key is of a length
/// the decoder's length arithmetic admits, and every dictionary has strictly
/// increasing keys. Exactly these trees round-trip through encode and decode.
pub open spec fn wf(m: ValueModel) -> bool
    decreases m, 0int,
{
    match m {
        ValueModel::Int(i) => -0x7fff_ffff_ffff_ffff <= i <= 0x7fff_ffff_ffff_ffff,
        ValueModel::Bytes(s) => s.len() <= 0x7fff_ffff_ffff_ffff,
        ValueModel::List(items) => wf_items(items, 0),
        ValueModel::Dict(ps) => wf_pairs(ps, 0) && (forall|j: int|
            0 <= j < ps.len() ==> #[trigger] ps[j].0.len() <= 0x7fff_ffff_ffff_ffff)
            && (forall|j: int| 0 <= j && j + 1 < ps.len() ==> bytes_lt(#[trigger] ps[j].0, ps[j + 1].0)),
    }
}

/// All list items from index `i` on are canonical.
pub open spec fn wf_items(items: Seq<ValueModel>, i: int) -> bool
    decreases items, items.len() - i,
{
    if i < 0 || i >= items.len() {
        true
    } else {
        wf(items[i]) && wf_items(items, i + 1)
    }
}

/// All dictionary values from index `i` on are canonical.
pub open spec fn wf_pairs(ps: Seq<(Seq<u8>, ValueModel)>, i: int) -> bool
    decreases ps, ps.len() - i,
{
    if i < 0 || i >= ps.len() {
        true
    } else {
        wf(ps[i].1) && wf_pairs(ps, i + 1)
    }
}

// ---------------------------------------------------------------------------
// Sorted association sequences
// ---------------------------------------------------------------------------

/// Insert an entry into a key-sorted association sequence, in front of the
/// first entry whose key is not below the new key.
pub open spec fn insert_sorted<V>(ps: Seq<(Seq<u8>, V)>, k: Seq<u8>, v: V) -> Seq<(Seq<u8>, V)>
    decreases ps.len(),
{
    if ps.len() == 0 {
        seq![(k, v)]
    } else if !bytes_lt(ps[0].0, k) {
        seq![(k, v)] + ps
    } else {
        seq![ps[0]] + insert_sorted(ps.subrange(1, ps.len() as int), k, v)
    }
}

/// Insertion sort of an association sequence by key, left to right.
pub open spec fn sort_pairs<V>(ps: Seq<(Seq<u8>, V)>) -> Seq<(Seq<u8>, V)>
    decreases ps.len(),
{
    if ps.len() == 0 {
        Seq::empty()
    } else {
        insert_sorted(sort_pairs(ps.drop_last()), ps.last().0, ps.last().1)
    }
}

/// Keys strictly increase from left to right.
pub open spec fn sorted_strict<V>(ps: Seq<(Seq<u8>, V)>) -> bool {
    forall|j: int| 0 <= j && j + 1 < ps.len() ==> bytes_lt(#[trigger] ps[j].0, ps[j + 1].0)
}

/// All list items from index `j` on being canonical makes each one canonical.
pub proof fn lemma_wf_items_at(items: Seq<ValueModel>, j: int, i: int)
    requires
        wf_items(items, j),
        0 <= j <= i < items.len(),
    ensures
        wf(items[i]),
    decreases i - j,
{
    if j < i {
        lemma_wf_items_at(items, j + 1, i);
    }
}

/// All dictionary values from index `j` on being canonical makes each one
/// canonical.
pub proof fn lemma_wf_pairs_at(ps: Seq<(Seq<u8>, ValueModel)>, j: int, i: int)
    requires
        wf_pairs(ps, j),
        0 <= j <= i < ps.len(),
    ensures
        wf(ps[i].1),
    decreases i - j,
{
    if j < i {
        lemma_wf_pairs_at(ps, j + 1, i);
    }
}

/// Sorting a strictly sorted association sequence leaves it unchanged.
pub proof fn lemma_sort_pairs_of_sorted<V>(ps: Seq<(Seq<u8>, V)>)
    requires
        sorted_strict(ps),
    ensures
        sort_pairs(ps) == ps,
    decreases ps.len(),
{
    if ps.len() == 0 {
        assert(sort_pairs(ps) =~= ps);
    } else {
        let front = ps.drop_last();
        assert forall|j: int| 0 <= j && j + 1 < front.len() implies bytes_lt(
            #[trigger] front[j].0,
            front[j + 1].0,
        ) by {
            assert(front[j] == ps[j]);
            assert(front[j + 1] == ps[j + 1]);
        }
        lemma_sort_pairs_of_sorted(front);
        assert forall|t: int| 0 <= t < front.len() implies bytes_lt(
            #[trigger] front[t].0,
            ps.last().0,
        ) by {
            lemma_sorted_chain(ps, t, ps.len() - 1);
        }
        lemma_insert_sorted_at(front, ps.last().0, ps.last().1, front.len() as int);
        assert(front.insert(front.len() as int, (ps.last().0, ps.last().1)) =~= ps);
    }
}

/// The number of nodes in a value tree.
pub open spec fn tree_size(t: Type) -> nat
    decreases t, 0int,
{
    match t {
        Type::List(v) => 1 + tree_size_items(v@, 0),
        Type::Dictionary(d) => 1 + tree_size_pairs(d@, 0),
        _ => 1,
    }
}

pub open spec fn tree_size_items(s: Seq<Type>, i: int) -> nat
    decreases s, s.len() - i,
{
    if i < 0 || i >= s.len() {
        0
    } else {
        tree_size(s[i]) + tree_size_items(s, i + 1)
    }
}

pub open spec fn tree_size_pairs(d: Seq<(Vec<u8>, Type)>, i: int) -> nat
    decreases d, d.len() - i,
{
    if i < 0 || i >= d.len() {
        0
    } else {
        tree_size(d[i].1) + tree_size_pairs(d, i + 1)
    }
}

pub proof fn lemma_tree_size_items_at(s: Seq<Type>, j: int, i: int)
    requires
        0 <= j <= i < s.len(),
    ensures
        tree_size(s[i]) <= tree_size_items(s, j),
    decreases i - j,
{
    if j < i {
        lemma_tree_size_items_at(s, j + 1, i);
    }
}

pub proof fn lemma_tree_size_pairs_at(d: Seq<(Vec<u8>, Type)>, j: int, i: int)
    requires
        0 <= j <= i < d.len(),
    ensures
        tree_size(d[i].1) <= tree_size_pairs(d, j),
    decreases i - j,
{
    if j < i {
        lemma_tree_size_pairs_at(d, j + 1, i);
    }
}

/// `bytes_lt` is a strict total order: exactly one of `a < b`, `a == b`,
/// `b < a` holds.
pub proof fn lemma_bytes_lt_trichotomy(a: Seq<u8>, b: Seq<u8>)
    ensures
        bytes_lt(a, b) || bytes_lt(b, a) || a == b,
        bytes_lt(a, b) ==> !bytes_lt(b, a),
        bytes_lt(a, b) ==> a != b,
        bytes_lt(b, a) ==> a != b,
    decreases a.len(),
{
    if a.len() == 0 && b.len() == 0 {
        assert(a =~= b);
    } else if a.len() > 0 && b.len() > 0 && a[0] == b[0] {
        let a1 = a.subrange(1, a.len() as int);
        let b1 = b.subrange(1, b.len() as int);
        lemma_bytes_lt_trichotomy(a1, b1);
        if a1 == b1 {
            assert forall|i: int| 0 <= i < a.len() implies a[i] == b[i] by {
                if i > 0 {
                    assert(a1[i - 1] == b1[i - 1]);
                }
            }
            assert(a =~= b);
        }
    }
}

/// `bytes_lt` is transitive.
pub proof fn lemma_bytes_lt_trans(a: Seq<u8>, b: Seq<u8>, c: Seq<u8>)
    requires
        bytes_lt(a, b),
        bytes_lt(b, c),
    ensures
        bytes_lt(a, c),
    decreases a.len(),
{
    if a.len() > 0 && b.len() > 0 && c.len() > 0 {
        if a[0] == b[0] && b[0] == c[0] {
            lemma_bytes_lt_trans(
                a.subrange(1, a.len() as int),
                b.subrange(1, b.len() as int),
                c.subrange(1, c.len() as int),
            );
        }
    }
}

/// In a strictly sorted association sequence every earlier key is below
/// every later key.
pub proof fn lemma_sorted_chain<V>(ps: Seq<(Seq<u8>, V)>, a: int, b: int)
    requires
        sorted_strict(ps),
        0 <= a < b < ps.len(),
    ensures
        bytes_lt(ps[a].0, ps[b].0),
    decreases b - a,
{
    if a + 1 < b {
        lemma_sorted_chain(ps, a, b - 1);
        lemma_bytes_lt_trans(ps[a].0, ps[b - 1].0, ps[b].0);
    }
}

/// `insert_sorted` puts the new entry exactly at the first position whose
/// key is not below the new key.
pub proof fn lemma_insert_sorted_at<V>(ps: Seq<(Seq<u8>, V)>, k: Seq<u8>, v: V, j: int)
    requires
        0 <= j <= ps.len(),
        forall|t: int| 0 <= t < j ==> bytes_lt(#[trigger] ps[t].0, k),
        j < ps.len() ==> !bytes_lt(ps[j].0, k),
    ensures
        insert_sorted(ps, k, v) == ps.insert(j, (k, v)),
    decreases j,
{
    if ps.len() == 0 {
        assert(insert_sorted(ps, k, v) =~= ps.insert(0, (k, v)));
    } else if j == 0 {
        assert(insert_sorted(ps, k, v) =~= ps.insert(0, (k, v)));
    } else {
        let tail = ps.subrange(1, ps.len() as int);
        assert(forall|t: int| 0 <= t < j - 1 ==> bytes_lt(#[trigger] tail[t].0, k));
        lemma_insert_sorted_at(tail, k, v, j - 1);
        assert(seq![ps[0]] + tail.insert(j - 1, (k, v)) =~= ps.insert(j, (k, v)));
    }
}

/// Inserting at that position keeps the sequence strictly sorted, provided
/// the new key is strictly between its neighbours.
pub proof fn lemma_insert_preserves_sorted<V>(ps: Seq<(Seq<u8>, V)>, k: Seq<u8>, v: V, j: int)
    requires
        sorted_strict(ps),
        0 <= j <= ps.len(),
        forall|t: int| 0 <= t < j ==> bytes_lt(#[trigger] ps[t].0, k),
        j < ps.len() ==> bytes_lt(k, ps[j].0),
    ensures
        sorted_strict(ps.insert(j, (k, v))),
{
    let q = ps.insert(j, (k, v));
    ps.insert_ensures(j, (k, v));
    assert forall|t: int| 0 <= t && t + 1 < q.len() implies bytes_lt(#[trigger] q[t].0, q[t + 1].0) by {
        if t + 1 < j {
            assert(q[t] == ps[t]);
            assert(q[t + 1] == ps[t + 1]);
        } else if t + 1 == j {
            assert(q[t] == ps[t]);
            assert(q[t + 1] == (k, v));
        } else if t == j {
            assert(q[t] == (k, v));
            assert(q[t + 1] == ps[t]);
        } else {
            assert(q[t] == ps[t - 1]);
            assert(q[t + 1] == ps[t]);
        }
    }
}

/// Inserting an executable dictionary entry commutes with taking models.
pub proof fn lemma_pairs_model_insert(d: Seq<(Vec<u8>, Type)>, j: int, x: (Vec<u8>, Type))
    requires
        0 <= j <= d.len(),
    ensures
        pairs_model(d.insert(j, x)) == pairs_model(d).insert(j, (x.0@, type_model(x.1))),
{
    lemma_pairs_model(d);
    lemma_pairs_model(d.insert(j, x));
    d.insert_ensures(j, x);
    pairs_model(d).insert_ensures(j, (x.0@, type_model(x.1)));
    let lhs = pairs_model(d.insert(j, x));
    let rhs = pairs_model(d).insert(j, (x.0@, type_model(x.1)));
    assert forall|i: int| 0 <= i < lhs.len() implies lhs[i] == rhs[i] by {
        if i < j {
            assert(d.insert(j, x)[i] == d[i]);
        } else if i == j {
            assert(d.insert(j, x)[i] == x);
        } else {
            assert(d.insert(j, x)[i] == d[i - 1]);
            assert(rhs[i] == pairs_model(d)[i - 1]);
        }
    }
    assert(lhs =~= rhs);
}

/// Appending an executable list item commutes with taking models.
pub proof fn lemma_items_model_push(s: Seq<Type>, t: Type)
    ensures
        items_model(s.push(t)) == items_model(s).push(type_model(t)),
{
    assert(s.push(t).drop_last() =~= s);
    assert(s.push(t).last() == t);
}

/// `insert_sorted` holds exactly the old entries plus the new one.
pub proof fn lemma_insert_sorted_contains<V>(ps: Seq<(Seq<u8>, V)>, k: Seq<u8>, v: V, x: (Seq<u8>, V))
    ensures
        insert_sorted(ps, k, v).contains(x) <==> (ps.contains(x) || x == (k, v)),
        insert_sorted(ps, k, v).len() == ps.len() + 1,
    decreases ps.len(),
{
    let q = insert_sorted(ps, k, v);
    if ps.len() == 0 {
        assert(q[0] == (k, v));
        assert(q.contains(x) ==> x == (k, v));
        assert(!ps.contains(x));
    } else if !bytes_lt(ps[0].0, k) {
        assert(q == seq![(k, v)] + ps);
        if q.contains(x) {
            let w = choose|w: int| 0 <= w < q.len() && q[w] == x;
            if w == 0 {
                assert(x == (k, v));
            } else {
                assert(ps[w - 1] == x);
            }
        }
        if ps.contains(x) {
            let w = choose|w: int| 0 <= w < ps.len() && ps[w] == x;
            assert(q[w + 1] == x);
        }
        if x == (k, v) {
            assert(q[0] == x);
        }
    } else {
        let tail = ps.subrange(1, ps.len() as int);
        lemma_insert_sorted_contains(tail, k, v, x);
        assert(q == seq![ps[0]] + insert_sorted(tail, k, v));
        if q.contains(x) {
            let w = choose|w: int| 0 <= w < q.len() && q[w] == x;
            if w == 0 {
                assert(ps[0] == x);
            } else {
                assert(insert_sorted(tail, k, v)[w - 1] == x);
                assert(insert_sorted(tail, k, v).contains(x));
                if tail.contains(x) {
                    let u = choose|u: int| 0 <= u < tail.len() && tail[u] == x;
                    assert(ps[u + 1] == x);
                }
            }
        }
        if ps.contains(x) {
            let w = choose|w: int| 0 <= w < ps.len() && ps[w] == x;
            if w == 0 {
                assert(q[0] == x);
            } else {
                assert(tail[w - 1] == x);
                assert(tail.contains(x));
                let u = choose|u: int|
                    0 <= u < insert_sorted(tail, k, v).len() && insert_sorted(tail, k, v)[u] == x;
                assert(q[u + 1] == x);
            }
        }
        if x == (k, v) {
            let u = choose|u: int|
                0 <= u < insert_sorted(tail, k, v).len() && insert_sorted(tail, k, v)[u] == x;
            assert(q[u + 1] == x);
        }
    }
}

/// `sort_pairs` holds exactly the entries of its input, and as many.
pub proof fn lemma_sort_pairs_contains<V>(ps: Seq<(Seq<u8>, V)>, x: (Seq<u8>, V))
    ensures
        sort_pairs(ps).contains(x) <==> ps.contains(x),
        sort_pairs(ps).len() == ps.len(),
    decreases ps.len(),
{
    if ps.len() == 0 {
    } else {
        let front = ps.drop_last();
        lemma_sort_pairs_contains(front, x);
        lemma_insert_sorted_contains(sort_pairs(front), ps.last().0, ps.last().1, x);
        if ps.contains(x) {
            let w = choose|w: int| 0 <= w < ps.len() && ps[w] == x;
            if w < ps.len() - 1 {
                assert(front[w] == x);
                assert(front.contains(x));
            } else {
                assert(x == (ps.last().0, ps.last().1));
            }
        }
        if front.contains(x) {
            let w = choose|w: int| 0 <= w < front.len() && front[w] == x;
            assert(ps[w] == x);
        }
        if x == (ps.last().0, ps.last().1) {
            assert(ps[ps.len() - 1] == x);
        }
    }
}

/// Whether some entry of the association sequence carries the key `k`.
pub open spec fn has_key<V>(ps: Seq<(Seq<u8>, V)>, k: Seq<u8>) -> bool {
    exists|i: int| 0 <= i < ps.len() && ps[i].0 == k
}

/// The value stored under key `k`, scanning left to right.
pub open spec fn dict_lookup(ps: Seq<(Seq<u8>, ValueModel)>, k: Seq<u8>) -> Option<ValueModel>
    decreases ps.len(),
{
    if ps.len() == 0 {
        None
    } else if ps[0].0 == k {
        Some(ps[0].1)
    } else {
        dict_lookup(ps.subrange(1, ps.len() as int), k)
    }
}

// ---------------------------------------------------------------------------
// The executable value tree
// ---------------------------------------------------------------------------

/// A decoded Bencode value. Byte strings are raw bytes (no text decoding is
/// performed); dictionaries are key-sorted association vectors built by the
/// decoder, with keys in strictly increasing byte-lexicographic order.
#[derive(Debug, PartialEq, Eq)]
pub enum Type {
    Integer(i64),
    ByteString(Vec<u8>),
    List(Vec<Type>),
    Dictionary(Vec<(Vec<u8>, Type)>),
}

/// The model of an executable value tree.
pub open spec fn type_model(t: Type) -> ValueModel
    decreases t, 0int,
{
    match t {
        Type::Integer(i) => ValueModel::Int(i as int),
        Type::ByteString(b) => ValueModel::Bytes(b@),
        Type::List(v) => ValueModel::List(items_model(v@)),
        Type::Dictionary(d) => ValueModel::Dict(pairs_model(d@)),
    }
}

/// The models of a sequence of executable values.
pub open spec fn items_model(s: Seq<Type>) -> Seq<ValueModel>
    decreases s, s.len(),
{
    if s.len() == 0 {
        Seq::empty()
    } else {
        items_model(s.drop_last()).push(type_model(s.last()))
    }
}

/// The models of a sequence of executable dictionary entries.
pub open spec fn pairs_model(d: Seq<(Vec<u8>, Type)>) -> Seq<(Seq<u8>, ValueModel)>
    decreases d, d.len(),
{
    if d.len() == 0 {
        Seq::empty()
    } else {
        pairs_model(d.drop_last()).push((d.last().0@, type_model(d.last().1)))
    }
}

impl View for Type {
    type V = ValueModel;

    open spec fn view(&self) -> ValueModel {
        type_model(*self)
    }
}

/// `items_model` maps the sequence pointwise.
pub proof fn lemma_items_model(s: Seq<Type>)
    ensures
        items_model(s).len() == s.len(),
        forall|i: int| 0 <= i < s.len() ==> #[trigger] items_model(s)[i] == type_model(s[i]),
    decreases s.len(),
{
    if s.len() > 0 {
        lemma_items_model(s.drop_last());
    }
}

/// `pairs_model` maps the sequence pointwise.
pub proof fn lemma_pairs_model(d: Seq<(Vec<u8>, Type)>)
    ensures
        pairs_model(d).len() == d.len(),
        forall|i: int| 0 <= i < d.len() ==> #[trigger] pairs_model(d)[i]
            == (d[i].0@, type_model(d[i].1)),
    decreases d.len(),
{
    if d.len() > 0 {
        lemma_pairs_model(d.drop_last());
    }
}

impl Type {
    /// Look a key up in a decoded dictionary. Returns the stored value, or
    /// `ConverterError::InvalidDictionary` when the value is not a dictionary
    /// or the key is absent.
    pub fn get(&self, key: &Vec<u8>) -> (r: Result<&Type, ConverterError>)
        ensures
            match r {
                Ok(v) => self@ matches ValueModel::Dict(ps)
                    && dict_lookup(ps, key@) == Some(v@),
                Err(e) => e == ConverterError::InvalidDictionary
                    && match self@ {
                        ValueModel::Dict(ps) => dict_lookup(ps, key@) is None,
                        _ => true,
                    },
            },
    {
        match self {
            Type::Dictionary(d) => {
                proof {
                    lemma_pairs_model(d@);
                    assert(pairs_model(d@).subrange(0, d@.len() as int) =~= pairs_model(d@));
                }
                let n = d.len();
                let mut i: usize = 0;
                while i < n
                    invariant
                        self@ == ValueModel::Dict(pairs_model(d@)),
                        n == d@.len(),
                        0 <= i <= n,
                        pairs_model(d@).len() == n,
                        forall|j: int| 0 <= j < d@.len() ==> #[trigger] pairs_model(d@)[j]
                            == (d@[j].0@, type_model(d@[j].1)),
                        dict_lookup(pairs_model(d@), key@)
                            == dict_lookup(pairs_model(d@).subrange(i as int, n as int), key@),
                    decreases n - i,
                {
                    if bytes_eq(&d[i].0, key) {
                        proof {
                            let tail = pairs_model(d@).subrange(i as int, n as int);
                            assert(tail.len() == n - i);
                            assert(tail[0] == pairs_model(d@)[i as int]);
                            assert(tail[0].0 == key@);
                            assert(dict_lookup(tail, key@) == Some(tail[0].1));
                            assert(tail[0].1 == type_model(d@[i as int].1));
                        }
                        return Ok(&d[i].1);
                    }
                    proof {
                        let tail = pairs_model(d@).subrange(i as int, n as int);
                        assert(tail[0] == pairs_model(d@)[i as int]);
                        assert(tail.subrange(1, tail.len() as int)
                            =~= pairs_model(d@).subrange(i + 1, n as int));
                    }
                    i += 1;
                }
                proof {
                    assert(pairs_model(d@).subrange(n as int, n as int) =~= Seq::empty());
                }
                Err(ConverterError::InvalidDictionary)
            },
            _ => Err(ConverterError::InvalidDictionary),
        }
    }

    /// Extract the integer out of an integer value.
    pub fn into_integer(self) -> (r: Result<i64, ConverterError>)
        ensures
            match r {
                Ok(i) => self@ == ValueModel::Int(i as int),
                Err(e) => e == ConverterError::InvalidInteger && !(self@ is Int),
            },
    {
        match self {
            Type::Integer(i) => Ok(i),
            _ => Err(ConverterError::InvalidInteger),
        }
    }

    /// Extract the raw bytes out of a byte-string value.
    pub fn into_byte_string(self) -> (r: Result<Vec<u8>, ConverterError>)
        ensures
            match r {
                Ok(b) => self@ == ValueModel::Bytes(b@),
                Err(e) => e == ConverterError::InvalidString && !(self@ is Bytes),
            },
    {
        match self {
            Type::ByteString(b) => Ok(b),
            _ => Err(ConverterError::InvalidString),
        }
    }
}

/// Byte-lexicographic comparison of two byte vectors, mirroring
/// [`bytes_lt`].
pub fn bytes_lt_exec(a: &Vec<u8>, b: &Vec<u8>) -> (r: bool)
    ensures
        r == bytes_lt(a@, b@),
{
    let alen = a.len();
    let blen = b.len();
    proof {
        assert(a@.skip(0) =~= a@);
        assert(b@.skip(0) =~= b@);
    }
    let mut i: usize = 0;
    while i < alen && i < blen && a[i] == b[i]
        invariant
            0 <= i <= alen,
            i <= blen,
            alen == a@.len(),
            blen == b@.len(),
            bytes_lt(a@, b@) == bytes_lt(a@.skip(i as int), b@.skip(i as int)),
        decreases alen - i,
    {
        proof {
            let sa = a@.skip(i as int);
            let sb = b@.skip(i as int);
            assert(sa[0] == a@[i as int]);
            assert(sb[0] == b@[i as int]);
            assert(sa.subrange(1, sa.len() as int) =~= a@.skip(i + 1));
            assert(sb.subrange(1, sb.len() as int) =~= b@.skip(i + 1));
        }
        i += 1;
    }
    proof {
        let sa = a@.skip(i as int);
        let sb = b@.skip(i as int);
        if i < alen {
            assert(sa[0] == a@[i as int]);
        }
        if i < blen {
            assert(sb[0] == b@[i as int]);
        }
    }
    if i == blen {
        false
    } else if i == alen {
        true
    } else {
        a[i] < b[i]
    }
}

/// Byte-for-byte equality of two byte vectors.
pub fn bytes_eq(a: &Vec<u8>, b: &Vec<u8>) -> (r: bool)
    ensures
        r == (a@ == b@),
{
    if a.len() != b.len() {
        assert(a@ != b@) by {
            assert(a@.len() != b@.len());
        }
        return false;
    }
    let n = a.len();
    let mut i: usize = 0;
    while i < n
        invariant
            n == a@.len(),
            n == b@.len(),
            0 <= i <= n,
            forall|j: int| 0 <= j < i ==> a@[j] == b@[j],
        decreases n - i,
    {
        if a[i] != b[i] {
            return false;
        }
        i += 1;
    }
    proof {
        assert(a@ =~= b@);
    }
    true
}

} // verus!
