use vstd::prelude::*;

use bytes::BytesMut;
use smallvec::SmallVec;

use crate::typ::{
    bstr_enc, bytes_lt, bytes_lt_exec, bytes_eq, dec_digits, enc, enc_items, enc_pairs,
    insert_sorted, int_digits, items_model, lemma_bytes_lt_trichotomy, lemma_insert_sorted_at,
    lemma_items_model, lemma_pairs_model, lemma_sort_pairs_contains, lemma_sort_pairs_of_sorted,
    lemma_tree_size_items_at, lemma_tree_size_pairs_at, lemma_wf_items_at, lemma_wf_pairs_at,
    pairs_model, sort_pairs, sorted_strict, tree_size, tree_size_items, tree_size_pairs,
    type_model, wf, Type, ValueModel,
};

verus! {

/// Everything that can go wrong while encoding a host value.
#[derive(Debug, PartialEq, Eq)]
pub enum EncodeError {
    /// A host value outside the six encodable shapes, naming the offending
    /// type. Produced by the embedding adapter that classifies host values;
    /// [`encode`] itself never returns it.
    UnsupportedType(String),
    /// A dictionary key that is neither text nor a byte blob.
    InvalidDictionaryKeyType,
    /// Two dictionary entries whose keys hold the same bytes; the offending
    /// key is carried along.
    DuplicatedKeys(Vec<u8>),
}

/// A host value, already classified into the closed set of shapes the
/// encoder accepts: integer, boolean, text, byte blob, ordered sequence,
/// key/value mapping. Text carries the bytes of the host string; dictionary
/// entries are in host iteration order, with keys of any shape (the encoder
/// rejects keys that are not text or bytes).
#[derive(Debug, PartialEq, Eq)]
pub enum Encodable {
    Integer(i64),
    Boolean(bool),
    Text(Vec<u8>),
    Bytes(Vec<u8>),
    List(Vec<Encodable>),
    Dictionary(Vec<(Encodable, Encodable)>),
}

/// Whether a host value may stand in dictionary-key position.
pub open spec fn key_ok(e: Encodable) -> bool {
    e is Text || e is Bytes
}

/// The raw bytes of a dictionary key.
pub open spec fn key_bytes(e: Encodable) -> Seq<u8> {
    match e {
        Encodable::Text(b) => b@,
        Encodable::Bytes(b) => b@,
        _ => Seq::empty(),
    }
}

/// The value tree a host value stands for: booleans become the integers `0`
/// and `1`, text and byte blobs become byte strings, and each dictionary is
/// put into canonical key order.
pub open spec fn to_model(e: Encodable) -> ValueModel
    decreases e, 0int,
{
    match e {
        Encodable::Integer(i) => ValueModel::Int(i as int),
        Encodable::Boolean(b) => ValueModel::Int(
            if b {
                1
            } else {
                0
            },
        ),
        Encodable::Text(b) => ValueModel::Bytes(b@),
        Encodable::Bytes(b) => ValueModel::Bytes(b@),
        Encodable::List(v) => ValueModel::List(items_to_models(v@)),
        Encodable::Dictionary(d) => ValueModel::Dict(sort_pairs(pairs_to_models(d@))),
    }
}

/// The models of a sequence of host values.
pub open spec fn items_to_models(v: Seq<Encodable>) -> Seq<ValueModel>
    decreases v, v.len(),
{
    if v.len() == 0 {
        Seq::empty()
    } else {
        items_to_models(v.drop_last()).push(to_model(v.last()))
    }
}

/// The key bytes and value models of a sequence of host dictionary entries,
/// in host order.
pub open spec fn pairs_to_models(d: Seq<(Encodable, Encodable)>) -> Seq<(Seq<u8>, ValueModel)>
    decreases d, d.len(),
{
    if d.len() == 0 {
        Seq::empty()
    } else {
        pairs_to_models(d.drop_last()).push(
            (key_bytes(d.last().0), to_model(d.last().1)),
        )
    }
}

/// No two neighbouring entries share a key.
pub open spec fn adj_distinct(qs: Seq<(Seq<u8>, ValueModel)>) -> bool {
    forall|t: int| 0 <= t && t + 1 < qs.len() ==> (#[trigger] qs[t].0) != qs[t + 1].0
}

/// A host value that [`encode`] accepts: every dictionary key is text or a
/// byte blob, and no dictionary holds two keys with the same bytes (checked
/// on the canonically sorted key sequence).
pub open spec fn enc_ok(e: Encodable) -> bool
    decreases e, 0int,
{
    match e {
        Encodable::List(v) => items_ok(v@, 0),
        Encodable::Dictionary(d) => (forall|t: int|
            0 <= t < d@.len() ==> key_ok(#[trigger] d@[t].0)) && vals_ok(d@, 0) && adj_distinct(
            sort_pairs(pairs_to_models(d@)),
        ),
        _ => true,
    }
}

/// All list items from index `i` on are encodable.
pub open spec fn items_ok(v: Seq<Encodable>, i: int) -> bool
    decreases v, v.len() - i,
{
    if i < 0 || i >= v.len() {
        true
    } else {
        enc_ok(v[i]) && items_ok(v, i + 1)
    }
}

/// All dictionary values from index `i` on are encodable.
pub open spec fn vals_ok(d: Seq<(Encodable, Encodable)>, i: int) -> bool
    decreases d, d.len() - i,
{
    if i < 0 || i >= d.len() {
        true
    } else {
        enc_ok(d[i].1) && vals_ok(d, i + 1)
    }
}

/// Some dictionary in the tree has a key that is not text or bytes.
pub open spec fn bad_key_somewhere(e: Encodable) -> bool
    decreases e, 0int,
{
    match e {
        Encodable::List(v) => bad_key_in_items(v@, 0),
        Encodable::Dictionary(d) => (exists|t: int|
            0 <= t < d@.len() && !key_ok(#[trigger] d@[t].0)) || bad_key_in_vals(d@, 0),
        _ => false,
    }
}

pub open spec fn bad_key_in_items(v: Seq<Encodable>, i: int) -> bool
    decreases v, v.len() - i,
{
    if i < 0 || i >= v.len() {
        false
    } else {
        bad_key_somewhere(v[i]) || bad_key_in_items(v, i + 1)
    }
}

pub open spec fn bad_key_in_vals(d: Seq<(Encodable, Encodable)>, i: int) -> bool
    decreases d, d.len() - i,
{
    if i < 0 || i >= d.len() {
        false
    } else {
        bad_key_somewhere(d[i].1) || bad_key_in_vals(d, i + 1)
    }
}

/// Some dictionary in the tree holds the key `k` twice: two neighbours of
/// its canonically sorted key sequence both hold `k`.
pub open spec fn dup_key_somewhere(e: Encodable, k: Seq<u8>) -> bool
    decreases e, 0int,
{
    match e {
        Encodable::List(v) => dup_key_in_items(v@, 0, k),
        Encodable::Dictionary(d) => (exists|t: int|
            0 <= t && t + 1 < sort_pairs(pairs_to_models(d@)).len() && (#[trigger] sort_pairs(
                pairs_to_models(d@),
            )[t].0) == k && sort_pairs(pairs_to_models(d@))[t + 1].0 == k) || dup_key_in_vals(
            d@,
            0,
            k,
        ),
        _ => false,
    }
}

pub open spec fn dup_key_in_items(v: Seq<Encodable>, i: int, k: Seq<u8>) -> bool
    decreases v, v.len() - i,
{
    if i < 0 || i >= v.len() {
        false
    } else {
        dup_key_somewhere(v[i], k) || dup_key_in_items(v, i + 1, k)
    }
}

pub open spec fn dup_key_in_vals(d: Seq<(Encodable, Encodable)>, i: int, k: Seq<u8>) -> bool
    decreases d, d.len() - i,
{
    if i < 0 || i >= d.len() {
        false
    } else {
        dup_key_somewhere(d[i].1, k) || dup_key_in_vals(d, i + 1, k)
    }
}

/// The number of nodes in a host value tree; the executable encoder's
/// recursion shrinks it.
pub open spec fn size_of(e: Encodable) -> nat
    decreases e, 0int,
{
    match e {
        Encodable::List(v) => 1 + size_items(v@, 0),
        Encodable::Dictionary(d) => 1 + size_vals(d@, 0),
        _ => 1,
    }
}

pub open spec fn size_items(v: Seq<Encodable>, i: int) -> nat
    decreases v, v.len() - i,
{
    if i < 0 || i >= v.len() {
        0
    } else {
        size_of(v[i]) + size_items(v, i + 1)
    }
}

pub open spec fn size_vals(d: Seq<(Encodable, Encodable)>, i: int) -> nat
    decreases d, d.len() - i,
{
    if i < 0 || i >= d.len() {
        0
    } else {
        size_of(d[i].1) + size_vals(d, i + 1)
    }
}

proof fn lemma_size_items_at(v: Seq<Encodable>, j: int, i: int)
    requires
        0 <= j <= i < v.len(),
    ensures
        size_of(v[i]) <= size_items(v, j),
    decreases i - j,
{
    if j < i {
        lemma_size_items_at(v, j + 1, i);
    }
}

proof fn lemma_size_vals_at(d: Seq<(Encodable, Encodable)>, j: int, i: int)
    requires
        0 <= j <= i < d.len(),
    ensures
        size_of(d[i].1) <= size_vals(d, j),
    decreases i - j,
{
    if j < i {
        lemma_size_vals_at(d, j + 1, i);
    }
}

// ---------------------------------------------------------------------------
// Helper lemmas over the index recursions
// ---------------------------------------------------------------------------

/// `items_to_models` and `pairs_to_models` map their input pointwise.
pub proof fn lemma_items_to_models(v: Seq<Encodable>)
    ensures
        items_to_models(v).len() == v.len(),
        forall|t: int| 0 <= t < v.len() ==> #[trigger] items_to_models(v)[t] == to_model(v[t]),
    decreases v.len(),
{
    if v.len() > 0 {
        lemma_items_to_models(v.drop_last());
    }
}

pub proof fn lemma_pairs_to_models(d: Seq<(Encodable, Encodable)>)
    ensures
        pairs_to_models(d).len() == d.len(),
        forall|t: int| 0 <= t < d.len() ==> #[trigger] pairs_to_models(d)[t]
            == (key_bytes(d[t].0), to_model(d[t].1)),
    decreases d.len(),
{
    if d.len() > 0 {
        lemma_pairs_to_models(d.drop_last());
    }
}

proof fn lemma_items_ok_at(v: Seq<Encodable>, j: int, i: int)
    requires
        items_ok(v, j),
        0 <= j <= i < v.len(),
    ensures
        enc_ok(v[i]),
    decreases i - j,
{
    if j < i {
        lemma_items_ok_at(v, j + 1, i);
    }
}

proof fn lemma_items_ok_all(v: Seq<Encodable>, j: int)
    requires
        forall|t: int| j <= t < v.len() ==> enc_ok(#[trigger] v[t]),
        0 <= j,
    ensures
        items_ok(v, j),
    decreases v.len() - j,
{
    if j < v.len() {
        lemma_items_ok_all(v, j + 1);
    }
}

proof fn lemma_vals_ok_at(d: Seq<(Encodable, Encodable)>, j: int, i: int)
    requires
        vals_ok(d, j),
        0 <= j <= i < d.len(),
    ensures
        enc_ok(d[i].1),
    decreases i - j,
{
    if j < i {
        lemma_vals_ok_at(d, j + 1, i);
    }
}

proof fn lemma_vals_ok_all(d: Seq<(Encodable, Encodable)>, j: int)
    requires
        forall|t: int| j <= t < d.len() ==> enc_ok(#[trigger] d[t].1),
        0 <= j,
    ensures
        vals_ok(d, j),
    decreases d.len() - j,
{
    if j < d.len() {
        lemma_vals_ok_all(d, j + 1);
    }
}

proof fn lemma_bad_key_in_items_at(v: Seq<Encodable>, j: int, i: int)
    requires
        bad_key_somewhere(v[i]),
        0 <= j <= i < v.len(),
    ensures
        bad_key_in_items(v, j),
    decreases i - j,
{
    if j < i {
        lemma_bad_key_in_items_at(v, j + 1, i);
    }
}

proof fn lemma_bad_key_in_vals_at(d: Seq<(Encodable, Encodable)>, j: int, i: int)
    requires
        bad_key_somewhere(d[i].1),
        0 <= j <= i < d.len(),
    ensures
        bad_key_in_vals(d, j),
    decreases i - j,
{
    if j < i {
        lemma_bad_key_in_vals_at(d, j + 1, i);
    }
}

proof fn lemma_dup_key_in_items_at(v: Seq<Encodable>, j: int, i: int, k: Seq<u8>)
    requires
        dup_key_somewhere(v[i], k),
        0 <= j <= i < v.len(),
    ensures
        dup_key_in_items(v, j, k),
    decreases i - j,
{
    if j < i {
        lemma_dup_key_in_items_at(v, j + 1, i, k);
    }
}

proof fn lemma_dup_key_in_vals_at(d: Seq<(Encodable, Encodable)>, j: int, i: int, k: Seq<u8>)
    requires
        dup_key_somewhere(d[i].1, k),
        0 <= j <= i < d.len(),
    ensures
        dup_key_in_vals(d, j, k),
    decreases i - j,
{
    if j < i {
        lemma_dup_key_in_vals_at(d, j + 1, i, k);
    }
}

// ---------------------------------------------------------------------------
// Sorting the dictionary entries by key: index pairs and their resolution
// ---------------------------------------------------------------------------

/// The first `n` dictionary entries as (key bytes, original index) pairs.
pub open spec fn ipairs(d: Seq<(Encodable, Encodable)>, n: int) -> Seq<(Seq<u8>, int)> {
    Seq::new(n as nat, |t: int| (key_bytes(d[t].0), t))
}

/// Replace each original index by the model of the value stored there.
pub open spec fn resolve(d: Seq<(Encodable, Encodable)>, q: Seq<(Seq<u8>, int)>) -> Seq<
    (Seq<u8>, ValueModel),
> {
    Seq::new(q.len(), |t: int| (q[t].0, to_model(d[q[t].1].1)))
}

/// Resolving the index pairs of `d` gives the models of `d`'s entries.
proof fn lemma_resolve_ipairs(d: Seq<(Encodable, Encodable)>)
    ensures
        resolve(d, ipairs(d, d.len() as int)) == pairs_to_models(d),
{
    lemma_pairs_to_models(d);
    assert(resolve(d, ipairs(d, d.len() as int)) =~= pairs_to_models(d));
}

/// Resolution commutes with sorted insertion: comparisons look at keys only.
proof fn lemma_resolve_insert(d: Seq<(Encodable, Encodable)>, q: Seq<(Seq<u8>, int)>, k: Seq<u8>, i: int)
    ensures
        resolve(d, insert_sorted(q, k, i)) == insert_sorted(resolve(d, q), k, to_model(d[i].1)),
    decreases q.len(),
{
    let tm = to_model(d[i].1);
    if q.len() == 0 {
        assert(resolve(d, insert_sorted(q, k, i)) =~= insert_sorted(resolve(d, q), k, tm));
    } else if !bytes_lt(q[0].0, k) {
        assert(resolve(d, q)[0].0 == q[0].0);
        assert(resolve(d, seq![(k, i)] + q) =~= seq![(k, tm)] + resolve(d, q));
    } else {
        assert(resolve(d, q)[0].0 == q[0].0);
        let tail = q.subrange(1, q.len() as int);
        lemma_resolve_insert(d, tail, k, i);
        assert(resolve(d, tail) =~= resolve(d, q).subrange(1, resolve(d, q).len() as int));
        assert(resolve(d, seq![q[0]] + insert_sorted(tail, k, i)) =~= seq![resolve(d, q)[0]]
            + resolve(d, insert_sorted(tail, k, i)));
    }
}

/// Resolution commutes with the whole insertion sort.
proof fn lemma_resolve_sort(d: Seq<(Encodable, Encodable)>, q: Seq<(Seq<u8>, int)>)
    ensures
        resolve(d, sort_pairs(q)) == sort_pairs(resolve(d, q)),
    decreases q.len(),
{
    if q.len() == 0 {
        assert(resolve(d, sort_pairs(q)) =~= sort_pairs(resolve(d, q)));
    } else {
        let front = q.drop_last();
        lemma_resolve_sort(d, front);
        lemma_resolve_insert(d, sort_pairs(front), q.last().0, q.last().1);
        assert(resolve(d, front) =~= resolve(d, q).drop_last());
        assert(resolve(d, q).last() == (q.last().0, to_model(d[q.last().1].1)));
    }
}

// ---------------------------------------------------------------------------
// Trusted items: the outside crates the encoder leans on
// ---------------------------------------------------------------------------

#[verifier::external_type_specification]
#[verifier::external_body]
pub struct ExBytesMut(BytesMut);

/// The bytes held by an output buffer, in order.
pub uninterp spec fn buf_contents(b: BytesMut) -> Seq<u8>;

/// Relies on bytes::BytesMut::with_capacity: a freshly created buffer holds
/// no bytes.
#[verifier::external_body]
fn buf_with_capacity(cap: usize) -> (r: BytesMut)
    ensures
        buf_contents(r) == Seq::<u8>::empty(),
{
    BytesMut::with_capacity(cap)
}

/// Relies on bytes::BytesMut::extend_from_slice: appends the given bytes at
/// the end of the buffer.
#[verifier::external_body]
fn buf_put_byte(buf: &mut BytesMut, b: u8)
    ensures
        buf_contents(*final(buf)) == buf_contents(*old(buf)).push(b),
{
    buf.extend_from_slice(&[b]);
}

/// Relies on bytes::BytesMut::extend_from_slice: appends the given bytes at
/// the end of the buffer.
#[verifier::external_body]
fn buf_put_bytes(buf: &mut BytesMut, data: &Vec<u8>)
    ensures
        buf_contents(*final(buf)) == buf_contents(*old(buf)) + data@,
{
    buf.extend_from_slice(data.as_slice());
}

/// Relies on bytes' `impl From<BytesMut> for Vec<u8>`: the vector holds the
/// buffer's bytes, in order.
#[verifier::external_body]
fn buf_into_vec(buf: BytesMut) -> (r: Vec<u8>)
    ensures
        r@ == buf_contents(buf),
{
    Vec::from(buf)
}

/// Relies on itoa::Buffer::format for i64: the shortest decimal spelling,
/// with a leading minus sign exactly when the value is negative.
#[verifier::external_body]
fn itoa_i64(v: i64) -> (r: Vec<u8>)
    ensures
        r@ == int_digits(v as int),
{
    let mut buffer = itoa::Buffer::new();
    buffer.format(v).as_bytes().to_vec()
}

/// Relies on itoa::Buffer::format for usize: the shortest decimal spelling
/// of a non-negative value.
#[verifier::external_body]
fn itoa_usize(v: usize) -> (r: Vec<u8>)
    ensures
        r@ == dec_digits(v as int),
{
    let mut buffer = itoa::Buffer::new();
    buffer.format(v).as_bytes().to_vec()
}

/// The dictionary scratch vector: key bytes paired with the entry's index
/// in the host dictionary, kept on the stack for small dictionaries. The
/// struct is opaque to the verifier; everything known about it is stated
/// over [`sv_entries`] by the trusted wrappers below.
#[verifier::external_body]
pub struct PairBuffer {
    inner: SmallVec<[(Vec<u8>, usize); 8]>,
}

/// The entries of the dictionary scratch vector, in order.
pub uninterp spec fn sv_entries(sv: PairBuffer) -> Seq<(Seq<u8>, int)>;

/// Relies on smallvec::SmallVec::new: a freshly created vector is empty.
#[verifier::external_body]
fn sv_new() -> (r: PairBuffer)
    ensures
        sv_entries(r) == Seq::<(Seq<u8>, int)>::empty(),
{
    PairBuffer { inner: SmallVec::new() }
}

/// Relies on smallvec::SmallVec::len: the number of entries.
#[verifier::external_body]
fn sv_len(sv: &PairBuffer) -> (r: usize)
    ensures
        r as int == sv_entries(*sv).len(),
{
    sv.inner.len()
}

/// Relies on smallvec::SmallVec::insert: puts the entry at position `i` and
/// shifts the rest one place right; panics only when `i` is past the end,
/// which the precondition rules out.
#[verifier::external_body]
fn sv_insert(sv: &mut PairBuffer, i: usize, key: Vec<u8>, at: usize)
    requires
        i as int <= sv_entries(*old(sv)).len(),
    ensures
        sv_entries(*final(sv)) == sv_entries(*old(sv)).insert(i as int, (key@, at as int)),
{
    sv.inner.insert(i, (key, at));
}

/// Relies on smallvec's `Index` impl (slice indexing): the entry at `i`;
/// panics only out of range, which the precondition rules out.
#[verifier::external_body]
fn sv_get<'a>(sv: &'a PairBuffer, i: usize) -> (r: (&'a Vec<u8>, usize))
    requires
        (i as int) < sv_entries(*sv).len(),
    ensures
        r.0@ == sv_entries(*sv)[i as int].0,
        r.1 as int == sv_entries(*sv)[i as int].1,
{
    let e = &sv.inner[i];
    (&e.0, e.1)
}

// ---------------------------------------------------------------------------
// The executable encoder
// ---------------------------------------------------------------------------

/// A fresh copy of a byte vector.
fn copy_bytes(src: &Vec<u8>) -> (r: Vec<u8>)
    ensures
        r@ == src@,
{
    let n = src.len();
    let mut out: Vec<u8> = Vec::new();
    let mut i: usize = 0;
    while i < n
        invariant
            0 <= i <= n,
            n == src@.len(),
            out@ == src@.subrange(0, i as int),
        decreases n - i,
    {
        let b = src[i];
        proof {
            assert(src@.subrange(0, i + 1) =~= src@.subrange(0, i as int).push(src@[i as int]));
        }
        out.push(b);
        i += 1;
    }
    proof {
        assert(src@.subrange(0, n as int) =~= src@);
    }
    out
}

/// Append the byte-string encoding `<len>:<bytes>` of `data` to the buffer.
fn put_bstr(buf: &mut BytesMut, data: &Vec<u8>)
    ensures
        buf_contents(*final(buf)) == buf_contents(*old(buf)) + bstr_enc(data@),
{
    let lenb = itoa_usize(data.len());
    buf_put_bytes(buf, &lenb);
    buf_put_byte(buf, 0x3a);
    buf_put_bytes(buf, data);
    proof {
        assert(buf_contents(*buf) =~= buf_contents(*old(buf)) + bstr_enc(data@));
    }
}

/// Append the canonical encoding of `value` to the buffer, or report the
/// first violation found; on an error the buffer's content is unspecified
/// and the caller discards it.
#[verifier::rlimit(100)]
#[verifier::loop_isolation(false)]
fn encode_inner(value: &Encodable, buf: &mut BytesMut) -> (r: Result<(), EncodeError>)
    ensures
        match r {
            Ok(()) => enc_ok(*value) && buf_contents(*final(buf)) == buf_contents(*old(buf))
                + enc(to_model(*value)),
            Err(e) => !enc_ok(*value) && match e {
                EncodeError::UnsupportedType(_) => false,
                EncodeError::InvalidDictionaryKeyType => bad_key_somewhere(*value),
                EncodeError::DuplicatedKeys(k) => dup_key_somewhere(*value, k@),
            },
        },
    decreases size_of(*value),
{
    match value {
        Encodable::Integer(i) => {
            buf_put_byte(buf, 0x69);
            let digits = itoa_i64(*i);
            buf_put_bytes(buf, &digits);
            buf_put_byte(buf, 0x65);
            proof {
                assert(buf_contents(*buf) =~= buf_contents(*old(buf)) + enc(to_model(*value)));
            }
            Ok(())
        },
        Encodable::Boolean(b) => {
            buf_put_byte(buf, 0x69);
            buf_put_byte(
                buf,
                if *b {
                    0x31
                } else {
                    0x30
                },
            );
            buf_put_byte(buf, 0x65);
            proof {
                assert(int_digits(1) == seq![0x31u8]);
                assert(int_digits(0) == seq![0x30u8]);
                assert(buf_contents(*buf) =~= buf_contents(*old(buf)) + enc(to_model(*value)));
            }
            Ok(())
        },
        Encodable::Text(t) => {
            put_bstr(buf, t);
            Ok(())
        },
        Encodable::Bytes(t) => {
            put_bstr(buf, t);
            Ok(())
        },
        Encodable::List(v) => {
            proof {
                lemma_items_to_models(v@);
            }
            let ghost ms = items_to_models(v@);
            buf_put_byte(buf, 0x6c);
            let ghost buf1 = buf_contents(*buf);
            let n = v.len();
            let mut i: usize = 0;
            while i < n
                invariant
                    0 <= i <= n,
                    n == v@.len(),
                    ms == items_to_models(v@),
                    ms.len() == n,
                    forall|t: int| 0 <= t < n ==> #[trigger] ms[t] == to_model(v@[t]),
                    to_model(*value) == ValueModel::List(ms),
                    size_of(*value) == 1 + size_items(v@, 0),
                    enc_ok(*value) == items_ok(v@, 0),
                    bad_key_somewhere(*value) == bad_key_in_items(v@, 0),
                    forall|k: Seq<u8>| #[trigger] dup_key_somewhere(*value, k)
                        == dup_key_in_items(v@, 0, k),
                    buf_contents(*buf) + enc_items(ms, i as int) == buf1 + enc_items(ms, 0),
                    buf1 == buf_contents(*old(buf)).push(0x6c),
                    forall|t: int| 0 <= t < i ==> enc_ok(#[trigger] v@[t]),
                decreases n - i,
            {
                proof {
                    lemma_size_items_at(v@, 0, i as int);
                }
                match encode_inner(&v[i], buf) {
                    Ok(()) => {
                        proof {
                            assert(enc_items(ms, i as int) == enc(ms[i as int]) + enc_items(
                                ms,
                                i + 1,
                            ));
                        }
                        i += 1;
                    },
                    Err(e) => {
                        proof {
                            if items_ok(v@, 0) {
                                lemma_items_ok_at(v@, 0, i as int);
                            }
                            match &e {
                                EncodeError::InvalidDictionaryKeyType => {
                                    lemma_bad_key_in_items_at(v@, 0, i as int);
                                },
                                EncodeError::DuplicatedKeys(k) => {
                                    lemma_dup_key_in_items_at(v@, 0, i as int, k@);
                                },
                                _ => {},
                            }
                        }
                        return Err(e);
                    },
                }
            }
            buf_put_byte(buf, 0x65);
            proof {
                assert(enc_items(ms, n as int) == Seq::<u8>::empty());
                lemma_items_ok_all(v@, 0);
                assert(buf_contents(*buf) =~= buf_contents(*old(buf)) + enc(to_model(*value)));
            }
            Ok(())
        },
        Encodable::Dictionary(d) => {
            proof {
                lemma_pairs_to_models(d@);
            }
            let ghost dm = pairs_to_models(d@);
            let ghost sorted_m = sort_pairs(dm);
            let n = d.len();
            let mut sv = sv_new();
            let mut i: usize = 0;
            while i < n
                invariant
                    0 <= i <= n,
                    n == d@.len(),
                    dm == pairs_to_models(d@),
                    sorted_m == sort_pairs(dm),
                    forall|t: int| 0 <= t < n ==> #[trigger] dm[t]
                        == (key_bytes(d@[t].0), to_model(d@[t].1)),
                    to_model(*value) == ValueModel::Dict(sorted_m),
                    size_of(*value) == 1 + size_vals(d@, 0),
                    enc_ok(*value) == ((forall|t: int|
                        0 <= t < d@.len() ==> key_ok(#[trigger] d@[t].0)) && vals_ok(d@, 0)
                        && adj_distinct(sorted_m)),
                    bad_key_somewhere(*value) == ((exists|t: int|
                        0 <= t < d@.len() && !key_ok(#[trigger] d@[t].0)) || bad_key_in_vals(
                        d@,
                        0,
                    )),
                    forall|k: Seq<u8>| #[trigger] dup_key_somewhere(*value, k) == ((exists|t: int|
                        0 <= t && t + 1 < sorted_m.len() && (#[trigger] sorted_m[t].0) == k
                            && sorted_m[t + 1].0 == k) || dup_key_in_vals(d@, 0, k)),
                    sv_entries(sv) == sort_pairs(ipairs(d@, i as int)),
                    forall|t: int| 0 <= t < i ==> key_ok(#[trigger] d@[t].0),
                decreases n - i,
            {
                let key: Vec<u8> = match &d[i].0 {
                    Encodable::Text(b) => copy_bytes(b),
                    Encodable::Bytes(b) => copy_bytes(b),
                    _ => {
                        proof {
                            assert(!key_ok(d@[i as int].0));
                        }
                        return Err(EncodeError::InvalidDictionaryKeyType);
                    },
                };
                proof {
                    assert(key@ == key_bytes(d@[i as int].0));
                }
                let svn = sv_len(&sv);
                let mut j: usize = 0;
                while j < svn && bytes_lt_exec(sv_get(&sv, j).0, &key)
                    invariant
                        0 <= j <= svn,
                        svn as int == sv_entries(sv).len(),
                        key@ == key_bytes(d@[i as int].0),
                        forall|t: int| 0 <= t < j ==> bytes_lt(
                            #[trigger] sv_entries(sv)[t].0,
                            key@,
                        ),
                    decreases svn - j,
                {
                    j += 1;
                }
                proof {
                    lemma_insert_sorted_at(sv_entries(sv), key@, i as int, j as int);
                    assert(ipairs(d@, i + 1).drop_last() =~= ipairs(d@, i as int));
                    assert(ipairs(d@, i + 1).last() == (key_bytes(d@[i as int].0), i as int));
                    assert(sort_pairs(ipairs(d@, i + 1)) == insert_sorted(
                        sort_pairs(ipairs(d@, i as int)),
                        key@,
                        i as int,
                    ));
                }
                sv_insert(&mut sv, j, key, i);
                i += 1;
            }
            let ghost entries = sv_entries(sv);
            let ghost rs = resolve(d@, entries);
            proof {
                assert(ipairs(d@, n as int).len() == n as int);
                lemma_resolve_sort(d@, ipairs(d@, n as int));
                lemma_resolve_ipairs(d@);
                assert(rs == sorted_m);
                assert(rs.len() == entries.len());
                assert forall|t: int| 0 <= t < entries.len() implies 0 <= #[trigger] entries[t].1
                    < n && entries[t].0 == key_bytes(d@[entries[t].1].0) && rs[t]
                    == (entries[t].0, to_model(d@[entries[t].1].1)) by {
                    assert(entries.contains(entries[t]));
                    lemma_sort_pairs_contains(ipairs(d@, n as int), entries[t]);
                    let w = choose|w: int|
                        0 <= w < ipairs(d@, n as int).len() && ipairs(d@, n as int)[w]
                            == entries[t];
                }
            }
            let svn = sv_len(&sv);
            let mut t: usize = 1;
            while t < svn
                invariant
                    1 <= t,
                    forall|u: int| 0 <= u && u + 1 < t ==> (#[trigger] entries[u].0)
                        != entries[u + 1].0,
                decreases svn - t,
            {
                let ka = sv_get(&sv, t - 1);
                let kb = sv_get(&sv, t);
                if bytes_eq(ka.0, kb.0) {
                    let dup = copy_bytes(kb.0);
                    proof {
                        assert(sorted_m[t - 1].0 == dup@);
                        assert(sorted_m[t as int].0 == dup@);
                        assert(!adj_distinct(sorted_m));
                    }
                    return Err(EncodeError::DuplicatedKeys(dup));
                }
                t += 1;
            }
            proof {
                assert forall|u: int| 0 <= u && u + 1 < sorted_m.len() implies (
                #[trigger] sorted_m[u].0) != sorted_m[u + 1].0 by {
                    assert(entries[u].0 != entries[u + 1].0);
                    assert(rs[u].0 == entries[u].0);
                    assert(rs[u + 1].0 == entries[u + 1].0);
                }
                assert(adj_distinct(sorted_m));
            }
            buf_put_byte(buf, 0x64);
            let ghost buf1 = buf_contents(*buf);
            let mut t: usize = 0;
            while t < svn
                invariant
                    0 <= t <= svn,
                    svn as int == entries.len(),
                    entries == sv_entries(sv),
                    n == d@.len(),
                    rs == sorted_m,
                    rs.len() == entries.len(),
                    forall|u: int| 0 <= u < entries.len() ==> 0 <= (#[trigger] entries[u].1) < n
                        && rs[u] == (entries[u].0, to_model(d@[entries[u].1].1)),
                    to_model(*value) == ValueModel::Dict(sorted_m),
                    enc_ok(*value) == ((forall|u: int|
                        0 <= u < d@.len() ==> key_ok(#[trigger] d@[u].0)) && vals_ok(d@, 0)
                        && adj_distinct(sorted_m)),
                    bad_key_somewhere(*value) == ((exists|u: int|
                        0 <= u < d@.len() && !key_ok(#[trigger] d@[u].0)) || bad_key_in_vals(
                        d@,
                        0,
                    )),
                    forall|k: Seq<u8>| #[trigger] dup_key_somewhere(*value, k) == ((exists|u: int|
                        0 <= u && u + 1 < sorted_m.len() && (#[trigger] sorted_m[u].0) == k
                            && sorted_m[u + 1].0 == k) || dup_key_in_vals(d@, 0, k)),
                    forall|u: int| 0 <= u < d@.len() ==> key_ok(#[trigger] d@[u].0),
                    adj_distinct(sorted_m),
                    buf_contents(*buf) + enc_pairs(rs, t as int) == buf1 + enc_pairs(rs, 0),
                    buf1 == buf_contents(*old(buf)).push(0x64),
                    forall|u: int| 0 <= u < t ==> enc_ok(#[trigger] d@[entries[u].1].1),
                decreases svn - t,
            {
                let e = sv_get(&sv, t);
                let idx = e.1;
                put_bstr(buf, e.0);
                let ghost mid = buf_contents(*buf);
                proof {
                    lemma_size_vals_at(d@, 0, entries[t as int].1);
                }
                match encode_inner(&d[idx].1, buf) {
                    Ok(()) => {
                        proof {
                            assert(enc_pairs(rs, t as int) == bstr_enc(rs[t as int].0) + enc(
                                rs[t as int].1,
                            ) + enc_pairs(rs, t + 1));
                            assert(buf_contents(*buf) + enc_pairs(rs, t + 1) =~= buf1 + enc_pairs(
                                rs,
                                0,
                            ));
                        }
                        t += 1;
                    },
                    Err(err) => {
                        proof {
                            if vals_ok(d@, 0) {
                                lemma_vals_ok_at(d@, 0, entries[t as int].1);
                            }
                            match &err {
                                EncodeError::InvalidDictionaryKeyType => {
                                    lemma_bad_key_in_vals_at(d@, 0, entries[t as int].1);
                                },
                                EncodeError::DuplicatedKeys(k) => {
                                    lemma_dup_key_in_vals_at(d@, 0, entries[t as int].1, k@);
                                },
                                _ => {},
                            }
                        }
                        return Err(err);
                    },
                }
            }
            buf_put_byte(buf, 0x65);
            proof {
                assert(enc_pairs(rs, svn as int) == Seq::<u8>::empty());
                assert forall|u: int| 0 <= u < d@.len() implies enc_ok(#[trigger] d@[u].1) by {
                    let it = (key_bytes(d@[u].0), u);
                    assert(ipairs(d@, n as int)[u] == it);
                    assert(ipairs(d@, n as int).contains(it));
                    lemma_sort_pairs_contains(ipairs(d@, n as int), it);
                    let p = choose|p: int| 0 <= p < entries.len() && entries[p] == it;
                    assert(enc_ok(d@[entries[p].1].1));
                }
                lemma_vals_ok_all(d@, 0);
                assert(buf_contents(*buf) =~= buf_contents(*old(buf)) + enc(to_model(*value)));
            }
            Ok(())
        },
    }
}

/// Reshape a decoded value tree into an encodable host value: integers stay
/// integers, byte strings become byte blobs, and list and dictionary
/// structure is kept entry for entry. For a canonical tree the result is
/// encodable and stands for exactly that tree, so re-encoding it reproduces
/// the tree's canonical document.
#[verifier::rlimit(60)]
#[verifier::loop_isolation(false)]
pub fn to_encodable(t: &Type) -> (r: Encodable)
    ensures
        wf(t@) ==> enc_ok(r) && to_model(r) == t@,
    decreases tree_size(*t),
{
    match t {
        Type::Integer(i) => Encodable::Integer(*i),
        Type::ByteString(b) => Encodable::Bytes(copy_bytes(b)),
        Type::List(v) => {
            let n = v.len();
            let mut out: Vec<Encodable> = Vec::new();
            let mut i: usize = 0;
            while i < n
                invariant
                    0 <= i <= n,
                    n == v@.len(),
                    out@.len() == i,
                    tree_size(*t) == 1 + tree_size_items(v@, 0),
                    forall|u: int| 0 <= u < i ==> (wf(type_model(v@[u])) ==> enc_ok(
                        #[trigger] out@[u],
                    ) && to_model(out@[u]) == type_model(v@[u])),
                decreases n - i,
            {
                proof {
                    lemma_tree_size_items_at(v@, 0, i as int);
                }
                let e = to_encodable(&v[i]);
                out.push(e);
                i += 1;
            }
            proof {
                if wf(t@) {
                    lemma_items_model(v@);
                    lemma_items_to_models(out@);
                    let ms = items_model(v@);
                    assert(t@ == ValueModel::List(ms));
                    assert forall|u: int| 0 <= u < n implies wf(
                        type_model(#[trigger] v@[u]),
                    ) && enc_ok(out@[u]) && to_model(out@[u]) == ms[u] by {
                        lemma_wf_items_at(ms, 0, u);
                    }
                    assert(items_to_models(out@) =~= ms);
                    lemma_items_ok_all(out@, 0);
                }
            }
            Encodable::List(out)
        },
        Type::Dictionary(d) => {
            let n = d.len();
            let mut out: Vec<(Encodable, Encodable)> = Vec::new();
            let mut i: usize = 0;
            while i < n
                invariant
                    0 <= i <= n,
                    n == d@.len(),
                    out@.len() == i,
                    tree_size(*t) == 1 + tree_size_pairs(d@, 0),
                    forall|u: int| 0 <= u < i ==> ((#[trigger] out@[u]).0 is Bytes
                        && key_bytes(out@[u].0) == d@[u].0@ && (wf(type_model(d@[u].1))
                        ==> enc_ok(out@[u].1) && to_model(out@[u].1) == type_model(d@[u].1))),
                decreases n - i,
            {
                proof {
                    lemma_tree_size_pairs_at(d@, 0, i as int);
                }
                let kv = copy_bytes(&d[i].0);
                let ev = to_encodable(&d[i].1);
                out.push((Encodable::Bytes(kv), ev));
                i += 1;
            }
            proof {
                if wf(t@) {
                    lemma_pairs_model(d@);
                    lemma_pairs_to_models(out@);
                    let pm = pairs_model(d@);
                    assert(t@ == ValueModel::Dict(pm));
                    assert forall|u: int| 0 <= u < n implies wf((#[trigger] pm[u]).1)
                        && enc_ok(out@[u].1) && pairs_to_models(out@)[u] == pm[u] by {
                        lemma_wf_pairs_at(pm, 0, u);
                    }
                    assert(pairs_to_models(out@) =~= pm);
                    assert(sorted_strict(pm));
                    lemma_sort_pairs_of_sorted(pm);
                    assert forall|u: int| 0 <= u && u + 1 < pm.len() implies (
                    #[trigger] pm[u].0) != pm[u + 1].0 by {
                        lemma_bytes_lt_trichotomy(pm[u].0, pm[u + 1].0);
                    }
                    assert(adj_distinct(sort_pairs(pairs_to_models(out@))));
                    lemma_vals_ok_all(out@, 0);
                }
            }
            Encodable::Dictionary(out)
        },
    }
}

/// Encode one host value as canonical Bencode.
///
/// Succeeds exactly when every dictionary key in the tree is text or a byte
/// blob and no dictionary holds two keys with the same bytes; the output is
/// then `enc(to_model(value))`: booleans as integers `0`/`1`, minimal
/// integer digits, `<len>:<bytes>` byte strings, and every dictionary's
/// entries emitted in strictly increasing byte-lexicographic key order, no
/// matter the order they arrived in.
pub fn encode(value: &Encodable) -> (r: Result<Vec<u8>, EncodeError>)
    ensures
        match r {
            Ok(b) => enc_ok(*value) && b@ == enc(to_model(*value)),
            Err(e) => !enc_ok(*value) && match e {
                EncodeError::UnsupportedType(_) => false,
                EncodeError::InvalidDictionaryKeyType => bad_key_somewhere(*value),
                EncodeError::DuplicatedKeys(k) => dup_key_somewhere(*value, k@),
            },
        },
{
    let mut buf = buf_with_capacity(1024);
    match encode_inner(value, &mut buf) {
        Ok(()) => {
            let out = buf_into_vec(buf);
            proof {
                assert(out@ =~= enc(to_model(*value)));
            }
            Ok(out)
        },
        Err(e) => Err(e),
    }
}

} // verus!
