use vstd::prelude::*;

use crate::decode::{lemma_decode_enc, spec_decode};
use crate::encode::{adj_distinct, enc_ok, pairs_to_models, to_model, Encodable};
use crate::typ::{
    bytes_lt, enc, insert_sorted, lemma_bytes_lt_trichotomy, sort_pairs, wf, ValueModel,
};

verus! {

/// Round trip: decoding the canonical encoding of any canonical value tree
/// gives back exactly that tree.
pub proof fn round_trip(v: ValueModel)
    requires
        wf(v),
    ensures
        spec_decode(enc(v)) == Ok::<ValueModel, crate::decode::DecodeError>(v),
{
    lemma_decode_enc(v);
}

/// Round trip through the encoder: an encodable host value whose tree is
/// canonical decodes, after encoding, to exactly that tree.
pub proof fn encode_then_decode(e: Encodable)
    requires
        enc_ok(e),
        wf(to_model(e)),
    ensures
        spec_decode(enc(to_model(e))) == Ok::<ValueModel, crate::decode::DecodeError>(
            to_model(e),
        ),
{
    lemma_decode_enc(to_model(e));
}

/// Idempotence: decoding any canonical Bencode document and re-encoding the
/// result reproduces the document byte for byte.
pub proof fn idempotent(doc: Seq<u8>, v: ValueModel)
    requires
        wf(v),
        doc == enc(v),
    ensures
        spec_decode(doc) == Ok::<ValueModel, crate::decode::DecodeError>(v),
        enc(v) == doc,
{
    lemma_decode_enc(v);
}

/// Keys never decrease from left to right.
pub open spec fn sorted_le<V>(qs: Seq<(Seq<u8>, V)>) -> bool {
    forall|j: int| 0 <= j && j + 1 < qs.len() ==> !bytes_lt(#[trigger] qs[j + 1].0, qs[j].0)
}

/// Sorted insertion keeps the keys non-decreasing.
proof fn lemma_insert_sorted_le<V>(qs: Seq<(Seq<u8>, V)>, k: Seq<u8>, v: V)
    requires
        sorted_le(qs),
    ensures
        sorted_le(insert_sorted(qs, k, v)),
    decreases qs.len(),
{
    let q = insert_sorted(qs, k, v);
    if qs.len() == 0 {
        assert(sorted_le(q));
    } else if !bytes_lt(qs[0].0, k) {
        assert(q == seq![(k, v)] + qs);
        assert forall|j: int| 0 <= j && j + 1 < q.len() implies !bytes_lt(
            #[trigger] q[j + 1].0,
            q[j].0,
        ) by {
            if j == 0 {
                assert(q[0].0 == k);
                assert(q[1].0 == qs[0].0);
            } else {
                assert(q[j].0 == qs[j - 1].0);
                assert(q[j + 1].0 == qs[j].0);
                assert(!bytes_lt(qs[(j - 1) + 1].0, qs[j - 1].0));
            }
        }
    } else {
        let tail = qs.subrange(1, qs.len() as int);
        assert forall|j: int| 0 <= j && j + 1 < tail.len() implies !bytes_lt(
            #[trigger] tail[j + 1].0,
            tail[j].0,
        ) by {
            assert(tail[j] == qs[j + 1]);
            assert(tail[j + 1] == qs[j + 2]);
        }
        lemma_insert_sorted_le(tail, k, v);
        let it = insert_sorted(tail, k, v);
        assert(q == seq![qs[0]] + it);
        assert forall|j: int| 0 <= j && j + 1 < q.len() implies !bytes_lt(
            #[trigger] q[j + 1].0,
            q[j].0,
        ) by {
            if j == 0 {
                assert(q[0] == qs[0]);
                assert(q[1] == it[0]);
                if tail.len() == 0 || !bytes_lt(tail[0].0, k) {
                    assert(it[0] == (k, v));
                    lemma_bytes_lt_trichotomy(k, qs[0].0);
                } else {
                    assert(it[0] == tail[0]);
                    assert(tail[0] == qs[1]);
                }
            } else {
                assert(q[j].0 == it[j - 1].0);
                assert(q[j + 1].0 == it[j].0);
                assert(!bytes_lt(it[(j - 1) + 1].0, it[j - 1].0));
            }
        }
    }
}

/// The insertion sort leaves the keys non-decreasing.
proof fn lemma_sort_pairs_le<V>(qs: Seq<(Seq<u8>, V)>)
    ensures
        sorted_le(sort_pairs(qs)),
    decreases qs.len(),
{
    if qs.len() == 0 {
        assert(sorted_le(sort_pairs(qs)));
    } else {
        lemma_sort_pairs_le(qs.drop_last());
        lemma_insert_sorted_le(sort_pairs(qs.drop_last()), qs.last().0, qs.last().1);
    }
}

/// Canonical dictionary ordering: for every encodable dictionary, whatever
/// the order its entries arrive in, the canonical form sorts the keys into
/// strictly increasing byte-lexicographic order, which is exactly the order
/// the encoder emits them in.
pub proof fn encoded_dict_keys_strictly_sorted(e: Encodable)
    requires
        enc_ok(e),
        e is Dictionary,
    ensures
        ({
            let qs = sort_pairs(pairs_to_models(e->Dictionary_0@));
            forall|j: int| 0 <= j && j + 1 < qs.len() ==> bytes_lt(
                #[trigger] qs[j].0,
                qs[j + 1].0,
            )
        }),
{
    let qs = sort_pairs(pairs_to_models(e->Dictionary_0@));
    lemma_sort_pairs_le(pairs_to_models(e->Dictionary_0@));
    assert(adj_distinct(qs));
    assert forall|j: int| 0 <= j && j + 1 < qs.len() implies bytes_lt(
        #[trigger] qs[j].0,
        qs[j + 1].0,
    ) by {
        lemma_bytes_lt_trichotomy(qs[j].0, qs[j + 1].0);
    }
}

} // verus!
