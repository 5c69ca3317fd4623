use vstd::prelude::*;

use crate::typ::{
    bstr_enc, dec_digits, enc, enc_items, enc_pairs, wf, wf_items, wf_pairs,
    bytes_eq, bytes_lt, bytes_lt_exec, digits_val, has_key, insert_sorted, is_digit,
    items_model, lemma_bytes_lt_trans, lemma_bytes_lt_trichotomy, lemma_insert_preserves_sorted,
    lemma_insert_sorted_at, lemma_items_model_push, lemma_pairs_model,
    lemma_pairs_model_insert, lemma_sorted_chain, pairs_model, sorted_strict, type_model, Type,
    ValueModel,
};

verus! {

/// The kind of value whose terminator was malformed.
#[derive(Clone, Copy, Debug, PartialEq, Eq, Structural)]
pub enum ValueKind {
    Integer,
    ByteString,
}

/// Everything that can go wrong while decoding one Bencode document. Each
/// kind is stable and can be branched on; the exact byte sequences on which
/// each kind is returned are fixed by [`spec_decode`].
#[derive(Clone, Copy, Debug, PartialEq, Eq, Structural)]
pub enum DecodeError {
    /// The input holds no bytes at all.
    Empty,
    /// The first byte of a value is not `i`, `l`, `d` or a digit.
    InvalidStartByte,
    /// A byte that is neither a digit nor the proper terminator appeared
    /// inside an integer or inside a byte-string length prefix.
    InvalidEndByte(ValueKind),
    /// A digit sequence is absent or does not fit a signed 64-bit integer.
    InvalidInteger,
    /// The integer `-0`, which canonical Bencode has no spelling for.
    NegativeZeroInteger,
    /// An integer whose digits begin with a superfluous zero.
    IntegerWithLeadingZeros,
    /// A byte-string length prefix that promises more bytes than remain.
    InvalidByteStringLength,
    /// A list that the input ends inside of.
    InvalidList,
    /// A dictionary that the input ends inside of, a key without a value,
    /// or a duplicate key.
    InvalidDictionary,
    /// A dictionary key position holding an integer, list or dictionary.
    InvalidDictionaryKey,
    /// Bytes left over after one complete top-level value.
    InvalidByteSequence,
}

pub type DecodeResult = Result<Type, DecodeError>;

// ---------------------------------------------------------------------------
// The reference parser, in specification form
// ---------------------------------------------------------------------------

/// The first index at or after `i` that does not hold an ASCII digit.
pub open spec fn digit_run_end(s: Seq<u8>, i: int) -> int
    decreases s.len() - i,
{
    if i < 0 || i >= s.len() {
        i
    } else if !is_digit(s[i]) {
        i
    } else {
        digit_run_end(s, i + 1)
    }
}

/// Parse `i<digits>e` at the head of `s` (`s[0]` is the `i` tag). Accepts an
/// optional sign, rejects leading zeros, `-0` and magnitudes above the
/// signed 64-bit maximum, and — like a reader that stops at end of input —
/// treats a missing final `e` as the end of the digits.
pub open spec fn spec_parse_int(s: Seq<u8>) -> Result<(ValueModel, int), DecodeError> {
    if s.len() < 2 {
        Err(DecodeError::InvalidInteger)
    } else {
        let neg = s[1] == 0x2d;
        if !neg && !is_digit(s[1]) {
            Err(DecodeError::InvalidInteger)
        } else {
            let start: int = if neg { 2 } else { 1 };
            let j = digit_run_end(s, start);
            let ds = s.subrange(start, j);
            if j < s.len() && s[j] != 0x65 {
                Err(DecodeError::InvalidEndByte(ValueKind::Integer))
            } else if ds.len() > 1 && ds[0] == 0x30 {
                Err(DecodeError::IntegerWithLeadingZeros)
            } else if ds.len() == 0 {
                Err(DecodeError::InvalidInteger)
            } else if digits_val(ds) > 0x7fff_ffff_ffff_ffff {
                Err(DecodeError::InvalidInteger)
            } else if neg && digits_val(ds) == 0 {
                Err(DecodeError::NegativeZeroInteger)
            } else {
                let v = if neg { -digits_val(ds) } else { digits_val(ds) };
                Ok((ValueModel::Int(v), if j < s.len() { j + 1 } else { j }))
            }
        }
    }
}

/// Parse `<len>:<len bytes>` at the head of `s` (`s[0]` is the first length
/// digit). Leading zeros in the length prefix are accepted; the prefix must
/// fit a signed 64-bit integer and exactly `len` bytes must remain.
pub open spec fn spec_parse_bstr(s: Seq<u8>) -> Result<(Seq<u8>, int), DecodeError> {
    let j = digit_run_end(s, 0);
    let ds = s.subrange(0, j);
    if j < s.len() && s[j] != 0x3a {
        Err(DecodeError::InvalidEndByte(ValueKind::ByteString))
    } else if digits_val(ds) > 0x7fff_ffff_ffff_ffff {
        Err(DecodeError::InvalidInteger)
    } else {
        let body: int = if j < s.len() { j + 1 } else { j };
        let n = digits_val(ds);
        if s.len() - body < n {
            Err(DecodeError::InvalidByteStringLength)
        } else {
            Ok((s.subrange(body, body + n), body + n))
        }
    }
}

/// Add `d` to the consumed-byte count of a parse result.
pub open spec fn shifted<T>(r: Result<(T, int), DecodeError>, d: int) -> Result<
    (T, int),
    DecodeError,
> {
    match r {
        Ok((v, n)) => Ok((v, n + d)),
        Err(e) => Err(e),
    }
}

/// Parse one value at the head of `s`, returning its model and the number of
/// bytes consumed. The first byte selects the sub-parser.
pub open spec fn spec_parse(s: Seq<u8>) -> Result<(ValueModel, int), DecodeError>
    decreases s.len(), 0int,
{
    if s.len() == 0 {
        Err(DecodeError::Empty)
    } else if s[0] == 0x69 {
        spec_parse_int(s)
    } else if s[0] == 0x6c {
        match spec_parse_items(s.skip(1), Seq::empty()) {
            Ok((items, n)) => Ok((ValueModel::List(items), 1 + n)),
            Err(e) => Err(e),
        }
    } else if s[0] == 0x64 {
        match spec_parse_pairs(s.skip(1), Seq::empty()) {
            Ok((ps, n)) => Ok((ValueModel::Dict(ps), 1 + n)),
            Err(e) => Err(e),
        }
    } else if is_digit(s[0]) {
        match spec_parse_bstr(s) {
            Ok((b, n)) => Ok((ValueModel::Bytes(b), n)),
            Err(e) => Err(e),
        }
    } else {
        Err(DecodeError::InvalidStartByte)
    }
}

/// Parse list items until a closing `e`, appending to the accumulator `acc`;
/// the count includes the closing `e`.
pub open spec fn spec_parse_items(s: Seq<u8>, acc: Seq<ValueModel>) -> Result<
    (Seq<ValueModel>, int),
    DecodeError,
>
    decreases s.len(), 1int,
{
    if s.len() == 0 {
        Err(DecodeError::InvalidList)
    } else if s[0] == 0x65 {
        Ok((acc, 1))
    } else {
        match spec_parse(s) {
            Ok((v, n)) => if 1 <= n <= s.len() {
                shifted(spec_parse_items(s.skip(n), acc.push(v)), n)
            } else {
                Err(DecodeError::InvalidList)
            },
            Err(e) => Err(e),
        }
    }
}

/// Parse dictionary entries until a closing `e`, inserting each into the
/// key-sorted accumulator `acc`. Keys must be byte strings; a repeated key,
/// or a key without a value, is an `InvalidDictionary` error. The input
/// need not present keys in sorted order.
pub open spec fn spec_parse_pairs(s: Seq<u8>, acc: Seq<(Seq<u8>, ValueModel)>) -> Result<
    (Seq<(Seq<u8>, ValueModel)>, int),
    DecodeError,
>
    decreases s.len(), 1int,
{
    if s.len() == 0 {
        Err(DecodeError::InvalidDictionary)
    } else if s[0] == 0x65 {
        Ok((acc, 1))
    } else if s[0] == 0x69 || s[0] == 0x6c || s[0] == 0x64 {
        Err(DecodeError::InvalidDictionaryKey)
    } else if !is_digit(s[0]) {
        Err(DecodeError::InvalidStartByte)
    } else {
        match spec_parse_bstr(s) {
            Ok((k, n)) => if 1 <= n <= s.len() {
                if has_key(acc, k) {
                    Err(DecodeError::InvalidDictionary)
                } else {
                    let s2 = s.skip(n);
                    if s2.len() == 0 {
                        Err(DecodeError::InvalidDictionary)
                    } else if s2[0] == 0x65 {
                        Err(DecodeError::InvalidDictionary)
                    } else {
                        match spec_parse(s2) {
                            Ok((v, m)) => if 1 <= m <= s2.len() {
                                shifted(
                                    spec_parse_pairs(s2.skip(m), insert_sorted(acc, k, v)),
                                    n + m,
                                )
                            } else {
                                Err(DecodeError::InvalidDictionary)
                            },
                            Err(e) => Err(e),
                        }
                    }
                }
            } else {
                Err(DecodeError::InvalidDictionary)
            },
            Err(e) => Err(e),
        }
    }
}

/// Decode one whole document: one value, with nothing before or after it.
pub open spec fn spec_decode(s: Seq<u8>) -> Result<ValueModel, DecodeError> {
    match spec_parse(s) {
        Ok((v, n)) => if n == s.len() {
            Ok(v)
        } else {
            Err(DecodeError::InvalidByteSequence)
        },
        Err(e) => Err(e),
    }
}

// ---------------------------------------------------------------------------
// Digit-run lemmas
// ---------------------------------------------------------------------------

/// `digit_run_end` is pinned down by any witness index `j`.
proof fn lemma_digit_run(s: Seq<u8>, i: int, j: int)
    requires
        0 <= i <= j <= s.len(),
        forall|t: int| i <= t < j ==> is_digit(#[trigger] s[t]),
        j == s.len() || !is_digit(s[j]),
    ensures
        digit_run_end(s, i) == j,
    decreases j - i,
{
    if i < j {
        lemma_digit_run(s, i + 1, j);
    }
}

/// A sequence of digits has a non-negative value.
proof fn lemma_digits_val_nonneg(ds: Seq<u8>)
    requires
        forall|t: int| 0 <= t < ds.len() ==> is_digit(#[trigger] ds[t]),
    ensures
        digits_val(ds) >= 0,
    decreases ds.len(),
{
    if ds.len() > 0 {
        lemma_digits_val_nonneg(ds.drop_last());
    }
}

/// Extending a digit run to the right never shrinks its value.
proof fn lemma_digits_val_extend(s: Seq<u8>, a: int, m: int, b: int)
    requires
        0 <= a <= m <= b <= s.len(),
        forall|t: int| a <= t < b ==> is_digit(#[trigger] s[t]),
    ensures
        digits_val(s.subrange(a, b)) >= digits_val(s.subrange(a, m)),
    decreases b - m,
{
    if m < b {
        assert(s.subrange(a, m + 1).drop_last() =~= s.subrange(a, m));
        assert(s.subrange(a, m + 1).last() == s[m]);
        lemma_digits_val_nonneg(s.subrange(a, m));
        assert(digits_val(s.subrange(a, m + 1))
            == digits_val(s.subrange(a, m)) * 10 + (s[m] - 0x30));
        lemma_digits_val_extend(s, a, m + 1, b);
    } else {
        assert(s.subrange(a, m) =~= s.subrange(a, b));
    }
}

// ---------------------------------------------------------------------------
// The executable decoder
// ---------------------------------------------------------------------------

/// Scan the digit run that starts at `pos` and mirror it into the model.
fn scan_digits(input: &Vec<u8>, pos: usize, from: usize) -> (j: usize)
    requires
        pos <= from <= input@.len(),
    ensures
        from <= j <= input@.len(),
        digit_run_end(input@.skip(pos as int), from - pos) == j - pos,
        forall|t: int| from <= t < j ==> is_digit(#[trigger] input@[t]),
        j < input@.len() ==> !is_digit(input@[j as int]),
{
    let len = input.len();
    let mut j = from;
    while j < len && input[j] >= 0x30 && input[j] <= 0x39
        invariant
            from <= j <= len,
            len == input@.len(),
            forall|t: int| from <= t < j ==> is_digit(#[trigger] input@[t]),
        decreases len - j,
    {
        j += 1;
    }
    proof {
        let s = input@.skip(pos as int);
        assert forall|t: int| from - pos <= t < j - pos implies is_digit(#[trigger] s[t]) by {
            assert(s[t] == input@[pos + t]);
        }
        if (j - pos) < s.len() {
            assert(s[j - pos] == input@[j as int]);
        }
        lemma_digit_run(s, from - pos, j - pos);
    }
    j
}

/// Convert the digit run `[from, j)` to a signed 64-bit value, mirroring
/// `digits_val`; reports `InvalidInteger` when the value would exceed the
/// signed 64-bit maximum.
fn digits_to_i64(input: &Vec<u8>, pos: usize, from: usize, j: usize) -> (r: Result<
    i64,
    DecodeError,
>)
    requires
        pos <= from <= j <= input@.len(),
        forall|t: int| from <= t < j ==> is_digit(#[trigger] input@[t]),
    ensures
        ({
            let ds = input@.skip(pos as int).subrange(from - pos, j - pos);
            match r {
                Ok(v) => 0 <= v == digits_val(ds) <= 0x7fff_ffff_ffff_ffff,
                Err(e) => e == DecodeError::InvalidInteger
                    && digits_val(ds) > 0x7fff_ffff_ffff_ffff,
            }
        }),
{
    let ghost s = input@.skip(pos as int);
    proof {
        assert forall|t: int| from - pos <= t < j - pos implies is_digit(#[trigger] s[t]) by {
            assert(s[t] == input@[pos + t]);
        }
    }
    let mut acc: i64 = 0;
    let mut k = from;
    while k < j
        invariant
            from <= k <= j <= input@.len(),
            pos <= from,
            s == input@.skip(pos as int),
            forall|t: int| from <= t < j ==> is_digit(#[trigger] input@[t]),
            forall|t: int| from - pos <= t < j - pos ==> is_digit(#[trigger] s[t]),
            0 <= acc <= 0x7fff_ffff_ffff_ffff,
            acc == digits_val(s.subrange(from - pos, k - pos)),
        decreases j - k,
    {
        let d = input[k] - 0x30;
        proof {
            assert(s[k - pos] == input@[k as int]);
            assert(s.subrange(from - pos, k - pos + 1).drop_last()
                =~= s.subrange(from - pos, k - pos));
            assert(s.subrange(from - pos, k - pos + 1).last() == s[k - pos]);
        }
        if acc > 922337203685477580 || (acc == 922337203685477580 && d > 7) {
            proof {
                assert(digits_val(s.subrange(from - pos, k - pos + 1))
                    == acc * 10 + (d as int));
                assert(acc * 10 + (d as int) > 0x7fff_ffff_ffff_ffff);
                lemma_digits_val_extend(s, from - pos, k - pos + 1, j - pos);
            }
            return Err(DecodeError::InvalidInteger);
        }
        acc = acc * 10 + (d as i64);
        k += 1;
    }
    Ok(acc)
}

/// Parse `i<digits>e` starting at `pos`; mirrors [`spec_parse_int`].
fn parse_integer_at(input: &Vec<u8>, pos: usize) -> (r: Result<(i64, usize), DecodeError>)
    requires
        pos < input@.len(),
        input@[pos as int] == 0x69,
    ensures
        ({
            let s = input@.skip(pos as int);
            match r {
                Ok((v, end)) => pos < end <= input@.len() && spec_parse_int(s) == Ok::<
                    (ValueModel, int),
                    DecodeError,
                >((ValueModel::Int(v as int), end - pos)),
                Err(e) => spec_parse_int(s) == Err::<(ValueModel, int), DecodeError>(e),
            }
        }),
{
    let ghost s = input@.skip(pos as int);
    let len = input.len();
    if pos + 1 == len {
        return Err(DecodeError::InvalidInteger);
    }
    let first = input[pos + 1];
    proof {
        assert(s[1] == input@[pos + 1]);
    }
    let neg = first == 0x2d;
    if !neg && !(first >= 0x30 && first <= 0x39) {
        return Err(DecodeError::InvalidInteger);
    }
    let start = if neg {
        pos + 2
    } else {
        pos + 1
    };
    let j = scan_digits(input, pos, start);
    let ghost jr = j - pos;
    let ghost ds = s.subrange(start - pos, jr);
    proof {
        assert forall|t: int| 0 <= t < ds.len() implies is_digit(#[trigger] ds[t]) by {
            assert(ds[t] == input@[start + t]);
        }
        if jr < s.len() {
            assert(s[jr] == input@[j as int]);
        }
    }
    if j < len && input[j] != 0x65 {
        return Err(DecodeError::InvalidEndByte(ValueKind::Integer));
    }
    if j - start >= 2 && input[start] == 0x30 {
        proof {
            assert(ds[0] == input@[start as int]);
        }
        return Err(DecodeError::IntegerWithLeadingZeros);
    }
    if j == start {
        return Err(DecodeError::InvalidInteger);
    }
    proof {
        if ds.len() > 1 {
            assert(ds[0] == input@[start as int]);
        }
    }
    let acc = match digits_to_i64(input, pos, start, j) {
        Ok(a) => a,
        Err(e) => {
            return Err(e);
        },
    };
    if neg && acc == 0 {
        return Err(DecodeError::NegativeZeroInteger);
    }
    let v: i64 = if neg {
        -acc
    } else {
        acc
    };
    let end = if j < len {
        j + 1
    } else {
        j
    };
    Ok((v, end))
}

/// Parse `<len>:<bytes>` starting at `pos`; mirrors [`spec_parse_bstr`].
fn parse_bstring_at(input: &Vec<u8>, pos: usize) -> (r: Result<(Vec<u8>, usize), DecodeError>)
    requires
        pos < input@.len(),
        is_digit(input@[pos as int]),
    ensures
        ({
            let s = input@.skip(pos as int);
            match r {
                Ok((b, end)) => pos < end <= input@.len() && spec_parse_bstr(s) == Ok::<
                    (Seq<u8>, int),
                    DecodeError,
                >((b@, end - pos)),
                Err(e) => spec_parse_bstr(s) == Err::<(Seq<u8>, int), DecodeError>(e),
            }
        }),
{
    let ghost s = input@.skip(pos as int);
    let len = input.len();
    let j = scan_digits(input, pos, pos);
    let ghost jr = j - pos;
    let ghost ds = s.subrange(0, jr);
    proof {
        assert(s[0] == input@[pos as int]);
        if jr < s.len() {
            assert(s[jr] == input@[j as int]);
        }
        assert forall|t: int| 0 <= t < ds.len() implies is_digit(#[trigger] ds[t]) by {
            assert(ds[t] == input@[pos + t]);
        }
    }
    if j < len && input[j] != 0x3a {
        return Err(DecodeError::InvalidEndByte(ValueKind::ByteString));
    }
    let n = match digits_to_i64(input, pos, pos, j) {
        Ok(a) => a,
        Err(e) => {
            return Err(e);
        },
    };
    let body = if j < len {
        j + 1
    } else {
        j
    };
    let avail: u64 = (len - body) as u64;
    if (n as u64) > avail {
        return Err(DecodeError::InvalidByteStringLength);
    }
    let count = n as usize;
    let mut out: Vec<u8> = Vec::new();
    let mut t: usize = 0;
    while t < count
        invariant
            0 <= t <= count,
            len == input@.len(),
            body + count <= len,
            pos <= body,
            s == input@.skip(pos as int),
            out@ == s.subrange(body - pos, body - pos + t),
        decreases count - t,
    {
        let b = input[body + t];
        proof {
            assert(s[body - pos + t] == input@[body + t]);
            assert(s.subrange(body - pos, body - pos + t + 1)
                =~= s.subrange(body - pos, body - pos + t).push(s[body - pos + t]));
        }
        out.push(b);
        t += 1;
    }
    Ok((out, body + count))
}

/// Parse one value starting at `pos`; mirrors [`spec_parse`].
#[verifier::rlimit(100)]
fn parse_value_at(input: &Vec<u8>, pos: usize) -> (r: Result<(Type, usize), DecodeError>)
    requires
        pos <= input@.len(),
    ensures
        ({
            let s = input@.skip(pos as int);
            match r {
                Ok((t, end)) => pos < end <= input@.len() && spec_parse(s) == Ok::<
                    (ValueModel, int),
                    DecodeError,
                >((t@, end - pos)),
                Err(e) => spec_parse(s) == Err::<(ValueModel, int), DecodeError>(e),
            }
        }),
    decreases input@.len() - pos,
{
    let ghost s = input@.skip(pos as int);
    let len = input.len();
    if pos == len {
        return Err(DecodeError::Empty);
    }
    let tag = input[pos];
    proof {
        assert(s[0] == input@[pos as int]);
    }
    if tag == 0x69 {
        match parse_integer_at(input, pos) {
            Ok((v, end)) => Ok((Type::Integer(v), end)),
            Err(e) => Err(e),
        }
    } else if tag == 0x6c {
        proof {
            assert(s.skip(1) =~= input@.skip(pos + 1));
        }
        let mut items: Vec<Type> = Vec::new();
        let mut cur: usize = pos + 1;
        loop
            invariant
                pos < cur <= input@.len(),
                len == input@.len(),
                s == input@.skip(pos as int),
                input@[pos as int] == 0x6c,
                s.len() == input@.len() - pos,
                s[0] == 0x6c,
                s.skip(1) == input@.skip(pos + 1),
                spec_parse_items(input@.skip(pos + 1), Seq::empty()) == shifted(
                    spec_parse_items(input@.skip(cur as int), items_model(items@)),
                    cur - pos - 1,
                ),
            decreases input@.len() - cur,
        {
            if cur == len {
                proof {
                    assert(input@.skip(cur as int).len() == 0);
                }
                return Err(DecodeError::InvalidList);
            }
            let b2 = input[cur];
            proof {
                assert(input@.skip(cur as int)[0] == input@[cur as int]);
            }
            if b2 == 0x65 {
                proof {
                    assert(spec_parse_items(input@.skip(cur as int), items_model(items@))
                        == Ok::<(Seq<ValueModel>, int), DecodeError>((items_model(items@), 1)));
                }
                return Ok((Type::List(items), cur + 1));
            }
            match parse_value_at(input, cur) {
                Ok((t, end2)) => {
                    proof {
                        let scur = input@.skip(cur as int);
                        let n = end2 - cur;
                        assert(scur.skip(n) =~= input@.skip(end2 as int));
                        lemma_items_model_push(items@, t);
                    }
                    items.push(t);
                    cur = end2;
                },
                Err(e) => {
                    return Err(e);
                },
            }
        }
    } else if tag == 0x64 {
        proof {
            assert(s.skip(1) =~= input@.skip(pos + 1));
        }
        let mut pairs: Vec<(Vec<u8>, Type)> = Vec::new();
        let mut cur: usize = pos + 1;
        loop
            invariant
                pos < cur <= input@.len(),
                len == input@.len(),
                s == input@.skip(pos as int),
                input@[pos as int] == 0x64,
                s.len() == input@.len() - pos,
                s[0] == 0x64,
                s.skip(1) == input@.skip(pos + 1),
                sorted_strict(pairs_model(pairs@)),
                spec_parse_pairs(input@.skip(pos + 1), Seq::empty()) == shifted(
                    spec_parse_pairs(input@.skip(cur as int), pairs_model(pairs@)),
                    cur - pos - 1,
                ),
            decreases input@.len() - cur,
        {
            if cur == len {
                proof {
                    assert(input@.skip(cur as int).len() == 0);
                }
                return Err(DecodeError::InvalidDictionary);
            }
            let b2 = input[cur];
            proof {
                assert(input@.skip(cur as int)[0] == input@[cur as int]);
            }
            if b2 == 0x65 {
                proof {
                    assert(spec_parse_pairs(input@.skip(cur as int), pairs_model(pairs@))
                        == Ok::<(Seq<(Seq<u8>, ValueModel)>, int), DecodeError>((
                            pairs_model(pairs@),
                            1,
                        )));
                }
                return Ok((Type::Dictionary(pairs), cur + 1));
            }
            if b2 == 0x69 || b2 == 0x6c || b2 == 0x64 {
                return Err(DecodeError::InvalidDictionaryKey);
            }
            if !(b2 >= 0x30 && b2 <= 0x39) {
                return Err(DecodeError::InvalidStartByte);
            }
            let (key, kend) = match parse_bstring_at(input, cur) {
                Ok(x) => x,
                Err(e) => {
                    return Err(e);
                },
            };
            let ghost acc = pairs_model(pairs@);
            proof {
                lemma_pairs_model(pairs@);
            }
            // Find the sorted insert position and detect duplicates.
            let np = pairs.len();
            let mut ip: usize = 0;
            while ip < np && bytes_lt_exec(&pairs[ip].0, &key)
                invariant
                    0 <= ip <= np,
                    np == pairs@.len(),
                    acc == pairs_model(pairs@),
                    acc.len() == np,
                    forall|t: int| 0 <= t < acc.len() ==> #[trigger] acc[t]
                        == (pairs@[t].0@, type_model(pairs@[t].1)),
                    forall|t: int| 0 <= t < ip ==> bytes_lt(#[trigger] acc[t].0, key@),
                decreases np - ip,
            {
                ip += 1;
            }
            if ip < np && bytes_eq(&pairs[ip].0, &key) {
                proof {
                    assert(acc[ip as int].0 == key@);
                    assert(has_key(acc, key@));
                }
                return Err(DecodeError::InvalidDictionary);
            }
            proof {
                assert forall|t: int| 0 <= t < acc.len() implies acc[t].0 != key@ by {
                    lemma_bytes_lt_trichotomy(acc[t].0, key@);
                    if t > ip {
                        lemma_sorted_chain(acc, ip as int, t);
                        lemma_bytes_lt_trichotomy(acc[ip as int].0, key@);
                        lemma_bytes_lt_trans(key@, acc[ip as int].0, acc[t].0);
                        lemma_bytes_lt_trichotomy(key@, acc[t].0);
                    } else if t == ip {
                    }
                }
                assert(!has_key(acc, key@));
            }
            if kend == len {
                proof {
                    assert(input@.skip(cur as int).skip(kend - cur)
                        =~= input@.skip(kend as int));
                }
                return Err(DecodeError::InvalidDictionary);
            }
            let b3 = input[kend];
            proof {
                assert(input@.skip(cur as int).skip(kend - cur) =~= input@.skip(kend as int));
                assert(input@.skip(kend as int)[0] == input@[kend as int]);
            }
            if b3 == 0x65 {
                return Err(DecodeError::InvalidDictionary);
            }
            match parse_value_at(input, kend) {
                Ok((tv, vend)) => {
                    proof {
                        let scur = input@.skip(cur as int);
                        let s2 = input@.skip(kend as int);
                        assert(s2.skip(vend - kend) =~= input@.skip(vend as int));
                        if ip < np {
                            lemma_bytes_lt_trichotomy(acc[ip as int].0, key@);
                        }
                        lemma_insert_sorted_at(acc, key@, tv@, ip as int);
                        lemma_insert_preserves_sorted(acc, key@, tv@, ip as int);
                        lemma_pairs_model_insert(pairs@, ip as int, (key, tv));
                    }
                    pairs.insert(ip, (key, tv));
                    cur = vend;
                },
                Err(e) => {
                    return Err(e);
                },
            }
        }
    } else if tag >= 0x30 && tag <= 0x39 {
        match parse_bstring_at(input, pos) {
            Ok((b, end)) => Ok((Type::ByteString(b), end)),
            Err(e) => Err(e),
        }
    } else {
        Err(DecodeError::InvalidStartByte)
    }
}

// ---------------------------------------------------------------------------
// The parser inverts the canonical encoding
// ---------------------------------------------------------------------------

/// The decimal digits of a non-negative number: at least one digit, all
/// digits, no leading zero unless the number is zero, and their value is the
/// number itself.
pub proof fn lemma_dec_digits(n: int)
    requires
        n >= 0,
    ensures
        dec_digits(n).len() >= 1,
        forall|t: int| 0 <= t < dec_digits(n).len() ==> is_digit(#[trigger] dec_digits(n)[t]),
        digits_val(dec_digits(n)) == n,
        n >= 1 ==> dec_digits(n)[0] != 0x30,
        dec_digits(n).len() > 1 ==> dec_digits(n)[0] != 0x30,
    decreases n,
{
    if n < 10 {
        let ds = dec_digits(n);
        assert(ds.drop_last() =~= Seq::empty());
        assert(ds.last() == (0x30 + n) as u8);
        assert((0x30 + n) as u8 as int == 0x30 + n);
        assert(ds.len() == 1);
        assert(digits_val(ds) == digits_val(ds.drop_last()) * 10 + (ds.last() - 0x30));
        assert(digits_val(ds.drop_last()) == 0);
    } else {
        lemma_dec_digits(n / 10);
        let ds = dec_digits(n);
        let front = dec_digits(n / 10);
        assert(ds.drop_last() =~= front);
        assert(ds.last() == (0x30 + n % 10) as u8);
        assert((0x30 + n % 10) as u8 as int == 0x30 + n % 10);
        assert(digits_val(ds) == n / 10 * 10 + n % 10);
        assert(ds[0] == front[0]);
    }
}

/// Every encoding is non-empty, begins with its tag byte, and never begins
/// with the terminator `e`.
pub proof fn lemma_enc_first_byte(m: ValueModel)
    ensures
        enc(m).len() >= 1,
        enc(m)[0] != 0x65,
        m is Int ==> enc(m)[0] == 0x69,
        m is Bytes ==> is_digit(enc(m)[0]),
{
    match m {
        ValueModel::Int(_) => {},
        ValueModel::Bytes(s) => {
            lemma_dec_digits(s.len() as int);
            assert(enc(m)[0] == dec_digits(s.len() as int)[0]);
        },
        ValueModel::List(_) => {},
        ValueModel::Dict(_) => {},
    }
}

/// Parsing the encoding of an integer consumes exactly it.
proof fn lemma_parse_int_enc(i: int, rest: Seq<u8>)
    requires
        -0x7fff_ffff_ffff_ffff <= i <= 0x7fff_ffff_ffff_ffff,
    ensures
        spec_parse_int(enc(ValueModel::Int(i)) + rest) == Ok::<(ValueModel, int), DecodeError>(
            (ValueModel::Int(i), enc(ValueModel::Int(i)).len() as int),
        ),
{
    let e = enc(ValueModel::Int(i));
    let s = e + rest;
    let mag = if i < 0 { -i } else { i };
    let dd = dec_digits(mag);
    lemma_dec_digits(mag);
    let start: int = if i < 0 { 2 } else { 1 };
    assert(s.len() >= 2);
    if i < 0 {
        assert(s[1] == 0x2d);
    } else {
        assert(s[1] == dd[0]);
    }
    assert forall|t: int| start <= t < start + dd.len() implies is_digit(#[trigger] s[t]) by {
        assert(s[t] == dd[t - start]);
    }
    assert(s[start + dd.len()] == 0x65);
    lemma_digit_run(s, start, start + dd.len());
    let j = start + dd.len();
    assert(s.subrange(start, j) =~= dd);
    assert(j < s.len());
    if i < 0 {
        assert(digits_val(dd) == mag > 0);
    }
    assert(j + 1 == e.len());
}

/// Parsing the encoding of a byte string consumes exactly it.
proof fn lemma_parse_bstr_enc(b: Seq<u8>, rest: Seq<u8>)
    requires
        b.len() <= 0x7fff_ffff_ffff_ffff,
    ensures
        spec_parse_bstr(bstr_enc(b) + rest) == Ok::<(Seq<u8>, int), DecodeError>(
            (b, bstr_enc(b).len() as int),
        ),
        bstr_enc(b).len() >= 2,
{
    let e = bstr_enc(b);
    let s = e + rest;
    let dd = dec_digits(b.len() as int);
    lemma_dec_digits(b.len() as int);
    assert forall|t: int| 0 <= t < dd.len() implies is_digit(#[trigger] s[t]) by {
        assert(s[t] == dd[t]);
    }
    assert(s[dd.len() as int] == 0x3a);
    lemma_digit_run(s, 0, dd.len() as int);
    let j = dd.len() as int;
    assert(s.subrange(0, j) =~= dd);
    assert(j < s.len());
    let body = j + 1;
    assert(s.len() - body >= b.len());
    assert(s.subrange(body, body + b.len()) =~= b);
}

/// Parsing the concatenated encodings of canonical values, closed by `e`,
/// yields exactly those values, appended to the accumulator.
proof fn lemma_parse_enc_items(items: Seq<ValueModel>, i: int, acc: Seq<ValueModel>, rest: Seq<u8>)
    requires
        0 <= i <= items.len(),
        wf_items(items, i),
    ensures
        spec_parse_items(enc_items(items, i) + seq![0x65u8] + rest, acc) == Ok::<
            (Seq<ValueModel>, int),
            DecodeError,
        >((acc + items.skip(i), enc_items(items, i).len() as int + 1)),
    decreases items, items.len() - i,
{
    let s = enc_items(items, i) + seq![0x65u8] + rest;
    if i == items.len() {
        assert(enc_items(items, i) == Seq::<u8>::empty());
        assert(s =~= seq![0x65u8] + rest);
        assert(s[0] == 0x65);
        assert(acc + items.skip(i) =~= acc);
    } else {
        let head = enc(items[i]);
        let tail = enc_items(items, i + 1) + seq![0x65u8] + rest;
        assert(s =~= head + tail);
        lemma_enc_first_byte(items[i]);
        lemma_parse_enc(items[i], tail);
        assert(s[0] == head[0]);
        let n = head.len() as int;
        assert(1 <= n <= s.len());
        assert(s.skip(n) =~= tail);
        lemma_parse_enc_items(items, i + 1, acc.push(items[i]), rest);
        assert(acc.push(items[i]) + items.skip(i + 1) =~= acc + items.skip(i));
    }
}

/// Parsing the concatenated `key value` encodings of a canonical dictionary,
/// closed by `e`, yields exactly its entries: the keys arrive in strictly
/// increasing order, so each sorted insert appends at the end.
proof fn lemma_parse_enc_pairs(
    ps: Seq<(Seq<u8>, ValueModel)>,
    i: int,
    acc: Seq<(Seq<u8>, ValueModel)>,
    rest: Seq<u8>,
)
    requires
        0 <= i <= ps.len(),
        wf_pairs(ps, i),
        forall|j: int| 0 <= j < ps.len() ==> #[trigger] ps[j].0.len() <= 0x7fff_ffff_ffff_ffff,
        sorted_strict(ps),
        acc == ps.subrange(0, i),
    ensures
        spec_parse_pairs(enc_pairs(ps, i) + seq![0x65u8] + rest, acc) == Ok::<
            (Seq<(Seq<u8>, ValueModel)>, int),
            DecodeError,
        >((ps, enc_pairs(ps, i).len() as int + 1)),
    decreases ps, ps.len() - i,
{
    let s = enc_pairs(ps, i) + seq![0x65u8] + rest;
    if i == ps.len() {
        assert(enc_pairs(ps, i) == Seq::<u8>::empty());
        assert(s =~= seq![0x65u8] + rest);
        assert(s[0] == 0x65);
        assert(acc =~= ps);
    } else {
        let k = ps[i].0;
        let khead = bstr_enc(k);
        let vhead = enc(ps[i].1);
        let tail1 = vhead + enc_pairs(ps, i + 1) + seq![0x65u8] + rest;
        assert(s =~= khead + tail1);
        lemma_parse_bstr_enc(k, tail1);
        lemma_dec_digits(k.len() as int);
        assert(s[0] == khead[0]);
        assert(khead[0] == dec_digits(k.len() as int)[0]);
        assert(is_digit(s[0]));
        let n = khead.len() as int;
        assert(1 <= n <= s.len());
        // No earlier key equals this one: they are all strictly below it.
        assert forall|t: int| 0 <= t < acc.len() implies acc[t].0 != k by {
            assert(acc[t] == ps[t]);
            lemma_sorted_chain(ps, t, i);
            lemma_bytes_lt_trichotomy(ps[t].0, k);
        }
        assert(!has_key(acc, k));
        let s2 = s.skip(n);
        assert(s2 =~= vhead + (enc_pairs(ps, i + 1) + seq![0x65u8] + rest));
        lemma_enc_first_byte(ps[i].1);
        assert(s2[0] == vhead[0]);
        assert(s2[0] != 0x65);
        lemma_parse_enc(ps[i].1, enc_pairs(ps, i + 1) + seq![0x65u8] + rest);
        let m = vhead.len() as int;
        assert(1 <= m <= s2.len());
        // The sorted insert appends at the end.
        assert forall|t: int| 0 <= t < acc.len() implies bytes_lt(#[trigger] acc[t].0, k) by {
            assert(acc[t] == ps[t]);
            lemma_sorted_chain(ps, t, i);
        }
        lemma_insert_sorted_at(acc, k, ps[i].1, acc.len() as int);
        assert(acc.insert(acc.len() as int, (k, ps[i].1)) =~= ps.subrange(0, i + 1));
        assert(s2.skip(m) =~= enc_pairs(ps, i + 1) + seq![0x65u8] + rest);
        lemma_parse_enc_pairs(ps, i + 1, ps.subrange(0, i + 1), rest);
    }
}

/// Parsing the canonical encoding of a canonical tree, followed by anything,
/// consumes exactly the encoding and yields exactly the tree.
pub proof fn lemma_parse_enc(m: ValueModel, rest: Seq<u8>)
    requires
        wf(m),
    ensures
        spec_parse(enc(m) + rest) == Ok::<(ValueModel, int), DecodeError>(
            (m, enc(m).len() as int),
        ),
    decreases m, 0int,
{
    let s = enc(m) + rest;
    lemma_enc_first_byte(m);
    match m {
        ValueModel::Int(i) => {
            assert(s[0] == 0x69);
            lemma_parse_int_enc(i, rest);
        },
        ValueModel::Bytes(b) => {
            assert(s[0] == enc(m)[0]);
            lemma_parse_bstr_enc(b, rest);
        },
        ValueModel::List(items) => {
            assert(s[0] == 0x6c);
            assert(s.skip(1) =~= enc_items(items, 0) + seq![0x65u8] + rest);
            lemma_parse_enc_items(items, 0, Seq::empty(), rest);
            assert(Seq::<ValueModel>::empty() + items.skip(0) =~= items);
        },
        ValueModel::Dict(ps) => {
            assert(s[0] == 0x64);
            assert(s.skip(1) =~= enc_pairs(ps, 0) + seq![0x65u8] + rest);
            assert(ps.subrange(0, 0) =~= Seq::<(Seq<u8>, ValueModel)>::empty());
            lemma_parse_enc_pairs(ps, 0, Seq::empty(), rest);
        },
    }
}

/// Decoding the canonical encoding of a canonical tree gives back the tree.
pub proof fn lemma_decode_enc(m: ValueModel)
    requires
        wf(m),
    ensures
        spec_decode(enc(m)) == Ok::<ValueModel, DecodeError>(m),
{
    lemma_parse_enc(m, Seq::empty());
    assert(enc(m) + Seq::<u8>::empty() =~= enc(m));
}

/// Decode one Bencode document.
///
/// The result is exactly what the reference grammar [`spec_decode`] assigns
/// to the input: the single value tree the bytes spell, or the error raised
/// at the first violation. The whole input must be consumed; trailing bytes
/// are an `InvalidByteSequence` error. Dictionary keys may arrive unsorted
/// and are returned sorted; a duplicate key is an `InvalidDictionary` error.
pub fn decode(value: &Vec<u8>) -> (r: DecodeResult)
    ensures
        match r {
            Ok(t) => spec_decode(value@) == Ok::<ValueModel, DecodeError>(t@),
            Err(e) => spec_decode(value@) == Err::<ValueModel, DecodeError>(e),
        },
{
    proof {
        assert(value@.skip(0) =~= value@);
    }
    match parse_value_at(value, 0) {
        Ok((t, end)) => if end == value.len() {
            Ok(t)
        } else {
            Err(DecodeError::InvalidByteSequence)
        },
        Err(e) => Err(e),
    }
}

} // verus!
