//! Order-preserving key encoding for B+Tree keys.
//!
//! | value | encoding |
//! |-------|----------|
//! | `Null` | `0x00` |
//! | `I64(v)` | `0x01` then `(v as u64) ^ (1 << 63)` as 8 big-endian bytes |
//! | `Bytes(b)` | `0x02`, each byte with `0x00` written as `0x00 0xFF`, then `0x00 0x00` |
//!
//! Every encoding is self-delimiting, so encodings concatenate without
//! separators, and no encoding is a prefix of another.
use super::error::PageError;
use super::row::{ColumnType, Row, Schema, Value, ValueView};
use crate::text::{hex_byte, joined, number_between, with_number};
use vstd::prelude::*;

verus! {

broadcast use vstd::slice::group_slice_axioms;

/// Type tag of an `I64` encoding.
pub const TAG_I64: u8 = 0x01;

/// Type tag of a `Bytes` encoding.
pub const TAG_BYTES: u8 = 0x02;

/// Length of the bound `upper_bound` returns for `Bytes` and `Any` columns.
pub const UPPER_BOUND_BYTES_LEN: usize = 64;

/// `x` as 8 big-endian bytes.
pub open spec fn spec_be_u64(x: u64) -> Seq<u8> {
    seq![
        ((x >> 56u64) & 0xffu64) as u8,
        ((x >> 48u64) & 0xffu64) as u8,
        ((x >> 40u64) & 0xffu64) as u8,
        ((x >> 32u64) & 0xffu64) as u8,
        ((x >> 24u64) & 0xffu64) as u8,
        ((x >> 16u64) & 0xffu64) as u8,
        ((x >> 8u64) & 0xffu64) as u8,
        (x & 0xffu64) as u8,
    ]
}

/// The `u64` whose big-endian bytes are `s[0..8]`.
pub open spec fn spec_be_to_u64(s: Seq<u8>) -> u64 {
    ((s[0] as u64) << 56u64) | ((s[1] as u64) << 48u64) | ((s[2] as u64) << 40u64) | ((
    s[3] as u64) << 32u64) | ((s[4] as u64) << 24u64) | ((s[5] as u64) << 16u64) | ((s[6] as u64)
        << 8u64) | (s[7] as u64)
}

/// The sign-flipped unsigned image of `v`, which orders like `v`.
pub open spec fn spec_flip(v: i64) -> u64 {
    (v as u64) ^ 0x8000_0000_0000_0000u64
}

/// The inverse of `spec_flip`.
pub open spec fn spec_unflip(x: u64) -> i64 {
    (x ^ 0x8000_0000_0000_0000u64) as i64
}

/// Escaped form of one byte of a `Bytes` key.
pub open spec fn spec_escape_byte(b: u8) -> Seq<u8> {
    if b == 0 {
        seq![0u8, 0xFFu8]
    } else {
        seq![b]
    }
}

/// Escaped form of a byte string (without tag and terminator).
pub open spec fn spec_escape(b: Seq<u8>) -> Seq<u8>
    decreases b.len(),
{
    if b.len() == 0 {
        Seq::empty()
    } else {
        spec_escape_byte(b[0]) + spec_escape(b.drop_first())
    }
}

/// The order-preserving encoding of a value.
pub open spec fn spec_encode_key(v: ValueView) -> Seq<u8> {
    match v {
        ValueView::Null => seq![0u8],
        ValueView::I64(n) => seq![TAG_I64] + spec_be_u64(spec_flip(n)),
        ValueView::Bytes(b) => seq![TAG_BYTES] + spec_escape(b) + seq![0u8, 0u8],
    }
}

/// Unescaping a `Bytes` key body from position `i`, with `acc` already decoded.
pub open spec fn spec_unescape(bytes: Seq<u8>, i: int, acc: Seq<u8>) -> Option<(ValueView, nat)>
    decreases bytes.len() - i,
{
    if i < 0 || i >= bytes.len() {
        None
    } else if bytes[i] == 0 {
        if i + 1 >= bytes.len() {
            None
        } else if bytes[i + 1] == 0 {
            Some((ValueView::Bytes(acc), (i + 2) as nat))
        } else if bytes[i + 1] == 0xFF {
            spec_unescape(bytes, i + 2, acc.push(0u8))
        } else {
            None
        }
    } else {
        spec_unescape(bytes, i + 1, acc.push(bytes[i]))
    }
}

/// What `decode_key` makes of `bytes` for a column of type `t`: the value and
/// the number of bytes its encoding takes.
pub open spec fn spec_decode_key(bytes: Seq<u8>, t: ColumnType) -> Option<(ValueView, nat)> {
    if bytes.len() == 0 {
        None
    } else if bytes[0] == 0 {
        Some((ValueView::Null, 1))
    } else if bytes[0] == TAG_I64 {
        if t == ColumnType::Bytes || bytes.len() < 9 {
            None
        } else {
            Some((ValueView::I64(spec_unflip(spec_be_to_u64(bytes.subrange(1, 9)))), 9))
        }
    } else if bytes[0] == TAG_BYTES {
        if t == ColumnType::I64 {
            None
        } else {
            spec_unescape(bytes, 1, Seq::empty())
        }
    } else {
        None
    }
}

/// Whether a value of this kind may be read from a column of type `t`.
pub open spec fn key_fits(v: ValueView, t: ColumnType) -> bool {
    match v {
        ValueView::Null => true,
        ValueView::I64(_) => t != ColumnType::Bytes,
        ValueView::Bytes(_) => t != ColumnType::I64,
    }
}

/// Concatenated encodings of several values.
pub open spec fn spec_encode_keys(vals: Seq<ValueView>) -> Seq<u8>
    decreases vals.len(),
{
    if vals.len() == 0 {
        Seq::empty()
    } else {
        spec_encode_keys(vals.drop_last()) + spec_encode_key(vals.last())
    }
}

/// The bytes `upper_bound` returns.
pub open spec fn spec_upper_bound(t: ColumnType) -> Seq<u8> {
    match t {
        ColumnType::I64 => seq![TAG_BYTES],
        _ => Seq::new(UPPER_BOUND_BYTES_LEN as nat, |i: int| 0xFFu8),
    }
}

/// The lexicographic successor of a prefix: drop trailing `0xFF` bytes and
/// increment the last remaining byte; `None` if every byte is `0xFF`.
pub open spec fn spec_successor(b: Seq<u8>) -> Option<Seq<u8>>
    decreases b.len(),
{
    if b.len() == 0 {
        None
    } else if b.last() == 0xFF {
        spec_successor(b.drop_last())
    } else {
        Some(b.drop_last().push((b.last() + 1) as u8))
    }
}

/// Strict lexicographic order on byte strings (the order of `&[u8]`).
pub open spec fn lex_lt(a: Seq<u8>, b: Seq<u8>) -> bool
    decreases a.len(),
{
    if b.len() == 0 {
        false
    } else if a.len() == 0 {
        true
    } else if a[0] != b[0] {
        a[0] < b[0]
    } else {
        lex_lt(a.drop_first(), b.drop_first())
    }
}

/// Whether `a` sorts strictly before `b` in the byte order of slices.
pub fn bytes_lt(a: &[u8], b: &[u8]) -> (r: bool)
    ensures
        r == lex_lt(a@, b@),
{
    let mut i: usize = 0;
    assert(a@.skip(0) =~= a@);
    assert(b@.skip(0) =~= b@);
    while i < a.len() && i < b.len()
        invariant
            i <= a@.len(),
            i <= b@.len(),
            lex_lt(a@, b@) == lex_lt(a@.skip(i as int), b@.skip(i as int)),
        decreases a@.len() - i,
    {
        assert(a@.skip(i as int)[0] == a@[i as int]);
        assert(b@.skip(i as int)[0] == b@[i as int]);
        if a[i] != b[i] {
            return a[i] < b[i];
        }
        assert(a@.skip(i as int).drop_first() =~= a@.skip(i + 1));
        assert(b@.skip(i as int).drop_first() =~= b@.skip(i + 1));
        i = i + 1;
    }
    i < b.len()
}

/// Whether two byte slices are equal.
pub fn bytes_eq(a: &[u8], b: &[u8]) -> (r: bool)
    ensures
        r == (a@ == b@),
{
    if a.len() != b.len() {
        return false;
    }
    let mut i: usize = 0;
    while i < a.len()
        invariant
            i <= a@.len(),
            a@.len() == b@.len(),
            a@.take(i as int) == b@.take(i as int),
        decreases a@.len() - i,
    {
        if a[i] != b[i] {
            return false;
        }
        i = i + 1;
        assert(a@.take(i as int) =~= a@.take(i - 1).push(a@[i - 1]));
        assert(b@.take(i as int) =~= b@.take(i - 1).push(b@[i - 1]));
    }
    assert(a@ =~= a@.take(i as int));
    assert(b@ =~= b@.take(i as int));
    true
}

proof fn lemma_be_round_trip(x: u64)
    ensures
        spec_be_to_u64(spec_be_u64(x)) == x,
        spec_be_u64(x).len() == 8,
{
    let s = spec_be_u64(x);
    assert(s[0] == ((x >> 56u64) & 0xffu64) as u8);
    assert(s[7] == (x & 0xffu64) as u8);
    assert(((((x >> 56u64) & 0xffu64) as u8 as u64) << 56u64) | ((((x >> 48u64) & 0xffu64) as u8
        as u64) << 48u64) | ((((x >> 40u64) & 0xffu64) as u8 as u64) << 40u64) | ((((x >> 32u64)
        & 0xffu64) as u8 as u64) << 32u64) | ((((x >> 24u64) & 0xffu64) as u8 as u64) << 24u64)
        | ((((x >> 16u64) & 0xffu64) as u8 as u64) << 16u64) | ((((x >> 8u64) & 0xffu64) as u8
        as u64) << 8u64) | ((x & 0xffu64) as u8 as u64) == x) by (bit_vector);
}

proof fn lemma_flip_round_trip(v: i64)
    ensures
        spec_unflip(spec_flip(v)) == v,
{
    assert(((v as u64) ^ 0x8000_0000_0000_0000u64 ^ 0x8000_0000_0000_0000u64) as i64 == v)
        by (bit_vector);
}

/// Encodes one value order-preservingly (see the module table).
pub fn encode_key(value: &Value) -> (r: Vec<u8>)
    ensures
        r@ == spec_encode_key(value@),
{
    match value {
        Value::Null => vec![0x00],
        Value::I64(v) => {
            let flipped = (#[verifier::truncate] (*v as u64)) ^ (1u64 << 63u64);
            assert(1u64 << 63u64 == 0x8000_0000_0000_0000u64) by (bit_vector);
            let mut out: Vec<u8> = Vec::with_capacity(9);
            out.push(TAG_I64);
            out.push(((flipped >> 56u64) & 0xff) as u8);
            out.push(((flipped >> 48u64) & 0xff) as u8);
            out.push(((flipped >> 40u64) & 0xff) as u8);
            out.push(((flipped >> 32u64) & 0xff) as u8);
            out.push(((flipped >> 24u64) & 0xff) as u8);
            out.push(((flipped >> 16u64) & 0xff) as u8);
            out.push(((flipped >> 8u64) & 0xff) as u8);
            out.push((flipped & 0xff) as u8);
            assert(out@ =~= spec_encode_key(value@));
            out
        },
        Value::Bytes(b) => {
            let ghost bs = b@;
            let mut out: Vec<u8> = Vec::with_capacity(if b.len() < usize::MAX - 3 {
                b.len() + 3
            } else {
                b.len()
            });
            out.push(TAG_BYTES);
            let mut i: usize = 0;
            while i < b.len()
                invariant
                    bs == b@,
                    i <= bs.len(),
                    out@ == seq![TAG_BYTES] + spec_escape(bs.take(i as int)),
                decreases b.len() - i,
            {
                proof {
                    lemma_escape_push(bs.take(i as int), bs[i as int]);
                    assert(bs.take(i + 1) =~= bs.take(i as int).push(bs[i as int]));
                }
                if b[i] == 0x00 {
                    out.push(0x00);
                    out.push(0xFF);
                } else {
                    out.push(b[i]);
                }
                i += 1;
                assert(out@ =~= seq![TAG_BYTES] + spec_escape(bs.take(i as int)));
            }
            out.push(0x00);
            out.push(0x00);
            assert(bs.take(bs.len() as int) =~= bs);
            assert(out@ =~= spec_encode_key(value@));
            out
        },
    }
}

/// Escaping a string with one more byte appends that byte's escape.
pub proof fn lemma_escape_push(b: Seq<u8>, x: u8)
    ensures
        spec_escape(b.push(x)) == spec_escape(b) + spec_escape_byte(x),
    decreases b.len(),
{
    if b.len() == 0 {
        assert(b.push(x).drop_first() =~= Seq::<u8>::empty());
        assert(spec_escape(b.push(x).drop_first()) =~= Seq::<u8>::empty());
        assert(b.push(x)[0] == x);
        assert(spec_escape(b) =~= Seq::<u8>::empty());
        assert(spec_escape(b.push(x)) =~= spec_escape(b) + spec_escape_byte(x));
    } else {
        lemma_escape_push(b.drop_first(), x);
        assert(b.push(x).drop_first() =~= b.drop_first().push(x));
        assert(spec_escape(b.push(x)) =~= spec_escape(b) + spec_escape_byte(x));
    }
}

/// Decodes one key encoding from the front of `bytes`, returning the value and
/// the number of bytes consumed. The tag drives decoding; `col_type` is
/// checked against it (`Any` accepts every tag; `Null` fits every type).
pub fn decode_key(bytes: &[u8], col_type: ColumnType) -> (r: Result<(Value, usize), PageError>)
    ensures
        match r {
            Ok((v, n)) => spec_decode_key(bytes@, col_type) == Some((v@, n as nat)),
            Err(e) => spec_decode_key(bytes@, col_type) is None && e is EncodingError,
        },
{
    if bytes.len() == 0 {
        return Err(PageError::EncodingError("key bytes empty".to_string()));
    }
    if bytes[0] == 0x00 {
        Ok((Value::Null, 1))
    } else if bytes[0] == TAG_I64 {
        if col_type == ColumnType::Bytes {
            return Err(PageError::EncodingError("tag I64 but column type is Bytes".to_string()));
        }
        if bytes.len() < 9 {
            return Err(PageError::EncodingError(with_number("i64 key needs 9 bytes, got ", bytes.len() as u64)));
        }
        let flipped = ((bytes[1] as u64) << 56u64) | ((bytes[2] as u64) << 48u64) | ((
        bytes[3] as u64) << 40u64) | ((bytes[4] as u64) << 32u64) | ((bytes[5] as u64) << 24u64)
            | ((bytes[6] as u64) << 16u64) | ((bytes[7] as u64) << 8u64) | (bytes[8] as u64);
        assert(bytes@.subrange(1, 9)[0] == bytes@[1]);
        assert(flipped == spec_be_to_u64(bytes@.subrange(1, 9)));
        assert(1u64 << 63u64 == 0x8000_0000_0000_0000u64) by (bit_vector);
        Ok((Value::I64(#[verifier::truncate] ((flipped ^ (1u64 << 63u64)) as i64)), 9))
    } else if bytes[0] == TAG_BYTES {
        if col_type == ColumnType::I64 {
            return Err(PageError::EncodingError("tag Bytes but column type is I64".to_string()));
        }
        let mut out: Vec<u8> = Vec::new();
        let mut i: usize = 1;
        loop
            invariant
                1 <= i,
                spec_decode_key(bytes@, col_type) == spec_unescape(bytes@, i as int, out@),
            decreases bytes@.len() - i,
        {
            if i >= bytes.len() {
                return Err(
                    PageError::EncodingError("bytes key truncated before terminator".to_string()),
                );
            }
            if bytes[i] == 0x00 {
                if i + 1 >= bytes.len() {
                    return Err(
                        PageError::EncodingError("bytes key truncated inside escape".to_string()),
                    );
                }
                if bytes[i + 1] == 0x00 {
                    return Ok((Value::Bytes(out), i + 2));
                } else if bytes[i + 1] == 0xFF {
                    out.push(0x00);
                    i += 2;
                } else {
                    return Err(PageError::EncodingError(joined("invalid bytes escape: 0x00 0x", hex_byte(bytes[i + 1]).as_str())));
                }
            } else {
                out.push(bytes[i]);
                i += 1;
            }
        }
    } else {
        Err(PageError::EncodingError(joined("unknown key tag: 0x", hex_byte(bytes[0]).as_str())))
    }
}

/// An exclusive lexicographic upper bound for keys of a column type: `[0x02]`
/// for `I64` (above every `I64` encoding), `UPPER_BOUND_BYTES_LEN` bytes of
/// `0xFF` otherwise.
pub fn upper_bound(col_type: ColumnType) -> (r: Vec<u8>)
    ensures
        r@ == spec_upper_bound(col_type),
{
    match col_type {
        ColumnType::I64 => vec![TAG_BYTES],
        _ => {
            let r = vec![0xFFu8; UPPER_BOUND_BYTES_LEN];
            assert(r@ =~= spec_upper_bound(col_type));
            r
        },
    }
}

/// The lexicographic successor of `bytes`: the least byte string above every
/// string that starts with `bytes`; `None` when every byte is `0xFF`.
pub fn successor(bytes: &[u8]) -> (r: Option<Vec<u8>>)
    ensures
        match r {
            Some(v) => spec_successor(bytes@) == Some(v@),
            None => spec_successor(bytes@) is None,
        },
{
    let mut i = bytes.len();
    assert(bytes@.take(i as int) =~= bytes@);
    while i > 0 && bytes[i - 1] == 0xFF
        invariant
            i <= bytes@.len(),
            spec_successor(bytes@) == spec_successor(bytes@.take(i as int)),
        decreases i,
    {
        assert(bytes@.take(i as int).drop_last() =~= bytes@.take(i - 1));
        i -= 1;
    }
    if i == 0 {
        assert(bytes@.take(0) =~= Seq::<u8>::empty());
        return None;
    }
    let mut out: Vec<u8> = Vec::new();
    let mut j: usize = 0;
    while j < i
        invariant
            j <= i,
            i <= bytes@.len(),
            out@ == bytes@.take(j as int),
        decreases i - j,
    {
        out.push(bytes[j]);
        j += 1;
        assert(out@ =~= bytes@.take(j as int));
    }
    let last = out.len() - 1;
    let b = out[last];
    out[last] = b + 1;
    assert(out@ =~= bytes@.take(i as int).drop_last().push((bytes@.take(i as int).last() + 1) as u8));
    Some(out)
}

/// The key of a row in the clustered tree: the encoding of its primary key column.
///
/// Fails with `EncodingError` when the row arity differs from the schema or
/// the schema has no primary key.
pub fn encode_pk(row: &Row, schema: &Schema) -> (r: Result<Vec<u8>, PageError>)
    requires
        row.values@.len() == schema.columns@.len() ==> match schema.primary_key {
            Some(p) => p < schema.columns@.len(),
            None => true,
        },
    ensures
        match r {
            Ok(k) => row.values@.len() == schema.columns@.len() && schema.primary_key is Some
                && k@ == spec_encode_key(row@[schema.primary_key->0 as int]),
            Err(e) => (row.values@.len() != schema.columns@.len() || schema.primary_key is None)
                && e is EncodingError,
        },
{
    if row.values.len() != schema.columns.len() {
        return Err(PageError::EncodingError(with_number(number_between("row has ", row.values.len() as u64, " values but schema expects ").as_str(), schema.columns.len() as u64)));
    }
    match schema.primary_key {
        None => Err(PageError::EncodingError("schema has no primary key".to_string())),
        Some(pk_idx) => Ok(encode_key(&row.values[pk_idx])),
    }
}

/// The type of the primary key column.
pub fn primary_key_type(schema: &Schema) -> (r: Result<ColumnType, PageError>)
    requires
        match schema.primary_key {
            Some(p) => p < schema.types@.len(),
            None => true,
        },
    ensures
        match r {
            Ok(t) => schema.primary_key is Some && t == schema.types@[schema.primary_key->0 as int],
            Err(e) => schema.primary_key is None && e is EncodingError,
        },
{
    match schema.primary_key {
        Some(idx) => Ok(schema.types[idx]),
        None => Err(PageError::EncodingError("schema has no primary key".to_string())),
    }
}

/// Concatenated encodings of the index column values (without the primary key).
pub fn encode_index_key(values: &[Value]) -> (r: Vec<u8>)
    ensures
        r@ == spec_encode_keys(values@.map_values(|v: Value| v@)),
{
    let ghost vals = values@.map_values(|v: Value| v@);
    let mut out: Vec<u8> = Vec::new();
    let mut i: usize = 0;
    while i < values.len()
        invariant
            i <= values@.len(),
            vals == values@.map_values(|v: Value| v@),
            out@ == spec_encode_keys(vals.take(i as int)),
        decreases values.len() - i,
    {
        let enc = encode_key(&values[i]);
        out.extend_from_slice(enc.as_slice());
        assert(vals.take(i + 1).drop_last() =~= vals.take(i as int));
        i += 1;
        assert(out@ =~= spec_encode_keys(vals.take(i as int)));
    }
    assert(vals.take(values@.len() as int) =~= vals);
    out
}

/// Secondary index leaf key: the index key followed by the primary key encoding.
pub fn encode_secondary_key(index_values: &[Value], pk_value: &Value) -> (r: Vec<u8>)
    ensures
        r@ == spec_encode_keys(index_values@.map_values(|v: Value| v@)) + spec_encode_key(
            pk_value@,
        ),
{
    let mut out = encode_index_key(index_values);
    let pk = encode_key(pk_value);
    out.extend_from_slice(pk.as_slice());
    out
}

proof fn lemma_unescape(b: Seq<u8>, bytes: Seq<u8>, i: int, acc: Seq<u8>)
    requires
        0 <= i,
        i + spec_escape(b).len() + 2 <= bytes.len(),
        bytes.subrange(i, i + spec_escape(b).len() + 2) == spec_escape(b) + seq![0u8, 0u8],
    ensures
        spec_unescape(bytes, i, acc) == Some(
            (ValueView::Bytes(acc + b), (i + spec_escape(b).len() + 2) as nat),
        ),
    decreases b.len(),
{
    let e = spec_escape(b);
    assert(bytes[i] == bytes.subrange(i, i + e.len() + 2)[0]);
    assert(bytes[i + 1] == bytes.subrange(i, i + e.len() + 2)[1]);
    if b.len() == 0 {
        assert(acc + b =~= acc);
    } else {
        let rest = b.drop_first();
        let er = spec_escape(rest);
        let h = spec_escape_byte(b[0]);
        assert(e == h + er);
        assert(bytes.subrange(i + h.len(), i + h.len() + er.len() + 2) =~= er + seq![0u8, 0u8])
            by {
            assert(bytes.subrange(i + h.len(), i + h.len() + er.len() + 2) =~= bytes.subrange(
                i,
                i + e.len() + 2,
            ).subrange(h.len() as int, e.len() + 2 as int));
        }
        if b[0] == 0 {
            lemma_unescape(rest, bytes, i + 2, acc.push(0u8));
            assert(acc.push(0u8) + rest =~= acc + b);
        } else {
            lemma_unescape(rest, bytes, i + 1, acc.push(b[0]));
            assert(acc.push(b[0]) + rest =~= acc + b);
        }
    }
}

/// A key encoding decodes back to its value from the front of any byte
/// string, reporting exactly its own length (the encoding is self-delimiting),
/// for every column type the value fits.
pub proof fn lemma_key_round_trip(v: ValueView, rest: Seq<u8>, t: ColumnType)
    requires
        key_fits(v, t),
    ensures
        spec_decode_key(spec_encode_key(v) + rest, t) == Some(
            (v, spec_encode_key(v).len() as nat),
        ),
{
    let e = spec_encode_key(v);
    let bytes = e + rest;
    assert(bytes[0] == e[0]);
    match v {
        ValueView::Null => {},
        ValueView::I64(n) => {
            lemma_be_round_trip(spec_flip(n));
            lemma_flip_round_trip(n);
            assert(bytes.subrange(1, 9) =~= spec_be_u64(spec_flip(n)));
        },
        ValueView::Bytes(b) => {
            let es = spec_escape(b);
            assert(bytes.subrange(1, 1 + es.len() as int + 2) =~= es + seq![0u8, 0u8]);
            lemma_unescape(b, bytes, 1, Seq::empty());
            assert(Seq::<u8>::empty() + b =~= b);
        },
    }
}

/// No key encoding is a prefix of the encoding of a different value.
pub proof fn lemma_key_prefix_free(a: ValueView, b: ValueView)
    requires
        spec_encode_key(a).is_prefix_of(spec_encode_key(b)),
    ensures
        a == b,
{
    let ea = spec_encode_key(a);
    let eb = spec_encode_key(b);
    let rest = eb.skip(ea.len() as int);
    assert(ea + rest =~= eb);
    lemma_key_round_trip(a, rest, ColumnType::Any);
    lemma_key_round_trip(b, Seq::empty(), ColumnType::Any);
    assert(eb + Seq::<u8>::empty() =~= eb);
}

/// Two byte strings that agree on their first `k` bytes and then differ with
/// `a[k] < b[k]` are ordered `a < b`.
pub proof fn lemma_lex_lt_at(a: Seq<u8>, b: Seq<u8>, k: int)
    requires
        0 <= k < a.len(),
        k < b.len(),
        a.take(k) == b.take(k),
        a[k] < b[k],
    ensures
        lex_lt(a, b),
    decreases k,
{
    if k > 0 {
        assert(a[0] == a.take(k)[0]);
        assert(b[0] == b.take(k)[0]);
        assert(a.drop_first().take(k - 1) =~= b.drop_first().take(k - 1)) by {
            assert forall|j: int| 0 <= j < k - 1 implies a.drop_first()[j] == b.drop_first()[j] by {
                assert(a[j + 1] == a.take(k)[j + 1]);
                assert(b[j + 1] == b.take(k)[j + 1]);
            }
        }
        lemma_lex_lt_at(a.drop_first(), b.drop_first(), k - 1);
    }
}

/// A common prefix does not change the order.
pub proof fn lemma_lex_prefix(p: Seq<u8>, a: Seq<u8>, b: Seq<u8>)
    ensures
        lex_lt(p + a, p + b) == lex_lt(a, b),
    decreases p.len(),
{
    if p.len() > 0 {
        assert((p + a).drop_first() =~= p.drop_first() + a);
        assert((p + b).drop_first() =~= p.drop_first() + b);
        lemma_lex_prefix(p.drop_first(), a, b);
    } else {
        assert(p + a =~= a);
        assert(p + b =~= b);
    }
}

/// The escaped form of a byte string with its terminator.
pub open spec fn spec_escaped_body(b: Seq<u8>) -> Seq<u8> {
    spec_escape(b) + seq![0u8, 0u8]
}

/// Escaping keeps the order of byte strings.
pub proof fn lemma_escape_order(x: Seq<u8>, y: Seq<u8>)
    ensures
        lex_lt(spec_escaped_body(x), spec_escaped_body(y)) == lex_lt(x, y),
    decreases x.len() + y.len(),
{
    let ex = spec_escaped_body(x);
    let ey = spec_escaped_body(y);
    if x.len() == 0 && y.len() == 0 {
        lemma_lex_order(ex, ex, ex);
    } else if x.len() == 0 {
        assert(ex =~= seq![0u8, 0u8]);
        assert(ey =~= spec_escape_byte(y[0]) + spec_escaped_body(y.drop_first()));
        if y[0] == 0 {
            assert(ey[0] == 0u8 && ey[1] == 0xFFu8);
            assert(ex.take(1) =~= ey.take(1));
            lemma_lex_lt_at(ex, ey, 1);
        } else {
            assert(ey[0] == y[0]);
            assert(ex.take(0) =~= ey.take(0));
            lemma_lex_lt_at(ex, ey, 0);
        }
    } else if y.len() == 0 {
        assert(ey =~= seq![0u8, 0u8]);
        assert(ex =~= spec_escape_byte(x[0]) + spec_escaped_body(x.drop_first()));
        if x[0] == 0 {
            assert(ex[0] == 0u8 && ex[1] == 0xFFu8);
            assert(ey.take(1) =~= ex.take(1));
            lemma_lex_lt_at(ey, ex, 1);
        } else {
            assert(ex[0] == x[0]);
            assert(ey.take(0) =~= ex.take(0));
            lemma_lex_lt_at(ey, ex, 0);
        }
        lemma_lex_order(ey, ex, ex);
    } else {
        let rx = spec_escaped_body(x.drop_first());
        let ry = spec_escaped_body(y.drop_first());
        assert(ex =~= spec_escape_byte(x[0]) + rx);
        assert(ey =~= spec_escape_byte(y[0]) + ry);
        if x[0] == y[0] {
            lemma_lex_prefix(spec_escape_byte(x[0]), rx, ry);
            lemma_escape_order(x.drop_first(), y.drop_first());
        } else if x[0] != 0 && y[0] != 0 {
            assert(ex[0] == x[0] && ey[0] == y[0]);
        } else if x[0] == 0 {
            assert(ex[0] == 0u8 && ey[0] == y[0]);
        } else {
            assert(ey[0] == 0u8 && ex[0] == x[0]);
        }
    }
}

/// Big-endian bytes keep the order of `u64`s.
pub proof fn lemma_be_order(x: u64, y: u64)
    ensures
        lex_lt(spec_be_u64(x), spec_be_u64(y)) == (x < y),
{
    if x < y {
        lemma_be_lt(x, y);
        lemma_lex_order(spec_be_u64(x), spec_be_u64(y), spec_be_u64(y));
    } else if y < x {
        lemma_be_lt(y, x);
        lemma_lex_order(spec_be_u64(y), spec_be_u64(x), spec_be_u64(x));
    } else {
        lemma_lex_order(spec_be_u64(x), spec_be_u64(x), spec_be_u64(x));
    }
}

/// The low byte of `v` keeps its value as a `u8`.
proof fn lemma_byte_value(v: u64)
    ensures
        ((v & 0xffu64) as u8) as u64 == v & 0xffu64,
{
    assert(((v & 0xffu64) as u8) as u64 == v & 0xffu64) by (bit_vector);
}

/// The first byte where the big-endian forms of `x < y` differ is smaller in `x`.
proof fn lemma_be_lt(x: u64, y: u64)
    requires
        x < y,
    ensures
        lex_lt(spec_be_u64(x), spec_be_u64(y)),
{
    let a = spec_be_u64(x);
    let b = spec_be_u64(y);
    assert(x < y ==> (((x >> 56u64) & 0xffu64) < ((y >> 56u64) & 0xffu64)) || (((x >> 56u64) & 0xffu64)
        == ((y >> 56u64) & 0xffu64) && (((x >> 48u64) & 0xffu64) < ((y >> 48u64) & 0xffu64) || (((x
        >> 48u64) & 0xffu64) == ((y >> 48u64) & 0xffu64) && (((x >> 40u64) & 0xffu64) < ((y >> 40u64)
        & 0xffu64) || (((x >> 40u64) & 0xffu64) == ((y >> 40u64) & 0xffu64) && (((x >> 32u64) & 0xffu64)
        < ((y >> 32u64) & 0xffu64) || (((x >> 32u64) & 0xffu64) == ((y >> 32u64) & 0xffu64) && (((x
        >> 24u64) & 0xffu64) < ((y >> 24u64) & 0xffu64) || (((x >> 24u64) & 0xffu64) == ((y >> 24u64)
        & 0xffu64) && (((x >> 16u64) & 0xffu64) < ((y >> 16u64) & 0xffu64) || (((x >> 16u64) & 0xffu64)
        == ((y >> 16u64) & 0xffu64) && (((x >> 8u64) & 0xffu64) < ((y >> 8u64) & 0xffu64) || (((x
        >> 8u64) & 0xffu64) == ((y >> 8u64) & 0xffu64) && (x & 0xffu64) < (y & 0xffu64)))))))))))))))
        by (bit_vector);
    lemma_byte_value(x >> 56u64);
    lemma_byte_value(y >> 56u64);
    lemma_byte_value(x >> 48u64);
    lemma_byte_value(y >> 48u64);
    lemma_byte_value(x >> 40u64);
    lemma_byte_value(y >> 40u64);
    lemma_byte_value(x >> 32u64);
    lemma_byte_value(y >> 32u64);
    lemma_byte_value(x >> 24u64);
    lemma_byte_value(y >> 24u64);
    lemma_byte_value(x >> 16u64);
    lemma_byte_value(y >> 16u64);
    lemma_byte_value(x >> 8u64);
    lemma_byte_value(y >> 8u64);
    lemma_byte_value(x);
    lemma_byte_value(y);
    assert(x >> 0u64 == x && y >> 0u64 == y) by (bit_vector);
    let mut k: int = 0;
    if a[0] != b[0] {
        k = 0;
    } else if a[1] != b[1] {
        k = 1;
    } else if a[2] != b[2] {
        k = 2;
    } else if a[3] != b[3] {
        k = 3;
    } else if a[4] != b[4] {
        k = 4;
    } else if a[5] != b[5] {
        k = 5;
    } else if a[6] != b[6] {
        k = 6;
    } else {
        k = 7;
    }
    assert(a.take(k) =~= b.take(k));
    lemma_lex_lt_at(a, b, k);
}

/// Flipping the sign bit keeps the order of `i64`s as `u64`s.
proof fn lemma_flip_order(a: i64, b: i64)
    ensures
        (spec_flip(a) < spec_flip(b)) == (a < b),
{
    assert(((a as u64) ^ 0x8000_0000_0000_0000u64 < (b as u64) ^ 0x8000_0000_0000_0000u64) == (a < b))
        by (bit_vector);
}

/// The order of values: `Null` first, then integers by value, then byte
/// strings in byte order.
pub open spec fn value_lt(a: ValueView, b: ValueView) -> bool {
    match (a, b) {
        (ValueView::Null, ValueView::Null) => false,
        (ValueView::Null, _) => true,
        (_, ValueView::Null) => false,
        (ValueView::I64(x), ValueView::I64(y)) => x < y,
        (ValueView::I64(_), ValueView::Bytes(_)) => true,
        (ValueView::Bytes(_), ValueView::I64(_)) => false,
        (ValueView::Bytes(x), ValueView::Bytes(y)) => lex_lt(x, y),
    }
}

/// Law of the key encoding: it preserves order; one value sorts before
/// another exactly when its encoding sorts before the other's in byte order.
pub proof fn lemma_encode_key_order(a: ValueView, b: ValueView)
    ensures
        lex_lt(spec_encode_key(a), spec_encode_key(b)) == value_lt(a, b),
{
    let ea = spec_encode_key(a);
    let eb = spec_encode_key(b);
    match (a, b) {
        (ValueView::I64(x), ValueView::I64(y)) => {
            lemma_be_order(spec_flip(x), spec_flip(y));
            lemma_flip_order(x, y);
            lemma_lex_prefix(seq![TAG_I64], spec_be_u64(spec_flip(x)), spec_be_u64(spec_flip(y)));
        },
        (ValueView::Bytes(x), ValueView::Bytes(y)) => {
            assert(ea =~= seq![TAG_BYTES] + spec_escaped_body(x));
            assert(eb =~= seq![TAG_BYTES] + spec_escaped_body(y));
            lemma_lex_prefix(seq![TAG_BYTES], spec_escaped_body(x), spec_escaped_body(y));
            lemma_escape_order(x, y);
        },
        (ValueView::Null, ValueView::Null) => {
            lemma_lex_order(ea, ea, ea);
        },
        _ => {
            assert(ea.len() > 0 && eb.len() > 0);
            assert(ea[0] != eb[0]);
        },
    }
}

/// The order of value tuples: element by element in `value_lt`, a proper
/// prefix first.
pub open spec fn values_lt(xs: Seq<ValueView>, ys: Seq<ValueView>) -> bool
    decreases xs.len(),
{
    if ys.len() == 0 {
        false
    } else if xs.len() == 0 {
        true
    } else if xs[0] != ys[0] {
        value_lt(xs[0], ys[0])
    } else {
        values_lt(xs.drop_first(), ys.drop_first())
    }
}

/// Two byte strings neither of which starts the other keep their order
/// whatever follows them.
proof fn lemma_lex_extend(x: Seq<u8>, y: Seq<u8>, s: Seq<u8>, t: Seq<u8>)
    requires
        !x.is_prefix_of(y),
        !y.is_prefix_of(x),
    ensures
        lex_lt(x + s, y + t) == lex_lt(x, y),
    decreases x.len(),
{
    assert(Seq::<u8>::empty().is_prefix_of(y));
    assert(Seq::<u8>::empty().is_prefix_of(x));
    assert(x.len() > 0 && y.len() > 0) by {
        if x.len() == 0 {
            assert(x =~= Seq::<u8>::empty());
        }
        if y.len() == 0 {
            assert(y =~= Seq::<u8>::empty());
        }
    }
    assert((x + s)[0] == x[0]);
    assert((y + t)[0] == y[0]);
    if x[0] == y[0] {
        let x1 = x.drop_first();
        let y1 = y.drop_first();
        assert((x + s).drop_first() =~= x1 + s);
        assert((y + t).drop_first() =~= y1 + t);
        if x1.is_prefix_of(y1) {
            assert(x.is_prefix_of(y)) by {
                assert forall|j: int| 0 <= j < x.len() implies x[j] == y[j] by {
                    if j > 0 {
                        assert(x[j] == x1[j - 1] && y[j] == y1[j - 1]);
                    }
                }
            }
        }
        if y1.is_prefix_of(x1) {
            assert(y.is_prefix_of(x)) by {
                assert forall|j: int| 0 <= j < y.len() implies y[j] == x[j] by {
                    if j > 0 {
                        assert(x[j] == x1[j - 1] && y[j] == y1[j - 1]);
                    }
                }
            }
        }
        lemma_lex_extend(x1, y1, s, t);
    }
}

/// The encodings of a tuple, taken from the front.
proof fn lemma_encode_keys_front(xs: Seq<ValueView>)
    requires
        xs.len() > 0,
    ensures
        spec_encode_keys(xs) == spec_encode_key(xs[0]) + spec_encode_keys(xs.drop_first()),
    decreases xs.len(),
{
    if xs.len() == 1 {
        assert(xs.drop_last() =~= Seq::<ValueView>::empty());
        assert(xs.drop_first() =~= Seq::<ValueView>::empty());
        assert(spec_encode_key(xs[0]) + Seq::<u8>::empty() =~= spec_encode_key(xs[0]));
        assert(Seq::<u8>::empty() + spec_encode_key(xs[0]) =~= spec_encode_key(xs[0]));
    } else {
        lemma_encode_keys_front(xs.drop_last());
        assert(xs.drop_last().drop_first() =~= xs.drop_first().drop_last());
        assert(xs.drop_first().last() == xs.last());
        assert(xs.drop_last()[0] == xs[0]);
        assert(spec_encode_key(xs[0]) + spec_encode_keys(xs.drop_last().drop_first())
            + spec_encode_key(xs.last()) =~= spec_encode_key(xs[0]) + (spec_encode_keys(
            xs.drop_first().drop_last(),
        ) + spec_encode_key(xs.drop_first().last())));
    }
}

/// Law of the tuple encoding: one tuple of values sorts before another
/// exactly when its concatenated key encodings sort before the other's in
/// byte order.
pub proof fn lemma_encode_keys_order(xs: Seq<ValueView>, ys: Seq<ValueView>)
    ensures
        lex_lt(spec_encode_keys(xs), spec_encode_keys(ys)) == values_lt(xs, ys),
    decreases xs.len(),
{
    if ys.len() == 0 {
        assert(spec_encode_keys(ys).len() == 0);
    } else if xs.len() == 0 {
        lemma_encode_keys_front(ys);
        assert(spec_encode_key(ys[0]).len() > 0);
    } else {
        lemma_encode_keys_front(xs);
        lemma_encode_keys_front(ys);
        let ex = spec_encode_key(xs[0]);
        let ey = spec_encode_key(ys[0]);
        let rx = spec_encode_keys(xs.drop_first());
        let ry = spec_encode_keys(ys.drop_first());
        if xs[0] == ys[0] {
            lemma_lex_prefix(ex, rx, ry);
            lemma_encode_keys_order(xs.drop_first(), ys.drop_first());
        } else {
            if ex.is_prefix_of(ey) {
                lemma_key_prefix_free(xs[0], ys[0]);
            }
            if ey.is_prefix_of(ex) {
                lemma_key_prefix_free(ys[0], xs[0]);
            }
            lemma_lex_extend(ex, ey, rx, ry);
            lemma_encode_key_order(xs[0], ys[0]);
        }
    }
}

/// Law of the secondary index key: entries sort by their index values, and
/// entries with equal index values by primary key.
pub proof fn lemma_secondary_key_order(a: Seq<ValueView>, p: ValueView, b: Seq<ValueView>, q: ValueView)
    ensures
        lex_lt(spec_encode_keys(a) + spec_encode_key(p), spec_encode_keys(b) + spec_encode_key(q))
            == values_lt(a.push(p), b.push(q)),
{
    assert(a.push(p).drop_last() =~= a);
    assert(b.push(q).drop_last() =~= b);
    lemma_encode_keys_order(a.push(p), b.push(q));
}

/// `lex_lt` is a strict total order on byte strings.
pub proof fn lemma_lex_order(a: Seq<u8>, b: Seq<u8>, c: Seq<u8>)
    ensures
        !lex_lt(a, a),
        lex_lt(a, b) ==> !lex_lt(b, a),
        !lex_lt(a, b) && !lex_lt(b, a) ==> a == b,
        lex_lt(a, b) && lex_lt(b, c) ==> lex_lt(a, c),
    decreases a.len(),
{
    if a.len() > 0 && b.len() > 0 && c.len() > 0 {
        lemma_lex_order(a.drop_first(), b.drop_first(), c.drop_first());
    } else if a.len() > 0 && b.len() > 0 {
        lemma_lex_order(a.drop_first(), b.drop_first(), b.drop_first());
    } else if a.len() > 0 {
        lemma_lex_order(a.drop_first(), a.drop_first(), a.drop_first());
    }
    if a.len() > 0 && b.len() > 0 && a[0] == b[0] && !lex_lt(a, b) && !lex_lt(b, a) {
        assert(a.drop_first() == b.drop_first());
        assert(a =~= seq![a[0]] + a.drop_first());
        assert(b =~= seq![b[0]] + b.drop_first());
    }
    if a.len() == 0 && b.len() == 0 {
        assert(a =~= b);
    }
}

/// Every byte string that starts with `p` lies below `successor(p)`.
pub proof fn lemma_successor_bounds_prefix(p: Seq<u8>, x: Seq<u8>)
    requires
        spec_successor(p) is Some,
        p.is_prefix_of(x),
    ensures
        lex_lt(x, spec_successor(p)->0),
    decreases p.len(),
{
    if p.last() == 0xFF {
        assert(p.drop_last().is_prefix_of(x));
        lemma_successor_bounds_prefix(p.drop_last(), x);
    } else {
        let s = spec_successor(p)->0;
        let k = p.len() - 1;
        assert(x.take(k) =~= s.take(k)) by {
            assert forall|j: int| 0 <= j < k implies x.take(k)[j] == s.take(k)[j] by {
                assert(x[j] == p[j]);
            }
        }
        assert(x[k] == p[k]);
        lemma_lex_lt_at(x, s, k);
    }
}

/// Every `I64` key encoding lies below `upper_bound(I64)`.
pub proof fn lemma_upper_bound_i64(n: i64)
    ensures
        lex_lt(spec_encode_key(ValueView::I64(n)), spec_upper_bound(ColumnType::I64)),
{
    let e = spec_encode_key(ValueView::I64(n));
    assert(e[0] == TAG_I64);
    assert(spec_upper_bound(ColumnType::I64)[0] == TAG_BYTES);
}

} // verus!
