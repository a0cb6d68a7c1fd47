//! Values, column types, rows, schemas and the row codec.
//!
//! Row layout (little-endian): a null bitmap of `ceil(n / 8)` bytes (bit `i`
//! set means column `i` is NULL), then the non-null columns in order: `I64`
//! as 8 bytes, `Bytes` as a 4-byte length followed by the bytes.
use super::bytes::{le_u32_at, le_u64_at, read_u32, read_u64};
use super::error::PageError;
use crate::text::{number_between, with_number};
use vstd::bytes::*;
use vstd::prelude::*;
use vstd::slice::{slice_subrange, slice_to_vec};

verus! {

broadcast use vstd::slice::group_slice_axioms;

/// A cell value.
#[derive(Debug, Clone, PartialEq, Eq)]
pub enum Value {
    /// SQL NULL.
    Null,
    /// Signed 64-bit integer.
    I64(i64),
    /// Variable-length bytes.
    Bytes(Vec<u8>),
}

/// The mathematical content of a [`Value`].
pub enum ValueView {
    /// SQL NULL.
    Null,
    /// Signed 64-bit integer.
    I64(i64),
    /// Byte string.
    Bytes(Seq<u8>),
}

impl View for Value {
    type V = ValueView;

    open spec fn view(&self) -> ValueView {
        match self {
            Value::Null => ValueView::Null,
            Value::I64(n) => ValueView::I64(*n),
            Value::Bytes(b) => ValueView::Bytes(b@),
        }
    }
}

impl Value {
    /// A copy of the value.
    pub fn duplicate(&self) -> (r: Value)
        ensures
            r@ == self@,
    {
        match self {
            Value::Null => Value::Null,
            Value::I64(n) => Value::I64(*n),
            Value::Bytes(b) => Value::Bytes(b.clone()),
        }
    }
}

/// Column type.
#[derive(Debug, Clone, Copy, PartialEq, Eq, Structural)]
pub enum ColumnType {
    /// 8-byte signed integer.
    I64,
    /// Variable-length bytes.
    Bytes,
    /// Unspecified type (accepts any value when encoding, cannot be decoded).
    Any,
}

/// A row; values are in schema column order.
#[derive(Debug, Clone, PartialEq, Eq)]
pub struct Row {
    /// Column values.
    pub values: Vec<Value>,
}

impl View for Row {
    type V = Seq<ValueView>;

    open spec fn view(&self) -> Seq<ValueView> {
        self.values@.map_values(|v: Value| v@)
    }
}

/// Table structure.
#[derive(Debug, Clone, PartialEq, Eq)]
pub struct Schema {
    /// Column names.
    pub columns: Vec<String>,
    /// Column types, in column order.
    pub types: Vec<ColumnType>,
    /// Index of the primary key column, if any.
    pub primary_key: Option<usize>,
}

impl Schema {
    /// Schema with the given column names, every type `Any` and no primary key.
    pub fn from_names(names: Vec<String>) -> (r: Self)
        ensures
            r.columns@ == names@,
            r.types@ == Seq::new(names@.len(), |i: int| ColumnType::Any),
            r.primary_key is None,
    {
        let n = names.len();
        let mut types: Vec<ColumnType> = Vec::new();
        while types.len() < n
            invariant
                types.len() <= n,
                types@ == Seq::new(types@.len(), |i: int| ColumnType::Any),
            decreases n - types.len(),
        {
            types.push(ColumnType::Any);
            assert(types@ =~= Seq::new(types@.len(), |i: int| ColumnType::Any));
        }
        Schema { columns: names, types, primary_key: None }
    }
}

/// Number of bitmap bytes for `n` columns.
pub open spec fn spec_bitmap_len(n: nat) -> nat {
    (n + 7) / 8
}

/// Whether bit `i` of the bitmap starting at `bm[0]` is set.
pub open spec fn bit_set(bm: Seq<u8>, i: int) -> bool {
    (bm[i / 8] >> ((i % 8) as u8)) & 1u8 == 1u8
}

/// `bm` is the null bitmap of `vals`: exactly the bits of NULL columns are set.
pub open spec fn null_bitmap_of(bm: Seq<u8>, vals: Seq<ValueView>) -> bool {
    &&& bm.len() == spec_bitmap_len(vals.len())
    &&& forall|i: int|
        0 <= i < bm.len() * 8 ==> (#[trigger] bit_set(bm, i) <==> (i < vals.len()
            && vals[i] is Null))
}

/// The payload bytes of one column.
pub open spec fn spec_column_bytes(v: ValueView) -> Seq<u8> {
    match v {
        ValueView::Null => Seq::empty(),
        ValueView::I64(n) => spec_u64_to_le_bytes(n as u64),
        ValueView::Bytes(b) => spec_u32_to_le_bytes(b.len() as u32) + b,
    }
}

/// The payload of a row: the column bytes in order.
pub open spec fn spec_payload(vals: Seq<ValueView>) -> Seq<u8>
    decreases vals.len(),
{
    if vals.len() == 0 {
        Seq::empty()
    } else {
        spec_payload(vals.drop_last()) + spec_column_bytes(vals.last())
    }
}

/// Whether a value may be stored in a column of type `t`.
pub open spec fn column_fits(v: ValueView, t: ColumnType) -> bool {
    match v {
        ValueView::Null => true,
        ValueView::I64(_) => t != ColumnType::Bytes,
        ValueView::Bytes(b) => t != ColumnType::I64 && b.len() <= u32::MAX,
    }
}

/// Whether `encode_row` accepts a row with values `vals`.
pub open spec fn spec_row_encodable(vals: Seq<ValueView>, types: Seq<ColumnType>, ncols: nat) -> bool {
    &&& vals.len() == ncols
    &&& forall|i: int| 0 <= i < vals.len() ==> #[trigger] column_fits(vals[i], types[i])
}

/// `b` is the encoding of `vals`: null bitmap followed by the payload.
pub open spec fn spec_is_row_encoding(b: Seq<u8>, vals: Seq<ValueView>) -> bool {
    let bm = spec_bitmap_len(vals.len());
    &&& b.len() >= bm
    &&& null_bitmap_of(b.take(bm as int), vals)
    &&& b.skip(bm as int) == spec_payload(vals)
}

/// Decoding columns `i..n` with the payload cursor at `pos`.
pub open spec fn spec_decode_columns(
    bytes: Seq<u8>,
    types: Seq<ColumnType>,
    n: nat,
    i: nat,
    pos: int,
) -> Option<Seq<ValueView>>
    decreases n - i,
{
    if i >= n {
        Some(Seq::empty())
    } else if bit_set(bytes, i as int) {
        prepend(ValueView::Null, spec_decode_columns(bytes, types, n, i + 1, pos))
    } else {
        match types[i as int] {
            ColumnType::I64 => if pos + 8 > bytes.len() {
                None
            } else {
                prepend(
                    ValueView::I64(le_u64_at(bytes, pos) as i64),
                    spec_decode_columns(bytes, types, n, i + 1, pos + 8),
                )
            },
            ColumnType::Bytes => if pos + 4 > bytes.len() {
                None
            } else if pos + 4 + le_u32_at(bytes, pos) > bytes.len() {
                None
            } else {
                prepend(
                    ValueView::Bytes(bytes.subrange(pos + 4, pos + 4 + le_u32_at(bytes, pos))),
                    spec_decode_columns(
                        bytes,
                        types,
                        n,
                        i + 1,
                        pos + 4 + le_u32_at(bytes, pos),
                    ),
                )
            },
            ColumnType::Any => None,
        }
    }
}

/// `v` followed by the sequence in `rest`, if any.
pub open spec fn prepend(v: ValueView, rest: Option<Seq<ValueView>>) -> Option<Seq<ValueView>> {
    match rest {
        Some(r) => Some(seq![v] + r),
        None => None,
    }
}

/// `front` followed by the sequence in `rest`, if any.
pub open spec fn prepend_all(front: Seq<ValueView>, rest: Option<Seq<ValueView>>) -> Option<
    Seq<ValueView>,
> {
    match rest {
        Some(r) => Some(front + r),
        None => None,
    }
}

/// What `decode_row` makes of `bytes` for a schema with `n` columns of `types`.
pub open spec fn spec_decode_row(bytes: Seq<u8>, types: Seq<ColumnType>, n: nat) -> Option<
    Seq<ValueView>,
> {
    if bytes.len() < spec_bitmap_len(n) {
        None
    } else {
        spec_decode_columns(bytes, types, n, 0, spec_bitmap_len(n) as int)
    }
}

fn bitmap_len(column_count: usize) -> (r: usize)
    ensures
        r == spec_bitmap_len(column_count as nat),
{
    column_count / 8 + if column_count % 8 == 0 {
        0
    } else {
        1
    }
}

proof fn lemma_set_bit(b: u8, k: u8, m: u8)
    requires
        k < 8,
        m < 8,
    ensures
        ((b | (1u8 << k)) >> m) & 1u8 == 1u8 <==> (m == k || (b >> m) & 1u8 == 1u8),
{
    assert(((b | (1u8 << k)) >> m) & 1u8 == 1u8 <==> (m == k || (b >> m) & 1u8 == 1u8))
        by (bit_vector)
        requires
            k < 8,
            m < 8,
    ;
}

proof fn lemma_test_bit(b: u8, k: u8)
    requires
        k < 8,
    ensures
        (b & (1u8 << k) != 0) <==> ((b >> k) & 1u8 == 1u8),
        (0u8 >> k) & 1u8 == 0u8,
{
    assert((b & (1u8 << k) != 0) <==> ((b >> k) & 1u8 == 1u8)) by (bit_vector)
        requires
            k < 8,
    ;
    assert((0u8 >> k) & 1u8 == 0u8) by (bit_vector);
}

/// Encodes a row with its schema.
///
/// Fails with `EncodingError` when the number of values differs from the
/// number of columns, when a value does not fit its column type, or when a
/// byte string is longer than `u32::MAX`.
pub fn encode_row(row: &Row, schema: &Schema) -> (r: Result<Vec<u8>, PageError>)
    requires
        schema.types@.len() >= schema.columns@.len(),
    ensures
        r is Ok <==> spec_row_encodable(row@, schema.types@, schema.columns@.len()),
        match r {
            Ok(b) => spec_is_row_encoding(b@, row@),
            Err(e) => e is EncodingError,
        },
{
    if row.values.len() != schema.columns.len() {
        return Err(PageError::EncodingError(with_number(number_between("row has ", row.values.len() as u64, " values but schema expects ").as_str(), schema.columns.len() as u64)));
    }
    let n = schema.columns.len();
    let bm_len = bitmap_len(n);
    let mut bitmap = vec![0u8; bm_len];
    let mut payload: Vec<u8> = Vec::new();
    let ghost vals = row@;
    let mut i: usize = 0;
    assert forall|j: int| 0 <= j < bm_len * 8 implies !#[trigger] bit_set(bitmap@, j) by {
        lemma_test_bit(bitmap@[j / 8], (j % 8) as u8);
    }
    while i < n
        invariant
            n == row.values@.len(),
            n == vals.len(),
            vals == row@,
            schema.types@.len() >= n,
            i <= n,
            bitmap@.len() == bm_len,
            bm_len == spec_bitmap_len(n as nat),
            forall|j: int| 0 <= j < i ==> #[trigger] column_fits(vals[j], schema.types@[j]),
            forall|j: int|
                0 <= j < bm_len * 8 ==> (#[trigger] bit_set(bitmap@, j) <==> (j < i
                    && vals[j] is Null)),
            payload@ == spec_payload(vals.take(i as int)),
        decreases n - i,
    {
        assert(vals.take(i + 1).drop_last() =~= vals.take(i as int));
        assert(vals[i as int] == row.values@[i as int]@);
        match &row.values[i] {
            Value::Null => {
                let ghost old_bm = bitmap@;
                let k = (i % 8) as u8;
                bitmap[i / 8] = bitmap[i / 8] | (1u8 << k);
                assert forall|j: int| 0 <= j < bm_len * 8 implies (#[trigger] bit_set(bitmap@, j)
                    <==> (j < i + 1 && vals[j] is Null)) by {
                    if j / 8 == i / 8 {
                        lemma_set_bit(old_bm[j / 8], k, (j % 8) as u8);
                        assert(bitmap@[j / 8] == old_bm[j / 8] | (1u8 << k));
                        assert((j % 8) as u8 == k <==> j == i);
                        assert(bit_set(old_bm, j) <==> (j < i && vals[j] is Null));
                        assert(vals[i as int] is Null);
                    } else {
                        assert(bitmap@[j / 8] == old_bm[j / 8]);
                    }
                }
            },
            Value::I64(v) => {
                if schema.types[i] == ColumnType::Bytes {
                    assert(!column_fits(vals[i as int], schema.types@[i as int]));
                    return Err(
                        PageError::EncodingError(number_between("column ", i as u64, ": schema expects Bytes, got I64")),
                    );
                }
                payload.append(&mut u64_to_le_bytes(#[verifier::truncate] (*v as u64)));
            },
            Value::Bytes(b) => {
                if schema.types[i] == ColumnType::I64 {
                    assert(!column_fits(vals[i as int], schema.types@[i as int]));
                    return Err(
                        PageError::EncodingError(number_between("column ", i as u64, ": schema expects I64, got Bytes")),
                    );
                }
                if b.len() > u32::MAX as usize {
                    assert(!column_fits(vals[i as int], schema.types@[i as int]));
                    return Err(PageError::EncodingError(number_between(number_between("column ", i as u64, ": bytes length ").as_str(), b.len() as u64, " exceeds u32::MAX")));
                }
                payload.append(&mut u32_to_le_bytes(b.len() as u32));
                payload.extend_from_slice(b.as_slice());
            },
        }
        i += 1;
        assert(payload@ =~= spec_payload(vals.take(i as int)));
    }
    let mut out: Vec<u8> = Vec::new();
    out.extend_from_slice(bitmap.as_slice());
    out.extend_from_slice(payload.as_slice());
    assert(vals.take(n as int) =~= vals);
    assert(out@.take(bm_len as int) =~= bitmap@);
    assert(out@.skip(bm_len as int) =~= payload@);
    Ok(out)
}

/// Decodes a row with its schema. Fails with `EncodingError` when the bytes
/// are too short for the bitmap or a column, or when a non-null column has
/// type `Any`.
pub fn decode_row(bytes: &[u8], schema: &Schema) -> (r: Result<Row, PageError>)
    requires
        schema.types@.len() >= schema.columns@.len(),
    ensures
        match r {
            Ok(row) => spec_decode_row(bytes@, schema.types@, schema.columns@.len()) == Some(
                row@,
            ),
            Err(e) => spec_decode_row(bytes@, schema.types@, schema.columns@.len()) is None
                && e is EncodingError,
        },
{
    let n = schema.columns.len();
    let bm_len = bitmap_len(n);
    if bytes.len() < bm_len {
        return Err(PageError::EncodingError(with_number(number_between("row bytes too short: ", bytes.len() as u64, " < bitmap length ").as_str(), bm_len as u64)));
    }
    let ghost types = schema.types@;
    let ghost whole = spec_decode_columns(bytes@, types, n as nat, 0, bm_len as int);
    let mut pos = bm_len;
    let mut values: Vec<Value> = Vec::new();
    let mut i: usize = 0;
    assert(values@.map_values(|v: Value| v@) =~= Seq::<ValueView>::empty());
    while i < n
        invariant
            n == schema.columns@.len(),
            types == schema.types@,
            types.len() >= n,
            i <= n,
            bm_len == spec_bitmap_len(n as nat),
            bytes@.len() >= bm_len,
            pos <= bytes@.len(),
            whole == spec_decode_columns(bytes@, types, n as nat, 0, bm_len as int),
            whole == prepend_all(
                values@.map_values(|v: Value| v@),
                spec_decode_columns(bytes@, types, n as nat, i as nat, pos as int),
            ),
        decreases n - i,
    {
        let ghost prefix = values@.map_values(|v: Value| v@);
        let k = (i % 8) as u8;
        assert(i / 8 < bm_len);
        proof {
            lemma_test_bit(bytes@[(i / 8) as int], k);
        }
        if bytes[i / 8] & (1u8 << k) != 0 {
            values.push(Value::Null);
        } else {
            match schema.types[i] {
                ColumnType::I64 => {
                    if bytes.len() - pos < 8 {
                        return Err(PageError::EncodingError(number_between(number_between("column ", i as u64, ": need 8 bytes for I64, only ").as_str(), (bytes.len() - pos) as u64, " left")));
                    }
                    let v = read_u64(bytes, pos);
                    values.push(Value::I64(v as i64));
                    pos = pos + 8;
                },
                ColumnType::Bytes => {
                    if bytes.len() - pos < 4 {
                        return Err(
                            PageError::EncodingError(number_between(number_between("column ", i as u64, ": need 4 bytes for length prefix, only ").as_str(), (bytes.len() - pos) as u64, " left")),
                        );
                    }
                    let len = read_u32(bytes, pos) as usize;
                    pos = pos + 4;
                    if bytes.len() - pos < len {
                        return Err(PageError::EncodingError(number_between(number_between(number_between("column ", i as u64, ": declared ").as_str(), len as u64, " bytes, only ").as_str(), (bytes.len() - pos) as u64, " left")));
                    }
                    let b = slice_to_vec(slice_subrange(bytes, pos, pos + len));
                    values.push(Value::Bytes(b));
                    pos = pos + len;
                },
                ColumnType::Any => {
                    return Err(
                        PageError::EncodingError(number_between("column ", i as u64, ": schema has ColumnType::Any, cannot decode")),
                    );
                },
            }
        }
        i += 1;
        assert(values@.map_values(|v: Value| v@) =~= prefix.push(values@.last()@));
        assert(values@.map_values(|v: Value| v@) =~= prefix + seq![values@.last()@]);
    }
    assert(spec_decode_columns(bytes@, types, n as nat, n as nat, pos as int) == Some(
        Seq::<ValueView>::empty(),
    ));
    assert(values@.map_values(|v: Value| v@) + Seq::<ValueView>::empty() =~= values@.map_values(
        |v: Value| v@,
    ));
    Ok(Row { values })
}

/// Encoding a shorter prefix of the columns gives a prefix of the payload.
proof fn lemma_payload_prefix(vals: Seq<ValueView>, j: int, k: int)
    requires
        0 <= j <= k <= vals.len(),
    ensures
        spec_payload(vals.take(j)).len() <= spec_payload(vals.take(k)).len(),
        spec_payload(vals.take(k)).take(spec_payload(vals.take(j)).len() as int) == spec_payload(
            vals.take(j),
        ),
    decreases k - j,
{
    if j < k {
        lemma_payload_prefix(vals, j, k - 1);
        assert(vals.take(k).drop_last() =~= vals.take(k - 1));
        let pk = spec_payload(vals.take(k));
        let pk1 = spec_payload(vals.take(k - 1));
        let pj = spec_payload(vals.take(j));
        assert(pk =~= pk1 + spec_column_bytes(vals.take(k).last()));
        assert(pk.take(pj.len() as int) =~= pk1.take(pj.len() as int));
    } else {
        assert(spec_payload(vals.take(k)).take(spec_payload(vals.take(k)).len() as int)
            =~= spec_payload(vals.take(k)));
    }
}

proof fn lemma_decode_columns_from(
    bytes: Seq<u8>,
    types: Seq<ColumnType>,
    vals: Seq<ValueView>,
    i: int,
)
    requires
        types.len() >= vals.len(),
        spec_is_row_encoding(bytes, vals),
        forall|j: int|
            0 <= j < vals.len() ==> #[trigger] column_fits(vals[j], types[j]) && (
            !(vals[j] is Null) ==> types[j] != ColumnType::Any),
        0 <= i <= vals.len(),
    ensures
        spec_decode_columns(
            bytes,
            types,
            vals.len(),
            i as nat,
            (spec_bitmap_len(vals.len()) + spec_payload(vals.take(i)).len()) as int,
        ) == Some(vals.skip(i)),
    decreases vals.len() - i,
{
    let n = vals.len();
    let bm = spec_bitmap_len(n);
    let pos: int = (bm + spec_payload(vals.take(i)).len()) as int;
    if i >= n {
        assert(vals.skip(i) =~= Seq::<ValueView>::empty());
    } else {
        lemma_decode_columns_from(bytes, types, vals, i + 1);
        lemma_payload_prefix(vals, i + 1, n as int);
        assert(vals.take(n as int) =~= vals);
        assert(vals.take(i + 1).drop_last() =~= vals.take(i));
        let col = spec_column_bytes(vals[i]);
        let whole = spec_payload(vals);
        assert(spec_payload(vals.take(i + 1)) =~= spec_payload(vals.take(i)) + col);
        assert(bytes.skip(bm as int) == whole);
        assert(bytes.subrange(pos, pos + col.len() as int) =~= col) by {
            assert forall|t: int| 0 <= t < col.len() implies bytes.subrange(
                pos,
                pos + col.len() as int,
            )[t] == col[t] by {
                assert(bytes[pos + t] == whole[spec_payload(vals.take(i)).len() + t]);
                assert(whole.take(spec_payload(vals.take(i + 1)).len() as int)[spec_payload(
                    vals.take(i),
                ).len() + t] == col[t]);
            }
        }
        assert(bit_set(bytes, i) == bit_set(bytes.take(bm as int), i));
        assert(column_fits(vals[i], types[i]));
        assert(vals.skip(i) =~= seq![vals[i]] + vals.skip(i + 1));
        lemma_auto_spec_u32_to_from_le_bytes();
        lemma_auto_spec_u64_to_from_le_bytes();
        match vals[i] {
            ValueView::Null => {},
            ValueView::I64(v) => {
                assert(bytes.subrange(pos, pos + 8) =~= spec_u64_to_le_bytes(v as u64));
                assert((v as u64) as i64 == v) by (bit_vector);
            },
            ValueView::Bytes(b) => {
                let l = b.len() as u32;
                assert(bytes.subrange(pos, pos + 4) =~= col.subrange(0, 4));
                assert(col.subrange(0, 4) =~= spec_u32_to_le_bytes(l));
                assert(col.subrange(4, 4 + b.len() as int) =~= b);
                assert(bytes.subrange(pos + 4, pos + 4 + b.len() as int) =~= bytes.subrange(
                    pos,
                    pos + col.len() as int,
                ).subrange(4, 4 + b.len() as int));
                assert(bytes.subrange(pos + 4, pos + 4 + b.len() as int) =~= b);
            },
        }
    }
}

/// Decoding the encoding of a row with the same schema gives the row back,
/// provided every non-null column has a concrete type (not `Any`).
pub proof fn lemma_row_round_trip(bytes: Seq<u8>, vals: Seq<ValueView>, types: Seq<ColumnType>)
    requires
        types.len() >= vals.len(),
        spec_row_encodable(vals, types, vals.len()),
        spec_is_row_encoding(bytes, vals),
        forall|j: int|
            0 <= j < vals.len() && !(vals[j] is Null) ==> types[j] != ColumnType::Any,
    ensures
        spec_decode_row(bytes, types, vals.len()) == Some(vals),
{
    assert forall|j: int| 0 <= j < vals.len() implies #[trigger] column_fits(vals[j], types[j])
        && (!(vals[j] is Null) ==> types[j] != ColumnType::Any) by {}
    lemma_decode_columns_from(bytes, types, vals, 0);
    assert(vals.take(0) =~= Seq::<ValueView>::empty());
    assert(vals.skip(0) =~= vals);
}

} // verus!
