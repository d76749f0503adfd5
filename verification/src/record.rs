//! Records: a schema together with owned storage for each field's value,
//! and the record composer that packs and unpacks all fields across one
//! shared bit cursor.

use vstd::prelude::*;
use vstd::arithmetic::power2::pow2;
use vstd::arithmetic::div_mod::lemma_add_mod_noop;
use crate::BitWrapError;
use crate::bits::{
    bits_value, byte_bits, lemma_bit_index, lemma_byte_of_bits, lemma_extend_written,
    lemma_next8_aligned, next8, pad_clear, stream_bit, uint_bits,
};
use crate::codec::{copy_bytes, cursor_in, pack_bits, unpack_bits};
use crate::cursor::BitCursor;
use crate::schema::{
    fields_wf_upto, field_wf, lemma_upto_field, off_rem, schema_wf, Constraint, Field, FieldKind,
    Schema,
};

verus! {

broadcast use vstd::seq::axiom_seq_index_decreases, vstd::std_specs::vec::axiom_vec_decreases_to_view;

/// Owned storage for one field's decoded value.
#[derive(Debug)]
pub enum Value {
    /// An unsigned scalar, for the bit-granular field kinds.
    Uint(u64),
    /// Raw bytes, for arrays and dynamic byte sequences.
    Bytes(Vec<u8>),
    /// The field values of a nested record.
    Group(Vec<Value>),
}

/// The scalar a value holds, or 0.
pub open spec fn uint_of(v: Value) -> u64 {
    match v {
        Value::Uint(x) => x,
        _ => 0,
    }
}

/// The bytes a value holds, or none.
pub open spec fn bytes_of(v: Value) -> Seq<u8> {
    match v {
        Value::Bytes(b) => b@,
        _ => Seq::empty(),
    }
}

impl Value {
    /// The scalar this value holds.
    pub fn as_uint(&self) -> (r: Option<u64>)
        ensures
            r matches Some(x) ==> self is Uint && x == uint_of(*self),
            r is None <==> !(self is Uint),
    {
        match self {
            Value::Uint(x) => Some(*x),
            _ => None,
        }
    }

    /// The bytes this value holds.
    pub fn as_bytes(&self) -> (r: Option<&Vec<u8>>)
        ensures
            r matches Some(b) ==> self is Bytes && b@ == bytes_of(*self),
            r is None <==> !(self is Bytes),
    {
        match self {
            Value::Bytes(b) => Some(b),
            _ => None,
        }
    }

    /// The nested field values this value holds.
    pub fn as_group(&self) -> (r: Option<&Vec<Value>>)
        ensures
            r matches Some(g) ==> *self matches Value::Group(gv) && g@ == gv@,
            r is None <==> !(self is Group),
    {
        match self {
            Value::Group(g) => Some(g),
            _ => None,
        }
    }
}

/// The value fits the field that owns it.
pub open spec fn val_wf(f: Field, v: Value) -> bool
    decreases v, 0int,
{
    match f.kind {
        FieldKind::Bits { store, .. } => v is Uint && uint_of(v) < pow2(store as nat),
        FieldKind::Tag { count, .. } => v is Uint && uint_of(v) < count,
        FieldKind::Skip { .. } => v is Uint,
        FieldKind::LenOf { .. } => v is Uint,
        FieldKind::Nested { fields: sub } => match v {
            Value::Group(g) => vals_wf(sub@, g@),
            _ => false,
        },
        FieldKind::Array { count } => v is Bytes && bytes_of(v).len() == count,
        FieldKind::Bytes { .. } => v is Bytes,
    }
}

/// The first `n` values each fit their field.
pub open spec fn vals_wf_upto(fields: Seq<Field>, vals: Seq<Value>, n: int) -> bool
    decreases vals, n,
{
    if n <= 0 {
        true
    } else if n > vals.len() || n > fields.len() {
        vals_wf_upto(fields, vals, n - 1)
    } else {
        vals_wf_upto(fields, vals, n - 1) && val_wf(fields[n - 1], vals[n - 1])
    }
}

/// The values fit the schema: one value per field, each of the field's
/// shape.
pub open spec fn vals_wf(fields: Seq<Field>, vals: Seq<Value>) -> bool
    decreases vals, vals.len() + 1,
{
    vals.len() == fields.len() && vals_wf_upto(fields, vals, fields.len() as int)
}

/// Each value of a fitting prefix fits its own field.
pub proof fn lemma_vals_upto_at(fields: Seq<Field>, vals: Seq<Value>, i: int, n: int)
    requires
        vals_wf_upto(fields, vals, n),
        0 <= i < n <= fields.len(),
        n <= vals.len(),
    ensures
        val_wf(fields[i], vals[i]),
    decreases n,
{
    if i < n - 1 {
        lemma_vals_upto_at(fields, vals, i, n - 1);
    }
}

/// A prefix of a fitting prefix fits.
pub proof fn lemma_vals_upto_prefix(fields: Seq<Field>, vals: Seq<Value>, i: int, n: int)
    requires
        vals_wf_upto(fields, vals, n),
        0 <= i <= n,
    ensures
        vals_wf_upto(fields, vals, i),
    decreases n,
{
    if i < n {
        lemma_vals_upto_prefix(fields, vals, i, n - 1);
    }
}

/// Appending a value leaves the fit of the values before it unchanged.
pub proof fn lemma_vals_upto_push(fields: Seq<Field>, s: Seq<Value>, v: Value, n: int)
    requires
        0 <= n <= s.len(),
    ensures
        vals_wf_upto(fields, s.push(v), n) == vals_wf_upto(fields, s, n),
    decreases n,
{
    if n > 0 {
        lemma_vals_upto_push(fields, s, v, n - 1);
        assert(s.push(v)[n - 1] == s[n - 1]);
    }
}

/// The byte length a length-prefix field reports for the sibling at `t`.
pub open spec fn len_val(vals: Seq<Value>, t: int) -> u64 {
    if 0 <= t < vals.len() {
        bytes_of(vals[t]).len() as u64
    } else {
        0
    }
}

/// The bit stream that one field emits.
pub open spec fn enc_field(fields: Seq<Field>, vals: Seq<Value>, i: int) -> Seq<bool>
    decreases vals, 0int,
{
    if !(0 <= i < fields.len() && i < vals.len()) {
        Seq::empty()
    } else {
        match fields[i].kind {
            FieldKind::Bits { width, .. } => uint_bits(uint_of(vals[i]), width as int),
            FieldKind::Tag { width, .. } => uint_bits(uint_of(vals[i]), width as int),
            FieldKind::Skip { width, emit } => uint_bits(emit, width as int),
            FieldKind::LenOf { width, target } => uint_bits(
                len_val(vals, target as int),
                width as int,
            ),
            FieldKind::Nested { fields: sub } => match vals[i] {
                Value::Group(g) => enc_upto(sub@, g@, sub@.len() as int),
                _ => Seq::empty(),
            },
            FieldKind::Array { .. } => byte_bits(bytes_of(vals[i])),
            FieldKind::Bytes { .. } => byte_bits(bytes_of(vals[i])),
        }
    }
}

/// The bit stream that the first `n` fields emit, in declaration order.
pub open spec fn enc_upto(fields: Seq<Field>, vals: Seq<Value>, n: int) -> Seq<bool>
    decreases vals, n,
{
    if n <= 0 {
        Seq::empty()
    } else {
        enc_upto(fields, vals, n - 1) + enc_field(fields, vals, n - 1)
    }
}

/// The whole record's wire bit stream.
pub open spec fn enc_record(fields: Seq<Field>, vals: Seq<Value>) -> Seq<bool> {
    enc_upto(fields, vals, fields.len() as int)
}

/// The encoding grows with the fields taken.
pub proof fn lemma_enc_upto_mono(fields: Seq<Field>, vals: Seq<Value>, i: int, n: int)
    requires
        0 <= i <= n,
    ensures
        enc_upto(fields, vals, i).len() <= enc_upto(fields, vals, n).len(),
    decreases n,
{
    if i < n {
        lemma_enc_upto_mono(fields, vals, i, n - 1);
    }
}

/// Under a sound schema with fitting values, the bit offset after `n`
/// fields falls on the record's static alignment, so byte-granular fields
/// start on byte boundaries and the whole record is whole bytes.
pub proof fn lemma_enc_len_rem(fields: Seq<Field>, vals: Seq<Value>, n: int)
    requires
        fields_wf_upto(fields, n),
        vals_wf_upto(fields, vals, n),
        0 <= n <= fields.len(),
        n <= vals.len(),
    ensures
        enc_upto(fields, vals, n).len() % 8 == off_rem(fields, n),
    decreases vals, n,
{
    if n > 0 {
        lemma_enc_len_rem(fields, vals, n - 1);
        let i = n - 1;
        let prev = enc_upto(fields, vals, i).len() as int;
        let fl = enc_field(fields, vals, i).len() as int;
        assert(enc_upto(fields, vals, n).len() == prev + fl);
        assert(field_wf(fields, i)) by {
            lemma_upto_field(fields, i, n);
        }
        assert(val_wf(fields[i], vals[i])) by {
            lemma_vals_upto_at(fields, vals, i, n);
        }
        match fields[i].kind {
            FieldKind::Bits { width, .. } => {
                assert(fl == width);
            },
            FieldKind::Tag { width, .. } => {
                assert(fl == width);
            },
            FieldKind::Skip { width, .. } => {
                assert(fl == width);
            },
            FieldKind::LenOf { width, .. } => {
                assert(fl == width);
            },
            FieldKind::Nested { fields: sub } => {
                match vals[i] {
                    Value::Group(g) => {
                        assert(schema_wf(sub@));
                        assert(vals_wf(sub@, g@));
                        lemma_enc_len_rem(sub@, g@, sub@.len() as int);
                        assert(fl % 8 == 0);
                    },
                    _ => {
                        assert(false);
                    },
                }
            },
            FieldKind::Array { .. } => {
                assert(fl % 8 == 0);
            },
            FieldKind::Bytes { .. } => {
                assert(fl % 8 == 0);
            },
        }
        assert((prev + fl) % 8 == off_rem(fields, n)) by {
            vstd::arithmetic::div_mod::lemma_add_mod_noop(prev, fl, 8);
        }
    }
}

/// A record: a validated schema plus one owned value per field.
#[derive(Debug)]
pub struct Record {
    schema: Schema,
    values: Vec<Value>,
}

impl Record {
    /// Every record's values fit its schema.
    #[verifier::type_invariant]
    spec fn inv(self) -> bool {
        vals_wf(self.schema.spec_fields(), self.values@)
    }

    /// The record's descriptor list.
    pub closed spec fn spec_fields(self) -> Seq<Field> {
        self.schema.spec_fields()
    }

    /// The record's current field values.
    pub closed spec fn spec_values(self) -> Seq<Value> {
        self.values@
    }

    /// The record's wire bit stream, were it packed now.
    pub open spec fn wire(self) -> Seq<bool> {
        enc_record(self.spec_fields(), self.spec_values())
    }

    /// Bind values to a schema.  Returns `None`, exactly when some value
    /// does not fit its field's shape.
    pub fn new(schema: Schema, values: Vec<Value>) -> (r: Option<Record>)
        ensures
            r is Some <==> vals_wf(schema.spec_fields(), values@),
            r matches Some(rec) ==> rec.spec_fields() == schema.spec_fields()
                && rec.spec_values() == values@,
    {
        let fits = values.len() == schema.fields().len() && values_valid_upto(
            schema.fields(),
            &values,
            schema.fields().len(),
        );
        if fits {
            Some(Record { schema, values })
        } else {
            None
        }
    }

    /// How many fields the record has.
    pub fn field_count(&self) -> (r: usize)
        ensures
            r == self.spec_fields().len(),
            self.spec_values().len() == r,
    {
        proof {
            use_type_invariant(self);
        }
        self.schema.fields().len()
    }

    /// The value of the field at `i`.
    pub fn value(&self, i: usize) -> (r: Option<&Value>)
        ensures
            r is Some <==> i < self.spec_values().len(),
            r matches Some(v) ==> *v == self.spec_values()[i as int],
    {
        proof {
            use_type_invariant(self);
        }
        if i < self.values.len() {
            Some(&self.values[i])
        } else {
            None
        }
    }
}

/// The abstract shape of a decoded value, for stating what decoding
/// returns.
#[verifier::ext_equal]
pub enum AbsVal {
    Uint(u64),
    Bytes(Seq<u8>),
    Group(Seq<AbsVal>),
}

/// The abstract shape of one owned value.
pub open spec fn view_of(v: Value) -> AbsVal
    decreases v, 1int,
{
    match v {
        Value::Uint(x) => AbsVal::Uint(x),
        Value::Bytes(b) => AbsVal::Bytes(b@),
        Value::Group(g) => AbsVal::Group(views_upto(g@, g@.len() as int)),
    }
}

/// The abstract shapes of the first `n` owned values.
pub open spec fn views_upto(s: Seq<Value>, n: int) -> Seq<AbsVal>
    decreases s, 0int, n,
{
    if n <= 0 {
        Seq::empty()
    } else if n > s.len() {
        views_upto(s, n - 1)
    } else {
        views_upto(s, n - 1).push(view_of(s[n - 1]))
    }
}

/// The abstract shapes of a value list.
pub open spec fn views_of(s: Seq<Value>) -> Seq<AbsVal> {
    views_upto(s, s.len() as int)
}

/// Shape lists index pointwise.
pub proof fn lemma_views_index(s: Seq<Value>, n: int, i: int)
    requires
        0 <= i < n <= s.len(),
    ensures
        views_upto(s, n).len() == n,
        views_upto(s, n)[i] == view_of(s[i]),
    decreases n,
{
    lemma_views_len(s, n);
    if i < n - 1 {
        lemma_views_index(s, n - 1, i);
    }
}

/// A shape list is as long as the prefix it mirrors.
pub proof fn lemma_views_len(s: Seq<Value>, n: int)
    requires
        0 <= n <= s.len(),
    ensures
        views_upto(s, n).len() == n,
    decreases n,
{
    if n > 0 {
        lemma_views_len(s, n - 1);
    }
}

/// Taking the shapes of one more value appends its shape.
pub proof fn lemma_views_push(s: Seq<Value>, v: Value)
    ensures
        views_of(s.push(v)) == views_of(s).push(view_of(v)),
    decreases s.len(),
{
    let t = s.push(v);
    assert(t.len() == s.len() + 1);
    assert(t[s.len() as int] == v);
    lemma_views_upto_push(s, v, s.len() as int);
}

/// Shapes of a pushed list agree with shapes of the list on every prefix.
pub proof fn lemma_views_upto_push(s: Seq<Value>, v: Value, n: int)
    requires
        0 <= n <= s.len(),
    ensures
        views_upto(s.push(v), n) == views_upto(s, n),
    decreases n,
{
    if n > 0 {
        lemma_views_upto_push(s, v, n - 1);
        assert(s.push(v)[n - 1] == s[n - 1]);
    }
}

/// Whether a raw decoded value passes a field's constraint.
pub open spec fn check_pass(c: Option<Constraint>, raw: u64) -> bool {
    match c {
        Option::None => true,
        Option::Some(Constraint::Exact(k)) => raw == k,
        Option::Some(Constraint::Within { min, max }) => min <= raw && raw <= max,
    }
}

/// The error a failed constraint reports.
pub open spec fn check_err(c: Option<Constraint>, raw: u64) -> BitWrapError {
    match c {
        Option::Some(Constraint::Exact(..)) => BitWrapError::ValueMismatch,
        _ => BitWrapError::ValueOutOfRange,
    }
}

/// What decoding the fields from index `i` on yields, given the shapes
/// `acc` already decoded for the fields before `i`: the shapes of all the
/// record's values and the bit position just past the record, or the error
/// of the first field that fails.
#[verifier::opaque]
pub open spec fn dec_fields(
    fields: Seq<Field>,
    s: Seq<u8>,
    pos: int,
    i: int,
    acc: Seq<AbsVal>,
) -> Result<(Seq<AbsVal>, int), BitWrapError>
    decreases fields, fields.len() - i,
{
    if i < 0 || i >= fields.len() {
        Ok((acc, pos))
    } else {
        let f = fields[i];
        match f.kind {
            FieldKind::Bits { width, store } => {
                if pos + width > 8 * s.len() {
                    Err(BitWrapError::BufferTooShort)
                } else {
                    let raw = bits_value(s, pos, width as int) as u64;
                    if !check_pass(f.check, raw) {
                        Err(check_err(f.check, raw))
                    } else {
                        dec_fields(
                            fields,
                            s,
                            pos + width,
                            i + 1,
                            acc.push(AbsVal::Uint((raw as nat % pow2(store as nat)) as u64)),
                        )
                    }
                }
            },
            FieldKind::Tag { width, count } => {
                if pos + width > 8 * s.len() {
                    Err(BitWrapError::BufferTooShort)
                } else {
                    let raw = bits_value(s, pos, width as int) as u64;
                    if !check_pass(f.check, raw) {
                        Err(check_err(f.check, raw))
                    } else if raw >= count {
                        Err(BitWrapError::ConversionFailure)
                    } else {
                        dec_fields(fields, s, pos + width, i + 1, acc.push(AbsVal::Uint(raw)))
                    }
                }
            },
            FieldKind::Skip { width, .. } => {
                if pos + width > 8 * s.len() {
                    Err(BitWrapError::BufferTooShort)
                } else {
                    let raw = bits_value(s, pos, width as int) as u64;
                    if !check_pass(f.check, raw) {
                        Err(check_err(f.check, raw))
                    } else {
                        dec_fields(fields, s, pos + width, i + 1, acc.push(AbsVal::Uint(raw)))
                    }
                }
            },
            FieldKind::LenOf { width, .. } => {
                if pos + width > 8 * s.len() {
                    Err(BitWrapError::BufferTooShort)
                } else {
                    let raw = bits_value(s, pos, width as int) as u64;
                    if !check_pass(f.check, raw) {
                        Err(check_err(f.check, raw))
                    } else {
                        dec_fields(fields, s, pos + width, i + 1, acc.push(AbsVal::Uint(raw)))
                    }
                }
            },
            FieldKind::Nested { fields: sub } => {
                match dec_fields(sub@, s, pos, 0, Seq::empty()) {
                    Ok(p) => dec_fields(fields, s, p.1, i + 1, acc.push(AbsVal::Group(p.0))),
                    Err(e) => Err(e),
                }
            },
            FieldKind::Array { count } => {
                if pos + 8 * count > 8 * s.len() {
                    Err(BitWrapError::BufferTooShort)
                } else {
                    dec_fields(
                        fields,
                        s,
                        pos + 8 * count,
                        i + 1,
                        acc.push(AbsVal::Bytes(s.subrange(pos / 8, pos / 8 + count))),
                    )
                }
            },
            FieldKind::Bytes { from } => {
                let cnt = (if 0 <= from < acc.len() {
                    match acc[from as int] {
                        AbsVal::Uint(x) => x,
                        _ => 0,
                    }
                } else {
                    0
                }) as int;
                if pos + 8 * cnt > 8 * s.len() {
                    Err(BitWrapError::BufferTooShort)
                } else {
                    dec_fields(
                        fields,
                        s,
                        pos + 8 * cnt,
                        i + 1,
                        acc.push(AbsVal::Bytes(s.subrange(pos / 8, pos / 8 + cnt))),
                    )
                }
            },
        }
    }
}

/// What decoding a whole record from bit position `pos` yields.
pub open spec fn dec_record(fields: Seq<Field>, s: Seq<u8>, pos: int) -> Result<
    (Seq<AbsVal>, int),
    BitWrapError,
> {
    dec_fields(fields, s, pos, 0, Seq::empty())
}

/// Pack all fields of one record at a byte-aligned cursor, in declaration
/// order, threading the one shared cursor through every field.
///
/// Fails with `BufferTooShort`, exactly when the record's encoding runs
/// past the end of `dst`; bytes already written for earlier fields are
/// then left as they are, without rollback.
#[verifier::loop_isolation(false)]
#[verifier::rlimit(100)]
pub fn pack_fields(
    fields: &Vec<Field>,
    vals: &Vec<Value>,
    dst: &mut [u8],
    cur: &mut BitCursor,
) -> (r: Result<(), BitWrapError>)
    requires
        schema_wf(fields@),
        vals_wf(fields@, vals@),
        cursor_in(*old(cur), old(dst)@),
        old(cur).aligned(),
    ensures
        final(dst)@.len() == old(dst)@.len(),
        r is Ok <==> old(cur).pos() + enc_record(fields@, vals@).len() <= 8 * old(dst)@.len(),
        r is Err ==> r == Err::<(), BitWrapError>(BitWrapError::BufferTooShort),
        r is Ok ==> {
            &&& cursor_in(*final(cur), final(dst)@)
            &&& final(cur).aligned()
            &&& final(cur).pos() == old(cur).pos() + enc_record(fields@, vals@).len()
            &&& forall|j: int|
                0 <= j < old(cur).pos() ==> #[trigger] stream_bit(final(dst)@, j) == stream_bit(
                    old(dst)@,
                    j,
                )
            &&& forall|j: int|
                old(cur).pos() <= j < old(cur).pos() + enc_record(fields@, vals@).len()
                    ==> #[trigger] stream_bit(final(dst)@, j) == enc_record(fields@, vals@)[j
                    - old(cur).pos()]
            &&& forall|j: int|
                old(cur).pos() + enc_record(fields@, vals@).len() <= j < 8 * old(dst)@.len()
                    ==> #[trigger] stream_bit(final(dst)@, j) == stream_bit(old(dst)@, j)
        },
    decreases fields@,
{
    let n = fields.len();
    let len = dst.len();
    let ghost s0 = dst@;
    let ghost p0 = old(cur).pos();

    proof {
        lemma_bit_index(old(cur).byte as int, 0);
        assert(p0 % 8 == 0);
        assert(enc_upto(fields@, vals@, 0).len() == 0);
        lemma_next8_aligned(p0);
    }

    let mut i: usize = 0;
    while i < n
        invariant
            n == fields@.len(),
            vals@.len() == n,
            len == dst@.len(),
            s0.len() == len,
            schema_wf(fields@),
            vals_wf(fields@, vals@),
            0 <= i <= n,
            0 <= p0,
            p0 % 8 == 0,
            cursor_in(*cur, dst@),
            cur.pos() == p0 + enc_upto(fields@, vals@, i as int).len(),
            pad_clear(dst@, cur.pos()),
            forall|j: int| 0 <= j < p0 ==> #[trigger] stream_bit(dst@, j) == stream_bit(s0, j),
            forall|j: int|
                p0 <= j < cur.pos() ==> #[trigger] stream_bit(dst@, j) == enc_upto(
                    fields@,
                    vals@,
                    i as int,
                )[j - p0],
            forall|j: int|
                next8(cur.pos()) <= j < 8 * len ==> #[trigger] stream_bit(dst@, j) == stream_bit(
                    s0,
                    j,
                ),
        decreases n - i,
    {
        let ghost pmid = cur.pos();
        let ghost pre = dst@;
        let ghost prefix = enc_upto(fields@, vals@, i as int);
        let ghost piece = enc_field(fields@, vals@, i as int);

        proof {
            lemma_upto_field(fields@, i as int, n as int);
            lemma_vals_upto_at(fields@, vals@, i as int, n as int);
            assert(enc_upto(fields@, vals@, i as int + 1) == prefix + piece);
        }

        let f = &fields[i];
        match &f.kind {
            FieldKind::Bits { width, .. } => {
                let x: u64 = match &vals[i] {
                    Value::Uint(u) => *u,
                    _ => {
                        proof {
                            assert(false);
                        }
                        0
                    },
                };
                match pack_bits(dst, cur, x, *width) {
                    Ok(()) => {
                        proof {
                            assert(piece == uint_bits(x, *width as int));
                            lemma_extend_written(s0, pre, dst@, p0, pmid, prefix, piece);
                        }
                    },
                    Err(e) => {
                        proof {
                            lemma_enc_upto_mono(fields@, vals@, i as int + 1, n as int);
                        }
                        return Err(e);
                    },
                }
            },
            FieldKind::Tag { width, .. } => {
                let x: u64 = match &vals[i] {
                    Value::Uint(u) => *u,
                    _ => {
                        proof {
                            assert(false);
                        }
                        0
                    },
                };
                match pack_bits(dst, cur, x, *width) {
                    Ok(()) => {
                        proof {
                            assert(piece == uint_bits(x, *width as int));
                            lemma_extend_written(s0, pre, dst@, p0, pmid, prefix, piece);
                        }
                    },
                    Err(e) => {
                        proof {
                            lemma_enc_upto_mono(fields@, vals@, i as int + 1, n as int);
                        }
                        return Err(e);
                    },
                }
            },
            FieldKind::Skip { width, emit } => {
                match pack_bits(dst, cur, *emit, *width) {
                    Ok(()) => {
                        proof {
                            assert(piece == uint_bits(*emit, *width as int));
                            lemma_extend_written(s0, pre, dst@, p0, pmid, prefix, piece);
                        }
                    },
                    Err(e) => {
                        proof {
                            lemma_enc_upto_mono(fields@, vals@, i as int + 1, n as int);
                        }
                        return Err(e);
                    },
                }
            },
            FieldKind::LenOf { width, target } => {
                proof {
                    lemma_vals_upto_at(fields@, vals@, *target as int, n as int);
                }
                let x: u64 = match &vals[*target] {
                    Value::Bytes(b) => b.len() as u64,
                    _ => {
                        proof {
                            assert(false);
                        }
                        0
                    },
                };
                match pack_bits(dst, cur, x, *width) {
                    Ok(()) => {
                        proof {
                            assert(x == len_val(vals@, *target as int));
                            assert(piece == uint_bits(x, *width as int));
                            lemma_extend_written(s0, pre, dst@, p0, pmid, prefix, piece);
                        }
                    },
                    Err(e) => {
                        proof {
                            lemma_enc_upto_mono(fields@, vals@, i as int + 1, n as int);
                        }
                        return Err(e);
                    },
                }
            },
            FieldKind::Nested { fields: sub } => {
                proof {
                    lemma_align_at(fields@, vals@, i as int, p0, pmid, *cur);
                }
                match &vals[i] {
                    Value::Group(g) => {
                        match pack_fields(sub, g, dst, cur) {
                            Ok(()) => {
                                proof {
                                    assert(piece == enc_record(sub@, g@));
                                    lemma_next8_aligned(pmid);
                                    lemma_extend_written(s0, pre, dst@, p0, pmid, prefix, piece);
                                    lemma_next8_aligned(pmid + piece.len() as int);
                                    assert(pad_clear(dst@, cur.pos()));
                                }
                            },
                            Err(e) => {
                                proof {
                                    lemma_enc_upto_mono(fields@, vals@, i as int + 1, n as int);
                                }
                                return Err(e);
                            },
                        }
                    },
                    _ => {
                        proof {
                            assert(false);
                        }
                        return Err(BitWrapError::BufferTooShort);
                    },
                }
            },
            FieldKind::Array { .. } => {
                proof {
                    lemma_align_at(fields@, vals@, i as int, p0, pmid, *cur);
                }
                match &vals[i] {
                    Value::Bytes(b) => {
                        match copy_bytes(dst, cur, b.as_slice()) {
                            Ok(()) => {
                                proof {
                                    assert(piece == byte_bits(b@));
                                    lemma_next8_aligned(pmid);
                                    lemma_extend_written(s0, pre, dst@, p0, pmid, prefix, piece);
                                    lemma_next8_aligned(pmid + piece.len() as int);
                                    assert(pad_clear(dst@, cur.pos()));
                                }
                            },
                            Err(e) => {
                                proof {
                                    lemma_enc_upto_mono(fields@, vals@, i as int + 1, n as int);
                                }
                                return Err(e);
                            },
                        }
                    },
                    _ => {
                        proof {
                            assert(false);
                        }
                        return Err(BitWrapError::BufferTooShort);
                    },
                }
            },
            FieldKind::Bytes { .. } => {
                proof {
                    lemma_align_at(fields@, vals@, i as int, p0, pmid, *cur);
                }
                match &vals[i] {
                    Value::Bytes(b) => {
                        match copy_bytes(dst, cur, b.as_slice()) {
                            Ok(()) => {
                                proof {
                                    assert(piece == byte_bits(b@));
                                    lemma_next8_aligned(pmid);
                                    lemma_extend_written(s0, pre, dst@, p0, pmid, prefix, piece);
                                    lemma_next8_aligned(pmid + piece.len() as int);
                                    assert(pad_clear(dst@, cur.pos()));
                                }
                            },
                            Err(e) => {
                                proof {
                                    lemma_enc_upto_mono(fields@, vals@, i as int + 1, n as int);
                                }
                                return Err(e);
                            },
                        }
                    },
                    _ => {
                        proof {
                            assert(false);
                        }
                        return Err(BitWrapError::BufferTooShort);
                    },
                }
            },
        }
        i = i + 1;
    }

    proof {
        lemma_enc_len_rem(fields@, vals@, n as int);
        lemma_add_mod_noop(p0, enc_record(fields@, vals@).len() as int, 8);
        assert(cur.pos() % 8 == 0);
        lemma_bit_index(cur.byte as int, 8 - cur.avail);
        assert(cur.aligned());
    }
    Ok(())
}

/// At a byte-granular field of a sound schema, the cursor that has packed
/// the fields before it stands on a byte boundary.
proof fn lemma_align_at(
    fields: Seq<Field>,
    vals: Seq<Value>,
    i: int,
    p0: int,
    pmid: int,
    cur: BitCursor,
)
    requires
        schema_wf(fields),
        vals_wf(fields, vals),
        0 <= i < fields.len(),
        off_rem(fields, i) == 0,
        0 <= p0,
        p0 % 8 == 0,
        cur.wf(),
        pmid == cur.pos(),
        pmid == p0 + enc_upto(fields, vals, i).len(),
    ensures
        cur.aligned(),
        pmid % 8 == 0,
{
    crate::schema::lemma_upto_prefix(fields, i, fields.len() as int);
    lemma_vals_upto_prefix(fields, vals, i, fields.len() as int);
    lemma_enc_len_rem(fields, vals, i);
    lemma_add_mod_noop(p0, enc_upto(fields, vals, i).len() as int, 8);
    assert(pmid % 8 == 0);
    lemma_bit_index(cur.byte as int, 8 - cur.avail);
}

/// Evaluate a field's constraint against a raw decoded value.
pub fn check_value(c: &Option<Constraint>, raw: u64) -> (r: Option<BitWrapError>)
    ensures
        r is None <==> check_pass(*c, raw),
        r matches Some(e) ==> e == check_err(*c, raw),
{
    match c {
        Option::None => Option::None,
        Option::Some(Constraint::Exact(k)) => {
            if raw == *k {
                Option::None
            } else {
                Option::Some(BitWrapError::ValueMismatch)
            }
        },
        Option::Some(Constraint::Within { min, max }) => {
            if *min <= raw && raw <= *max {
                Option::None
            } else {
                Option::Some(BitWrapError::ValueOutOfRange)
            }
        },
    }
}

/// Read one bit-granular field's raw value and hold it to the field's
/// constraint.
pub fn unpack_scalar(src: &[u8], cur: &mut BitCursor, width: usize, check: &Option<Constraint>)
    -> (r: Result<u64, BitWrapError>)
    requires
        cursor_in(*old(cur), src@),
        1 <= width <= 64,
    ensures
        r matches Ok(v) ==> {
            &&& old(cur).pos() + width <= 8 * src@.len()
            &&& v as nat == bits_value(src@, old(cur).pos(), width as int)
            &&& check_pass(*check, v)
            &&& cursor_in(*final(cur), src@)
            &&& final(cur).pos() == old(cur).pos() + width
        },
        r is Err <==> (old(cur).pos() + width > 8 * src@.len() || !check_pass(
            *check,
            (bits_value(src@, old(cur).pos(), width as int) as u64),
        )),
        r matches Err(e) ==> e == (if old(cur).pos() + width > 8 * src@.len() {
            BitWrapError::BufferTooShort
        } else {
            check_err(*check, (bits_value(src@, old(cur).pos(), width as int) as u64))
        }),
{
    let raw = match unpack_bits(src, cur, width) {
        Ok(v) => v,
        Err(e) => {
            return Err(e);
        },
    };
    if let Option::Some(e) = check_value(check, raw) {
        return Err(e);
    }
    Ok(raw)
}

/// Read a run of whole bytes at a byte-aligned cursor.
pub fn read_bytes(src: &[u8], cur: &mut BitCursor, count: usize) -> (r: Result<
    Vec<u8>,
    BitWrapError,
>)
    requires
        cursor_in(*old(cur), src@),
        old(cur).aligned(),
    ensures
        r is Ok <==> old(cur).pos() + 8 * count <= 8 * src@.len(),
        r is Err ==> *final(cur) == *old(cur) && r == Err::<Vec<u8>, BitWrapError>(
            BitWrapError::BufferTooShort,
        ),
        r matches Ok(b) ==> {
            &&& b@ == src@.subrange(old(cur).pos() / 8, old(cur).pos() / 8 + count)
            &&& b@.len() == count
            &&& cursor_in(*final(cur), src@)
            &&& final(cur).aligned()
            &&& final(cur).pos() == old(cur).pos() + 8 * count
        },
{
    proof {
        assert(old(cur).pos() == 8 * old(cur).byte);
        lemma_bit_index(old(cur).byte as int, 0);
    }
    if src.len() - cur.byte < count {
        return Err(BitWrapError::BufferTooShort);
    }
    let piece = vstd::slice::slice_subrange(src, cur.byte, cur.byte + count);
    let b = vstd::slice::slice_to_vec(piece);
    cur.byte = cur.byte + count;
    Ok(b)
}

/// Appending a fitting value extends the fit of a value list by one.
pub proof fn lemma_vals_upto_extend(fields: Seq<Field>, s: Seq<Value>, v: Value, i: int)
    requires
        i == s.len(),
        0 <= i < fields.len(),
        vals_wf_upto(fields, s, i),
        val_wf(fields[i], v),
    ensures
        vals_wf_upto(fields, s.push(v), i + 1),
{
    lemma_vals_upto_push(fields, s, v, i);
    assert(s.push(v)[i] == v);
    assert(vals_wf_upto(fields, s.push(v), i + 1) == (vals_wf_upto(fields, s.push(v), i)
        && val_wf(fields[i], s.push(v)[i])));
}

/// One decoding step for a bit-granular field: reading its raw value moves
/// the decode on to the next field with the converted value appended.
pub proof fn lemma_dec_step_scalar(
    fields: Seq<Field>,
    s: Seq<u8>,
    pos: int,
    i: int,
    acc: Seq<AbsVal>,
    raw: u64,
    conv: AbsVal,
)
    requires
        0 <= i < fields.len(),
        raw as nat == bits_value(s, pos, crate::schema::width_rem(fields[i])),
        pos + crate::schema::width_rem(fields[i]) <= 8 * s.len(),
        check_pass(fields[i].check, raw),
        match fields[i].kind {
            FieldKind::Bits { store, .. } => conv == AbsVal::Uint(
                (raw as nat % pow2(store as nat)) as u64,
            ),
            FieldKind::Tag { count, .. } => raw < count && conv == AbsVal::Uint(raw),
            FieldKind::Skip { .. } => conv == AbsVal::Uint(raw),
            FieldKind::LenOf { .. } => conv == AbsVal::Uint(raw),
            _ => false,
        },
    ensures
        dec_fields(fields, s, pos, i, acc) == dec_fields(
            fields,
            s,
            pos + crate::schema::width_rem(fields[i]),
            i + 1,
            acc.push(conv),
        ),
{
    reveal_with_fuel(dec_fields, 2);
    assert((bits_value(s, pos, crate::schema::width_rem(fields[i])) as u64) == raw);
}

/// A failed decoding step for a bit-granular field: short input or a
/// failed constraint stops the whole decode with that error.
pub proof fn lemma_dec_stop_scalar(
    fields: Seq<Field>,
    s: Seq<u8>,
    pos: int,
    i: int,
    acc: Seq<AbsVal>,
    e: BitWrapError,
)
    requires
        0 <= i < fields.len(),
        fields[i].kind is Bits || fields[i].kind is Tag || fields[i].kind is Skip || fields[i].kind
            is LenOf,
        if pos + crate::schema::width_rem(fields[i]) > 8 * s.len() {
            e == BitWrapError::BufferTooShort
        } else {
            let raw = bits_value(s, pos, crate::schema::width_rem(fields[i])) as u64;
            if !check_pass(fields[i].check, raw) {
                e == check_err(fields[i].check, raw)
            } else {
                fields[i].kind matches FieldKind::Tag { count, .. } && raw >= count && e
                    == BitWrapError::ConversionFailure
            }
        },
    ensures
        dec_fields(fields, s, pos, i, acc) == Err::<(Seq<AbsVal>, int), BitWrapError>(e),
{
    reveal_with_fuel(dec_fields, 2);
}

/// One decoding step for a byte-granular leaf field: its bytes are read
/// whole and appended.
pub proof fn lemma_dec_step_blob(
    fields: Seq<Field>,
    s: Seq<u8>,
    pos: int,
    i: int,
    acc: Seq<AbsVal>,
    cnt: int,
)
    requires
        0 <= i < fields.len(),
        pos + 8 * cnt <= 8 * s.len(),
        match fields[i].kind {
            FieldKind::Array { count } => cnt == count,
            FieldKind::Bytes { from } => 0 <= from < acc.len() && (acc[from as int]
                matches AbsVal::Uint(x) && cnt == x),
            _ => false,
        },
    ensures
        dec_fields(fields, s, pos, i, acc) == dec_fields(
            fields,
            s,
            pos + 8 * cnt,
            i + 1,
            acc.push(AbsVal::Bytes(s.subrange(pos / 8, pos / 8 + cnt))),
        ),
{
    reveal_with_fuel(dec_fields, 2);
}

/// A failed decoding step for a byte-granular leaf field: short input
/// stops the whole decode.
pub proof fn lemma_dec_stop_blob(
    fields: Seq<Field>,
    s: Seq<u8>,
    pos: int,
    i: int,
    acc: Seq<AbsVal>,
    cnt: int,
)
    requires
        0 <= i < fields.len(),
        pos + 8 * cnt > 8 * s.len(),
        match fields[i].kind {
            FieldKind::Array { count } => cnt == count,
            FieldKind::Bytes { from } => 0 <= from < acc.len() && (acc[from as int]
                matches AbsVal::Uint(x) && cnt == x),
            _ => false,
        },
    ensures
        dec_fields(fields, s, pos, i, acc) == Err::<(Seq<AbsVal>, int), BitWrapError>(
            BitWrapError::BufferTooShort,
        ),
{
    reveal_with_fuel(dec_fields, 2);
}

/// One decoding step for a nested record: its own decode runs at the same
/// position and its values are appended as a group.
pub proof fn lemma_dec_step_group(
    fields: Seq<Field>,
    s: Seq<u8>,
    pos: int,
    i: int,
    acc: Seq<AbsVal>,
    g: Seq<AbsVal>,
    end: int,
)
    requires
        0 <= i < fields.len(),
        fields[i].kind matches FieldKind::Nested { fields: sub } && dec_record(sub@, s, pos)
            == Ok::<(Seq<AbsVal>, int), BitWrapError>((g, end)),
    ensures
        dec_fields(fields, s, pos, i, acc) == dec_fields(fields, s, end, i + 1, acc.push(
            AbsVal::Group(g),
        )),
{
    reveal_with_fuel(dec_fields, 2);
}

/// A failed decoding step for a nested record propagates its error
/// unchanged.
pub proof fn lemma_dec_stop_group(
    fields: Seq<Field>,
    s: Seq<u8>,
    pos: int,
    i: int,
    acc: Seq<AbsVal>,
    e: BitWrapError,
)
    requires
        0 <= i < fields.len(),
        fields[i].kind matches FieldKind::Nested { fields: sub } && dec_record(sub@, s, pos)
            == Err::<(Seq<AbsVal>, int), BitWrapError>(e),
    ensures
        dec_fields(fields, s, pos, i, acc) == Err::<(Seq<AbsVal>, int), BitWrapError>(e),
{
    reveal_with_fuel(dec_fields, 2);
}

/// Unpack one bit-granular field: read its raw value, hold it to the
/// constraint and the field's conversion, and append the decoded value.
#[verifier::rlimit(100)]
fn unpack_step_scalar(
    fields: &Vec<Field>,
    src: &[u8],
    cur: &mut BitCursor,
    out: &mut Vec<Value>,
    i: usize,
) -> (r: Result<(), BitWrapError>)
    requires
        i < fields@.len(),
        field_wf(fields@, i as int),
        fields@[i as int].kind is Bits || fields@[i as int].kind is Tag || fields@[i as int].kind
            is Skip || fields@[i as int].kind is LenOf,
        old(out)@.len() == i,
        vals_wf_upto(fields@, old(out)@, i as int),
        cursor_in(*old(cur), src@),
    ensures
        r is Ok ==> {
            &&& final(out)@.len() == i + 1
            &&& final(out)@ == old(out)@.push(final(out)@[i as int])
            &&& vals_wf_upto(fields@, final(out)@, i as int + 1)
            &&& cursor_in(*final(cur), src@)
            &&& final(cur).pos() == old(cur).pos() + crate::schema::width_rem(
                fields@[i as int],
            )
            &&& dec_fields(fields@, src@, old(cur).pos(), i as int, views_of(old(out)@))
                == dec_fields(fields@, src@, final(cur).pos(), i as int + 1, views_of(final(out)@))
        },
        r matches Err(e) ==> dec_fields(fields@, src@, old(cur).pos(), i as int, views_of(
            old(out)@,
        )) == Err::<(Seq<AbsVal>, int), BitWrapError>(e),
{
    let ghost pmid = old(cur).pos();
    let ghost vw = views_of(out@);
    proof {
        lemma_views_len(out@, i as int);
    }
    let f = &fields[i];
    match &f.kind {
        FieldKind::Bits { width, store } => {
            let raw = match unpack_scalar(src, cur, *width, &f.check) {
                Ok(v) => v,
                Err(e) => {
                    proof {
                        lemma_dec_stop_scalar(fields@, src@, pmid, i as int, vw, e);
                    }
                    return Err(e);
                },
            };
            let masked: u64 = if *store >= 64 {
                proof {
                    vstd::arithmetic::power2::lemma2_to64_rest();
                    assert(*store == 64);
                    vstd::arithmetic::div_mod::lemma_small_mod(raw as nat, pow2(*store as nat));
                    assert(raw as nat == raw as nat % pow2(*store as nat));
                }
                raw
            } else {
                proof {
                    vstd::bits::lemma_u64_pow2_no_overflow(*store as nat);
                    vstd::bits::lemma_u64_shl_is_mul(1u64, *store as u64);
                    vstd::bits::lemma_u64_low_bits_mask_is_mod(raw, *store as nat);
                    assert(1u64 << (*store as u64) == pow2(*store as nat));
                    assert(((1u64 << (*store as u64)) - 1) as u64 == vstd::bits::low_bits_mask(
                        *store as nat,
                    ) as u64);
                    assert((raw & (((1u64 << (*store as u64)) - 1) as u64)) as nat == raw as nat
                        % pow2(*store as nat));
                }
                raw & ((1u64 << (*store as u64)) - 1)
            };
            let v = Value::Uint(masked);
            proof {
                vstd::arithmetic::power2::lemma_pow2_pos(*store as nat);
                assert(masked as nat == raw as nat % pow2(*store as nat));
                assert(view_of(v) == AbsVal::Uint((raw as nat % pow2(*store as nat)) as u64));
                lemma_views_push(out@, v);
                lemma_vals_upto_extend(fields@, out@, v, i as int);
                lemma_dec_step_scalar(fields@, src@, pmid, i as int, vw, raw, view_of(v));
            }
            out.push(v);
            Ok(())
        },
        FieldKind::Tag { width, count } => {
            let raw = match unpack_scalar(src, cur, *width, &f.check) {
                Ok(v) => v,
                Err(e) => {
                    proof {
                        lemma_dec_stop_scalar(fields@, src@, pmid, i as int, vw, e);
                    }
                    return Err(e);
                },
            };
            if raw >= *count {
                proof {
                    assert((bits_value(src@, pmid, *width as int) as u64) == raw);
                    lemma_dec_stop_scalar(
                        fields@,
                        src@,
                        pmid,
                        i as int,
                        vw,
                        BitWrapError::ConversionFailure,
                    );
                }
                return Err(BitWrapError::ConversionFailure);
            }
            let v = Value::Uint(raw);
            proof {
                lemma_views_push(out@, v);
                lemma_vals_upto_extend(fields@, out@, v, i as int);
                lemma_dec_step_scalar(fields@, src@, pmid, i as int, vw, raw, view_of(v));
            }
            out.push(v);
            Ok(())
        },
        FieldKind::Skip { width, .. } => {
            let raw = match unpack_scalar(src, cur, *width, &f.check) {
                Ok(v) => v,
                Err(e) => {
                    proof {
                        lemma_dec_stop_scalar(fields@, src@, pmid, i as int, vw, e);
                    }
                    return Err(e);
                },
            };
            let v = Value::Uint(raw);
            proof {
                lemma_views_push(out@, v);
                lemma_vals_upto_extend(fields@, out@, v, i as int);
                lemma_dec_step_scalar(fields@, src@, pmid, i as int, vw, raw, view_of(v));
            }
            out.push(v);
            Ok(())
        },
        FieldKind::LenOf { width, .. } => {
            let raw = match unpack_scalar(src, cur, *width, &f.check) {
                Ok(v) => v,
                Err(e) => {
                    proof {
                        lemma_dec_stop_scalar(fields@, src@, pmid, i as int, vw, e);
                    }
                    return Err(e);
                },
            };
            let v = Value::Uint(raw);
            proof {
                lemma_views_push(out@, v);
                lemma_vals_upto_extend(fields@, out@, v, i as int);
                lemma_dec_step_scalar(fields@, src@, pmid, i as int, vw, raw, view_of(v));
            }
            out.push(v);
            Ok(())
        },
        _ => {
            proof {
                assert(false);
            }
            Err(BitWrapError::BufferTooShort)
        },
    }
}

/// Unpack one byte-granular leaf field (a fixed array or a dynamic byte
/// sequence) at a byte-aligned cursor and append the decoded value.
#[verifier::rlimit(100)]
fn unpack_step_bytes(
    fields: &Vec<Field>,
    src: &[u8],
    cur: &mut BitCursor,
    out: &mut Vec<Value>,
    i: usize,
) -> (r: Result<(), BitWrapError>)
    requires
        i < fields@.len(),
        field_wf(fields@, i as int),
        fields@[i as int].kind is Array || fields@[i as int].kind is Bytes,
        old(out)@.len() == i,
        vals_wf_upto(fields@, old(out)@, i as int),
        cursor_in(*old(cur), src@),
        old(cur).aligned(),
    ensures
        r is Ok ==> {
            &&& final(out)@.len() == i + 1
            &&& final(out)@ == old(out)@.push(final(out)@[i as int])
            &&& vals_wf_upto(fields@, final(out)@, i as int + 1)
            &&& cursor_in(*final(cur), src@)
            &&& final(cur).aligned()
            &&& old(cur).pos() <= final(cur).pos()
            &&& (final(cur).pos() - old(cur).pos()) % 8 == 0
            &&& dec_fields(fields@, src@, old(cur).pos(), i as int, views_of(old(out)@))
                == dec_fields(fields@, src@, final(cur).pos(), i as int + 1, views_of(final(out)@))
        },
        r matches Err(e) ==> dec_fields(fields@, src@, old(cur).pos(), i as int, views_of(
            old(out)@,
        )) == Err::<(Seq<AbsVal>, int), BitWrapError>(e),
{
    let ghost pmid = old(cur).pos();
    let ghost vw = views_of(out@);
    let len = src.len();
    proof {
        lemma_views_len(out@, i as int);
        assert(pmid == 8 * old(cur).byte);
        lemma_bit_index(old(cur).byte as int, 0);
    }
    let f = &fields[i];
    match &f.kind {
        FieldKind::Array { count } => {
            let b = match read_bytes(src, cur, *count) {
                Ok(b) => b,
                Err(e) => {
                    proof {
                        lemma_dec_stop_blob(fields@, src@, pmid, i as int, vw, *count as int);
                    }
                    return Err(e);
                },
            };
            let v = Value::Bytes(b);
            proof {
                assert(view_of(v) == AbsVal::Bytes(src@.subrange(pmid / 8, pmid / 8
                    + *count as int)));
                lemma_views_push(out@, v);
                lemma_vals_upto_extend(fields@, out@, v, i as int);
                lemma_dec_step_blob(fields@, src@, pmid, i as int, vw, *count as int);
            }
            out.push(v);
            Ok(())
        },
        FieldKind::Bytes { from } => {
            proof {
                lemma_vals_upto_at(fields@, out@, *from as int, i as int);
                lemma_views_index(out@, i as int, *from as int);
            }
            let cnt64: u64 = match &out[*from] {
                Value::Uint(x) => *x,
                _ => {
                    proof {
                        assert(false);
                    }
                    0
                },
            };
            if cnt64 > (len - cur.byte) as u64 {
                proof {
                    assert(pmid + 8 * (cnt64 as int) > 8 * len);
                    lemma_dec_stop_blob(fields@, src@, pmid, i as int, vw, cnt64 as int);
                }
                return Err(BitWrapError::BufferTooShort);
            }
            let count = cnt64 as usize;
            let b = match read_bytes(src, cur, count) {
                Ok(b) => b,
                Err(e) => {
                    proof {
                        assert(false);
                    }
                    return Err(e);
                },
            };
            let v = Value::Bytes(b);
            proof {
                assert(view_of(v) == AbsVal::Bytes(src@.subrange(pmid / 8, pmid / 8
                    + count as int)));
                lemma_views_push(out@, v);
                lemma_vals_upto_extend(fields@, out@, v, i as int);
                lemma_dec_step_blob(fields@, src@, pmid, i as int, vw, count as int);
            }
            out.push(v);
            Ok(())
        },
        _ => {
            proof {
                assert(false);
            }
            Err(BitWrapError::BufferTooShort)
        },
    }
}

/// Unpack one nested-record field at a byte-aligned cursor and append its
/// values as a group.
#[verifier::rlimit(100)]
fn unpack_step_group(
    fields: &Vec<Field>,
    src: &[u8],
    cur: &mut BitCursor,
    out: &mut Vec<Value>,
    i: usize,
) -> (r: Result<(), BitWrapError>)
    requires
        i < fields@.len(),
        field_wf(fields@, i as int),
        fields@[i as int].kind is Nested,
        old(out)@.len() == i,
        vals_wf_upto(fields@, old(out)@, i as int),
        cursor_in(*old(cur), src@),
        old(cur).aligned(),
    ensures
        r is Ok ==> {
            &&& final(out)@.len() == i + 1
            &&& final(out)@ == old(out)@.push(final(out)@[i as int])
            &&& vals_wf_upto(fields@, final(out)@, i as int + 1)
            &&& cursor_in(*final(cur), src@)
            &&& final(cur).aligned()
            &&& old(cur).pos() <= final(cur).pos()
            &&& dec_fields(fields@, src@, old(cur).pos(), i as int, views_of(old(out)@))
                == dec_fields(fields@, src@, final(cur).pos(), i as int + 1, views_of(final(out)@))
        },
        r matches Err(e) ==> dec_fields(fields@, src@, old(cur).pos(), i as int, views_of(
            old(out)@,
        )) == Err::<(Seq<AbsVal>, int), BitWrapError>(e),
    decreases fields@, 0int,
{
    let ghost pmid = old(cur).pos();
    let ghost vw = views_of(out@);
    proof {
        lemma_views_len(out@, i as int);
    }
    let f = &fields[i];
    match &f.kind {
        FieldKind::Nested { fields: sub } => {
            let g = match unpack_fields(sub, src, cur) {
                Ok(g) => g,
                Err(e) => {
                    proof {
                        lemma_dec_stop_group(fields@, src@, pmid, i as int, vw, e);
                    }
                    return Err(e);
                },
            };
            let v = Value::Group(g);
            proof {
                assert(view_of(v) == AbsVal::Group(views_of(g@)));
                lemma_views_push(out@, v);
                lemma_vals_upto_extend(fields@, out@, v, i as int);
                lemma_dec_step_group(fields@, src@, pmid, i as int, vw, views_of(g@), cur.pos());
            }
            out.push(v);
            Ok(())
        },
        _ => {
            proof {
                assert(false);
            }
            Err(BitWrapError::BufferTooShort)
        },
    }
}

/// Unpack all fields of one record at a byte-aligned cursor, in
/// declaration order, returning the decoded values.
///
/// The result is exactly what `dec_record` says of the source bytes from
/// the cursor's position: the same values on success, and the same first
/// error otherwise.
#[verifier::rlimit(100)]
pub fn unpack_fields(fields: &Vec<Field>, src: &[u8], cur: &mut BitCursor) -> (r: Result<
    Vec<Value>,
    BitWrapError,
>)
    requires
        schema_wf(fields@),
        cursor_in(*old(cur), src@),
        old(cur).aligned(),
    ensures
        r is Ok <==> dec_record(fields@, src@, old(cur).pos()) is Ok,
        r matches Err(e) ==> dec_record(fields@, src@, old(cur).pos()) == Err::<
            (Seq<AbsVal>, int),
            BitWrapError,
        >(e),
        r matches Ok(vals) ==> {
            &&& dec_record(fields@, src@, old(cur).pos()) matches Ok(p) && views_of(vals@) == p.0
                && final(cur).pos() == p.1
            &&& vals_wf(fields@, vals@)
            &&& cursor_in(*final(cur), src@)
            &&& final(cur).aligned()
            &&& old(cur).pos() <= final(cur).pos()
        },
    decreases fields@, 1int,
{
    let n = fields.len();
    let len = src.len();
    let ghost p0 = old(cur).pos();

    proof {
        lemma_bit_index(old(cur).byte as int, 0);
        assert(p0 % 8 == 0);
        assert(off_rem(fields@, 0) == 0);
        assert(views_of(Seq::<Value>::empty()) == Seq::<AbsVal>::empty());
    }

    let mut out: Vec<Value> = Vec::new();
    let mut i: usize = 0;

    while i < n
        invariant
            n == fields@.len(),
            len == src@.len(),
            schema_wf(fields@),
            0 <= i <= n,
            out@.len() == i,
            vals_wf_upto(fields@, out@, i as int),
            cursor_in(*cur, src@),
            0 <= p0 <= cur.pos(),
            p0 == old(cur).pos(),
            cur.pos() % 8 == off_rem(fields@, i as int),
            dec_record(fields@, src@, p0) == dec_fields(
                fields@,
                src@,
                cur.pos(),
                i as int,
                views_of(out@),
            ),
        decreases n - i,
    {
        let ghost pmid = cur.pos();

        proof {
            lemma_upto_field(fields@, i as int, n as int);
        }

        let f = &fields[i];
        match &f.kind {
            FieldKind::Nested { .. } => {
                proof {
                    lemma_bit_index(cur.byte as int, 8 - cur.avail);
                    assert(cur.aligned());
                }
                match unpack_step_group(fields, src, cur, &mut out, i) {
                    Ok(()) => {
                        proof {
                            lemma_bit_index(cur.byte as int, 8 - cur.avail);
                        }
                    },
                    Err(e) => {
                        return Err(e);
                    },
                }
            },
            FieldKind::Bits { .. } | FieldKind::Tag { .. } | FieldKind::Skip { .. }
                | FieldKind::LenOf { .. } => {
                match unpack_step_scalar(fields, src, cur, &mut out, i) {
                    Ok(()) => {
                        proof {
                            lemma_add_mod_noop(
                                pmid,
                                crate::schema::width_rem(fields@[i as int]),
                                8,
                            );
                        }
                    },
                    Err(e) => {
                        return Err(e);
                    },
                }
            },
            FieldKind::Array { .. } | FieldKind::Bytes { .. } => {
                proof {
                    lemma_bit_index(cur.byte as int, 8 - cur.avail);
                    assert(cur.aligned());
                }
                match unpack_step_bytes(fields, src, cur, &mut out, i) {
                    Ok(()) => {
                        proof {
                            lemma_add_mod_noop(pmid, cur.pos() - pmid, 8);
                        }
                    },
                    Err(e) => {
                        return Err(e);
                    },
                }
            },
        }
        i = i + 1;
    }

    proof {
        lemma_bit_index(cur.byte as int, 8 - cur.avail);
        assert(cur.aligned());
        assert(dec_fields(fields@, src@, cur.pos(), n as int, views_of(out@)) == Ok::<
            (Seq<AbsVal>, int),
            BitWrapError,
        >((views_of(out@), cur.pos()))) by {
            reveal_with_fuel(dec_fields, 1);
        }
    }
    Ok(out)
}

impl crate::BitWrapExt for Record {
    /// The record's encoding: its fields' bits in declaration order.
    open spec fn wire(&self) -> Seq<bool> {
        enc_record(self.spec_fields(), self.spec_values())
    }

    /// Unpacking replaces the values with what `dec_record` reads from the
    /// start of the source, consuming that many whole bytes; the schema
    /// stays.
    open spec fn unpack_rel(pre: Record, src: Seq<u8>, post: Record, used: int) -> bool {
        &&& post.spec_fields() == pre.spec_fields()
        &&& dec_record(pre.spec_fields(), src, 0) == Ok::<(Seq<AbsVal>, int), BitWrapError>(
            (views_of(post.spec_values()), 8 * used),
        )
    }

    /// Unpacking succeeds exactly when decoding the source does.
    open spec fn unpack_accepts(pre: Record, src: Seq<u8>) -> bool {
        dec_record(pre.spec_fields(), src, 0) is Ok
    }

    /// Unpacking fails exactly with the decode's error.
    open spec fn unpack_rejects(pre: Record, src: Seq<u8>, e: BitWrapError) -> bool {
        dec_record(pre.spec_fields(), src, 0) == Err::<(Seq<AbsVal>, int), BitWrapError>(e)
    }

    fn pack(&self, dst: &mut [u8]) -> (r: Result<usize, BitWrapError>) {
        proof {
            use_type_invariant(self);
        }
        let ghost s0 = dst@;
        let mut cur = BitCursor::new();
        let fs = self.schema.fields();
        match pack_fields(fs, &self.values, dst, &mut cur) {
            Ok(()) => {
                proof {
                    lemma_bit_index(cur.byte as int, 0);
                    assert(8 * cur.byte == self.wire().len());
                    assert forall|k: int|
                        0 <= k < s0.len() && self.wire().len() <= 8 * k implies #[trigger] dst@[k]
                        == s0[k] by {
                        lemma_byte_of_bits(dst@, s0, k);
                    }
                }
                Ok(cur.byte)
            },
            Err(e) => Err(e),
        }
    }

    fn unpack(&mut self, src: &[u8]) -> (r: Result<usize, BitWrapError>) {
        proof {
            use_type_invariant(&*self);
        }
        let mut cur = BitCursor::new();
        let fs = self.schema.fields();
        match unpack_fields(fs, src, &mut cur) {
            Ok(vals) => {
                proof {
                    lemma_bit_index(cur.byte as int, 0);
                }
                self.values = vals;
                Ok(cur.byte)
            },
            Err(e) => Err(e),
        }
    }
}

/// Check one value against one field's shape.
pub fn val_valid(f: &Field, v: &Value) -> (r: bool)
    ensures
        r == val_wf(*f, *v),
    decreases v,
{
    match (&f.kind, v) {
        (FieldKind::Bits { store, .. }, Value::Uint(x)) => {
            if *store >= 64 {
                proof {
                    vstd::arithmetic::power2::lemma2_to64_rest();
                    if *store > 64 {
                        vstd::arithmetic::power2::lemma_pow2_strictly_increases(
                            64,
                            *store as nat,
                        );
                    }
                }
                true
            } else {
                proof {
                    vstd::bits::lemma_u64_pow2_no_overflow(*store as nat);
                    vstd::bits::lemma_u64_shl_is_mul(1u64, *store as u64);
                }
                *x < (1u64 << (*store as u64))
            }
        },
        (FieldKind::Tag { count, .. }, Value::Uint(x)) => *x < *count,
        (FieldKind::Skip { .. }, Value::Uint(..)) => true,
        (FieldKind::LenOf { .. }, Value::Uint(..)) => true,
        (FieldKind::Nested { fields: sub }, Value::Group(g)) => {
            g.len() == sub.len() && values_valid_upto(sub, g, sub.len())
        },
        (FieldKind::Array { count }, Value::Bytes(b)) => b.len() == *count,
        (FieldKind::Bytes { .. }, Value::Bytes(..)) => true,
        _ => {
            proof {
                assert(!val_wf(*f, *v));
            }
            false
        },
    }
}

/// Check the first `n` values against their fields.
pub fn values_valid_upto(fields: &Vec<Field>, vals: &Vec<Value>, n: usize) -> (r: bool)
    requires
        n <= fields@.len(),
        n <= vals@.len(),
    ensures
        r == vals_wf_upto(fields@, vals@, n as int),
    decreases vals@, n,
{
    let mut i: usize = 0;
    while i < n
        invariant
            0 <= i <= n,
            n <= fields@.len(),
            n <= vals@.len(),
            vals_wf_upto(fields@, vals@, i as int),
        decreases n - i,
    {
        if !val_valid(&fields[i], &vals[i]) {
            proof {
                if vals_wf_upto(fields@, vals@, n as int) {
                    lemma_vals_upto_at(fields@, vals@, i as int, n as int);
                    assert(false);
                }
            }
            return false;
        }
        proof {
            assert(vals_wf_upto(fields@, vals@, i + 1));
        }
        i = i + 1;
    }
    true
}

} // verus!
