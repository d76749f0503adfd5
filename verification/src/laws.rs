//! The laws the codec obeys: packing a record whose values fit their
//! fields and decoding the result gives every field value back, and both
//! directions move over the same number of bytes.

use vstd::prelude::*;
use vstd::arithmetic::power2::pow2;
use crate::BitWrapError;
use crate::bits::{
    bits_value, byte_bits, lemma_bits_value_of_field, lemma_bytes_match, stream_bit, uint_bits,
};
use crate::record::{
    bytes_of, check_pass, dec_fields, dec_record, enc_field, enc_record, enc_upto,
    lemma_dec_step_blob, lemma_dec_step_group, lemma_dec_step_scalar, lemma_enc_len_rem,
    lemma_enc_upto_mono, lemma_vals_upto_at, lemma_vals_upto_prefix, len_val, uint_of, vals_wf,
    view_of, AbsVal, Value,
};
use crate::schema::{
    lemma_upto_field, lemma_upto_prefix, schema_wf, Field, FieldKind,
};

verus! {

broadcast use vstd::seq::axiom_seq_index_decreases, vstd::std_specs::vec::axiom_vec_decreases_to_view;

/// The value at field `i` survives the wire: it is narrow enough for the
/// field's width and passes the field's own decode-time checks.
pub open spec fn fits_at(fields: Seq<Field>, vals: Seq<Value>, i: int) -> bool
    decreases vals, 0int,
{
    0 <= i < fields.len() && i < vals.len() && match fields[i].kind {
        FieldKind::Bits { width, .. } => uint_of(vals[i]) < pow2(width as nat) && check_pass(
            fields[i].check,
            uint_of(vals[i]),
        ),
        FieldKind::Tag { .. } => check_pass(fields[i].check, uint_of(vals[i])),
        FieldKind::Skip { width, emit } => check_pass(
            fields[i].check,
            (emit as nat % pow2(width as nat)) as u64,
        ),
        FieldKind::LenOf { width, target } => (0 <= target < vals.len() && bytes_of(
            vals[target as int],
        ).len() < pow2(width as nat)) && check_pass(
            fields[i].check,
            len_val(vals, target as int),
        ),
        FieldKind::Nested { fields: sub } => match vals[i] {
            Value::Group(g) => fits_upto(sub@, g@, sub@.len() as int),
            _ => false,
        },
        FieldKind::Array { .. } => true,
        FieldKind::Bytes { .. } => true,
    }
}

/// The first `n` values all survive the wire.
pub open spec fn fits_upto(fields: Seq<Field>, vals: Seq<Value>, n: int) -> bool
    decreases vals, n,
{
    n <= 0 || (fits_upto(fields, vals, n - 1) && fits_at(fields, vals, n - 1))
}

/// Every value of the record survives the wire.
pub open spec fn fits(fields: Seq<Field>, vals: Seq<Value>) -> bool {
    fits_upto(fields, vals, fields.len() as int)
}

/// A field's raw wire value fits a 64-bit word.
proof fn lemma_raw_fits(s: Seq<u8>, pos: int, w: int)
    requires
        0 <= w <= 64,
    ensures
        (bits_value(s, pos, w) as u64) as nat == bits_value(s, pos, w),
        bits_value(s, pos, w) < pow2(w as nat),
{
    crate::bits::lemma_bits_value_bound(s, pos, w);
    vstd::arithmetic::power2::lemma2_to64_rest();
    if w < 64 {
        vstd::arithmetic::power2::lemma_pow2_strictly_increases(w as nat, 64);
    }
}

/// Each of a surviving prefix survives.
pub proof fn lemma_fits_at(fields: Seq<Field>, vals: Seq<Value>, i: int, n: int)
    requires
        fits_upto(fields, vals, n),
        0 <= i < n,
    ensures
        fits_at(fields, vals, i),
    decreases n,
{
    if i < n - 1 {
        lemma_fits_at(fields, vals, i, n - 1);
    }
}

/// What decoding gives back for field `i` of a packed record: the stored
/// value for plain, tag, nested, array and sequence fields; the emitted
/// constant for a reserved field; the measured length for a derived
/// length field.
pub open spec fn rt_val(fields: Seq<Field>, vals: Seq<Value>, i: int) -> AbsVal
    decreases vals, 0int,
{
    if !(0 <= i < fields.len() && i < vals.len()) {
        AbsVal::Uint(0)
    } else {
        match fields[i].kind {
            FieldKind::Bits { .. } => AbsVal::Uint(uint_of(vals[i])),
            FieldKind::Tag { .. } => AbsVal::Uint(uint_of(vals[i])),
            FieldKind::Skip { width, emit } => AbsVal::Uint(
                (emit as nat % pow2(width as nat)) as u64,
            ),
            FieldKind::LenOf { target, .. } => AbsVal::Uint(len_val(vals, target as int)),
            FieldKind::Nested { fields: sub } => match vals[i] {
                Value::Group(g) => AbsVal::Group(rt_upto(sub@, g@, sub@.len() as int)),
                _ => AbsVal::Uint(0),
            },
            FieldKind::Array { .. } => AbsVal::Bytes(bytes_of(vals[i])),
            FieldKind::Bytes { .. } => AbsVal::Bytes(bytes_of(vals[i])),
        }
    }
}

/// What decoding gives back for the first `n` fields.
pub open spec fn rt_upto(fields: Seq<Field>, vals: Seq<Value>, n: int) -> Seq<AbsVal>
    decreases vals, n,
{
    if n <= 0 {
        Seq::empty()
    } else {
        rt_upto(fields, vals, n - 1).push(rt_val(fields, vals, n - 1))
    }
}

/// What decoding gives back for the whole record.
pub open spec fn rt_views(fields: Seq<Field>, vals: Seq<Value>) -> Seq<AbsVal> {
    rt_upto(fields, vals, fields.len() as int)
}

/// Round-trip shape lists index pointwise.
pub proof fn lemma_rt_index(fields: Seq<Field>, vals: Seq<Value>, n: int, i: int)
    requires
        0 <= n,
    ensures
        rt_upto(fields, vals, n).len() == n,
        0 <= i < n ==> rt_upto(fields, vals, n)[i] == rt_val(fields, vals, i),
    decreases n,
{
    if n > 0 {
        lemma_rt_index(fields, vals, n - 1, i);
    }
}

/// A longer encoding prefix agrees with a shorter one on the bits they
/// share.
pub proof fn lemma_enc_prefix_agree(fields: Seq<Field>, vals: Seq<Value>, i: int, n: int)
    requires
        0 <= i <= n,
    ensures
        enc_upto(fields, vals, i).len() <= enc_upto(fields, vals, n).len(),
        forall|j: int|
            0 <= j < enc_upto(fields, vals, i).len() ==> #[trigger] enc_upto(fields, vals, n)[j]
                == enc_upto(fields, vals, i)[j],
    decreases n,
{
    if i < n {
        lemma_enc_prefix_agree(fields, vals, i, n - 1);
    }
}

/// Round trip, from any field on: decoding the packed bits of the fields
/// from `i` on, with the round-trip values of the earlier fields already
/// in hand, yields the round-trip values of the whole record and stops
/// just past its encoding.
#[verifier::rlimit(100)]
proof fn lemma_round_trip_from(fields: Seq<Field>, vals: Seq<Value>, s: Seq<u8>, p0: int, i: int)
    requires
        schema_wf(fields),
        vals_wf(fields, vals),
        fits(fields, vals),
        0 <= p0,
        p0 % 8 == 0,
        p0 + enc_record(fields, vals).len() <= 8 * s.len(),
        forall|j: int|
            p0 <= j < p0 + enc_record(fields, vals).len() ==> #[trigger] stream_bit(s, j)
                == enc_record(fields, vals)[j - p0],
        0 <= i <= fields.len(),
    ensures
        dec_fields(
            fields,
            s,
            p0 + enc_upto(fields, vals, i).len(),
            i,
            rt_upto(fields, vals, i),
        ) == Ok::<(Seq<AbsVal>, int), BitWrapError>(
            (rt_views(fields, vals), p0 + enc_record(fields, vals).len()),
        ),
    decreases fields, fields.len() - i,
{
    let n = fields.len() as int;
    let enc = enc_record(fields, vals);
    let pos = p0 + enc_upto(fields, vals, i).len();
    if i == n {
        reveal_with_fuel(dec_fields, 1);
    } else {
        lemma_upto_field(fields, i, n);
        lemma_vals_upto_at(fields, vals, i, n);
        lemma_fits_at(fields, vals, i, n);
        lemma_enc_upto_mono(fields, vals, i + 1, n);
        lemma_enc_prefix_agree(fields, vals, i + 1, n);
        let piece = enc_field(fields, vals, i);
        let acc = rt_upto(fields, vals, i);
        assert(enc_upto(fields, vals, i + 1) == enc_upto(fields, vals, i) + piece);
        // The bits of field i stand at its offset in the record's bits.
        assert forall|k: int| 0 <= k < piece.len() implies #[trigger] stream_bit(s, pos + k)
            == piece[k] by {
            assert(enc_upto(fields, vals, i + 1)[pos - p0 + k] == piece[k]);
            assert(enc[pos - p0 + k] == enc_upto(fields, vals, i + 1)[pos - p0 + k]);
            assert(stream_bit(s, pos + k) == enc[pos - p0 + k]);
        }
        // Alignment of this field's start.
        lemma_upto_prefix(fields, i, n);
        lemma_vals_upto_prefix(fields, vals, i, n);
        lemma_enc_len_rem(fields, vals, i);
        vstd::arithmetic::div_mod::lemma_add_mod_noop(
            p0,
            enc_upto(fields, vals, i).len() as int,
            8,
        );
        match fields[i].kind {
            FieldKind::Bits { width, store } => {
                lemma_raw_fits(s, pos, width as int);
                let x = uint_of(vals[i]);
                assert(piece == uint_bits(x, width as int));
                lemma_bits_value_of_field(s, pos, x, width as int);
                vstd::arithmetic::div_mod::lemma_small_mod(x as nat, pow2(width as nat));
                let raw = bits_value(s, pos, width as int) as u64;
                assert(raw == x);
                vstd::arithmetic::div_mod::lemma_small_mod(x as nat, pow2(store as nat));
                assert(rt_val(fields, vals, i) == AbsVal::Uint((raw as nat % pow2(
                    store as nat,
                )) as u64));
                lemma_dec_step_scalar(fields, s, pos, i, acc, raw, rt_val(fields, vals, i));
            },
            FieldKind::Tag { width, count } => {
                lemma_raw_fits(s, pos, width as int);
                let x = uint_of(vals[i]);
                assert(piece == uint_bits(x, width as int));
                lemma_bits_value_of_field(s, pos, x, width as int);
                assert(x < count);
                if (count as nat) < pow2(width as nat) {
                    vstd::arithmetic::power2::lemma_pow2_pos(width as nat);
                }
                vstd::arithmetic::div_mod::lemma_small_mod(x as nat, pow2(width as nat));
                let raw = bits_value(s, pos, width as int) as u64;
                assert(raw == x);
                lemma_dec_step_scalar(fields, s, pos, i, acc, raw, rt_val(fields, vals, i));
            },
            FieldKind::Skip { width, emit } => {
                lemma_raw_fits(s, pos, width as int);
                assert(piece == uint_bits(emit, width as int));
                lemma_bits_value_of_field(s, pos, emit, width as int);
                let raw = bits_value(s, pos, width as int) as u64;
                assert(raw == (emit as nat % pow2(width as nat)) as u64) by {
                    vstd::arithmetic::power2::lemma_pow2_pos(width as nat);
                }
                lemma_dec_step_scalar(fields, s, pos, i, acc, raw, rt_val(fields, vals, i));
            },
            FieldKind::LenOf { width, target } => {
                lemma_raw_fits(s, pos, width as int);
                let x = len_val(vals, target as int);
                assert(x as nat == bytes_of(vals[target as int]).len() && x < pow2(
                    width as nat,
                )) by {
                    vstd::arithmetic::power2::lemma2_to64_rest();
                    if width < 64 {
                        vstd::arithmetic::power2::lemma_pow2_strictly_increases(
                            width as nat,
                            64,
                        );
                    }
                }
                assert(piece == uint_bits(x, width as int));
                lemma_bits_value_of_field(s, pos, x, width as int);
                vstd::arithmetic::div_mod::lemma_small_mod(x as nat, pow2(width as nat));
                let raw = bits_value(s, pos, width as int) as u64;
                assert(raw == x);
                lemma_dec_step_scalar(fields, s, pos, i, acc, raw, rt_val(fields, vals, i));
            },
            FieldKind::Nested { fields: sub } => {
                match vals[i] {
                    Value::Group(g) => {
                        assert(piece == enc_record(sub@, g@));
                        lemma_round_trip(sub@, g@, s, pos);
                        assert(rt_val(fields, vals, i) == AbsVal::Group(rt_views(sub@, g@)));
                        lemma_dec_step_group(
                            fields,
                            s,
                            pos,
                            i,
                            acc,
                            rt_views(sub@, g@),
                            pos + piece.len(),
                        );
                    },
                    _ => {
                        assert(false);
                    },
                }
            },
            FieldKind::Array { count } => {
                let data = bytes_of(vals[i]);
                assert(piece == byte_bits(data));
                assert forall|j: int|
                    pos <= j < pos + 8 * data.len() implies #[trigger] stream_bit(s, j)
                    == stream_bit(data, j - pos) by {
                    assert(stream_bit(s, j) == piece[j - pos]);
                }
                lemma_bytes_match(s, pos, data);
                assert(rt_val(fields, vals, i) == AbsVal::Bytes(
                    s.subrange(pos / 8, pos / 8 + count),
                ));
                lemma_dec_step_blob(fields, s, pos, i, acc, count as int);
            },
            FieldKind::Bytes { from } => {
                let data = bytes_of(vals[i]);
                assert(piece == byte_bits(data));
                assert forall|j: int|
                    pos <= j < pos + 8 * data.len() implies #[trigger] stream_bit(s, j)
                    == stream_bit(data, j - pos) by {
                    assert(stream_bit(s, j) == piece[j - pos]);
                }
                lemma_bytes_match(s, pos, data);
                // The length prefix paired with this field decoded to this
                // field's own byte length.
                lemma_rt_index(fields, vals, i, from as int);
                lemma_upto_field(fields, from as int, n);
                lemma_fits_at(fields, vals, from as int, n);
                assert(fields[from as int].kind matches FieldKind::LenOf { target, .. } && target
                    == i);
                assert(acc[from as int] == rt_val(fields, vals, from as int));
                assert(rt_val(fields, vals, from as int) == AbsVal::Uint(len_val(vals, i)));
                vstd::arithmetic::power2::lemma2_to64_rest();
                let fw = fields[from as int].kind->LenOf_width;
                if fw < 64 {
                    vstd::arithmetic::power2::lemma_pow2_strictly_increases(fw as nat, 64);
                }
                assert(data.len() < 0x10000000000000000);
                assert(len_val(vals, i) == data.len());
                assert(rt_val(fields, vals, i) == AbsVal::Bytes(
                    s.subrange(pos / 8, pos / 8 + data.len() as int),
                ));
                lemma_dec_step_blob(fields, s, pos, i, acc, data.len() as int);
            },
        }
        assert(rt_upto(fields, vals, i + 1) == acc.push(rt_val(fields, vals, i)));
        lemma_round_trip_from(fields, vals, s, p0, i + 1);
    }
}

/// Round-trip identity: unpacking what packing a record wrote reproduces
/// the record's field values bit for bit, except that a reserved field
/// comes back as its emitted constant and a derived length field as the
/// length it measured.  Holds for every record whose values fit their
/// fields' widths and constraints, wherever in a sufficiently large
/// buffer the record's bits stand, whatever follows them.
pub proof fn lemma_round_trip(fields: Seq<Field>, vals: Seq<Value>, s: Seq<u8>, p0: int)
    requires
        schema_wf(fields),
        vals_wf(fields, vals),
        fits(fields, vals),
        0 <= p0,
        p0 % 8 == 0,
        p0 + enc_record(fields, vals).len() <= 8 * s.len(),
        forall|j: int|
            p0 <= j < p0 + enc_record(fields, vals).len() ==> #[trigger] stream_bit(s, j)
                == enc_record(fields, vals)[j - p0],
    ensures
        dec_record(fields, s, p0) == Ok::<(Seq<AbsVal>, int), BitWrapError>(
            (rt_views(fields, vals), p0 + enc_record(fields, vals).len()),
        ),
    decreases fields, fields.len() + 1,
{
    assert(enc_upto(fields, vals, 0).len() == 0);
    assert(rt_upto(fields, vals, 0) == Seq::<AbsVal>::empty());
    lemma_round_trip_from(fields, vals, s, p0, 0);
}

/// A plain, tag, array or sequence field comes back from the round trip
/// exactly as it was stored.
pub proof fn lemma_round_trip_keeps(fields: Seq<Field>, vals: Seq<Value>, i: int)
    requires
        schema_wf(fields),
        vals_wf(fields, vals),
        0 <= i < fields.len(),
        match fields[i].kind {
            FieldKind::Bits { .. } => true,
            FieldKind::Tag { .. } => true,
            FieldKind::Array { .. } => true,
            FieldKind::Bytes { .. } => true,
            _ => false,
        },
    ensures
        rt_views(fields, vals)[i] == view_of(vals[i]),
{
    lemma_rt_index(fields, vals, fields.len() as int, i);
    lemma_vals_upto_at(fields, vals, i, fields.len() as int);
}

/// A field neither reserved nor derived, down through nested records.
pub open spec fn plain_field(f: Field) -> bool
    decreases f, 0int,
{
    match f.kind {
        FieldKind::Skip { .. } => false,
        FieldKind::LenOf { .. } => false,
        FieldKind::Nested { fields: sub } => plain_upto(sub@, sub@.len() as int),
        _ => true,
    }
}

/// The first `n` fields are all plain.
pub open spec fn plain_upto(fields: Seq<Field>, n: int) -> bool
    decreases fields, n,
{
    if n <= 0 {
        true
    } else if n > fields.len() {
        plain_upto(fields, n - 1)
    } else {
        plain_upto(fields, n - 1) && plain_field(fields[n - 1])
    }
}

/// Each of a plain prefix is plain.
pub proof fn lemma_plain_at(fields: Seq<Field>, i: int, n: int)
    requires
        plain_upto(fields, n),
        0 <= i < n <= fields.len(),
    ensures
        plain_field(fields[i]),
    decreases n,
{
    if i < n - 1 {
        lemma_plain_at(fields, i, n - 1);
    }
}

/// On a record with no reserved and no derived fields anywhere, the round
/// trip reproduces every field value exactly.
pub proof fn lemma_round_trip_exact(fields: Seq<Field>, vals: Seq<Value>, n: int)
    requires
        vals_wf(fields, vals),
        plain_upto(fields, fields.len() as int),
        0 <= n <= fields.len(),
    ensures
        rt_upto(fields, vals, n) == crate::record::views_upto(vals, n),
    decreases vals, n,
{
    if n > 0 {
        lemma_round_trip_exact(fields, vals, n - 1);
        let i = n - 1;
        lemma_plain_at(fields, i, fields.len() as int);
        lemma_vals_upto_at(fields, vals, i, fields.len() as int);
        match fields[i].kind {
            FieldKind::Nested { fields: sub } => {
                match vals[i] {
                    Value::Group(g) => {
                        lemma_round_trip_exact(sub@, g@, sub@.len() as int);
                        assert(rt_val(fields, vals, i) == view_of(vals[i]));
                    },
                    _ => {
                        assert(false);
                    },
                }
            },
            _ => {
                assert(rt_val(fields, vals, i) == view_of(vals[i]));
            },
        }
    }
}

/// Byte-count agreement: packing and then unpacking one record move over
/// exactly the same number of bytes, the record's whole-byte encoded size.
pub proof fn lemma_byte_count_agreement(fields: Seq<Field>, vals: Seq<Value>, s: Seq<u8>, p0: int)
    requires
        schema_wf(fields),
        vals_wf(fields, vals),
        fits(fields, vals),
        0 <= p0,
        p0 % 8 == 0,
        p0 + enc_record(fields, vals).len() <= 8 * s.len(),
        forall|j: int|
            p0 <= j < p0 + enc_record(fields, vals).len() ==> #[trigger] stream_bit(s, j)
                == enc_record(fields, vals)[j - p0],
    ensures
        enc_record(fields, vals).len() % 8 == 0,
        dec_record(fields, s, p0) matches Ok(p) && 8 * ((p.1 - p0) / 8) == p.1 - p0 && (p.1 - p0)
            / 8 == enc_record(fields, vals).len() / 8,
{
    lemma_enc_len_rem(fields, vals, fields.len() as int);
    lemma_round_trip(fields, vals, s, p0);
    vstd::arithmetic::div_mod::lemma_fundamental_div_mod(
        enc_record(fields, vals).len() as int,
        8,
    );
}

} // verus!
