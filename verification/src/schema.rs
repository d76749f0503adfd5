//! Field descriptors and schemas.  A schema is an ordered list of field
//! descriptors; building one validates it: widths must be in range, every
//! byte-granular field must fall on a byte boundary, length prefixes must
//! pair up with the sequence they measure, and the whole record must end on
//! a byte boundary.

use vstd::prelude::*;
use vstd::arithmetic::power2::pow2;

verus! {

broadcast use vstd::seq::axiom_seq_index_decreases, vstd::std_specs::vec::axiom_vec_decreases_to_view;

/// A value constraint checked when a field is decoded.
#[derive(Debug, Clone, Copy, PartialEq, Eq, Structural)]
pub enum Constraint {
    /// The decoded raw value must equal this value.
    Exact(u64),
    /// The decoded raw value must lie in this inclusive range.
    Within { min: u64, max: u64 },
}

/// What one field is: its width and its policy.
#[derive(Debug)]
pub enum FieldKind {
    /// A plain unsigned field of `width` bits, held in storage of
    /// `store` bits: a decoded value is reduced to its low `store` bits,
    /// as the storing cast would do.
    Bits { width: usize, store: usize },
    /// An enumeration tag of `width` bits whose raw values `0 .. count`
    /// are the recognised ones; decoding any other raw value fails.
    Tag { width: usize, count: u64 },
    /// A reserved field with no caller storage: packing always emits the
    /// low `width` bits of `emit`; decoding consumes and keeps the raw
    /// bits without validating them, unless a constraint is attached.
    Skip { width: usize, emit: u64 },
    /// A nested record, byte-aligned, with its own field list.
    Nested { fields: Vec<Field> },
    /// A fixed-size raw byte array of exactly `count` bytes, byte-aligned.
    Array { count: usize },
    /// A derived length field of `width` bits: packing emits the byte
    /// length of the sibling field at index `target`; decoding stores the
    /// raw length read.
    LenOf { width: usize, target: usize },
    /// A dynamic byte sequence, byte-aligned, whose byte length on decode
    /// is the already-decoded value of the sibling field at index `from`.
    Bytes { from: usize },
}

/// One field descriptor: its kind and an optional decode constraint.
#[derive(Debug)]
pub struct Field {
    pub kind: FieldKind,
    pub check: Option<Constraint>,
}

/// The bits a field contributes to its record's static bit offset: byte
/// sized fields always contribute whole bytes, so only bit-granular widths
/// move the offset off a byte boundary.
pub open spec fn width_rem(f: Field) -> int {
    match f.kind {
        FieldKind::Bits { width, .. } => width as int,
        FieldKind::Tag { width, .. } => width as int,
        FieldKind::Skip { width, .. } => width as int,
        FieldKind::LenOf { width, .. } => width as int,
        FieldKind::Nested { .. } => 0,
        FieldKind::Array { .. } => 0,
        FieldKind::Bytes { .. } => 0,
    }
}

/// The static bit offset of field `i`, modulo 8.
pub open spec fn off_rem(fields: Seq<Field>, i: int) -> int
    decreases i,
{
    if i <= 0 {
        0
    } else {
        (off_rem(fields, i - 1) + width_rem(fields[i - 1])) % 8
    }
}

/// Whether a constraint may be attached to this kind of field: only
/// bit-granular fields carry one.
pub open spec fn check_allowed(f: Field) -> bool {
    f.check is Some ==> match f.kind {
        FieldKind::Bits { .. } => true,
        FieldKind::Tag { .. } => true,
        FieldKind::Skip { .. } => true,
        FieldKind::LenOf { .. } => true,
        _ => false,
    }
}

/// Well-formedness of the descriptor at index `i` of `fields`.
pub open spec fn field_wf(fields: Seq<Field>, i: int) -> bool
    decreases fields[i], 0int,
{
    check_allowed(fields[i]) && match fields[i].kind {
        FieldKind::Bits { width, store } => 1 <= width <= 64 && 1 <= store <= 64,
        FieldKind::Tag { width, count } => 1 <= width <= 64 && 1 <= count <= pow2(width as nat),
        FieldKind::Skip { width, .. } => 1 <= width <= 64,
        FieldKind::LenOf { width, target } => {
            &&& 1 <= width <= 64
            &&& i < target < fields.len()
            &&& (fields[target as int].kind matches FieldKind::Bytes { from } && from == i)
        },
        FieldKind::Nested { fields: sub } => schema_wf(sub@) && off_rem(fields, i) == 0,
        FieldKind::Array { .. } => off_rem(fields, i) == 0,
        FieldKind::Bytes { from } => {
            &&& off_rem(fields, i) == 0
            &&& 0 <= from < i
            &&& (fields[from as int].kind matches FieldKind::LenOf { target, .. } && target == i)
        },
    }
}

/// The first `n` descriptors of `fields` are all sound.
pub open spec fn fields_wf_upto(fields: Seq<Field>, n: int) -> bool
    decreases fields, n,
{
    if n <= 0 {
        true
    } else if n > fields.len() {
        fields_wf_upto(fields, n - 1)
    } else {
        fields_wf_upto(fields, n - 1) && field_wf(fields, n - 1)
    }
}

/// Well-formedness of a whole field list: every descriptor is sound and
/// the record ends on a byte boundary.
pub open spec fn schema_wf(fields: Seq<Field>) -> bool
    decreases fields, fields.len() + 1,
{
    &&& fields_wf_upto(fields, fields.len() as int)
    &&& off_rem(fields, fields.len() as int) == 0
}

/// Each descriptor of a sound prefix is itself sound.
pub proof fn lemma_upto_field(fields: Seq<Field>, i: int, n: int)
    requires
        fields_wf_upto(fields, n),
        0 <= i < n <= fields.len(),
    ensures
        field_wf(fields, i),
    decreases n,
{
    if i < n - 1 {
        lemma_upto_field(fields, i, n - 1);
    }
}

/// A prefix of a sound prefix is sound.
pub proof fn lemma_upto_prefix(fields: Seq<Field>, i: int, n: int)
    requires
        fields_wf_upto(fields, n),
        0 <= i <= n,
    ensures
        fields_wf_upto(fields, i),
    decreases n,
{
    if i < n {
        lemma_upto_prefix(fields, i, n - 1);
    }
}

/// Check a field list against `schema_wf`, descending into nested records.
pub fn fields_valid(fields: &Vec<Field>) -> (r: bool)
    ensures
        r == schema_wf(fields@),
    decreases fields@,
{
    let n = fields.len();
    let mut rem: usize = 0;
    let mut i: usize = 0;

    while i < n
        invariant
            0 <= i <= n,
            n == fields@.len(),
            rem == off_rem(fields@, i as int),
            rem < 8,
            fields_wf_upto(fields@, i as int),
        decreases n - i,
    {
        let f = &fields[i];
        let ok: bool = match &f.kind {
            FieldKind::Bits { width, store } => {
                let v = 1 <= *width && *width <= 64 && 1 <= *store && *store <= 64;
                proof {
                    assert(v == field_wf(fields@, i as int));
                }
                v
            },
            FieldKind::Tag { width, count } => {
                let widthok = 1 <= *width && *width <= 64;
                let v = if !widthok {
                    false
                } else if *width == 64 {
                    proof {
                        vstd::arithmetic::power2::lemma2_to64_rest();
                    }
                    *count >= 1
                } else {
                    proof {
                        vstd::bits::lemma_u64_pow2_no_overflow(*width as nat);
                        vstd::bits::lemma_u64_shl_is_mul(1u64, *width as u64);
                    }
                    *count >= 1 && *count <= (1u64 << (*width as u64))
                };
                proof {
                    assert(v == field_wf(fields@, i as int));
                }
                v
            },
            FieldKind::Skip { width, .. } => {
                let v = 1 <= *width && *width <= 64;
                proof {
                    assert(v == field_wf(fields@, i as int));
                }
                v
            },
            FieldKind::LenOf { width, target } => {
                let widthok = 1 <= *width && *width <= 64;
                let v = if widthok && i < *target && *target < n {
                    match &fields[*target].kind {
                        FieldKind::Bytes { from } => *from == i,
                        _ => false,
                    }
                } else {
                    false
                };
                proof {
                    assert(v == field_wf(fields@, i as int));
                }
                v
            },
            FieldKind::Nested { fields: sub } => {
                let v = f.check.is_none() && rem == 0 && fields_valid(sub);
                proof {
                    assert(v == field_wf(fields@, i as int));
                }
                v
            },
            FieldKind::Array { .. } => {
                let v = f.check.is_none() && rem == 0;
                proof {
                    assert(v == field_wf(fields@, i as int));
                }
                v
            },
            FieldKind::Bytes { from } => {
                let v = if f.check.is_none() && rem == 0 && *from < i {
                    match &fields[*from].kind {
                        FieldKind::LenOf { target, .. } => *target == i,
                        _ => false,
                    }
                } else {
                    false
                };
                proof {
                    assert(v == field_wf(fields@, i as int));
                }
                v
            },
        };
        if !ok {
            proof {
                assert(!field_wf(fields@, i as int));
                if schema_wf(fields@) {
                    lemma_upto_field(fields@, i as int, n as int);
                    assert(false);
                }
            }
            return false;
        }
        let step: usize = match &fields[i].kind {
            FieldKind::Bits { width, .. } => *width,
            FieldKind::Tag { width, .. } => *width,
            FieldKind::Skip { width, .. } => *width,
            FieldKind::LenOf { width, .. } => *width,
            _ => 0,
        };
        proof {
            assert(step == width_rem(fields@[i as int]));
            assert(fields_wf_upto(fields@, i + 1));
        }
        rem = (rem + step) % 8;
        i = i + 1;
    }

    rem == 0
}

/// A validated schema: an ordered list of field descriptors that passed
/// `schema_wf` when the schema was built.
#[derive(Debug)]
pub struct Schema {
    fields: Vec<Field>,
}

impl Schema {
    /// Every schema in existence has passed validation.
    #[verifier::type_invariant]
    spec fn inv(self) -> bool {
        schema_wf(self.fields@)
    }

    /// The descriptor list.
    pub closed spec fn spec_fields(self) -> Seq<Field> {
        self.fields@
    }

    /// Validate a descriptor list into a schema.  Returns `None`, exactly
    /// when the list breaks a schema rule: a width out of range, a byte
    /// granular field off a byte boundary, an unpaired length prefix or
    /// sequence, or a record that does not end on a byte boundary.
    pub fn new(fields: Vec<Field>) -> (r: Option<Schema>)
        ensures
            r is Some <==> schema_wf(fields@),
            r matches Some(s) ==> s.spec_fields() == fields@,
    {
        if fields_valid(&fields) {
            Some(Schema { fields })
        } else {
            None
        }
    }

    /// The descriptor list, for reading.
    pub fn fields(&self) -> (r: &Vec<Field>)
        ensures
            r@ == self.spec_fields(),
            schema_wf(r@),
    {
        proof {
            use_type_invariant(self);
        }
        &self.fields
    }
}

} // verus!
