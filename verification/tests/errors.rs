use bitwrap::record::{Record, Value};
use bitwrap::schema::{Constraint, Field, FieldKind, Schema};
use bitwrap::BitWrapError;
use bitwrap::BitWrapExt;

// Each error kind arises from the input that provokes it.
#[test]
fn test_error_kinds() {
    // Too few bytes for the field.
    let schema = Schema::new(vec![Field {
        kind: FieldKind::Bits { width: 16, store: 16 },
        check: None,
    }])
    .unwrap();
    let mut packet = Record::new(schema, vec![Value::Uint(0)]).unwrap();
    assert_eq!(packet.unpack(&[0x01]), Err(BitWrapError::BufferTooShort));

    // A failed equality constraint.
    let schema = Schema::new(vec![Field {
        kind: FieldKind::Bits { width: 8, store: 8 },
        check: Some(Constraint::Exact(0x47)),
    }])
    .unwrap();
    let mut packet = Record::new(schema, vec![Value::Uint(0)]).unwrap();
    assert_eq!(packet.unpack(&[0x48]), Err(BitWrapError::ValueMismatch));

    // A failed range constraint.
    let schema = Schema::new(vec![Field {
        kind: FieldKind::Bits { width: 8, store: 8 },
        check: Some(Constraint::Within { min: 0x10, max: 0x20 }),
    }])
    .unwrap();
    let mut packet = Record::new(schema, vec![Value::Uint(0)]).unwrap();
    assert_eq!(packet.unpack(&[0x21]), Err(BitWrapError::ValueOutOfRange));

    // An unrecognised tag.
    let schema = Schema::new(vec![Field {
        kind: FieldKind::Tag { width: 8, count: 5 },
        check: None,
    }])
    .unwrap();
    let mut packet = Record::new(schema, vec![Value::Uint(0)]).unwrap();
    assert_eq!(packet.unpack(&[0x07]), Err(BitWrapError::ConversionFailure));

    // Packing into too small a buffer.
    let schema = Schema::new(vec![Field {
        kind: FieldKind::Bits { width: 16, store: 16 },
        check: None,
    }])
    .unwrap();
    let packet = Record::new(schema, vec![Value::Uint(0x0102)]).unwrap();
    let mut buffer = [0u8; 1];
    assert_eq!(packet.pack(&mut buffer), Err(BitWrapError::BufferTooShort));
}

#[test]
fn test_error_messages() {
    assert_eq!(BitWrapError::BufferTooShort.message(), "index out of bounds");
    assert!(!BitWrapError::ValueMismatch.message().is_empty());
    assert!(!BitWrapError::ValueOutOfRange.message().is_empty());
    assert!(!BitWrapError::ConversionFailure.message().is_empty());
}

// A range constraint passes on its boundary values.
#[test]
fn test_range_boundaries() {
    let schema = || Schema::new(vec![Field {
        kind: FieldKind::Bits { width: 8, store: 8 },
        check: Some(Constraint::Within { min: 0x10, max: 0x20 }),
    }])
    .unwrap();
    let mut packet = Record::new(schema(), vec![Value::Uint(0)]).unwrap();
    assert_eq!(packet.unpack(&[0x10]), Ok(1));
    assert_eq!(packet.value(0).unwrap().as_uint().unwrap(), 0x10);
    let mut packet = Record::new(schema(), vec![Value::Uint(0)]).unwrap();
    assert_eq!(packet.unpack(&[0x20]), Ok(1));
    assert_eq!(packet.value(0).unwrap().as_uint().unwrap(), 0x20);
}
