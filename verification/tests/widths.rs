use bitwrap::record::{Record, Value};
use bitwrap::schema::{Field, FieldKind, Schema};
use bitwrap::BitWrapExt;

fn schema_at(offset: usize, width: usize) -> Schema {
    let mut fields = Vec::new();
    if offset > 0 {
        fields.push(Field { kind: FieldKind::Skip { width: offset, emit: 0 }, check: None });
    }
    fields.push(Field { kind: FieldKind::Bits { width, store: 64 }, check: None });
    let tail = (8 - (offset + width) % 8) % 8;
    if tail > 0 {
        fields.push(Field { kind: FieldKind::Skip { width: tail, emit: 0 }, check: None });
    }
    Schema::new(fields).unwrap()
}

fn values_at(offset: usize, width: usize, value: u64) -> Vec<Value> {
    let mut values = Vec::new();
    if offset > 0 {
        values.push(Value::Uint(0));
    }
    values.push(Value::Uint(value));
    if (8 - (offset + width) % 8) % 8 > 0 {
        values.push(Value::Uint(0));
    }
    values
}

// Every width of the boundary set, placed at every starting bit offset
// within a byte, packs and unpacks to the same value.
#[test]
fn test_boundary_widths() {
    let widths: [usize; 10] = [1, 4, 6, 7, 8, 9, 13, 16, 32, 64];
    let pattern: u64 = 0xA5C3_96E1_0F2D_4B87;
    for &width in widths.iter() {
        for offset in 0..8 {
            let mask = if width >= 64 { u64::MAX } else { (1u64 << width) - 1 };
            let value = pattern & mask;
            let field_index = if offset > 0 { 1 } else { 0 };

            let packet = Record::new(schema_at(offset, width), values_at(offset, width, value))
                .unwrap();
            let mut buffer = [0u8; 16];
            let written = packet.pack(&mut buffer).unwrap();
            assert_eq!(written, (offset + width + 7) / 8);

            let mut reader =
                Record::new(schema_at(offset, width), values_at(offset, width, 0)).unwrap();
            let read = reader.unpack(&buffer[..written]).unwrap();
            assert_eq!(read, written);
            assert_eq!(reader.value(field_index).unwrap().as_uint().unwrap(), value);
        }
    }
}

// Packing a record and unpacking the result reproduces every plain field
// value, and both directions report the same byte count.
#[test]
fn test_round_trip_report() {
    let schema = || {
        Schema::new(vec![
            Field { kind: FieldKind::Bits { width: 3, store: 8 }, check: None },
            Field { kind: FieldKind::Bits { width: 13, store: 16 }, check: None },
            Field { kind: FieldKind::LenOf { width: 8, target: 3 }, check: None },
            Field { kind: FieldKind::Bytes { from: 2 }, check: None },
        ])
        .unwrap()
    };
    let packet = Record::new(
        schema(),
        vec![
            Value::Uint(0b101),
            Value::Uint(0x1234),
            Value::Uint(0),
            Value::Bytes(vec![9, 8, 7]),
        ],
    )
    .unwrap();
    let mut buffer = [0u8; 16];
    let written = packet.pack(&mut buffer).unwrap();

    let mut reader = Record::new(
        schema(),
        vec![
            Value::Uint(0),
            Value::Uint(0),
            Value::Uint(0),
            Value::Bytes(Vec::new()),
        ],
    )
    .unwrap();
    let read = reader.unpack(&buffer[..written]).unwrap();

    assert_eq!(written, read);
    assert_eq!(reader.value(0).unwrap().as_uint().unwrap(), 0b101);
    assert_eq!(reader.value(1).unwrap().as_uint().unwrap(), 0x1234);
    assert_eq!(reader.value(2).unwrap().as_uint().unwrap(), 3);
    assert_eq!(reader.value(3).unwrap().as_bytes().unwrap().as_slice(), &[9, 8, 7]);
}

// A reserved field always emits its constant, whatever value its unused
// storage holds, and is not validated on decode without a constraint.
#[test]
fn test_skip_emits_constant() {
    let schema = || {
        Schema::new(vec![
            Field { kind: FieldKind::Skip { width: 4, emit: 0b1111 }, check: None },
            Field { kind: FieldKind::Bits { width: 4, store: 8 }, check: None },
        ])
        .unwrap()
    };
    let packet = Record::new(schema(), vec![Value::Uint(0b0000), Value::Uint(0x5)]).unwrap();
    let mut buffer = [0u8; 1];
    assert_eq!(packet.pack(&mut buffer), Ok(1));
    assert_eq!(buffer, [0xF5]);

    // Decoding accepts any bits in the reserved position when no
    // constraint is attached, even ones that differ from the constant.
    let mut reader = Record::new(schema(), vec![Value::Uint(0), Value::Uint(0)]).unwrap();
    assert_eq!(reader.unpack(&[0x05]), Ok(1));
    assert_eq!(reader.value(1).unwrap().as_uint().unwrap(), 5);
}
