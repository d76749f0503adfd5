use bitwrap::record::{Record, Value};
use bitwrap::schema::{Field, FieldKind, Schema};
use bitwrap::BitWrapExt;

fn bits(width: usize, store: usize) -> Field {
    Field { kind: FieldKind::Bits { width, store }, check: None }
}

#[test]
fn test_unpack() {
    const DATA: &[u8] = &[0x47, 0x05, 0x8d, 0x19];

    let schema = Schema::new(vec![
        bits(8, 8),
        bits(1, 8),
        bits(1, 8),
        bits(1, 8),
        bits(13, 16),
        bits(2, 8),
        bits(2, 8),
        bits(4, 8),
    ])
    .unwrap();
    let mut packet = Record::new(
        schema,
        vec![
            Value::Uint(0),
            Value::Uint(0),
            Value::Uint(0),
            Value::Uint(0),
            Value::Uint(0),
            Value::Uint(0),
            Value::Uint(0),
            Value::Uint(0),
        ],
    )
    .unwrap();
    packet.unpack(DATA).unwrap();
}
