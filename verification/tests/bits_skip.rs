use bitwrap::record::{Record, Value};
use bitwrap::schema::{Field, FieldKind, Schema};
use bitwrap::BitWrapExt;

fn bits(width: usize) -> Field {
    Field { kind: FieldKind::Bits { width, store: 8 }, check: None }
}

fn skip(width: usize, emit: u64) -> Field {
    Field { kind: FieldKind::Skip { width, emit }, check: None }
}

#[test]
fn test_bits_skip() {
    const DATA: &[u8] = &[0xAC, 0x55, 0xF5];

    let schema = Schema::new(vec![
        bits(6),
        skip(2, 0),
        bits(8),
        skip(4, 0b1111),
        bits(4),
    ])
    .unwrap();
    let mut packet = Record::new(
        schema,
        vec![
            Value::Uint(0),
            Value::Uint(0),
            Value::Uint(0),
            Value::Uint(0),
            Value::Uint(0),
        ],
    )
    .unwrap();
    let result = packet.unpack(DATA).unwrap();

    assert_eq!(result, DATA.len());
    assert_eq!(packet.value(0).unwrap().as_uint().unwrap(), 0x2B);
    assert_eq!(packet.value(2).unwrap().as_uint().unwrap(), 0x55);
    assert_eq!(packet.value(4).unwrap().as_uint().unwrap(), 0x05);

    let mut buffer: [u8; 3] = [0; 3];
    let result = packet.pack(&mut buffer).unwrap();

    assert_eq!(result, DATA.len());
    assert_eq!(&buffer[..result], DATA);
}
