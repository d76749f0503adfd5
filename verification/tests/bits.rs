use bitwrap::record::{Record, Value};
use bitwrap::schema::{Field, FieldKind, Schema};
use bitwrap::BitWrapError;
use bitwrap::BitWrapExt;

fn bits(width: usize, store: usize) -> Field {
    Field { kind: FieldKind::Bits { width, store }, check: None }
}

#[test]
fn test_bits() {
    const DATA: &[u8] = &[0xA5, 0x5B, 0x12, 0x34, 0xF5, 0x67, 0x89, 0xAF];

    let schema = Schema::new(vec![
        bits(6, 8),
        bits(4, 8),
        bits(6, 8),
        bits(16, 16),
        bits(4, 8),
        bits(12, 16),
        bits(13, 16),
        bits(3, 8),
    ])
    .unwrap();
    let values = vec![
        Value::Uint(0),
        Value::Uint(0),
        Value::Uint(0),
        Value::Uint(0),
        Value::Uint(0),
        Value::Uint(0),
        Value::Uint(0),
        Value::Uint(0),
    ];
    let mut packet = Record::new(schema, values).unwrap();
    let result = packet.unpack(DATA).unwrap();

    assert_eq!(result, DATA.len());
    assert_eq!(packet.value(0).unwrap().as_uint().unwrap(), 0x29);
    assert_eq!(packet.value(1).unwrap().as_uint().unwrap(), 0x05);
    assert_eq!(packet.value(2).unwrap().as_uint().unwrap(), 0x1B);
    assert_eq!(packet.value(3).unwrap().as_uint().unwrap(), 0x1234);
    assert_eq!(packet.value(4).unwrap().as_uint().unwrap(), 0x0F);
    assert_eq!(packet.value(5).unwrap().as_uint().unwrap(), 0x0567);
    assert_eq!(packet.value(6).unwrap().as_uint().unwrap(), 0x1135);
    assert_eq!(packet.value(7).unwrap().as_uint().unwrap(), 0x07);

    let mut buffer: Vec<u8> = Vec::new();
    buffer.resize(64, 0);
    let result = packet.pack(&mut buffer).unwrap();

    assert_eq!(result, DATA.len());
    assert_eq!(&buffer[..result], DATA);
}

#[test]
fn test_bits_overflow() {
    const DATA: &[u8] = &[0x00, 0xAA];

    let schema = Schema::new(vec![bits(16, 8)]).unwrap();
    let mut packet = Record::new(schema, vec![Value::Uint(0)]).unwrap();
    let result = packet.unpack(DATA).unwrap();
    assert_eq!(result, DATA.len());
    assert_eq!(packet.value(0).unwrap().as_uint().unwrap(), 0xAA);

    let mut buffer: Vec<u8> = Vec::new();
    buffer.resize(64, 0);
    let result = packet.pack(&mut buffer).unwrap();

    assert_eq!(result, DATA.len());
    assert_eq!(&buffer[..result], DATA);
}

#[test]
fn test_overflow() {
    const DATA: &[u8] = &[0xCE, 0x5B, 0x00];

    let schema = Schema::new(vec![bits(32, 32)]).unwrap();
    let mut packet = Record::new(schema, vec![Value::Uint(0)]).unwrap();
    match packet.unpack(DATA) {
        Err(BitWrapError::BufferTooShort) => {}
        _ => unreachable!(),
    };
}
