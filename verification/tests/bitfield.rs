use bitwrap::record::{Record, Value};
use bitwrap::schema::{Field, FieldKind, Schema};
use bitwrap::BitWrapExt;

fn bits(width: usize, store: usize) -> Field {
    Field { kind: FieldKind::Bits { width, store }, check: None }
}

#[test]
fn test_bitfield() {
    const DATA: &[u8] = &[0xA5, 0x5B, 0xF5, 0x67, 0x89, 0xAF, 0xAA];

    let f1 = vec![bits(4, 8), bits(12, 16)];
    let f2 = vec![bits(13, 16), bits(3, 8)];

    let schema = Schema::new(vec![
        bits(6, 8),
        bits(4, 8),
        bits(6, 8),
        Field { kind: FieldKind::Nested { fields: f1 }, check: None },
        Field { kind: FieldKind::Nested { fields: f2 }, check: None },
        bits(8, 8),
    ])
    .unwrap();

    let values = vec![
        Value::Uint(0),
        Value::Uint(0),
        Value::Uint(0),
        Value::Group(vec![Value::Uint(0), Value::Uint(0)]),
        Value::Group(vec![Value::Uint(0), Value::Uint(0)]),
        Value::Uint(0),
    ];
    let mut packet = Record::new(schema, values).unwrap();
    let result = packet.unpack(DATA).unwrap();

    assert_eq!(result, DATA.len());
    assert_eq!(packet.value(0).unwrap().as_uint().unwrap(), 0x29);
    assert_eq!(packet.value(1).unwrap().as_uint().unwrap(), 0x05);
    assert_eq!(packet.value(2).unwrap().as_uint().unwrap(), 0x1B);
    let f1v = packet.value(3).unwrap().as_group().unwrap();
    assert_eq!(f1v[0].as_uint().unwrap(), 0x0F);
    assert_eq!(f1v[1].as_uint().unwrap(), 0x0567);
    let f2v = packet.value(4).unwrap().as_group().unwrap();
    assert_eq!(f2v[0].as_uint().unwrap(), 0x1135);
    assert_eq!(f2v[1].as_uint().unwrap(), 0x07);
    assert_eq!(packet.value(5).unwrap().as_uint().unwrap(), 0xAA);

    let mut buffer: Vec<u8> = Vec::new();
    buffer.resize(256, 0);
    let result = packet.pack(&mut buffer).unwrap();

    assert_eq!(result, DATA.len());
    assert_eq!(&buffer[..result], DATA);
}
