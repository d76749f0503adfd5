use bitwrap::record::{Record, Value};
use bitwrap::schema::{Field, FieldKind, Schema};
use bitwrap::BitWrapExt;

fn bits(width: usize, store: usize) -> Field {
    Field { kind: FieldKind::Bits { width, store }, check: None }
}

#[test]
fn test_readme_nested() {
    let schema = Schema::new(vec![
        bits(8, 8),
        bits(8, 8),
        bits(16, 16),
        Field { kind: FieldKind::Array { count: 4 }, check: None },
        Field { kind: FieldKind::Array { count: 4 }, check: None },
    ])
    .unwrap();

    const DATA: &[u8] = &[
        0x40, 0x88, 0x37, 0x5D, 0xC0, 0xA8, 0xC8, 0xB0, 0xC0, 0xA8, 0xC8, 0xB7,
    ];

    let mut packet = Record::new(
        schema,
        vec![
            Value::Uint(0),
            Value::Uint(0),
            Value::Uint(0),
            Value::Bytes(vec![0, 0, 0, 0]),
            Value::Bytes(vec![0, 0, 0, 0]),
        ],
    )
    .unwrap();
    packet.unpack(DATA).unwrap();

    assert_eq!(packet.value(0).unwrap().as_uint().unwrap(), 64);
    assert_eq!(packet.value(1).unwrap().as_uint().unwrap(), 136);
    assert_eq!(packet.value(2).unwrap().as_uint().unwrap(), 0x375D);
    assert_eq!(packet.value(3).unwrap().as_bytes().unwrap().as_slice(), &[192, 168, 200, 176]);
    assert_eq!(packet.value(4).unwrap().as_bytes().unwrap().as_slice(), &[192, 168, 200, 183]);

    let mut buffer: Vec<u8> = Vec::new();
    buffer.resize(32, 0);
    let result = packet.pack(&mut buffer).unwrap();

    assert_eq!(&buffer[..result], DATA);
}
