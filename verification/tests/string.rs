use bitwrap::record::{Record, Value};
use bitwrap::schema::{Field, FieldKind, Schema};
use bitwrap::BitWrapExt;

#[test]
fn test_string() {
    let schema = Schema::new(vec![
        Field { kind: FieldKind::LenOf { width: 8, target: 1 }, check: None },
        Field { kind: FieldKind::Bytes { from: 0 }, check: None },
    ])
    .unwrap();

    const DATA: &[u8] = &[
        0x0B, b'H', b'e', b'l', b'l', b'o', b',', b' ', 0xF0, 0x9F, 0xA6, 0x80,
    ];

    let mut packet = Record::new(schema, vec![Value::Uint(0), Value::Bytes(Vec::new())]).unwrap();
    let result = packet.unpack(DATA).unwrap();

    assert_eq!(result, DATA.len());
    let data = String::from_utf8(packet.value(1).unwrap().as_bytes().unwrap().clone()).unwrap();
    assert_eq!(data.as_str(), "Hello, 🦀");

    let mut buffer: [u8; 12] = [0; 12];
    let result = packet.pack(&mut buffer).unwrap();

    assert_eq!(result, DATA.len());
    assert_eq!(&buffer[..result], DATA);
}
