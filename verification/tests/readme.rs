use bitwrap::record::{Record, Value};
use bitwrap::schema::{Field, FieldKind, Schema};
use bitwrap::BitWrapExt;

#[derive(Debug, PartialEq, Clone, Copy)]
enum Variant {
    Value55,
    ValueAA,
}

fn variant_from(value: u64) -> Option<Variant> {
    match value {
        0x55 => Some(Variant::Value55),
        0xAA => Some(Variant::ValueAA),
        _ => None,
    }
}

fn variant_into(value: Variant) -> u64 {
    match value {
        Variant::Value55 => 0x55,
        Variant::ValueAA => 0xAA,
    }
}

#[test]
fn test_readme() {
    let schema = Schema::new(vec![
        Field { kind: FieldKind::Bits { width: 1, store: 8 }, check: None },
        Field { kind: FieldKind::Bits { width: 1, store: 1 }, check: None },
        Field { kind: FieldKind::Skip { width: 6, emit: 0b111111 }, check: None },
        Field { kind: FieldKind::Bits { width: 8, store: 8 }, check: None },
        Field { kind: FieldKind::Array { count: 4 }, check: None },
        Field { kind: FieldKind::Array { count: 6 }, check: None },
        Field { kind: FieldKind::LenOf { width: 8, target: 7 }, check: None },
        Field { kind: FieldKind::Bytes { from: 6 }, check: None },
    ])
    .unwrap();

    const DATA: &[u8] = &[
        0xFF, 0xAA, 0xC0, 0xA8, 0xC8, 0xB0, 0x11, 0x22, 0x33, 0x44, 0x55, 0x66, 0x04, 0xF0,
        0x9F, 0xA6, 0x80,
    ];

    let mut packet = Record::new(
        schema,
        vec![
            Value::Uint(0),
            Value::Uint(0),
            Value::Uint(0),
            Value::Uint(variant_into(Variant::Value55)),
            Value::Bytes(vec![0, 0, 0, 0]),
            Value::Bytes(vec![0, 0, 0, 0, 0, 0]),
            Value::Uint(0),
            Value::Bytes(Vec::new()),
        ],
    )
    .unwrap();
    let result = packet.unpack(DATA).unwrap();

    assert_eq!(result, DATA.len());
    assert_eq!(packet.value(0).unwrap().as_uint().unwrap(), 1);
    assert!(packet.value(1).unwrap().as_uint().unwrap() != 0);
    let variant = variant_from(packet.value(3).unwrap().as_uint().unwrap()).unwrap();
    assert_eq!(variant, Variant::ValueAA);
    assert_eq!(packet.value(4).unwrap().as_bytes().unwrap().as_slice(), &[192, 168, 200, 176]);
    assert_eq!(
        packet.value(5).unwrap().as_bytes().unwrap().as_slice(),
        &[0x11, 0x22, 0x33, 0x44, 0x55, 0x66]
    );
    assert_eq!(packet.value(7).unwrap().as_bytes().unwrap().as_slice(), "🦀".as_bytes());

    let mut buffer: [u8; 256] = [0; 256];
    let result = packet.pack(&mut buffer).unwrap();

    assert_eq!(result, DATA.len());
    assert_eq!(&buffer[..result], DATA);
}
