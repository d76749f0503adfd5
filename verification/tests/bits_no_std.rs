use bitwrap::record::{Record, Value};
use bitwrap::schema::{Field, FieldKind, Schema};
use bitwrap::BitWrapExt;

fn bits(width: usize) -> Field {
    Field { kind: FieldKind::Bits { width, store: 8 }, check: None }
}

#[test]
fn test_bits_no_std() {
    const DATA: &[u8] = &[0xA5, 0x5B];

    let schema = Schema::new(vec![bits(6), bits(4), bits(6)]).unwrap();
    let mut packet = Record::new(
        schema,
        vec![Value::Uint(0), Value::Uint(0), Value::Uint(0)],
    )
    .unwrap();
    let result = packet.unpack(DATA).unwrap();

    assert_eq!(result, DATA.len());
    assert_eq!(packet.value(0).unwrap().as_uint().unwrap(), 0x29);
    assert_eq!(packet.value(1).unwrap().as_uint().unwrap(), 0x05);
    assert_eq!(packet.value(2).unwrap().as_uint().unwrap(), 0x1B);

    let mut buffer: [u8; 2] = [0; 2];
    let result = packet.pack(&mut buffer).unwrap();

    assert_eq!(result, DATA.len());
    assert_eq!(&buffer[..result], DATA);
}
