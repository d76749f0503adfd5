use bitwrap::record::{Record, Value};
use bitwrap::schema::{Field, FieldKind, Schema};
use bitwrap::BitWrapExt;

fn bits(width: usize, store: usize) -> Field {
    Field { kind: FieldKind::Bits { width, store }, check: None }
}

#[test]
fn test_readme_no_std() {
    let schema = Schema::new(vec![bits(1, 8), bits(1, 8), bits(2, 8), bits(12, 16)]).unwrap();

    const DATA: &[u8] = &[0xA2, 0x34];

    let mut packet = Record::new(
        schema,
        vec![Value::Uint(0), Value::Uint(0), Value::Uint(0), Value::Uint(0)],
    )
    .unwrap();
    packet.unpack(DATA).unwrap();

    assert_eq!(packet.value(0).unwrap().as_uint().unwrap(), 1);
    assert_eq!(packet.value(1).unwrap().as_uint().unwrap(), 0);
    assert_eq!(packet.value(2).unwrap().as_uint().unwrap(), 2);
    assert_eq!(packet.value(3).unwrap().as_uint().unwrap(), 0x0234);

    let mut buffer: [u8; 2] = [0; 2];
    let result = packet.pack(&mut buffer).unwrap();

    assert_eq!(result, DATA.len());
    assert_eq!(buffer, DATA);
}
