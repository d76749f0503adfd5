use bitwrap::record::{Record, Value};
use bitwrap::schema::{Field, FieldKind, Schema};
use bitwrap::BitWrapExt;

fn schema() -> Schema {
    Schema::new(vec![Field {
        kind: FieldKind::Bits { width: 8, store: 8 },
        check: None,
    }])
    .unwrap()
}

#[test]
fn test_set_value() {
    const DATA: &[u8] = &[0];

    let mut packet = Record::new(schema(), vec![Value::Uint(0)]).unwrap();
    let result = packet.unpack(DATA).unwrap();

    assert_eq!(result, 1);
    assert_eq!(packet.value(0).unwrap().as_uint().unwrap(), 0);

    // The field derives its packed value from other data the caller
    // holds: here, the length of a sibling collection.
    let mut data: Vec<u8> = Vec::new();
    data.push(0x01);
    data.push(0x02);
    data.push(0x03);

    let packet = Record::new(schema(), vec![Value::Uint(data.len() as u64)]).unwrap();
    let mut buffer: [u8; 1] = [0; 1];
    let result = packet.pack(&mut buffer).unwrap();

    assert_eq!(result, 1);
    assert_eq!(&buffer, &[0x03]);
}
