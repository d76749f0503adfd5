use bitwrap::record::{Record, Value};
use bitwrap::schema::{Constraint, Field, FieldKind, Schema};
use bitwrap::BitWrapError;
use bitwrap::BitWrapExt;

fn schema() -> Schema {
    Schema::new(vec![Field {
        kind: FieldKind::Skip { width: 8, emit: 0x55 },
        check: Some(Constraint::Within { min: 0x55, max: 0xAA }),
    }])
    .unwrap()
}

#[test]
fn min_max_test_min() {
    const DATA_1: &[u8] = &[0x50];

    let mut packet = Record::new(schema(), vec![Value::Uint(0)]).unwrap();
    assert_eq!(packet.unpack(DATA_1), Err(BitWrapError::ValueOutOfRange));

    const DATA_2: &[u8] = &[0xFF];

    let mut packet = Record::new(schema(), vec![Value::Uint(0)]).unwrap();
    assert_eq!(packet.unpack(DATA_2), Err(BitWrapError::ValueOutOfRange));

    let mut buffer: [u8; 1] = [0; 1];
    assert_eq!(packet.pack(&mut buffer), Ok(1));
    assert_eq!(buffer, [0x55]);

    assert_eq!(packet.unpack(&buffer), Ok(1));
}
