use bitwrap::record::{Record, Value};
use bitwrap::schema::{Field, FieldKind, Schema};
use bitwrap::BitWrapExt;

fn bits(width: usize) -> Field {
    Field { kind: FieldKind::Bits { width, store: 8 }, check: None }
}

fn skip(width: usize, emit: u64) -> Field {
    Field { kind: FieldKind::Skip { width, emit }, check: None }
}

#[test]
fn readme_skip_test_readme_skip() {
    let schema = Schema::new(vec![bits(6), skip(2, 0), skip(4, 0b1111), bits(4)]).unwrap();

    const DATA: &[u8] = &[0xAC, 0xF5];

    let mut packet = Record::new(
        schema,
        vec![Value::Uint(0), Value::Uint(0), Value::Uint(0), Value::Uint(0)],
    )
    .unwrap();
    let result = packet.unpack(DATA).unwrap();

    assert_eq!(result, DATA.len());
    assert_eq!(packet.value(0).unwrap().as_uint().unwrap(), 0x2B);
    assert_eq!(packet.value(3).unwrap().as_uint().unwrap(), 0x05);

    let mut buffer: [u8; 2] = [0; 2];
    let result = packet.pack(&mut buffer).unwrap();

    assert_eq!(result, DATA.len());
    assert_eq!(&buffer[..result], DATA);
}
