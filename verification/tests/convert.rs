use bitwrap::record::{Record, Value};
use bitwrap::schema::{Field, FieldKind, Schema};
use bitwrap::BitWrapExt;

#[derive(Debug, PartialEq, Clone, Copy)]
enum Coffee {
    Water,
    Latte,
    Cappuccino,
    Espresso,
    Americano,
}

fn coffee_from(value: u64) -> Coffee {
    match value {
        0 => Coffee::Water,
        1 => Coffee::Latte,
        2 => Coffee::Cappuccino,
        3 => Coffee::Espresso,
        4 => Coffee::Americano,
        _ => unreachable!(),
    }
}

fn coffee_into(value: Coffee) -> u64 {
    match value {
        Coffee::Water => 0,
        Coffee::Latte => 1,
        Coffee::Cappuccino => 2,
        Coffee::Espresso => 3,
        Coffee::Americano => 4,
    }
}

#[test]
fn convert_test_readme_convert() {
    let schema = Schema::new(vec![
        Field { kind: FieldKind::Skip { width: 4, emit: 0 }, check: None },
        Field { kind: FieldKind::Tag { width: 4, count: 5 }, check: None },
    ])
    .unwrap();

    const DATA: &[u8] = &[0x01];

    let mut packet = Record::new(schema, vec![Value::Uint(0), Value::Uint(0)]).unwrap();
    packet.unpack(DATA).unwrap();

    let coffee = coffee_from(packet.value(1).unwrap().as_uint().unwrap());
    assert_eq!(coffee, Coffee::Latte);
    assert_eq!(coffee_into(coffee), 1);

    let mut buffer: [u8; 1] = [0; 1];
    let result = packet.pack(&mut buffer).unwrap();

    assert_eq!(&buffer[..result], DATA);
}
