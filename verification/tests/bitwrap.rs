use bitwrap::record::{Record, Value};
use bitwrap::schema::{Field, FieldKind, Schema};
use bitwrap::BitWrapExt;

fn bits(width: usize, store: usize) -> Field {
    Field { kind: FieldKind::Bits { width, store }, check: None }
}

fn array(count: usize) -> Field {
    Field { kind: FieldKind::Array { count }, check: None }
}

fn uints(n: usize) -> Vec<Value> {
    let mut v = Vec::new();
    for _ in 0..n {
        v.push(Value::Uint(0));
    }
    v
}

#[test]
fn bitwrap_test_bitwrap() {
    // Test Data
    const DATA: &[u8] = &[
        0x00, 0x04, 0x76, 0xDD, 0xBB, 0x3A, 0x00, 0x04, 0x75, 0xC7, 0x87, 0x49, 0x08, 0x00,
        0x45, 0x00, 0x00, 0x28, 0x52, 0x7E, 0x40, 0x00, 0x40, 0x88, 0x37, 0x5D, 0x8B, 0x85,
        0xCC, 0xB0, 0x8B, 0x85, 0xCC, 0xB7,
    ];

    // Ethernet header: two hardware addresses and the protocol type.
    let eth = vec![array(6), array(6), bits(16, 16)];

    // IPv4 packet.
    let ip4 = vec![
        bits(4, 8),
        bits(4, 8),
        bits(6, 8),
        bits(2, 8),
        bits(16, 16),
        bits(16, 16),
        Field { kind: FieldKind::Skip { width: 1, emit: 0 }, check: None },
        bits(2, 8),
        bits(13, 16),
        bits(8, 8),
        bits(8, 8),
        bits(16, 16),
        array(4),
        array(4),
    ];

    let schema = Schema::new(vec![
        Field { kind: FieldKind::Nested { fields: eth }, check: None },
        Field { kind: FieldKind::Nested { fields: ip4 }, check: None },
    ])
    .unwrap();

    let mut ip4_values = uints(6);
    ip4_values.push(Value::Uint(0));
    let mut rest = uints(5);
    ip4_values.append(&mut rest);
    ip4_values.push(Value::Bytes(vec![0, 0, 0, 0]));
    ip4_values.push(Value::Bytes(vec![0, 0, 0, 0]));

    let values = vec![
        Value::Group(vec![
            Value::Bytes(vec![0, 0, 0, 0, 0, 0]),
            Value::Bytes(vec![0, 0, 0, 0, 0, 0]),
            Value::Uint(0),
        ]),
        Value::Group(ip4_values),
    ];
    let mut packet = Record::new(schema, values).unwrap();
    let result = packet.unpack(DATA).unwrap();

    assert_eq!(result, DATA.len());
    let eth_v = packet.value(0).unwrap().as_group().unwrap();
    assert_eq!(eth_v[0].as_bytes().unwrap().as_slice(), &[0x00, 0x04, 0x76, 0xDD, 0xBB, 0x3A]);
    assert_eq!(eth_v[1].as_bytes().unwrap().as_slice(), &[0x00, 0x04, 0x75, 0xC7, 0x87, 0x49]);
    assert_eq!(eth_v[2].as_uint().unwrap(), 0x0800);
    let ip_v = packet.value(1).unwrap().as_group().unwrap();
    assert_eq!(ip_v[0].as_uint().unwrap(), 4);
    assert_eq!(ip_v[1].as_uint().unwrap(), 5);
    assert_eq!(ip_v[2].as_uint().unwrap(), 0);
    assert_eq!(ip_v[3].as_uint().unwrap(), 0);
    assert_eq!(ip_v[4].as_uint().unwrap(), 40);
    assert_eq!(ip_v[5].as_uint().unwrap(), 0x527E);
    assert_eq!(ip_v[7].as_uint().unwrap(), 0b10);
    assert_eq!(ip_v[8].as_uint().unwrap(), 0);
    assert_eq!(ip_v[9].as_uint().unwrap(), 64);
    assert_eq!(ip_v[10].as_uint().unwrap(), 136);
    assert_eq!(ip_v[11].as_uint().unwrap(), 0x375D);
    assert_eq!(ip_v[12].as_bytes().unwrap().as_slice(), &[139, 133, 204, 176]);
    assert_eq!(ip_v[13].as_bytes().unwrap().as_slice(), &[139, 133, 204, 183]);

    let mut buffer: Vec<u8> = Vec::new();
    buffer.resize(256, 0);
    let result = packet.pack(&mut buffer).unwrap();

    assert_eq!(result, DATA.len());
    assert_eq!(&buffer[..result], DATA);
}
