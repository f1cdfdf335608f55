use memkv::wire::{
    encode, encode_raw, fits_kv, key, klen, op, rd_u32, rd_u64, split_kv, Operation, Resp, OP_GET,
    OP_PUT,
};

#[test]
fn request_frame_has_this_layout() {
    assert_eq!(
        encode(Operation::Put, b"ab", Some(b"xyz")).unwrap(),
        vec![10, 0, 0, 0, 1, 2, 0, 0, 0, b'a', b'b', b'x', b'y', b'z']
    );
    assert_eq!(
        encode(Operation::Get, b"k", None).unwrap(),
        vec![6, 0, 0, 0, 0, 1, 0, 0, 0, b'k']
    );
    assert_eq!(
        encode(Operation::Get, b"", None).unwrap(),
        vec![5, 0, 0, 0, 0, 0, 0, 0, 0]
    );
}

#[test]
fn read_with_a_value_carries_it() {
    assert_eq!(
        encode(Operation::Get, b"k", Some(b"v")).unwrap(),
        vec![7, 0, 0, 0, 0, 1, 0, 0, 0, b'k', b'v']
    );
}

#[test]
fn write_without_a_value_is_not_encoded() {
    assert_eq!(encode(Operation::Put, b"k", None), None);
    let mut buf = vec![7u8];
    assert_eq!(encode_raw(&mut buf, Operation::Put, b"k", None), 0);
    assert_eq!(buf, vec![7]);
}

#[test]
fn encode_raw_appends_and_counts() {
    let mut buf = vec![9u8];
    let n = encode_raw(&mut buf, Operation::Get, b"k", None);
    assert_eq!(n, 10);
    assert_eq!(buf, vec![9, 6, 0, 0, 0, 0, 1, 0, 0, 0, b'k']);
}

#[test]
fn request_reads_back() {
    let frame = encode(Operation::Put, b"key", Some(b"value")).unwrap();
    let body = &frame[4..];
    assert_eq!(op(body), OP_PUT);
    assert_eq!(klen(body), 3);
    assert_eq!(key(body), b"key");
    assert_eq!(split_kv(body), (&b"key"[..], &b"value"[..]));
    let frame = encode(Operation::Get, b"", None).unwrap();
    assert_eq!(op(&frame[4..]), OP_GET);
    assert_eq!(split_kv(&frame[4..]), (&b""[..], &b""[..]));
}

#[test]
fn a_body_has_to_hold_the_key_it_declares() {
    assert!(fits_kv(&[1, 1, 0, 0, 0, b'k']));
    assert!(fits_kv(&[1, 0, 0, 0, 0]));
    assert!(!fits_kv(&[1, 2, 0, 0, 0, b'k']));
    assert!(!fits_kv(&[1, 0, 0, 0]));
    assert!(!fits_kv(&[1, 255, 255, 255, 255, b'k']));
}

#[test]
fn response_codes() {
    assert_eq!(Resp::Value(vec![1u8, 2].into()).to_proto_code(), 0);
    assert_eq!(Resp::Okay.to_proto_code(), 1);
    assert_eq!(Resp::Miss.to_proto_code(), 2);
    assert_eq!(Resp::UnknownOp.to_proto_code(), 3);
    assert_eq!(Resp::Unknown.to_proto_code(), 4);
}

#[test]
fn response_bodies_read_back() {
    assert_eq!(Resp::from_proto_code(&[0, 7, 8]), Resp::Value(vec![7u8, 8].into()));
    assert_eq!(Resp::from_proto_code(&[0]), Resp::Value(Vec::<u8>::new().into()));
    assert_eq!(Resp::from_proto_code(&[1]), Resp::Okay);
    assert_eq!(Resp::from_proto_code(&[2]), Resp::Miss);
    assert_eq!(Resp::from_proto_code(&[3]), Resp::UnknownOp);
    assert_eq!(Resp::from_proto_code(&[4]), Resp::Unknown);
    assert_eq!(Resp::from_proto_code(&[200]), Resp::Unknown);
    assert_eq!(Resp::from_proto_code(&[]), Resp::Unknown);
}

#[test]
fn cloned_response_shares_the_bytes() {
    let a = Resp::Value(vec![1u8, 2, 3].into());
    let b = a.clone();
    assert_eq!(a, b);
    match (&a, &b) {
        (Resp::Value(x), Resp::Value(y)) => assert!(std::sync::Arc::ptr_eq(x, y)),
        _ => panic!("expected values"),
    }
    assert_eq!(Resp::Miss.clone(), Resp::Miss);
}

#[test]
fn integers_are_little_endian() {
    assert_eq!(rd_u32(&[1, 2, 3, 4]), 0x0403_0201);
    assert_eq!(rd_u32(&[255, 255, 255, 255, 9]), 0xffff_ffff);
    assert_eq!(rd_u64(&[1, 2, 3, 4, 5, 6, 7, 8]), 0x0807_0605_0403_0201);
    assert_eq!(rd_u64(&[255; 8]), u64::MAX);
}
