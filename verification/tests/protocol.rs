use direlera_rs::protocol::{
    frames_valid, get_protocol_from_bytes, Protocol, ProtocolPackets, ProtocolPureHeader,
    ProtocolSeqHeader,
};

#[test]
fn pack_test() {
    let prob = ProtocolSeqHeader {
        seq: 0x1234,
        header: ProtocolPureHeader {
            length: 0x4321,
            message_type: 6,
        },
    };
    let s = prob.to_bytes();
    assert!(s.is_ok());
    let s = s.unwrap();
    assert_eq!(s.len(), 5);
    assert_eq!(s[0], 0x34);
    assert_eq!(s[1], 0x12);
    assert_eq!(s[2], 0x21);
    assert_eq!(s[3], 0x43);
    assert_eq!(s[4], 6);

    let de = ProtocolSeqHeader::from_bytes(&s);
    assert_eq!(de.is_ok(), true);
    let de = de.unwrap();
    assert_eq!(de.seq, 0x1234);
    assert_eq!(de.header.length, 0x4321);
    assert_eq!(de.header.message_type, 6);
}

#[test]
fn get_protocol() {
    let i = vec![
        3, 2, 0, 18, 0, 6, 0, 0, 0, 0, 0, 1, 0, 0, 0, 2, 0, 0, 0, 3, 0, 0, 0, 1, 0, 18, 0, 6, 0, 0,
        0, 0, 0, 1, 0, 0, 0, 2, 0, 0, 0, 3, 0, 0, 0, 0, 0, 24, 0, 3, 118, 98, 111, 120, 117, 115,
        101, 114, 0, 77, 65, 77, 69, 76, 79, 78, 32, 65, 45, 52, 51, 0, 1,
    ];
    let r = get_protocol_from_bytes(&i);
    assert!(r.is_ok());
    let r = r.unwrap();

    assert_eq!(r.len(), 3);
    assert_eq!(r[0].header.header.message_type, 6);
    assert_eq!(r[1].header.header.message_type, 6);
    assert_eq!(r[2].header.header.message_type, 3);

    // print protocols
    for p in r {
        let pp = p.header.header.message_type;
        let _ppp = p.header.header.length;
        let pppp = p.header.seq;
        println!("protocol: {}, type: {}", pppp, pp,);
    }
}

#[test]
fn fetch_protocol() {
    let mut store = ProtocolPackets::new();
    let mut p0 = Protocol::new(1, vec![1, 2, 3]);
    p0.header.seq = 1;

    let mut p1 = Protocol::new(2, vec![1, 2, 3]);
    p1.header.seq = 2;

    let mut p2 = Protocol::new(3, vec![1, 2, 3]);
    p2.header.seq = 3;

    store.add(p0);
    store.add(p1);
    store.add(p2);

    let r = store.fetch_protocol(1);
    assert!(r.is_some());
    let mut p0 = Protocol::new(1, vec![1, 2, 3]);
    p0.header.seq = 5;
    store.add(p0);
    let mut p0 = Protocol::new(1, vec![1, 2, 3]);
    p0.header.seq = 5;
    store.add(p0);
    let r = store.fetch_protocol(4);
    assert!(r.is_none());
    let mut p0 = Protocol::new(4, vec![1, 2, 3]);
    p0.header.seq = 4;
    store.add(p0);
    let r = store.fetch_protocol(4);
    assert!(r.is_some());
    let r = store.fetch_protocol(5);
    assert!(r.is_some());
}

#[test]
fn frames_valid_checks_each_length() {
    // count, then one message: seq 1, length 3 (type + 2 bytes), type 7
    assert!(frames_valid(&vec![1, 1, 0, 3, 0, 7, 0xAA, 0xBB]));
    // a tail shorter than a header ends the datagram
    assert!(frames_valid(&vec![1, 1, 0, 3, 0, 7, 0xAA, 0xBB, 9, 9]));
    assert!(frames_valid(&vec![0]));
    // length 0
    assert!(!frames_valid(&vec![1, 1, 0, 0, 0, 7]));
    // longer than the datagram
    assert!(!frames_valid(&vec![1, 1, 0, 9, 0, 7, 0xAA]));
}

#[test]
fn add_grows_the_store_only_when_it_stores() {
    let mut store = ProtocolPackets::new();
    store.add(Protocol::new(7, vec![1]));
    assert_eq!(store.len(), 1);
    // the same sequence number again keeps the first
    store.add(Protocol::new(7, vec![2]));
    assert_eq!(store.len(), 1);
    let mut p = Protocol::new(7, vec![3]);
    p.header.seq = 1;
    store.add(p);
    assert_eq!(store.len(), 2);
    assert!(store.fetch_protocol(1).is_some());
    assert_eq!(store.len(), 1);
    // not newer than the last fetched one: dropped
    let mut old = Protocol::new(7, vec![4]);
    old.header.seq = 1;
    store.add(old);
    assert_eq!(store.len(), 1);
}
