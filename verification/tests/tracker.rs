use torrent_rs::endian::{put_bytes, put_u16, put_u32, put_u64, read_u32, read_u64};
use torrent_rs::tracker::{
    connect_request, make_announce_request, make_connect_request, parse_connect_response,
    response_action_code, TrackerAction, PROTOCOL_ID,
};

#[test]
fn test_tracker_connect() {
    let request = connect_request(0xabab);
    assert_eq!(
        request,
        [0x00, 0x00, 0x04, 0x17, 0x27, 0x10, 0x19, 0x80, 0, 0, 0, 0, 0x00, 0x00, 0xab, 0xab]
    );
    assert_eq!(request[0..8], PROTOCOL_ID.to_be_bytes());
}

#[test]
fn connect_request_for_a_drawn_transaction() {
    let (request, transaction_id) = make_connect_request();
    assert_eq!(request, connect_request(transaction_id));
    assert_eq!(request[12..16], transaction_id.to_be_bytes());
    assert_eq!(request[8..12], [0, 0, 0, 0]);
}

#[test]
fn connect_response() {
    let mut buf = [0u8; 1024];
    buf[0..4].copy_from_slice(&0u32.to_be_bytes());
    buf[4..8].copy_from_slice(&0xdead_beefu32.to_be_bytes());
    buf[8..16].copy_from_slice(&0x0102_0304_0506_0708u64.to_be_bytes());
    assert_eq!(response_action_code(&buf), 0);
    let (action, transaction_id, connection_id) = parse_connect_response(&buf);
    assert_eq!(action, TrackerAction::Connect);
    assert_eq!(transaction_id, 0xdead_beef);
    assert_eq!(connection_id, 0x0102_0304_0506_0708);

    buf[3] = 1;
    assert_eq!(parse_connect_response(&buf).0, TrackerAction::Announce);
    buf[3] = 2;
    assert_eq!(response_action_code(&buf), 2);
    assert!(TrackerAction::checked_from_u32(response_action_code(&buf)).is_none());
}

#[test]
fn tracker_actions() {
    assert_eq!(TrackerAction::from_u32(0), TrackerAction::Connect);
    assert_eq!(TrackerAction::from_u32(1), TrackerAction::Announce);
    assert_eq!(TrackerAction::Connect.code(), 0);
    assert_eq!(TrackerAction::Announce.code(), 1);
    assert_eq!(TrackerAction::checked_from_u32(1), Some(TrackerAction::Announce));
    assert_eq!(TrackerAction::checked_from_u32(0), Some(TrackerAction::Connect));
    assert_eq!(TrackerAction::checked_from_u32(2), None);
    assert_eq!(TrackerAction::checked_from_u32(u32::MAX), None);
}

#[test]
fn announce_request() {
    let info_hash: [u8; 20] = [
        1, 2, 3, 4, 5, 6, 7, 8, 9, 10, 11, 12, 13, 14, 15, 16, 17, 18, 19, 20,
    ];
    let request = make_announce_request(
        &0x1122_3344_5566_7788,
        &0x0a0b_0c0d,
        &info_hash,
        0x0101_0101_0101_0101,
        0x0202_0202_0202_0202,
        0x0303_0303_0303_0303,
        2,
        0x7f00_0001,
        0xffff_ffff,
        0x0e0e_0e0e,
        6881,
    );
    assert_eq!(request.len(), 98);
    assert_eq!(request[0..8], 0x1122_3344_5566_7788u64.to_be_bytes());
    assert_eq!(request[8..12], 1u32.to_be_bytes());
    assert_eq!(request[12..16], 0x0a0b_0c0du32.to_be_bytes());
    assert_eq!(request[16..36], info_hash);
    assert_eq!(&request[36..56], "lorem ipsum dolor si".as_bytes());
    assert_eq!(request[56..64], 0x0101_0101_0101_0101u64.to_be_bytes());
    assert_eq!(request[64..72], 0x0202_0202_0202_0202u64.to_be_bytes());
    assert_eq!(request[72..80], 0x0303_0303_0303_0303u64.to_be_bytes());
    assert_eq!(request[80..84], 2u32.to_be_bytes());
    assert_eq!(request[84..88], 0x7f00_0001u32.to_be_bytes());
    assert_eq!(request[88..92], 0x0e0e_0e0eu32.to_be_bytes());
    assert_eq!(request[92..96], 0xffff_ffffu32.to_be_bytes());
    assert_eq!(request[96..98], 6881u16.to_be_bytes());
}

#[test]
fn big_endian_reads_and_writes() {
    let mut buf = [0xeeu8; 16];
    put_u32(&mut buf, 1, 0x0102_0304);
    assert_eq!(buf[0..6], [0xee, 1, 2, 3, 4, 0xee]);
    assert_eq!(read_u32(&buf, 1), 0x0102_0304);
    put_u64(&mut buf, 8, 0x1122_3344_5566_7788);
    assert_eq!(read_u64(&buf, 8), 0x1122_3344_5566_7788);
    assert_eq!(buf[8..16], [0x11, 0x22, 0x33, 0x44, 0x55, 0x66, 0x77, 0x88]);
    put_u16(&mut buf, 6, 0xabcd);
    assert_eq!(buf[5..8], [0xee, 0xab, 0xcd]);
    put_bytes(&mut buf, 0, b"xy");
    assert_eq!(buf[0..3], [b'x', b'y', 2]);
    put_bytes(&mut buf, 16, b"");
    assert_eq!(read_u32(&[0xff, 0xff, 0xff, 0xff], 0), u32::MAX);
}
