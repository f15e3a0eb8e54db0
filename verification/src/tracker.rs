//! The messages of the UDP tracker protocol: the connect request and its
//! response, and the announce request.
//!
//! All integers are big-endian. Sending and receiving are left to the
//! caller.

use crate::endian::{
    be_bytes_u16, be_bytes_u32, be_bytes_u64, put_bytes, put_u16, put_u32, put_u64, read_u32,
    read_u64, u32_from_be, u64_from_be,
};
use vstd::prelude::*;

verus! {

/// The number that a client takes for one exchange with the tracker.
pub type TransactionId = u32;

/// The number that the tracker gives to a client that has connected.
pub type ConnectionId = u64;

/// The constant that opens a connect request.
pub const PROTOCOL_ID: u64 = 0x41727101980;

/// The length of a connect request.
pub const CONNECT_REQUEST_BYTES: usize = 16;

/// The length of an announce request.
pub const ANNOUNCE_REQUEST_BYTES: usize = 98;

/// The length of a receive buffer.
pub const BUFFER_BYTES: usize = 1024;

/// What a message asks for or answers.
#[derive(Clone, Copy, Debug, PartialEq, Eq, Structural)]
pub enum TrackerAction {
    Connect,
    Announce,
}

impl TrackerAction {
    /// The number that stands for the action in a message: 0 for connect, 1
    /// for announce.
    pub open spec fn code_spec(self) -> u32 {
        match self {
            TrackerAction::Connect => 0,
            TrackerAction::Announce => 1,
        }
    }

    /// The number that stands for the action in a message.
    pub fn code(self) -> (c: u32)
        ensures
            c == self.code_spec(),
    {
        match self {
            TrackerAction::Connect => 0,
            TrackerAction::Announce => 1,
        }
    }

    /// The action that `value` stands for. Only 0 and 1 stand for one.
    pub fn from_u32(value: u32) -> (action: TrackerAction)
        requires
            value <= 1,
        ensures
            action.code_spec() == value,
    {
        if value == 0 {
            TrackerAction::Connect
        } else {
            TrackerAction::Announce
        }
    }

    /// The action that `value` stands for, and `None` for a number that
    /// stands for none.
    pub fn checked_from_u32(value: u32) -> (action: Option<TrackerAction>)
        ensures
            match action {
                Some(a) => a.code_spec() == value,
                None => value > 1,
            },
    {
        if value <= 1 {
            Some(TrackerAction::from_u32(value))
        } else {
            None
        }
    }
}

/// The peer identifier that announce requests carry.
pub open spec fn peer_id() -> Seq<u8> {
    seq![
        108u8, 111, 114, 101, 109, 32, 105, 112, 115, 117, 109, 32, 100, 111, 108, 111, 114, 32,
        115, 105,
    ]
}

/// The connect request of the exchange `transaction_id`: the protocol
/// constant, the connect action, the transaction.
pub open spec fn connect_request_spec(transaction_id: TransactionId) -> Seq<u8> {
    be_bytes_u64(PROTOCOL_ID) + be_bytes_u32(0) + be_bytes_u32(transaction_id)
}

/// The announce request with the given fields, in the order of the message.
pub open spec fn announce_request_spec(
    connection_id: ConnectionId,
    transaction_id: TransactionId,
    info_hash: Seq<u8>,
    downloaded: u64,
    left: u64,
    uploaded: u64,
    event: u32,
    ip: u32,
    num_want: u32,
    key: u32,
    port: u16,
) -> Seq<u8> {
    be_bytes_u64(connection_id) + be_bytes_u32(1) + be_bytes_u32(transaction_id) + info_hash
        + peer_id() + be_bytes_u64(downloaded) + be_bytes_u64(left) + be_bytes_u64(uploaded)
        + be_bytes_u32(event) + be_bytes_u32(ip) + be_bytes_u32(key) + be_bytes_u32(num_want)
        + be_bytes_u16(port)
}

/// A transaction identifier drawn by `rand::random::<u32>()`, which takes it
/// from the thread's generator. Nothing is claimed of the number: any `u32`
/// may come back, and two calls may differ. The generator is seeded from
/// the operating system when a thread first uses it, and ends the program
/// where the system gives it no seed.
#[verifier::external_body]
fn random_transaction_id() -> (id: TransactionId) {
    rand::random::<u32>()
}

/// The connect request of the exchange `transaction_id`.
pub fn connect_request(transaction_id: TransactionId) -> (request: [u8; 16])
    ensures
        request@ == connect_request_spec(transaction_id),
{
    let mut request: [u8; 16] = [0u8; 16];
    put_u64(&mut request, 0, PROTOCOL_ID);
    put_u32(&mut request, 8, TrackerAction::Connect.code());
    put_u32(&mut request, 12, transaction_id);
    assert(request@ =~= connect_request_spec(transaction_id));
    request
}

/// A connect request for a new exchange, and the transaction identifier
/// that was drawn for it: whatever the identifier, the request is the
/// connect request of that exchange.
pub fn make_connect_request() -> (r: ([u8; 16], TransactionId))
    ensures
        r.0@ == connect_request_spec(r.1),
{
    let transaction_id = random_transaction_id();
    (connect_request(transaction_id), transaction_id)
}

/// The number that the response in `buf` gives for its action.
pub fn response_action_code(buf: &[u8; 1024]) -> (code: u32)
    ensures
        code == u32_from_be(buf@[0], buf@[1], buf@[2], buf@[3]),
{
    read_u32(buf.as_slice(), 0)
}

/// Reads a connect response: the action, the transaction identifier and
/// the connection identifier, from the first sixteen bytes of `buf`. The
/// number for the action has to be one that stands for an action.
pub fn parse_connect_response(buf: &[u8; 1024]) -> (r: (
    TrackerAction,
    TransactionId,
    ConnectionId,
))
    requires
        u32_from_be(buf@[0], buf@[1], buf@[2], buf@[3]) <= 1,
    ensures
        r.0.code_spec() == u32_from_be(buf@[0], buf@[1], buf@[2], buf@[3]),
        r.1 == u32_from_be(buf@[4], buf@[5], buf@[6], buf@[7]),
        r.2 == u64_from_be(buf@, 8),
{
    let bytes = buf.as_slice();
    let received_action_id = read_u32(bytes, 0);
    let received_trans_id = read_u32(bytes, 4);
    let received_connection_id = read_u64(bytes, 8);
    (TrackerAction::from_u32(received_action_id), received_trans_id, received_connection_id)
}

/// Builds an announce request of 98 bytes: the connection, the announce
/// action, the transaction, the info hash, the peer identifier, the three
/// counters, the event, the address, the key, the number of peers wanted
/// and the port.
pub fn make_announce_request(
    connection_id: &ConnectionId,
    transaction_id: &TransactionId,
    info_hash: &[u8; 20],
    downloaded: u64,
    left: u64,
    uploaded: u64,
    event: u32,
    ip: u32,
    num_want: u32,
    key: u32,
    port: u16,
) -> (request: [u8; 98])
    ensures
        request@ == announce_request_spec(
            *connection_id,
            *transaction_id,
            info_hash@,
            downloaded,
            left,
            uploaded,
            event,
            ip,
            num_want,
            key,
            port,
        ),
{
    let peer: [u8; 20] = [
        108u8, 111, 114, 101, 109, 32, 105, 112, 115, 117, 109, 32, 100, 111, 108, 111, 114, 32,
        115, 105,
    ];
    assert(peer@ =~= peer_id());
    let mut res: [u8; 98] = [0u8; 98];
    put_u64(&mut res, 0, *connection_id);
    put_u32(&mut res, 8, TrackerAction::Announce.code());
    put_u32(&mut res, 12, *transaction_id);
    let ghost head = res@.subrange(0, 16);
    assert(head =~= be_bytes_u64(*connection_id) + be_bytes_u32(1) + be_bytes_u32(
        *transaction_id,
    ));
    put_bytes(&mut res, 16, info_hash.as_slice());
    put_bytes(&mut res, 36, peer.as_slice());
    let ghost named = res@.subrange(0, 56);
    assert(named =~= head + info_hash@ + peer_id());
    put_u64(&mut res, 56, downloaded);
    put_u64(&mut res, 64, left);
    put_u64(&mut res, 72, uploaded);
    let ghost counted = res@.subrange(0, 80);
    assert(counted =~= named + be_bytes_u64(downloaded) + be_bytes_u64(left) + be_bytes_u64(
        uploaded,
    ));
    put_u32(&mut res, 80, event);
    put_u32(&mut res, 84, ip);
    put_u32(&mut res, 88, key);
    put_u32(&mut res, 92, num_want);
    put_u16(&mut res, 96, port);
    assert(res@ =~= counted + be_bytes_u32(event) + be_bytes_u32(ip) + be_bytes_u32(key)
        + be_bytes_u32(num_want) + be_bytes_u16(port));
    assert(res@ =~= announce_request_spec(
        *connection_id,
        *transaction_id,
        info_hash@,
        downloaded,
        left,
        uploaded,
        event,
        ip,
        num_want,
        key,
        port,
    ));
    res
}

} // verus!
