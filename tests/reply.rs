use memcache::cmd::{Resp, Value};
use memcache::reply::parse_reply;
use memcache::transport::{TcpTransport, TestStream};

fn bytes_of(resp: &Resp) -> Vec<u8> {
    let mut t = TcpTransport::new(TestStream::new(vec![]));
    t.write_resp(resp).unwrap();
    t.get_stream().outgoing.clone()
}

#[test]
fn round_trip_fixed_lines() {
    for resp in [Resp::Error, Resp::Stored, Resp::NotStored, Resp::NotFound] {
        let b = bytes_of(&resp);
        assert_eq!(parse_reply(&b), Some(resp));
    }
}

#[test]
fn round_trip_messages() {
    let r = Resp::ClientError("key too long".to_string());
    assert_eq!(parse_reply(&bytes_of(&r)), Some(r));
    let r = Resp::ServerError("out of memory".to_string());
    assert_eq!(parse_reply(&bytes_of(&r)), Some(r));
}

#[test]
fn round_trip_values() {
    let r = Resp::Values(vec![]);
    assert_eq!(parse_reply(&bytes_of(&r)), Some(r));
    let mut v = Value::new("key", vec![13, 10, 0, 255]);
    v.flags = 42;
    let w = Value::new("k2", b"abc".to_vec());
    let r = Resp::Values(vec![v, w]);
    assert_eq!(parse_reply(&bytes_of(&r)), Some(r));
}

#[test]
fn single_value_reads_back_as_list() {
    let r = Resp::Value(Value::new("x", b"abc".to_vec()));
    let b = bytes_of(&r);
    assert_eq!(b, b"VALUE x 0 3\r\nabc\r\nEND\r\n".to_vec());
    assert_eq!(parse_reply(&b), Some(Resp::Values(vec![Value::new("x", b"abc".to_vec())])));
}

#[test]
fn parse_reply_refuses_garbage() {
    assert_eq!(parse_reply(b"STORED\n"), None);
    assert_eq!(parse_reply(b"VALUE x 0 4\r\nabc\r\nEND\r\n"), None);
    assert_eq!(parse_reply(b"VALUE x 0 3\r\nabc\r\n"), None);
    assert_eq!(parse_reply(b"CLIENT_ERROR a\rb\r\n"), None);
    assert_eq!(parse_reply(&[67, 76, 73, 69, 78, 84, 95, 69, 82, 82, 79, 82, 32, 255, 13, 10]), None);
}
