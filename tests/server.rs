use memcache::cmd::{Resp, Stat, Value};
use memcache::dispatch::dispatch;
use memcache::storage::Cache;
use memcache::transport::{TcpTransport, TestStream, TcpTransportError};

/// Reads one command from `input`, runs it and returns the bytes of the reply.
fn round(cache: &mut Cache, input: &str, now: u64) -> Result<Vec<u8>, TcpTransportError> {
    let mut transport = TcpTransport::new(TestStream::new(input.as_bytes().to_vec()));
    let cmd = transport.read_cmd()?;
    let resp = dispatch(cache, &cmd, now);
    transport.write_resp(&resp)?;
    Ok(transport.get_stream().outgoing.clone())
}

#[test]
fn stats_on_empty_cache() {
    let mut cache = Cache::new(10);
    assert_eq!(round(&mut cache, "stats\r\n", 0).unwrap(), b"curr_items 0\r\nEND\r\n".to_vec());
}

#[test]
fn stats_counts_items() {
    let mut cache = Cache::new(1000);
    for i in 0..12u8 {
        let line = format!("set k{} 0 0 1\r\nA\r\n", i);
        round(&mut cache, &line, 0).unwrap();
    }
    assert_eq!(round(&mut cache, "stats\r\n", 0).unwrap(), b"curr_items 12\r\nEND\r\n".to_vec());
}

#[test]
fn get_miss_on_empty_cache() {
    let mut cache = Cache::new(10);
    assert_eq!(round(&mut cache, "get x\r\n", 0).unwrap(), b"END\r\n".to_vec());
}

#[test]
fn set_then_get() {
    let mut cache = Cache::new(10);
    assert_eq!(round(&mut cache, "set x 0 0 3\r\nabc\r\n", 0).unwrap(), b"STORED\r\n".to_vec());
    assert_eq!(
        round(&mut cache, "get x\r\n", 0).unwrap(),
        b"VALUE x 0 3\r\nabc\r\nEND\r\n".to_vec()
    );
}

#[test]
fn set_flags_echoed() {
    let mut cache = Cache::new(10);
    round(&mut cache, "set key 65535 0 2\r\nhi\r\n", 0).unwrap();
    assert_eq!(
        round(&mut cache, "get key\r\n", 0).unwrap(),
        b"VALUE key 65535 2\r\nhi\r\nEND\r\n".to_vec()
    );
}

#[test]
fn set_under_size() {
    let mut cache = Cache::new(10);
    assert_eq!(round(&mut cache, "set x 0 0 2\r\nabc\r\n", 0), Err(TcpTransportError::CommandParseError));
}

#[test]
fn set_over_size() {
    let mut cache = Cache::new(10);
    assert_eq!(round(&mut cache, "set x 0 0 4\r\nabc\r\n", 0), Err(TcpTransportError::StreamReadError));
}

#[test]
fn malformed_terminator() {
    let mut cache = Cache::new(10);
    assert_eq!(round(&mut cache, "stats\n", 0), Err(TcpTransportError::StreamReadError));
}

#[test]
fn unknown_verb() {
    let mut cache = Cache::new(10);
    assert_eq!(round(&mut cache, "invalid key 0 0 3\r\n", 0), Err(TcpTransportError::InvalidCmd));
}

#[test]
fn capacity_gate() {
    let mut cache = Cache::new(1);
    assert_eq!(round(&mut cache, "set a 0 0 1\r\nA\r\n", 0).unwrap(), b"STORED\r\n".to_vec());
    assert_eq!(
        round(&mut cache, "set b 0 0 1\r\nB\r\n", 0).unwrap(),
        b"SERVER_ERROR out of memory\r\n".to_vec()
    );
    assert_eq!(round(&mut cache, "set a 0 0 1\r\nZ\r\n", 0).unwrap(), b"STORED\r\n".to_vec());
}

#[test]
fn expiry_by_exptime() {
    let t0: u64 = 1_700_000_000;
    let mut cache = Cache::new(10);
    let line = format!("set x 0 {} 1\r\nA\r\n", t0 + 1);
    assert_eq!(round(&mut cache, &line, t0).unwrap(), b"STORED\r\n".to_vec());
    assert_eq!(cache.len(), 1);
    assert_eq!(round(&mut cache, "get x\r\n", t0 + 2).unwrap(), b"END\r\n".to_vec());
    assert_eq!(cache.len(), 0);
}

#[test]
fn key_too_long_replies() {
    let mut cache = Cache::new(10);
    cache.with_key_maxlen(1);
    assert_eq!(
        round(&mut cache, "get xy\r\n", 0).unwrap(),
        b"CLIENT_ERROR key too long\r\n".to_vec()
    );
    assert_eq!(
        round(&mut cache, "set xy 0 0 1\r\nA\r\n", 0).unwrap(),
        b"CLIENT_ERROR key too long\r\n".to_vec()
    );
}

#[test]
fn value_too_long_replies() {
    let mut cache = Cache::new(10);
    cache.with_value_maxlen(1);
    assert_eq!(
        round(&mut cache, "set x 0 0 2\r\nAB\r\n", 0).unwrap(),
        b"CLIENT_ERROR value too long\r\n".to_vec()
    );
}

#[test]
fn number_errors() {
    let mut cache = Cache::new(10);
    assert_eq!(round(&mut cache, "set x 65536 0 1\r\nA\r\n", 0), Err(TcpTransportError::NumberParseError));
    assert_eq!(round(&mut cache, "set x 0 4294967296 1\r\nA\r\n", 0), Err(TcpTransportError::NumberParseError));
    assert_eq!(round(&mut cache, "set x 0 0 +1\r\nA\r\n", 0), Err(TcpTransportError::NumberParseError));
}

#[test]
fn missing_and_extra_tokens() {
    let mut cache = Cache::new(10);
    assert_eq!(round(&mut cache, "get\r\n", 0), Err(TcpTransportError::CommandParseError));
    assert_eq!(round(&mut cache, "get a b\r\n", 0), Err(TcpTransportError::CommandParseError));
    assert_eq!(round(&mut cache, "stats now\r\n", 0), Err(TcpTransportError::CommandParseError));
    assert_eq!(round(&mut cache, "set x 0 0\r\n", 0), Err(TcpTransportError::CommandParseError));
    assert_eq!(round(&mut cache, "set x  0 0 1\r\nA\r\n", 0), Err(TcpTransportError::CommandParseError));
}

#[test]
fn set_key_must_be_utf8() {
    let mut cache = Cache::new(10);
    let mut input = b"set ".to_vec();
    input.push(255);
    input.extend_from_slice(b" 0 0 1\r\nA\r\n");
    let mut transport = TcpTransport::new(TestStream::new(input));
    assert_eq!(transport.read_cmd(), Err(TcpTransportError::Utf8Error));
    assert_eq!(cache.len(), 0);
}

#[test]
fn cr_without_lf_in_command_line() {
    let mut cache = Cache::new(10);
    assert_eq!(round(&mut cache, "stats\rX", 0), Err(TcpTransportError::LineReadError));
}

#[test]
fn overlong_command_line() {
    let mut cache = Cache::new(10);
    let line = format!("get {}\r\n", "k".repeat(3000));
    assert_eq!(round(&mut cache, &line, 0), Err(TcpTransportError::LineReadError));
}

#[test]
fn two_commands_on_one_stream() {
    let mut cache = Cache::new(10);
    let input = b"set x 1 0 2\r\nhi\r\nget x\r\n".to_vec();
    let mut transport = TcpTransport::new(TestStream::new(input));
    let first = transport.read_cmd().unwrap();
    let r1 = dispatch(&mut cache, &first, 0);
    let second = transport.read_cmd().unwrap();
    let r2 = dispatch(&mut cache, &second, 0);
    transport.write_resp(&r1).unwrap();
    transport.write_resp(&r2).unwrap();
    assert_eq!(transport.get_stream().outgoing, b"STORED\r\nVALUE x 1 2\r\nhi\r\nEND\r\n".to_vec());
}

#[test]
fn read_line_boundaries() {
    // n - 2 content bytes and CR LF: read whole
    let mut t = TcpTransport::new(TestStream::new(b"abc\r\n".to_vec()));
    assert_eq!(t.read_line(5).unwrap(), b"abc".to_vec());
    // n - 1 content bytes and CR LF: refused
    let mut t = TcpTransport::new(TestStream::new(b"abcd\r\n".to_vec()));
    assert_eq!(t.read_line(5), Err(TcpTransportError::LineReadError));
    // bare LF
    let mut t = TcpTransport::new(TestStream::new(b"abc\n".to_vec()));
    assert_eq!(t.read_line(100), Err(TcpTransportError::LineReadError));
    // empty stream
    let mut t = TcpTransport::new(TestStream::new(vec![]));
    assert_eq!(t.read_line(100), Err(TcpTransportError::LineReadError));
    assert_eq!(t.read_byte(), Err(TcpTransportError::StreamReadError));
}

#[test]
fn parse_word_empty_input() {
    let t = TcpTransport::new(TestStream::new(vec![]));
    assert_eq!(t.parse_word(vec![]), Err(TcpTransportError::CommandParseError));
}

#[test]
fn as_number_widths() {
    let t = TcpTransport::new(TestStream::new(vec![]));
    assert_eq!(t.as_number::<u16>(b"65535".to_vec()), Ok(65535u16));
    assert_eq!(t.as_number::<u16>(b"65536".to_vec()), Err(TcpTransportError::NumberParseError));
    assert_eq!(t.as_number::<u64>(b"18446744073709551615".to_vec()), Ok(u64::MAX));
    assert_eq!(t.as_number::<u64>(b"18446744073709551616".to_vec()), Err(TcpTransportError::NumberParseError));
    assert_eq!(t.as_number::<u32>(vec![]), Err(TcpTransportError::NumberParseError));
    assert_eq!(t.as_number::<u32>(b"007".to_vec()), Ok(7u32));
}

#[test]
fn write_resp_all_variants() {
    let cases: Vec<(Resp, &[u8])> = vec![
        (Resp::ClientError("bad".to_string()), b"CLIENT_ERROR bad\r\n"),
        (Resp::ServerError("oom".to_string()), b"SERVER_ERROR oom\r\n"),
        (Resp::NotStored, b"NOT_STORED\r\n"),
        (Resp::NotFound, b"NOT_FOUND\r\n"),
        (Resp::Values(vec![]), b"END\r\n"),
        (
            Resp::Values(vec![Value::new("a", b"1".to_vec()), Value::new("bb", b"22".to_vec())]),
            b"VALUE a 0 1\r\n1\r\nVALUE bb 0 2\r\n22\r\nEND\r\n",
        ),
        (
            Resp::Stats(vec![Stat::new("x", "1".to_string()), Stat::new("y", "20".to_string())]),
            b"x 1\r\ny 20\r\nEND\r\n",
        ),
    ];
    for (resp, expected) in cases {
        let mut t = TcpTransport::new(TestStream::new(vec![]));
        t.write_resp(&resp).unwrap();
        assert_eq!(t.get_stream().outgoing, expected.to_vec());
    }
}
