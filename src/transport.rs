use vstd::prelude::*;
use vstd::string::StringSliceAdditionalSpecFns;
use vstd::utf8::valid_utf8;

use crate::cmd::{
    dec, resp_bytes, stats_bytes, value_bytes, values_bytes, Cmd, CmdView, Resp, Stat, Store, Value,
    CR, LF, SP,
};
use crate::storage::bytes_eq;

verus! {

/// Errors of the wire transport.
#[derive(Debug, Clone, Copy, PartialEq, Eq, Structural)]
pub enum TcpTransportError {
    StreamReadError,
    StreamWriteError,
    LineReadError,
    Utf8Error,
    NumberParseError,
    InvalidCmd,
    CommandParseError,
}

/// A duplex byte stream.
pub trait Stream: Sized {
    /// The bytes the stream will still deliver before it ends or fails. Verified code knows of
    /// a stream only what its impl states here; the empty default states nothing useful.
    closed spec fn pending(&self) -> Seq<u8> {
        Seq::empty()
    }

    /// The bytes written to the stream so far.
    closed spec fn sent(&self) -> Seq<u8> {
        Seq::empty()
    }

    /// Reads exactly `n` bytes.
    fn read_exact(&mut self, n: usize) -> (r: Option<Vec<u8>>)
        ensures
            (old(self).pending().len() >= n) == (r is Some),
            r matches Some(v) ==> v@ == old(self).pending().take(n as int),
            r is Some ==> final(self).pending() == old(self).pending().skip(n as int),
            final(self).sent() == old(self).sent(),
    ;

    /// Writes all of `buf`; false where the stream refused it.
    fn write_all(&mut self, buf: &[u8]) -> (r: bool)
        ensures
            r ==> final(self).sent() == old(self).sent() + buf@,
            final(self).pending() == old(self).pending(),
    ;
}

/// An in-memory stream: fixed input, collected output.
#[derive(Debug)]
pub struct TestStream {
    pub incoming: Vec<u8>,
    pub outgoing: Vec<u8>,
}

impl TestStream {
    pub fn new(incoming: Vec<u8>) -> (r: TestStream)
        ensures
            r.incoming@ == incoming@,
            r.outgoing@.len() == 0,
    {
        TestStream { incoming, outgoing: Vec::new() }
    }
}

impl Stream for TestStream {
    open spec fn pending(&self) -> Seq<u8> {
        self.incoming@
    }

    open spec fn sent(&self) -> Seq<u8> {
        self.outgoing@
    }

    fn read_exact(&mut self, n: usize) -> (r: Option<Vec<u8>>) {
        if self.incoming.len() < n {
            return None;
        }
        let mut head: Vec<u8> = Vec::new();
        let mut tail: Vec<u8> = Vec::new();
        let mut i: usize = 0;
        while i < self.incoming.len()
            invariant
                n <= self.incoming@.len(),
                i <= self.incoming@.len(),
                i <= n ==> head@ == self.incoming@.take(i as int) && tail@.len() == 0,
                i > n ==> head@ == self.incoming@.take(n as int) && tail@
                    == self.incoming@.subrange(n as int, i as int),
            decreases self.incoming@.len() - i,
        {
            if i < n {
                head.push(self.incoming[i]);
                proof {
                    assert(head@ =~= self.incoming@.take(i + 1));
                }
            } else {
                tail.push(self.incoming[i]);
                proof {
                    assert(tail@ =~= self.incoming@.subrange(n as int, i + 1));
                }
            }
            i = i + 1;
        }
        proof {
            assert(tail@ =~= self.incoming@.skip(n as int));
        }
        self.incoming = tail;
        Some(head)
    }

    fn write_all(&mut self, buf: &[u8]) -> (r: bool) {
        self.outgoing.extend_from_slice(buf);
        true
    }
}

/// Width of an unsigned integer that `as_number` can produce.
pub trait Decimal: Sized {
    spec fn spec_max() -> nat;

    spec fn spec_value(&self) -> nat;

    fn max_value() -> (r: u64)
        ensures
            r == Self::spec_max(),
    ;

    fn from_u64(v: u64) -> (r: Self)
        requires
            v <= Self::spec_max(),
        ensures
            r.spec_value() == v,
    ;
}

impl Decimal for u16 {
    open spec fn spec_max() -> nat {
        u16::MAX as nat
    }

    open spec fn spec_value(&self) -> nat {
        *self as nat
    }

    fn max_value() -> (r: u64) {
        u16::MAX as u64
    }

    fn from_u64(v: u64) -> (r: u16) {
        v as u16
    }
}

impl Decimal for u32 {
    open spec fn spec_max() -> nat {
        u32::MAX as nat
    }

    open spec fn spec_value(&self) -> nat {
        *self as nat
    }

    fn max_value() -> (r: u64) {
        u32::MAX as u64
    }

    fn from_u64(v: u64) -> (r: u32) {
        v as u32
    }
}

impl Decimal for u64 {
    open spec fn spec_max() -> nat {
        u64::MAX as nat
    }

    open spec fn spec_value(&self) -> nat {
        *self as nat
    }

    fn max_value() -> (r: u64) {
        u64::MAX
    }

    fn from_u64(v: u64) -> (r: u64) {
        v
    }
}

/// Index of the first `b` in `s` at or after `i`, or the length of `s` where there is none.
pub open spec fn find_from(s: Seq<u8>, b: u8, i: nat) -> nat
    decreases s.len() - i,
{
    if i >= s.len() {
        s.len()
    } else if s[i as int] == b {
        i
    } else {
        find_from(s, b, i + 1)
    }
}

pub open spec fn find(s: Seq<u8>, b: u8) -> nat {
    find_from(s, b, 0)
}

pub proof fn lemma_find(s: Seq<u8>, b: u8, i: nat, k: nat)
    requires
        i <= k <= s.len(),
        forall|j: int| i <= j < k ==> s[j] != b,
    ensures
        find_from(s, b, i) == find_from(s, b, k),
        find_from(s, b, k) >= k,
        k == s.len() ==> find_from(s, b, k) == k,
        k < s.len() && s[k as int] == b ==> find_from(s, b, k) == k,
    decreases k - i,
{
    if i < k {
        lemma_find(s, b, i + 1, k);
    } else {
        lemma_find_ge(s, b, k);
    }
}

proof fn lemma_find_ge(s: Seq<u8>, b: u8, k: nat)
    requires
        k <= s.len(),
    ensures
        k <= find_from(s, b, k) <= s.len(),
        find_from(s, b, k) < s.len() ==> s[find_from(s, b, k) as int] == b,
        forall|j: int| k <= j < find_from(s, b, k) ==> s[j] != b,
    decreases s.len() - k,
{
    if k < s.len() && s[k as int] != b {
        lemma_find_ge(s, b, k + 1);
    }
}

/// What `read_line(max)` returns on input `p`: the bytes before the first LF, where that LF
/// comes within `max` bytes and right after a CR, which is dropped too.
pub open spec fn line_result(p: Seq<u8>, max: nat) -> Option<Seq<u8>> {
    let j = find(p, LF);
    if j < max && j < p.len() && j >= 1 && p[j - 1] == CR {
        Some(p.take(j - 1))
    } else {
        None
    }
}

pub open spec fn is_digit(b: u8) -> bool {
    48 <= b <= 57
}

/// Value of a run of decimal digits.
pub open spec fn digits_value(s: Seq<u8>) -> nat
    decreases s.len(),
{
    if s.len() == 0 {
        0
    } else {
        digits_value(s.drop_last()) * 10 + (s.last() - 48) as nat
    }
}

/// The number that `s` spells in decimal, where it is one no larger than `max`.
pub open spec fn number_of(s: Seq<u8>, max: nat) -> Option<nat> {
    if s.len() > 0 && (forall|i: int| 0 <= i < s.len() ==> is_digit(#[trigger] s[i]))
        && digits_value(s) <= max {
        Some(digits_value(s))
    } else {
        None
    }
}

/// The word before the first space.
pub open spec fn word_of(s: Seq<u8>) -> Seq<u8> {
    s.take(find(s, SP) as int)
}

/// What follows the word, from the space on.
pub open spec fn rest_of(s: Seq<u8>) -> Seq<u8> {
    s.skip(find(s, SP) as int)
}

/// Upper bound on the length of a command line, terminator excluded.
pub const CMD_LINE_MAX: usize = 2048;

/// What reading a command line gives on input `p`: the bytes before the first CR, which must
/// come within `CMD_LINE_MAX` bytes and be followed by LF.
pub open spec fn command_line(p: Seq<u8>) -> Result<Seq<u8>, TcpTransportError> {
    let j = find(p, CR);
    if j >= CMD_LINE_MAX {
        Err(TcpTransportError::LineReadError)
    } else if j + 1 >= p.len() {
        Err(TcpTransportError::StreamReadError)
    } else if p[j + 1 as int] != LF {
        Err(TcpTransportError::LineReadError)
    } else {
        Ok(p.take(j as int))
    }
}

/// The non-empty token after the space that opens `rest`, and what follows it.
pub open spec fn token(rest: Seq<u8>) -> Option<(Seq<u8>, Seq<u8>)> {
    if rest.len() == 0 {
        None
    } else {
        let t = rest.drop_first();
        if word_of(t).len() == 0 {
            None
        } else {
            Some((word_of(t), rest_of(t)))
        }
    }
}

/// Exactly `n` tokens and nothing after them.
pub open spec fn tokens(rest: Seq<u8>, n: nat) -> Option<Seq<Seq<u8>>>
    decreases n,
{
    if n == 0 {
        if rest.len() == 0 {
            Some(Seq::empty())
        } else {
            None
        }
    } else {
        match token(rest) {
            None => None,
            Some((w, r)) => match tokens(r, (n - 1) as nat) {
                None => None,
                Some(ts) => Some(seq![w] + ts),
            },
        }
    }
}

pub open spec fn stats_verb() -> Seq<u8> {
    seq![115u8, 116, 97, 116, 115]
}

pub open spec fn get_verb() -> Seq<u8> {
    seq![103u8, 101, 116]
}

pub open spec fn set_verb() -> Seq<u8> {
    seq![115u8, 101, 116]
}

/// A decoded command line; a `set` carries the announced payload length.
pub enum Header {
    Stats,
    Get(Seq<u8>),
    Store(Seq<u8>, u16, u32, nat),
}

/// What a command line decodes to.
pub open spec fn parse_header(line: Seq<u8>) -> Result<Header, TcpTransportError> {
    let verb = word_of(line);
    let rest = rest_of(line);
    if verb == stats_verb() {
        if rest.len() == 0 {
            Ok(Header::Stats)
        } else {
            Err(TcpTransportError::CommandParseError)
        }
    } else if verb == get_verb() {
        match tokens(rest, 1) {
            None => Err(TcpTransportError::CommandParseError),
            Some(ts) => if !valid_utf8(ts[0]) {
                Err(TcpTransportError::Utf8Error)
            } else {
                Ok(Header::Get(ts[0]))
            },
        }
    } else if verb == set_verb() {
        match tokens(rest, 4) {
            None => Err(TcpTransportError::CommandParseError),
            Some(ts) => if !valid_utf8(ts[0]) {
                Err(TcpTransportError::Utf8Error)
            } else {
                match (
                    number_of(ts[1], u16::MAX as nat),
                    number_of(ts[2], u32::MAX as nat),
                    number_of(ts[3], u32::MAX as nat),
                ) {
                    (Some(f), Some(e), Some(n)) => Ok(Header::Store(ts[0], f as u16, e as u32, n)),
                    _ => Err(TcpTransportError::NumberParseError),
                }
            },
        }
    } else {
        Err(TcpTransportError::InvalidCmd)
    }
}

/// What `read_cmd` gives on input `p`: the command and the number of bytes it takes up.
pub open spec fn cmd_result(p: Seq<u8>) -> Result<(CmdView, nat), TcpTransportError> {
    match command_line(p) {
        Err(e) => Err(e),
        Ok(line) => {
            let c = line.len() + 2;
            match parse_header(line) {
                Err(e) => Err(e),
                Ok(Header::Stats) => Ok((CmdView::Stats, c)),
                Ok(Header::Get(k)) => Ok((CmdView::Get(k), c)),
                Ok(Header::Store(k, f, e, n)) => {
                    let q = p.skip(c as int);
                    if q.len() < n + 2 {
                        Err(TcpTransportError::StreamReadError)
                    } else if q[n as int] != CR || q[n + 1 as int] != LF {
                        Err(TcpTransportError::CommandParseError)
                    } else {
                        Ok((CmdView::Store(k, f, e, q.take(n as int)), c + n + 2))
                    }
                },
            }
        },
    }
}

/// Relies on `String::from_utf8`: it succeeds exactly on well-formed UTF-8 and keeps the bytes.
#[verifier::external_body]
pub(crate) fn utf8_string(bytes: Vec<u8>) -> (r: Option<String>)
    ensures
        r is Some == valid_utf8(bytes@),
        r matches Some(s) ==> vstd::utf8::encode_utf8(s@) == bytes@,
{
    String::from_utf8(bytes).ok()
}

} // verus!

verus! {

/// Framing and parsing over a byte stream; writes are gathered and sent in one piece.
pub struct TcpTransport<S: Stream> {
    stream: S,
    outgoing: Vec<u8>,
}

impl<S: Stream> TcpTransport<S> {
    /// Bytes still to be read.
    pub closed spec fn pending(&self) -> Seq<u8> {
        self.stream.pending()
    }

    /// Bytes already handed to the stream.
    pub closed spec fn sent(&self) -> Seq<u8> {
        self.stream.sent()
    }

    /// Bytes written but not yet flushed.
    pub closed spec fn buffered(&self) -> Seq<u8> {
        self.outgoing@
    }

    pub closed spec fn stream_of(&self) -> S {
        self.stream
    }

    pub fn new(stream: S) -> (r: Self)
        ensures
            r.stream_of() == stream,
            r.pending() == stream.pending(),
            r.sent() == stream.sent(),
            r.buffered().len() == 0,
    {
        TcpTransport { stream, outgoing: Vec::new() }
    }

    pub fn get_stream(&self) -> (r: &S)
        ensures
            *r == self.stream_of(),
    {
        &self.stream
    }

    pub fn get_outgoing_buffer(&self) -> (r: &Vec<u8>)
        ensures
            r@ == self.buffered(),
    {
        &self.outgoing
    }

    pub fn read_byte(&mut self) -> (r: Result<u8, TcpTransportError>)
        ensures
            (old(self).pending().len() > 0) == (r is Ok),
            r matches Ok(b) ==> b == old(self).pending()[0] && final(self).pending() == old(self).pending().drop_first(),
            r matches Err(e) ==> e == TcpTransportError::StreamReadError,
            final(self).sent() == old(self).sent(),
            final(self).buffered() == old(self).buffered(),
    {
        match self.stream.read_exact(1) {
            Some(v) => Ok(v[0]),
            None => Err(TcpTransportError::StreamReadError),
        }
    }

    /// Reads exactly `n` bytes.
    pub fn read_bytes(&mut self, n: usize) -> (r: Result<Vec<u8>, TcpTransportError>)
        ensures
            (old(self).pending().len() >= n) == (r is Ok),
            r matches Ok(v) ==> v@ == old(self).pending().take(n as int) && final(self).pending() == old(self).pending().skip(n as int),
            r matches Err(e) ==> e == TcpTransportError::StreamReadError,
            final(self).sent() == old(self).sent(),
            final(self).buffered() == old(self).buffered(),
    {
        match self.stream.read_exact(n) {
            Some(v) => Ok(v),
            None => Err(TcpTransportError::StreamReadError),
        }
    }

    /// Reads a CR LF terminated line of at most `max_len` bytes, terminator included, and
    /// returns it without the terminator.
    pub fn read_line(&mut self, max_len: usize) -> (r: Result<Vec<u8>, TcpTransportError>)
        ensures
            r is Ok == line_result(old(self).pending(), max_len as nat) is Some,
            r matches Ok(v) ==> Some(v@) == line_result(old(self).pending(), max_len as nat)
                && final(self).pending() == old(self).pending().skip(v@.len() + 2 as int),
            r matches Err(e) ==> e == TcpTransportError::LineReadError,
            final(self).sent() == old(self).sent(),
            final(self).buffered() == old(self).buffered(),
    {
        let ghost p = self.pending();
        let mut line: Vec<u8> = Vec::new();
        let mut i: usize = 0;
        while i < max_len
            invariant
                p == old(self).pending(),
                i <= max_len,
                i <= p.len(),
                self.pending() == p.skip(i as int),
                line@ == p.take(i as int),
                forall|j: int| 0 <= j < i ==> p[j] != LF,
                self.sent() == old(self).sent(),
                self.buffered() == old(self).buffered(),
            decreases max_len - i,
        {
            let b = match self.read_byte() {
                Ok(b) => b,
                Err(_) => {
                    proof {
                        lemma_find(p, LF, 0, i as nat);
                    }
                    return Err(TcpTransportError::LineReadError);
                },
            };
            proof {
                assert(b == p[i as int]);
                assert(p.skip(i as int).drop_first() =~= p.skip(i + 1));
            }
            if b == LF {
                proof {
                    lemma_find(p, LF, 0, i as nat);
                }
                if i > 0 && line[i - 1] == CR {
                    line.pop();
                    proof {
                        assert(line@ =~= p.take(i - 1));
                    }
                    return Ok(line);
                }
                return Err(TcpTransportError::LineReadError);
            }
            line.push(b);
            i = i + 1;
            proof {
                assert(line@ =~= p.take(i as int));
            }
        }
        proof {
            lemma_find(p, LF, 0, i as nat);
        }
        Err(TcpTransportError::LineReadError)
    }

    /// Adds `bytes` to the outgoing buffer.
    pub fn write_bytes(&mut self, bytes: &[u8]) -> (r: Result<usize, TcpTransportError>)
        ensures
            r == Ok::<usize, TcpTransportError>(bytes@.len() as usize),
            final(self).buffered() == old(self).buffered() + bytes@,
            final(self).pending() == old(self).pending(),
            final(self).sent() == old(self).sent(),
    {
        self.outgoing.extend_from_slice(bytes);
        Ok(bytes.len())
    }

    /// Adds the UTF-8 bytes of `s` to the outgoing buffer.
    pub fn write_string(&mut self, s: &str) -> (r: Result<usize, TcpTransportError>)
        ensures
            r == Ok::<usize, TcpTransportError>(s.spec_bytes().len() as usize),
            final(self).buffered() == old(self).buffered() + s.spec_bytes(),
            final(self).pending() == old(self).pending(),
            final(self).sent() == old(self).sent(),
    {
        self.write_bytes(s.as_bytes())
    }

    /// Hands the outgoing buffer to the stream in one write and empties it.
    pub fn flush_writes(&mut self) -> (r: Result<(), TcpTransportError>)
        ensures
            r is Ok ==> final(self).sent() == old(self).sent() + old(self).buffered(),
            r matches Err(e) ==> e == TcpTransportError::StreamWriteError,
            final(self).buffered().len() == 0,
            final(self).pending() == old(self).pending(),
    {
        let ok = self.stream.write_all(self.outgoing.as_slice());
        self.outgoing = Vec::new();
        if ok {
            Ok(())
        } else {
            Err(TcpTransportError::StreamWriteError)
        }
    }

    /// Decodes `bytes` as UTF-8.
    pub fn as_string(&self, bytes: Vec<u8>) -> (r: Result<String, TcpTransportError>)
        ensures
            r is Ok == valid_utf8(bytes@),
            r matches Ok(s) ==> vstd::utf8::encode_utf8(s@) == bytes@,
            r matches Err(e) ==> e == TcpTransportError::Utf8Error,
    {
        match utf8_string(bytes) {
            Some(s) => Ok(s),
            None => Err(TcpTransportError::Utf8Error),
        }
    }

    /// Reads `bytes` as an unsigned decimal number of width `T`.
    pub fn as_number<T: Decimal>(&self, bytes: Vec<u8>) -> (r: Result<T, TcpTransportError>)
        ensures
            r is Ok == number_of(bytes@, T::spec_max()) is Some,
            r matches Ok(n) ==> Some(n.spec_value()) == number_of(bytes@, T::spec_max()),
            r matches Err(e) ==> e == TcpTransportError::NumberParseError,
    {
        match parse_number::<T>(bytes.as_slice()) {
            Some(n) => Ok(n),
            None => Err(TcpTransportError::NumberParseError),
        }
    }

    /// Reads a command line up to CR, then expects LF. A bare LF counts as an ordinary byte, so a
    /// line that ends in one runs into the end of the stream.
    fn read_cmd_line(&mut self) -> (r: Result<Vec<u8>, TcpTransportError>)
        ensures
            match (r, command_line(old(self).pending())) {
                (Ok(v), Ok(l)) => v@ == l && final(self).pending() == old(self).pending().skip(
                    l.len() + 2 as int,
                ),
                (Err(e), Err(f)) => e == f,
                _ => false,
            },
            final(self).sent() == old(self).sent(),
            final(self).buffered() == old(self).buffered(),
    {
        let ghost p = self.pending();
        let mut line: Vec<u8> = Vec::new();
        let mut i: usize = 0;
        while i < CMD_LINE_MAX
            invariant
                p == old(self).pending(),
                i <= CMD_LINE_MAX,
                i <= p.len(),
                self.pending() == p.skip(i as int),
                line@ == p.take(i as int),
                forall|j: int| 0 <= j < i ==> p[j] != CR,
                self.sent() == old(self).sent(),
                self.buffered() == old(self).buffered(),
            decreases CMD_LINE_MAX - i,
        {
            let b = match self.read_byte() {
                Ok(b) => b,
                Err(_) => {
                    proof {
                        lemma_find(p, CR, 0, i as nat);
                    }
                    return Err(TcpTransportError::StreamReadError);
                },
            };
            proof {
                assert(b == p[i as int]);
                assert(p.skip(i as int).drop_first() =~= p.skip(i + 1));
            }
            if b == CR {
                proof {
                    lemma_find(p, CR, 0, i as nat);
                }
                let b2 = match self.read_byte() {
                    Ok(b2) => b2,
                    Err(_) => {
                        return Err(TcpTransportError::StreamReadError);
                    },
                };
                proof {
                    assert(b2 == p[i + 1]);
                    assert(p.skip(i + 1).drop_first() =~= p.skip(i + 2));
                }
                if b2 != LF {
                    return Err(TcpTransportError::LineReadError);
                }
                return Ok(line);
            }
            line.push(b);
            i = i + 1;
            proof {
                assert(line@ =~= p.take(i as int));
            }
        }
        proof {
            lemma_find(p, CR, 0, i as nat);
        }
        Err(TcpTransportError::LineReadError)
    }

    fn decode_line(&self, line: Vec<u8>) -> (r: Result<Head, TcpTransportError>)
        ensures
            match (r, parse_header(line@)) {
                (Ok(h), Ok(g)) => h@ == g,
                (Err(e), Err(f)) => e == f,
                _ => false,
            },
    {
        let (verb, rest) = split_word(line.as_slice());
        let stats: [u8; 5] = [115, 116, 97, 116, 115];
        let get: [u8; 3] = [103, 101, 116];
        let set: [u8; 3] = [115, 101, 116];
        if bytes_eq(verb.as_slice(), &stats) {
            if rest.len() == 0 {
                return Ok(Head::Stats);
            }
            return Err(TcpTransportError::CommandParseError);
        }
        if bytes_eq(verb.as_slice(), &get) {
            let ts = match take_tokens(&rest, 1) {
                None => {
                    return Err(TcpTransportError::CommandParseError);
                },
                Some(ts) => ts,
            };
            proof {
                lemma_tokens_len(rest@, 1);
            }
            let key = ts[0].clone();
            if self.as_string(key.clone()).is_err() {
                return Err(TcpTransportError::Utf8Error);
            }
            return Ok(Head::Get(key));
        }
        if bytes_eq(verb.as_slice(), &set) {
            let ts = match take_tokens(&rest, 4) {
                None => {
                    return Err(TcpTransportError::CommandParseError);
                },
                Some(ts) => ts,
            };
            proof {
                lemma_tokens_len(rest@, 4);
            }
            let key = ts[0].clone();
            if self.as_string(key.clone()).is_err() {
                return Err(TcpTransportError::Utf8Error);
            }
            let flags = match self.as_number::<u16>(ts[1].clone()) {
                Ok(f) => f,
                Err(e) => {
                    return Err(e);
                },
            };
            let exptime = match self.as_number::<u32>(ts[2].clone()) {
                Ok(x) => x,
                Err(e) => {
                    return Err(e);
                },
            };
            let n = match self.as_number::<u32>(ts[3].clone()) {
                Ok(x) => x,
                Err(e) => {
                    return Err(e);
                },
            };
            return Ok(Head::Store(key, flags, exptime, n));
        }
        Err(TcpTransportError::InvalidCmd)
    }

    /// Reads one command.
    pub fn read_cmd(&mut self) -> (r: Result<Cmd, TcpTransportError>)
        ensures
            match (r, cmd_result(old(self).pending())) {
                (Ok(c), Ok((v, n))) => c@ == v && final(self).pending() == old(self).pending().skip(n as int),
                (Err(e), Err(f)) => e == f,
                _ => false,
            },
            final(self).sent() == old(self).sent(),
            final(self).buffered() == old(self).buffered(),
    {
        let ghost p = self.pending();
        let line = match self.read_cmd_line() {
            Ok(l) => l,
            Err(e) => {
                return Err(e);
            },
        };
        let ghost c = line@.len() + 2;
        let head = match self.decode_line(line) {
            Ok(h) => h,
            Err(e) => {
                return Err(e);
            },
        };
        match head {
            Head::Stats => Ok(Cmd::Stats),
            Head::Get(key) => Ok(Cmd::Get(crate::cmd::Get { key })),
            Head::Store(key, flags, exptime, n) => {
                let ghost q = p.skip(c as int);
                let data = match self.read_bytes(n as usize) {
                    Ok(d) => d,
                    Err(e) => {
                        return Err(e);
                    },
                };
                proof {
                    assert(q.skip(n as int) =~= p.skip(c + n));
                }
                let term = match self.read_bytes(2) {
                    Ok(t) => t,
                    Err(e) => {
                        return Err(e);
                    },
                };
                proof {
                    assert(term@[0] == q[n as int]);
                    assert(term@[1] == q[n + 1]);
                    assert(p.skip(c + n).skip(2) =~= p.skip(c + n + 2));
                }
                if term[0] != CR || term[1] != LF {
                    return Err(TcpTransportError::CommandParseError);
                }
                Ok(Cmd::Store(Store { key, flags, exptime, data }))
            },
        }
    }

    fn put_decimal(&mut self, n: u64)
        ensures
            final(self).buffered() == old(self).buffered() + dec(n as nat),
            final(self).pending() == old(self).pending(),
            final(self).sent() == old(self).sent(),
        decreases n,
    {
        if n >= 10 {
            self.put_decimal(n / 10);
        }
        let d: [u8; 1] = [48 + (n % 10) as u8];
        let _ = self.write_bytes(&d);
        proof {
            if n >= 10 {
                assert(old(self).buffered() + dec(n as nat) =~= old(self).buffered() + dec(
                    (n / 10) as nat,
                ) + seq![(48 + n % 10) as u8]);
            }
        }
    }

    fn put_value(&mut self, v: &Value)
        ensures
            final(self).buffered() == old(self).buffered() + value_bytes(v),
            final(self).pending() == old(self).pending(),
            final(self).sent() == old(self).sent(),
    {
        let head: [u8; 6] = [86, 65, 76, 85, 69, SP];
        let sp: [u8; 1] = [SP];
        let crlf: [u8; 2] = [CR, LF];
        let _ = self.write_bytes(&head);
        let _ = self.write_bytes(v.key.as_slice());
        let _ = self.write_bytes(&sp);
        self.put_decimal(v.flags as u64);
        let _ = self.write_bytes(&sp);
        self.put_decimal(v.data.len() as u64);
        let _ = self.write_bytes(&crlf);
        let _ = self.write_bytes(v.data.as_slice());
        let _ = self.write_bytes(&crlf);
        proof {
            assert(self.buffered() =~= old(self).buffered() + value_bytes(v));
        }
    }

    fn put_resp(&mut self, resp: &Resp)
        ensures
            final(self).buffered() == old(self).buffered() + resp_bytes(resp),
            final(self).pending() == old(self).pending(),
            final(self).sent() == old(self).sent(),
    {
        let end: [u8; 5] = [69, 78, 68, CR, LF];
        let crlf: [u8; 2] = [CR, LF];
        match resp {
            Resp::Error => {
                let b: [u8; 7] = [69, 82, 82, 79, 82, CR, LF];
                let _ = self.write_bytes(&b);
            },
            Resp::ClientError(m) => {
                let b: [u8; 13] = [67, 76, 73, 69, 78, 84, 95, 69, 82, 82, 79, 82, SP];
                let _ = self.write_bytes(&b);
                let _ = self.write_string(m.as_str());
                let _ = self.write_bytes(&crlf);
                proof {
                    assert(self.buffered() =~= old(self).buffered() + resp_bytes(resp));
                }
            },
            Resp::ServerError(m) => {
                let b: [u8; 13] = [83, 69, 82, 86, 69, 82, 95, 69, 82, 82, 79, 82, SP];
                let _ = self.write_bytes(&b);
                let _ = self.write_string(m.as_str());
                let _ = self.write_bytes(&crlf);
                proof {
                    assert(self.buffered() =~= old(self).buffered() + resp_bytes(resp));
                }
            },
            Resp::Stored => {
                let b: [u8; 8] = [83, 84, 79, 82, 69, 68, CR, LF];
                let _ = self.write_bytes(&b);
            },
            Resp::NotStored => {
                let b: [u8; 12] = [78, 79, 84, 95, 83, 84, 79, 82, 69, 68, CR, LF];
                let _ = self.write_bytes(&b);
            },
            Resp::NotFound => {
                let b: [u8; 11] = [78, 79, 84, 95, 70, 79, 85, 78, 68, CR, LF];
                let _ = self.write_bytes(&b);
            },
            Resp::Value(v) => {
                self.put_value(v);
                let _ = self.write_bytes(&end);
                proof {
                    assert(self.buffered() =~= old(self).buffered() + resp_bytes(resp));
                }
            },
            Resp::Values(vs) => {
                let mut i: usize = 0;
                while i < vs.len()
                    invariant
                        i <= vs@.len(),
                        self.buffered() == old(self).buffered() + values_bytes(
                            vs@.take(i as int),
                        ),
                        self.pending() == old(self).pending(),
                        self.sent() == old(self).sent(),
                    decreases vs@.len() - i,
                {
                    self.put_value(&vs[i]);
                    proof {
                        let t = vs@.take(i + 1);
                        assert(t.drop_last() =~= vs@.take(i as int));
                        assert(t.last() == vs@[i as int]);
                        assert(self.buffered() =~= old(self).buffered() + values_bytes(t));
                    }
                    i = i + 1;
                }
                let _ = self.write_bytes(&end);
                proof {
                    assert(vs@.take(i as int) =~= vs@);
                    assert(self.buffered() =~= old(self).buffered() + resp_bytes(resp));
                }
            },
            Resp::Stats(ss) => {
                let mut i: usize = 0;
                while i < ss.len()
                    invariant
                        i <= ss@.len(),
                        self.buffered() == old(self).buffered() + stats_bytes(
                            ss@.take(i as int),
                        ),
                        self.pending() == old(self).pending(),
                        self.sent() == old(self).sent(),
                    decreases ss@.len() - i,
                {
                    let st: &Stat = &ss[i];
                    let sp: [u8; 1] = [SP];
                    let crlf: [u8; 2] = [CR, LF];
                    let _ = self.write_bytes(st.name.as_slice());
                    let _ = self.write_bytes(&sp);
                    let _ = self.write_bytes(st.value.as_slice());
                    let _ = self.write_bytes(&crlf);
                    proof {
                        let t = ss@.take(i + 1);
                        assert(t.drop_last() =~= ss@.take(i as int));
                        assert(t.last() == ss@[i as int]);
                        assert(self.buffered() =~= old(self).buffered() + stats_bytes(t));
                    }
                    i = i + 1;
                }
                let _ = self.write_bytes(&end);
                proof {
                    assert(ss@.take(i as int) =~= ss@);
                    assert(self.buffered() =~= old(self).buffered() + resp_bytes(resp));
                }
            },
        }
    }

    /// Writes the bytes of `resp` and flushes.
    pub fn write_resp(&mut self, resp: &Resp) -> (r: Result<(), TcpTransportError>)
        ensures
            r is Ok ==> final(self).sent() == old(self).sent() + old(self).buffered()
                + resp_bytes(resp),
            r matches Err(e) ==> e == TcpTransportError::StreamWriteError,
            final(self).buffered().len() == 0,
            final(self).pending() == old(self).pending(),
    {
        self.put_resp(resp);
        self.flush_writes()
    }

    /// Splits `bytes` at the first space: the word before it, and the rest from the space on.
    pub fn parse_word(&self, bytes: Vec<u8>) -> (r: Result<(Vec<u8>, Vec<u8>), TcpTransportError>)
        ensures
            r is Ok == (bytes@.len() > 0),
            r matches Ok((w, rest)) ==> w@ == word_of(bytes@) && rest@ == rest_of(bytes@),
            r matches Err(e) ==> e == TcpTransportError::CommandParseError,
    {
        if bytes.len() == 0 {
            return Err(TcpTransportError::CommandParseError);
        }
        let (w, rest) = split_word(bytes.as_slice());
        Ok((w, rest))
    }
}

/// A decoded command line, as values.
enum Head {
    Stats,
    Get(Vec<u8>),
    Store(Vec<u8>, u16, u32, u32),
}

impl View for Head {
    type V = Header;

    closed spec fn view(&self) -> Header {
        match self {
            Head::Stats => Header::Stats,
            Head::Get(k) => Header::Get(k@),
            Head::Store(k, f, e, n) => Header::Store(k@, *f, *e, *n as nat),
        }
    }
}

pub open spec fn views(v: Seq<Vec<u8>>) -> Seq<Seq<u8>> {
    v.map_values(|x: Vec<u8>| x@)
}

pub proof fn lemma_tokens_len(rest: Seq<u8>, n: nat)
    ensures
        tokens(rest, n) matches Some(ts) ==> ts.len() == n,
    decreases n,
{
    if n > 0 {
        if let Some((w, r)) = token(rest) {
            lemma_tokens_len(r, (n - 1) as nat);
        }
    }
}

fn next_token(rest: &Vec<u8>) -> (r: Option<(Vec<u8>, Vec<u8>)>)
    ensures
        r is Some == token(rest@) is Some,
        r matches Some((w, t)) ==> token(rest@) == Some((w@, t@)),
{
    if rest.len() == 0 {
        return None;
    }
    let tail = vstd::slice::slice_subrange(rest.as_slice(), 1, rest.len());
    proof {
        assert(tail@ =~= rest@.drop_first());
    }
    let (w, t) = split_word(tail);
    if w.len() == 0 {
        None
    } else {
        Some((w, t))
    }
}

pub(crate) fn take_tokens(rest: &Vec<u8>, n: usize) -> (r: Option<Vec<Vec<u8>>>)
    ensures
        r is Some == tokens(rest@, n as nat) is Some,
        r matches Some(v) ==> tokens(rest@, n as nat) == Some(views(v@)),
    decreases n,
{
    if n == 0 {
        if rest.len() == 0 {
            let v: Vec<Vec<u8>> = Vec::new();
            proof {
                assert(views(v@) =~= Seq::<Seq<u8>>::empty());
            }
            return Some(v);
        }
        return None;
    }
    match next_token(rest) {
        None => None,
        Some((w, t)) => match take_tokens(&t, n - 1) {
            None => None,
            Some(ts) => {
                let ghost old_ts = views(ts@);
                let mut ts = ts;
                ts.insert(0, w);
                proof {
                    assert(views(ts@) =~= seq![w@] + old_ts);
                }
                Some(ts)
            },
        },
    }
}

/// The number of width `T` that `bytes` spells in decimal.
pub(crate) fn parse_number<T: Decimal>(bytes: &[u8]) -> (r: Option<T>)
    ensures
        r is Some == number_of(bytes@, T::spec_max()) is Some,
        r matches Some(n) ==> Some(n.spec_value()) == number_of(bytes@, T::spec_max()),
{
    if bytes.len() == 0 {
        return None;
    }
    let max = T::max_value();
    let mut acc: u128 = 0;
    let mut i: usize = 0;
    while i < bytes.len()
        invariant
            i <= bytes@.len(),
            max == T::spec_max(),
            forall|j: int| 0 <= j < i ==> is_digit(#[trigger] bytes@[j]),
            acc == if digits_value(bytes@.take(i as int)) > max {
                max as nat + 1
            } else {
                digits_value(bytes@.take(i as int))
            },
        decreases bytes@.len() - i,
    {
        let b = bytes[i];
        if b < 48 || b > 57 {
            return None;
        }
        proof {
            let t = bytes@.take(i + 1);
            assert(t.drop_last() =~= bytes@.take(i as int));
            assert(t.last() == b);
        }
        let next = acc * 10 + (b - 48) as u128;
        acc = if next > max as u128 {
            max as u128 + 1
        } else {
            next
        };
        i = i + 1;
    }
    proof {
        assert(bytes@.take(i as int) =~= bytes@);
    }
    if acc > max as u128 {
        return None;
    }
    Some(T::from_u64(acc as u64))
}

/// The word before the first space, and the rest from the space on.
pub(crate) fn split_word(bytes: &[u8]) -> (r: (Vec<u8>, Vec<u8>))
    ensures
        r.0@ == word_of(bytes@),
        r.1@ == rest_of(bytes@),
{
    let mut i: usize = 0;
    while i < bytes.len() && bytes[i] != SP
        invariant
            i <= bytes@.len(),
            forall|j: int| 0 <= j < i ==> bytes@[j] != SP,
        decreases bytes@.len() - i,
    {
        i = i + 1;
    }
    proof {
        lemma_find(bytes@, SP, 0, i as nat);
    }
    let mut w: Vec<u8> = Vec::new();
    let mut rest: Vec<u8> = Vec::new();
    let mut j: usize = 0;
    while j < bytes.len()
        invariant
            i <= bytes@.len(),
            j <= bytes@.len(),
            j <= i ==> w@ == bytes@.take(j as int) && rest@.len() == 0,
            j > i ==> w@ == bytes@.take(i as int) && rest@ == bytes@.subrange(i as int, j as int),
        decreases bytes@.len() - j,
    {
        if j < i {
            w.push(bytes[j]);
            proof {
                assert(w@ =~= bytes@.take(j + 1));
            }
        } else {
            rest.push(bytes[j]);
            proof {
                assert(rest@ =~= bytes@.subrange(i as int, j + 1));
            }
        }
        j = j + 1;
    }
    proof {
        assert(rest@ =~= bytes@.skip(i as int));
        assert(w@ =~= bytes@.take(i as int));
    }
    (w, rest)
}

} // verus!

verus! {

/// A line of exactly `n - 2` bytes followed by CR LF is read whole by `read_line(n)`; a line of
/// `n - 1` bytes followed by CR LF is refused.
pub proof fn lemma_line_bound(content: Seq<u8>, after: Seq<u8>, n: nat)
    requires
        n >= 2,
        forall|i: int| 0 <= i < content.len() ==> content[i] != LF,
    ensures
        content.len() == n - 2 ==> line_result(content + seq![CR, LF] + after, n) == Some(
            content,
        ),
        content.len() == n - 1 ==> line_result(content + seq![CR, LF] + after, n) is None,
{
    let p = content + seq![CR, LF] + after;
    let k = content.len();
    assert forall|j: int| 0 <= j < k + 1 implies p[j] != LF by {
        if j < k {
            assert(p[j] == content[j]);
        }
    }
    assert(p[k + 1 as int] == LF);
    assert(p[k as int] == CR);
    lemma_find(p, LF, 0, k + 1);
    assert(p.take(k as int) =~= content);
}

/// `read_line` refuses input whose line ends in a LF that no CR precedes.
pub proof fn lemma_bare_lf(content: Seq<u8>, n: nat)
    requires
        forall|i: int| 0 <= i < content.len() ==> content[i] != LF,
        content.len() == 0 || content.last() != CR,
    ensures
        line_result(content.push(LF), n) is None,
{
    let p = content.push(LF);
    let k = content.len();
    assert forall|j: int| 0 <= j < k implies p[j] != LF by {
        assert(p[j] == content[j]);
    }
    lemma_find(p, LF, 0, k);
    if k > 0 {
        assert(p[k - 1 as int] == content.last());
    }
}

} // verus!
