use vstd::prelude::*;
use vstd::string::StringSliceAdditionalSpecFns;

verus! {

/// `get` request.
#[derive(Debug, PartialEq, Eq)]
pub struct Get {
    pub key: Vec<u8>,
}

/// `set` request.
#[derive(Debug, PartialEq, Eq)]
pub struct Store {
    pub key: Vec<u8>,
    pub flags: u16,
    /// Absolute deadline in seconds since the epoch; zero for none.
    pub exptime: u32,
    pub data: Vec<u8>,
}

/// A decoded request.
#[derive(Debug, PartialEq, Eq)]
pub enum Cmd {
    Stats,
    Get(Get),
    Store(Store),
}

/// Mathematical model of a request.
pub enum CmdView {
    Stats,
    Get(Seq<u8>),
    Store(Seq<u8>, u16, u32, Seq<u8>),
}

impl View for Cmd {
    type V = CmdView;

    open spec fn view(&self) -> CmdView {
        match self {
            Cmd::Stats => CmdView::Stats,
            Cmd::Get(g) => CmdView::Get(g.key@),
            Cmd::Store(s) => CmdView::Store(s.key@, s.flags, s.exptime, s.data@),
        }
    }
}

impl Get {
    pub fn new(key: &str) -> (r: Get)
        ensures
            r.key@ == key.spec_bytes(),
    {
        Get { key: vstd::slice::slice_to_vec(key.as_bytes()) }
    }
}

impl Store {
    /// A `set` with no per-entry deadline.
    pub fn new(key: &str, flags: u16, data: Vec<u8>) -> (r: Store)
        ensures
            r.key@ == key.spec_bytes(),
            r.flags == flags,
            r.exptime == 0,
            r.data@ == data@,
    {
        Store { key: vstd::slice::slice_to_vec(key.as_bytes()), flags, exptime: 0, data }
    }
}

/// A value as it goes out in a reply.
#[derive(Debug, PartialEq, Eq)]
pub struct Value {
    pub key: Vec<u8>,
    pub flags: u16,
    pub data: Vec<u8>,
}

impl Value {
    pub fn new(key: &str, data: Vec<u8>) -> (r: Value)
        ensures
            r.key@ == key.spec_bytes(),
            r.flags == 0,
            r.data@ == data@,
    {
        Value { key: vstd::slice::slice_to_vec(key.as_bytes()), flags: 0, data }
    }
}

/// One line of a `stats` reply.
#[derive(Debug, PartialEq, Eq)]
pub struct Stat {
    pub name: Vec<u8>,
    pub value: Vec<u8>,
}

impl Stat {
    pub fn new(name: &str, value: String) -> (r: Stat)
        ensures
            r.name@ == name.spec_bytes(),
            r.value@ == vstd::utf8::encode_utf8(value@),
    {
        Stat {
            name: vstd::slice::slice_to_vec(name.as_bytes()),
            value: vstd::slice::slice_to_vec(value.as_str().as_bytes()),
        }
    }
}

/// A reply.
#[derive(Debug, PartialEq, Eq)]
pub enum Resp {
    Error,
    ClientError(String),
    ServerError(String),
    Stored,
    NotStored,
    NotFound,
    Value(Value),
    Values(Vec<Value>),
    Stats(Vec<Stat>),
}

pub const CR: u8 = 13;

pub const LF: u8 = 10;

pub const SP: u8 = 32;

pub open spec fn crlf() -> Seq<u8> {
    seq![CR, LF]
}

/// Decimal digits of `n`, most significant first.
pub open spec fn dec(n: nat) -> Seq<u8>
    decreases n,
{
    if n < 10 {
        seq![(48 + n) as u8]
    } else {
        dec(n / 10) + seq![(48 + n % 10) as u8]
    }
}

/// `VALUE <key> <flags> <bytes>` line followed by the payload line.
pub open spec fn value_bytes(v: &Value) -> Seq<u8> {
    seq![86u8, 65, 76, 85, 69, SP] + v.key@ + seq![SP] + dec(v.flags as nat) + seq![SP] + dec(
        v.data@.len(),
    ) + crlf() + v.data@ + crlf()
}

pub open spec fn values_bytes(vs: Seq<Value>) -> Seq<u8>
    decreases vs.len(),
{
    if vs.len() == 0 {
        Seq::empty()
    } else {
        values_bytes(vs.drop_last()) + value_bytes(&vs.last())
    }
}

pub open spec fn stat_bytes(s: &Stat) -> Seq<u8> {
    s.name@ + seq![SP] + s.value@ + crlf()
}

pub open spec fn stats_bytes(ss: Seq<Stat>) -> Seq<u8>
    decreases ss.len(),
{
    if ss.len() == 0 {
        Seq::empty()
    } else {
        stats_bytes(ss.drop_last()) + stat_bytes(&ss.last())
    }
}

pub open spec fn end_line() -> Seq<u8> {
    seq![69u8, 78, 68, CR, LF]
}

/// The bytes that a reply goes out as.
pub open spec fn resp_bytes(r: &Resp) -> Seq<u8> {
    match r {
        Resp::Error => seq![69u8, 82, 82, 79, 82, CR, LF],
        Resp::ClientError(m) => seq![67u8, 76, 73, 69, 78, 84, 95, 69, 82, 82, 79, 82, SP]
            + vstd::utf8::encode_utf8(m@) + crlf(),
        Resp::ServerError(m) => seq![83u8, 69, 82, 86, 69, 82, 95, 69, 82, 82, 79, 82, SP]
            + vstd::utf8::encode_utf8(m@) + crlf(),
        Resp::Stored => seq![83u8, 84, 79, 82, 69, 68, CR, LF],
        Resp::NotStored => seq![78u8, 79, 84, 95, 83, 84, 79, 82, 69, 68, CR, LF],
        Resp::NotFound => seq![78u8, 79, 84, 95, 70, 79, 85, 78, 68, CR, LF],
        Resp::Value(v) => value_bytes(v) + end_line(),
        Resp::Values(vs) => values_bytes(vs@) + end_line(),
        Resp::Stats(ss) => stats_bytes(ss@) + end_line(),
    }
}

} // verus!
