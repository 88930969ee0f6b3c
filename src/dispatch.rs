use vstd::prelude::*;
use vstd::utf8::encode_utf8;

use crate::cmd::{
    crlf, dec, end_line, resp_bytes, stats_bytes, Cmd, CmdView, Resp, Stat, Value, CR, LF, SP,
};
use crate::storage::{Cache, CacheError, CacheView, ValueView};

verus! {

pub open spec fn curr_items_name() -> Seq<u8> {
    seq![99u8, 117, 114, 114, 95, 105, 116, 101, 109, 115]
}

pub open spec fn client_error_bytes(msg: Seq<char>) -> Seq<u8> {
    seq![67u8, 76, 73, 69, 78, 84, 95, 69, 82, 82, 79, 82, SP] + encode_utf8(msg) + crlf()
}

pub open spec fn server_error_bytes(msg: Seq<char>) -> Seq<u8> {
    seq![83u8, 69, 82, 86, 69, 82, 95, 69, 82, 82, 79, 82, SP] + encode_utf8(msg) + crlf()
}

/// The value a `set` of `data` with `flags` and `exptime` hands to the cache.
pub open spec fn stored_value(data: Seq<u8>, flags: u16, exptime: u32) -> ValueView {
    ValueView { data, flags, exptime: exptime as nat, atime: 0 }
}

/// The bytes of the reply to `cmd` on cache `c` at instant `now`.
pub open spec fn reply_bytes(c: CacheView, cmd: CmdView, now: nat) -> Seq<u8> {
    match cmd {
        CmdView::Stats => curr_items_name() + seq![SP] + dec(c.entries.len()) + crlf()
            + end_line(),
        CmdView::Get(k) => match c.get_result(k, now) {
            Ok(w) => seq![86u8, 65, 76, 85, 69, SP] + k + seq![SP] + dec(w.flags as nat) + seq![SP]
                + dec(w.data.len()) + crlf() + w.data + crlf() + end_line(),
            Err(CacheError::KeyNotFound) => end_line(),
            Err(_) => client_error_bytes("key too long"@),
        },
        CmdView::Store(k, flags, exptime, data) => match c.set_result(
            k,
            stored_value(data, flags, exptime),
        ) {
            Ok(()) => seq![83u8, 84, 79, 82, 69, 68, CR, LF],
            Err(CacheError::KeyTooLong) => client_error_bytes("key too long"@),
            Err(CacheError::ValueTooLong) => client_error_bytes("value too long"@),
            Err(_) => server_error_bytes("out of memory"@),
        },
    }
}

/// The cache after `cmd` at instant `now`.
pub open spec fn after_cmd(c: CacheView, cmd: CmdView, now: nat) -> CacheView {
    match cmd {
        CmdView::Stats => c,
        CmdView::Get(k) => c.after_get(k, now),
        CmdView::Store(k, flags, exptime, data) => c.after_set(
            k,
            stored_value(data, flags, exptime),
            now,
        ),
    }
}

/// Decimal digits of `n`.
fn decimal(n: u64) -> (r: Vec<u8>)
    ensures
        r@ == dec(n as nat),
    decreases n,
{
    let mut r = if n >= 10 {
        decimal(n / 10)
    } else {
        Vec::new()
    };
    r.push(48 + (n % 10) as u8);
    proof {
        if n < 10 {
            assert(r@ =~= dec(n as nat));
        } else {
            assert(r@ =~= dec(n as nat));
        }
    }
    r
}

/// Runs `cmd` against `cache` at instant `now` and returns the reply.
pub fn dispatch(cache: &mut Cache, cmd: &Cmd, now: u64) -> (r: Resp)
    requires
        old(cache).wf(),
    ensures
        final(cache).wf(),
        resp_bytes(&r) == reply_bytes(old(cache)@, cmd@, now as nat),
        final(cache)@ == after_cmd(old(cache)@, cmd@, now as nat),
{
    match cmd {
        Cmd::Stats => {
            let n = cache.len();
            let name: Vec<u8> = vec![99, 117, 114, 114, 95, 105, 116, 101, 109, 115];
            let st = Stat { name, value: decimal(n as u64) };
            let ss = vec![st];
            let r = Resp::Stats(ss);
            proof {
                assert(ss@.drop_last() =~= Seq::<Stat>::empty());
                assert(stats_bytes(ss@.drop_last()) == Seq::<u8>::empty());
                assert(ss@.last() == st);
                assert(stats_bytes(ss@) =~= curr_items_name() + seq![SP] + dec(n as nat) + crlf());
                assert(resp_bytes(&r) =~= reply_bytes(old(cache)@, cmd@, now as nat));
            }
            r
        },
        Cmd::Get(g) => match cache.get(g.key.as_slice(), now) {
            Ok(v) => {
                let out = Value { key: g.key.clone(), flags: v.flags, data: v.data };
                let r = Resp::Value(out);
                proof {
                    assert(resp_bytes(&r) =~= reply_bytes(old(cache)@, cmd@, now as nat));
                }
                r
            },
            Err(CacheError::KeyNotFound) => {
                let r = Resp::Values(Vec::new());
                proof {
                    assert(resp_bytes(&r) =~= reply_bytes(old(cache)@, cmd@, now as nat));
                }
                r
            },
            Err(_) => Resp::ClientError(String::from_str("key too long")),
        },
        Cmd::Store(s) => {
            let value = crate::storage::Value::new(s.data.clone(), s.flags, s.exptime as u64);
            match cache.set(s.key.clone(), value, now) {
                Ok(()) => Resp::Stored,
                Err(CacheError::KeyTooLong) => Resp::ClientError(String::from_str("key too long")),
                Err(CacheError::ValueTooLong) => Resp::ClientError(
                    String::from_str("value too long"),
                ),
                Err(_) => Resp::ServerError(String::from_str("out of memory")),
            }
        },
    }
}

} // verus!
