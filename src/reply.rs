use vstd::arithmetic::div_mod::lemma_fundamental_div_mod;
use vstd::prelude::*;
use vstd::utf8::encode_utf8;

use crate::cmd::{crlf, dec, end_line, resp_bytes, value_bytes, values_bytes, Resp, Value, CR, LF, SP};
use crate::storage::bytes_eq;
use crate::transport::{
    digits_value, find, is_digit, lemma_find, lemma_tokens_len, number_of, parse_number, rest_of,
    split_word, take_tokens, token, tokens, utf8_string, views, word_of,
};
use vstd::slice::{slice_subrange, slice_to_vec};
use vstd::utf8::valid_utf8;

verus! {

/// A reply as a client reads it back; a single value and a list of one value read the same.
pub enum Reply {
    Error,
    ClientError(Seq<u8>),
    ServerError(Seq<u8>),
    Stored,
    NotStored,
    NotFound,
    Values(Seq<(Seq<u8>, u16, Seq<u8>)>),
}

pub open spec fn value_verb() -> Seq<u8> {
    seq![86u8, 65, 76, 85, 69]
}

pub open spec fn error_line() -> Seq<u8> {
    seq![69u8, 82, 82, 79, 82, CR, LF]
}

pub open spec fn stored_line() -> Seq<u8> {
    seq![83u8, 84, 79, 82, 69, 68, CR, LF]
}

pub open spec fn not_stored_line() -> Seq<u8> {
    seq![78u8, 79, 84, 95, 83, 84, 79, 82, 69, 68, CR, LF]
}

pub open spec fn not_found_line() -> Seq<u8> {
    seq![78u8, 79, 84, 95, 70, 79, 85, 78, 68, CR, LF]
}

pub open spec fn client_error_head() -> Seq<u8> {
    seq![67u8, 76, 73, 69, 78, 84, 95, 69, 82, 82, 79, 82, SP]
}

pub open spec fn server_error_head() -> Seq<u8> {
    seq![83u8, 69, 82, 86, 69, 82, 95, 69, 82, 82, 79, 82, SP]
}

/// No CR and no LF.
pub open spec fn plain_text(m: Seq<u8>) -> bool {
    forall|i: int| 0 <= i < m.len() ==> m[i] != CR && m[i] != LF
}

/// Non-empty, with no space, CR or LF.
pub open spec fn plain_token(k: Seq<u8>) -> bool {
    k.len() > 0 && forall|i: int| 0 <= i < k.len() ==> k[i] != SP && k[i] != CR && k[i] != LF
}

/// `head`, a line of plain text, CR LF: the text.
pub open spec fn text_after(b: Seq<u8>, head: Seq<u8>) -> Option<Seq<u8>> {
    if b.len() >= head.len() + 2 && b.take(head.len() as int) == head && b.skip(b.len() - 2)
        == crlf() && plain_text(b.subrange(head.len() as int, b.len() - 2)) {
        Some(b.subrange(head.len() as int, b.len() - 2))
    } else {
        None
    }
}

/// A run of `VALUE` blocks closed by `END`.
pub open spec fn values_from(b: Seq<u8>) -> Option<Seq<(Seq<u8>, u16, Seq<u8>)>>
    decreases b.len(),
{
    if b == end_line() {
        Some(Seq::empty())
    } else {
        let j = find(b, CR);
        if j + 1 >= b.len() || b[j + 1 as int] != LF {
            None
        } else {
            let line = b.take(j as int);
            let after = b.skip(j + 2 as int);
            if word_of(line) != value_verb() {
                None
            } else {
                match tokens(rest_of(line), 3) {
                    None => None,
                    Some(ts) => match (
                        number_of(ts[1], u16::MAX as nat),
                        number_of(ts[2], u32::MAX as nat),
                    ) {
                        (Some(f), Some(n)) => if after.len() < n + 2 || after[n as int] != CR
                            || after[n + 1 as int] != LF {
                            None
                        } else {
                            match values_from(after.skip(n + 2 as int)) {
                                None => None,
                                Some(rest) => Some(seq![(ts[0], f as u16, after.take(n as int))]
                                    + rest),
                            }
                        },
                        _ => None,
                    },
                }
            }
        }
    }
}

/// What a client reads from the bytes `b` of one reply.
pub open spec fn reply_from(b: Seq<u8>) -> Option<Reply> {
    if b == error_line() {
        Some(Reply::Error)
    } else if b == stored_line() {
        Some(Reply::Stored)
    } else if b == not_stored_line() {
        Some(Reply::NotStored)
    } else if b == not_found_line() {
        Some(Reply::NotFound)
    } else if text_after(b, client_error_head()) is Some {
        Some(Reply::ClientError(text_after(b, client_error_head())->0))
    } else if text_after(b, server_error_head()) is Some {
        Some(Reply::ServerError(text_after(b, server_error_head())->0))
    } else {
        match values_from(b) {
            Some(vs) => Some(Reply::Values(vs)),
            None => None,
        }
    }
}

pub open spec fn item_of(v: Value) -> (Seq<u8>, u16, Seq<u8>) {
    (v.key@, v.flags, v.data@)
}

/// The replies whose bytes read back unambiguously.
pub open spec fn symmetric(r: &Resp) -> bool {
    match r {
        Resp::ClientError(m) => plain_text(encode_utf8(m@)),
        Resp::ServerError(m) => plain_text(encode_utf8(m@)),
        Resp::Value(v) => plain_token(v.key@) && v.data@.len() <= u32::MAX,
        Resp::Values(vs) => forall|i: int|
            0 <= i < vs@.len() ==> plain_token(#[trigger] vs@[i].key@) && vs@[i].data@.len()
                <= u32::MAX,
        Resp::Stats(_) => false,
        _ => true,
    }
}

/// What a client should read back from `r`.
pub open spec fn reply_view(r: &Resp) -> Reply {
    match r {
        Resp::Error => Reply::Error,
        Resp::ClientError(m) => Reply::ClientError(encode_utf8(m@)),
        Resp::ServerError(m) => Reply::ServerError(encode_utf8(m@)),
        Resp::Stored => Reply::Stored,
        Resp::NotStored => Reply::NotStored,
        Resp::NotFound => Reply::NotFound,
        Resp::Value(v) => Reply::Values(seq![item_of(*v)]),
        Resp::Values(vs) => Reply::Values(vs@.map_values(|v: Value| item_of(v))),
        Resp::Stats(_) => Reply::Values(Seq::empty()),
    }
}

proof fn lemma_dec(n: nat)
    ensures
        dec(n).len() > 0,
        forall|i: int| 0 <= i < dec(n).len() ==> is_digit(#[trigger] dec(n)[i]),
        digits_value(dec(n)) == n,
    decreases n,
{
    if n >= 10 {
        lemma_dec(n / 10);
        let d = dec(n);
        assert(d.drop_last() =~= dec(n / 10));
        lemma_fundamental_div_mod(n as int, 10);
        assert(d.last() == (48 + n % 10) as u8);
        assert(digits_value(d) == digits_value(dec(n / 10)) * 10 + (n % 10));
        assert forall|i: int| 0 <= i < d.len() implies is_digit(#[trigger] d[i]) by {
            if i < d.len() - 1 {
                assert(d[i] == dec(n / 10)[i]);
            }
        }
    } else {
        assert(dec(n).drop_last() =~= Seq::<u8>::empty());
        assert(digits_value(dec(n).drop_last()) == 0);
        assert(dec(n).last() == (48 + n) as u8);
    }
}

proof fn lemma_token(k: Seq<u8>, tail: Seq<u8>)
    requires
        plain_token(k),
        tail.len() == 0 || tail[0] == SP,
    ensures
        token(seq![SP] + k + tail) == Some((k, tail)),
{
    let s = seq![SP] + k + tail;
    let t = s.drop_first();
    assert(t =~= k + tail);
    assert forall|j: int| 0 <= j < k.len() implies t[j] != SP by {
        assert(t[j] == k[j]);
    }
    lemma_find(t, SP, 0, k.len());
    assert(t.take(k.len() as int) =~= k);
    assert(t.skip(k.len() as int) =~= tail);
}

proof fn lemma_plain_dec(n: nat)
    ensures
        plain_token(dec(n)),
{
    lemma_dec(n);
    assert forall|i: int| 0 <= i < dec(n).len() implies dec(n)[i] != SP && dec(n)[i] != CR
        && dec(n)[i] != LF by {
        assert(is_digit(dec(n)[i]));
    }
}

proof fn lemma_value_block(v: Value, tail: Seq<u8>)
    requires
        plain_token(v.key@),
        v.data@.len() <= u32::MAX,
    ensures
        values_from(value_bytes(&v) + tail) == match values_from(tail) {
            None => None,
            Some(rest) => Some(seq![item_of(v)] + rest),
        },
{
    let k = v.key@;
    let fd = dec(v.flags as nat);
    let nd = dec(v.data@.len());
    let n = v.data@.len();
    lemma_plain_dec(v.flags as nat);
    lemma_plain_dec(n);
    lemma_dec(v.flags as nat);
    lemma_dec(n);
    let line = value_verb() + seq![SP] + k + seq![SP] + fd + seq![SP] + nd;
    let b = value_bytes(&v) + tail;
    assert(b =~= line + crlf() + v.data@ + crlf() + tail);
    assert forall|j: int| 0 <= j < line.len() implies b[j] != CR by {
        assert(b[j] == line[j]);
        let a = 6 + k.len();
        let c = a + 1 + fd.len();
        if 6 <= j < a {
            assert(line[j] == k[j - 6]);
        } else if a + 1 <= j < c {
            assert(line[j] == fd[j - a - 1]);
        } else if c + 1 <= j {
            assert(line[j] == nd[j - c - 1]);
        }
    }
    assert(b[line.len() as int] == CR);
    lemma_find(b, CR, 0, line.len());
    assert(b[line.len() + 1 as int] == LF);
    assert(b.take(line.len() as int) =~= line);
    let after = b.skip(line.len() + 2 as int);
    assert(after =~= v.data@ + crlf() + tail);
    assert(b != end_line()) by {
        assert(b[0] == 86u8);
        assert(end_line()[0] == 69u8);
    }
    assert forall|j: int| 0 <= j < 5 implies line[j] != SP by {}
    lemma_find(line, SP, 0, 5);
    assert(word_of(line) =~= value_verb());
    let r3 = seq![SP] + nd;
    let r2 = seq![SP] + fd + r3;
    let r1 = seq![SP] + k + r2;
    assert(rest_of(line) =~= r1);
    lemma_token(nd, Seq::empty());
    assert(seq![SP] + nd + Seq::<u8>::empty() =~= r3);
    lemma_token(fd, r3);
    lemma_token(k, r2);
    assert(tokens(Seq::<u8>::empty(), 0) == Some(Seq::<Seq<u8>>::empty()));
    assert(tokens(r3, 1) == Some(seq![nd] + Seq::<Seq<u8>>::empty()));
    assert(tokens(r2, 2) == Some(seq![fd] + (seq![nd] + Seq::<Seq<u8>>::empty())));
    let ts = seq![k] + (seq![fd] + (seq![nd] + Seq::<Seq<u8>>::empty()));
    assert(tokens(r1, 3) == Some(ts));
    assert(ts[0] == k && ts[1] == fd && ts[2] == nd);
    assert(after[n as int] == CR);
    assert(after[n + 1 as int] == LF);
    assert(after.take(n as int) =~= v.data@);
    assert(after.skip(n + 2 as int) =~= tail);
}

proof fn lemma_values_front(vs: Seq<Value>)
    requires
        vs.len() > 0,
    ensures
        values_bytes(vs) == value_bytes(&vs[0]) + values_bytes(vs.drop_first()),
    decreases vs.len(),
{
    if vs.len() > 1 {
        lemma_values_front(vs.drop_last());
        assert(vs.drop_last().drop_first() =~= vs.drop_first().drop_last());
        assert(vs.drop_first().last() == vs.last());
        assert(vs.drop_last()[0] == vs[0]);
    } else {
        assert(vs.drop_last() =~= Seq::<Value>::empty());
        assert(vs.drop_first() =~= Seq::<Value>::empty());
    }
}

proof fn lemma_values_list(vs: Seq<Value>)
    requires
        forall|i: int|
            0 <= i < vs.len() ==> plain_token(#[trigger] vs[i].key@) && vs[i].data@.len()
                <= u32::MAX,
    ensures
        values_from(values_bytes(vs) + end_line()) == Some(vs.map_values(|v: Value| item_of(v))),
    decreases vs.len(),
{
    if vs.len() == 0 {
        assert(values_bytes(vs) + end_line() =~= end_line());
        assert(vs.map_values(|v: Value| item_of(v)) =~= Seq::empty());
    } else {
        let rest = vs.drop_first();
        assert forall|i: int| 0 <= i < rest.len() implies plain_token(#[trigger] rest[i].key@)
            && rest[i].data@.len() <= u32::MAX by {
            assert(rest[i] == vs[i + 1]);
            assert(plain_token(vs[i + 1].key@));
        }
        lemma_values_list(rest);
        lemma_values_front(vs);
        assert(values_bytes(vs) + end_line() =~= value_bytes(&vs[0]) + (values_bytes(rest)
            + end_line()));
        lemma_value_block(vs[0], values_bytes(rest) + end_line());
        assert(vs.map_values(|v: Value| item_of(v)) =~= seq![item_of(vs[0])] + rest.map_values(
            |v: Value| item_of(v),
        ));
    }
}

} // verus!

verus! {

proof fn lemma_not_text(b: Seq<u8>)
    requires
        b.len() > 0,
        b[0] == 86u8 || b[0] == 69u8,
    ensures
        text_after(b, client_error_head()) is None,
        text_after(b, server_error_head()) is None,
        b != error_line() || b[0] == 69u8,
        b != stored_line(),
        b != not_stored_line(),
        b != not_found_line(),
{
    if b.len() >= 15 {
        assert(b.take(13)[0] == b[0]);
        assert(client_error_head()[0] == 67u8);
        assert(server_error_head()[0] == 83u8);
    }
    assert(stored_line()[0] == 83u8);
    assert(not_stored_line()[0] == 78u8);
    assert(not_found_line()[0] == 78u8);
}

/// Reading back the bytes of a reply gives that reply, for every reply whose keys and messages
/// hold no separator (and `Value(v)` reads back as the list of the one value `v`).
pub proof fn lemma_reply_round_trip(r: &Resp)
    requires
        symmetric(r),
    ensures
        reply_from(resp_bytes(r)) == Some(reply_view(r)),
{
    let b = resp_bytes(r);
    match r {
        Resp::Error => {},
        Resp::Stored => {
            assert(b[0] != error_line()[0]);
        },
        Resp::NotStored => {
            assert(b[0] != error_line()[0]);
            assert(b.len() != stored_line().len());
        },
        Resp::NotFound => {
            assert(b[0] != error_line()[0]);
            assert(b.len() != stored_line().len());
            assert(b.len() != not_stored_line().len());
        },
        Resp::ClientError(m) => {
            let t = encode_utf8(m@);
            assert(b.len() >= 15);
            assert(b.take(13) =~= client_error_head());
            assert(b.skip(b.len() - 2) =~= crlf());
            assert(b.subrange(13, b.len() - 2) =~= t);
        },
        Resp::ServerError(m) => {
            let t = encode_utf8(m@);
            assert(b.len() >= 15);
            assert(b.take(13) =~= server_error_head());
            assert(b.take(13)[0] != client_error_head()[0]);
            assert(b.skip(b.len() - 2) =~= crlf());
            assert(b.subrange(13, b.len() - 2) =~= t);
        },
        Resp::Value(v) => {
            assert(b[0] == 86u8);
            lemma_not_text(b);
            lemma_value_block(*v, end_line());
            assert(values_from(end_line()) == Some(Seq::<(Seq<u8>, u16, Seq<u8>)>::empty()));
            assert(seq![item_of(*v)] + Seq::<(Seq<u8>, u16, Seq<u8>)>::empty() =~= seq![
                item_of(*v),
            ]);
        },
        Resp::Values(vs) => {
            lemma_values_list(vs@);
            if vs@.len() == 0 {
                assert(b =~= end_line());
                assert(b[0] == 69u8);
                lemma_not_text(b);
                assert(b.len() != error_line().len());
            } else {
                lemma_values_front(vs@);
                assert(b[0] == 86u8);
                lemma_not_text(b);
            }
        },
        Resp::Stats(_) => {},
    }
}

} // verus!

verus! {

fn values_at(b: &[u8], pos: usize) -> (r: Option<Vec<Value>>)
    requires
        pos <= b@.len(),
    ensures
        r is Some == values_from(b@.skip(pos as int)) is Some,
        r matches Some(vs) ==> values_from(b@.skip(pos as int)) == Some(
            vs@.map_values(|v: Value| item_of(v)),
        ),
    decreases b@.len() - pos,
{
    let tail = slice_subrange(b, pos, b.len());
    proof {
        assert(tail@ =~= b@.skip(pos as int));
    }
    let end: [u8; 5] = [69, 78, 68, CR, LF];
    if bytes_eq(tail, &end) {
        let v: Vec<Value> = Vec::new();
        proof {
            assert(v@.map_values(|v: Value| item_of(v)) =~= Seq::empty());
        }
        return Some(v);
    }
    let mut j: usize = 0;
    while j < tail.len() && tail[j] != CR
        invariant
            j <= tail@.len(),
            forall|i: int| 0 <= i < j ==> tail@[i] != CR,
        decreases tail@.len() - j,
    {
        j = j + 1;
    }
    proof {
        lemma_find(tail@, CR, 0, j as nat);
    }
    if tail.len() - j < 2 || tail[j + 1] != LF {
        return None;
    }
    let line = slice_to_vec(slice_subrange(tail, 0, j));
    proof {
        assert(line@ =~= tail@.take(j as int));
    }
    let (verb, rest) = split_word(line.as_slice());
    let vv: [u8; 5] = [86, 65, 76, 85, 69];
    if !bytes_eq(verb.as_slice(), &vv) {
        return None;
    }
    let ts = match take_tokens(&rest, 3) {
        Some(ts) => ts,
        None => {
            return None;
        },
    };
    proof {
        lemma_tokens_len(rest@, 3);
        assert(views(ts@)[0] == ts@[0]@);
        assert(views(ts@)[1] == ts@[1]@);
        assert(views(ts@)[2] == ts@[2]@);
    }
    let flags = match parse_number::<u16>(ts[1].as_slice()) {
        Some(f) => f,
        None => {
            return None;
        },
    };
    let n = match parse_number::<u32>(ts[2].as_slice()) {
        Some(n) => n as usize,
        None => {
            return None;
        },
    };
    let start = j + 2;
    let ghost after = tail@.skip(start as int);
    if tail.len() - start < n || tail.len() - start - n < 2 {
        return None;
    }
    if tail[start + n] != CR || tail[start + n + 1] != LF {
        return None;
    }
    let data = slice_to_vec(slice_subrange(tail, start, start + n));
    proof {
        assert(data@ =~= after.take(n as int));
        assert(after.skip(n + 2 as int) =~= b@.skip(pos + start + n + 2));
    }
    let more = match values_at(b, pos + start + n + 2) {
        Some(m) => m,
        None => {
            return None;
        },
    };
    let ghost more_items = more@.map_values(|v: Value| item_of(v));
    let v = Value { key: ts[0].clone(), flags, data };
    let mut out = more;
    out.insert(0, v);
    proof {
        assert(out@.map_values(|v: Value| item_of(v)) =~= seq![item_of(v)] + more_items);
    }
    Some(out)
}

fn text_line(b: &[u8], head: &[u8]) -> (r: Option<Vec<u8>>)
    ensures
        r is Some == text_after(b@, head@) is Some,
        r matches Some(t) ==> text_after(b@, head@) == Some(t@),
{
    if b.len() < 2 || b.len() - 2 < head.len() {
        return None;
    }
    if !bytes_eq(slice_subrange(b, 0, head.len()), head) {
        return None;
    }
    if b[b.len() - 2] != CR || b[b.len() - 1] != LF {
        proof {
            assert(b@.skip(b@.len() - 2)[0] == b@[b@.len() - 2]);
            assert(b@.skip(b@.len() - 2)[1] == b@[b@.len() - 1]);
        }
        return None;
    }
    let mid = slice_subrange(b, head.len(), b.len() - 2);
    proof {
        assert(b@.take(head@.len() as int) =~= head@);
    }
    let mut i: usize = 0;
    while i < mid.len()
        invariant
            i <= mid@.len(),
            b@.len() >= head@.len() + 2,
            mid@ == b@.subrange(head@.len() as int, b@.len() - 2),
            b@.take(head@.len() as int) == head@,
            b@[b@.len() - 2] == CR && b@[b@.len() - 1] == LF,
            forall|k: int| 0 <= k < i ==> mid@[k] != CR && mid@[k] != LF,
        decreases mid@.len() - i,
    {
        if mid[i] == CR || mid[i] == LF {
            proof {
                assert(!plain_text(mid@));
            }
            return None;
        }
        i = i + 1;
    }
    proof {
        assert(b@.skip(b@.len() - 2) =~= crlf());
        assert(b@.take(head@.len() as int) =~= head@);
    }
    Some(slice_to_vec(mid))
}

/// Messages of the reply are well-formed UTF-8.
pub open spec fn utf8_texts(rep: Reply) -> bool {
    match rep {
        Reply::ClientError(m) => valid_utf8(m),
        Reply::ServerError(m) => valid_utf8(m),
        _ => true,
    }
}

/// Reads the bytes of one reply back into a reply, as a client does.
pub fn parse_reply(b: &[u8]) -> (r: Option<Resp>)
    ensures
        r matches Some(x) ==> reply_from(b@) == Some(reply_view(&x)),
        reply_from(b@) matches Some(rep) && utf8_texts(rep) ==> r is Some,
{
    let error: [u8; 7] = [69, 82, 82, 79, 82, CR, LF];
    let stored: [u8; 8] = [83, 84, 79, 82, 69, 68, CR, LF];
    let not_stored: [u8; 12] = [78, 79, 84, 95, 83, 84, 79, 82, 69, 68, CR, LF];
    let not_found: [u8; 11] = [78, 79, 84, 95, 70, 79, 85, 78, 68, CR, LF];
    let client: [u8; 13] = [67, 76, 73, 69, 78, 84, 95, 69, 82, 82, 79, 82, SP];
    let server: [u8; 13] = [83, 69, 82, 86, 69, 82, 95, 69, 82, 82, 79, 82, SP];
    if bytes_eq(b, &error) {
        return Some(Resp::Error);
    }
    if bytes_eq(b, &stored) {
        return Some(Resp::Stored);
    }
    if bytes_eq(b, &not_stored) {
        return Some(Resp::NotStored);
    }
    if bytes_eq(b, &not_found) {
        return Some(Resp::NotFound);
    }
    if let Some(m) = text_line(b, &client) {
        return match utf8_string(m) {
            Some(s) => Some(Resp::ClientError(s)),
            None => None,
        };
    }
    if let Some(m) = text_line(b, &server) {
        return match utf8_string(m) {
            Some(s) => Some(Resp::ServerError(s)),
            None => None,
        };
    }
    proof {
        assert(b@.skip(0) =~= b@);
    }
    match values_at(b, 0) {
        Some(vs) => Some(Resp::Values(vs)),
        None => None,
    }
}

} // verus!
