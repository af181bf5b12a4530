//! The per-connection conversation: decode a request, ask the engine,
//! write one reply, repeat until the stream ends or breaks.

use vstd::prelude::*;

use crate::codec::{
    enc_get_resp, enc_mut_resp, enc_req, encode_get_response, encode_mut_response, push_chars_of,
    string_from_chars,
};
use crate::parse::{
    decode_request, lemma_parse_enc_req, lemma_req_advance, lemma_window_split, parse_req, skip_ws,
    Decoded, Parsed,
};
use crate::protocol::{
    req_key, GetRespData, GetResponse, MutRespData, MutResponse, ReqData, Request,
};
use crate::store::{key_not_found_message, lit_key_not_found, KvsEngine, MemStore};

verus! {

/// The namespace after one request is applied.
pub open spec fn apply_store(m: Map<Seq<char>, Seq<char>>, r: ReqData) -> Map<Seq<char>, Seq<char>> {
    match r {
        ReqData::Get { key } => m,
        ReqData::Put { key, value } => m.insert(key, value),
        ReqData::Remove { key } => if m.contains_key(key) {
            m.remove(key)
        } else {
            m
        },
    }
}

/// The reply the in-memory engine owes to one request against `m`.
pub open spec fn resp_chars(m: Map<Seq<char>, Seq<char>>, r: ReqData) -> Seq<char> {
    match r {
        ReqData::Get { key } => enc_get_resp(
            GetRespData::Value(
                if m.contains_key(key) {
                    Some(m[key])
                } else {
                    None
                },
            ),
        ),
        ReqData::Put { key, value } => enc_mut_resp(MutRespData::Done),
        ReqData::Remove { key } => enc_mut_resp(
            if m.contains_key(key) {
                MutRespData::Done
            } else {
                MutRespData::Fail(lit_key_not_found())
            },
        ),
    }
}

/// What one whole connection leaves behind: the text written back, the
/// namespace afterwards, and whether the input ended cleanly.
#[verifier::ext_equal]
pub struct SessionEnd {
    pub out: Seq<char>,
    pub store: Map<Seq<char>, Seq<char>>,
    pub clean: bool,
}

/// The whole conversation from position `i`: one reply per decoded
/// request, in order; a whitespace-only tail ends it cleanly, anything
/// else that fits no request ends it as a protocol error.
pub open spec fn spec_session(s: Seq<char>, i: int, m: Map<Seq<char>, Seq<char>>) -> SessionEnd
    decreases s.len() - i,
        when 0 <= i <= s.len()
        via spec_session_decreases
{
    if skip_ws(s, i) >= s.len() {
        SessionEnd { out: Seq::empty(), store: m, clean: true }
    } else {
        match parse_req(s, i) {
            Parsed::Val(r, n) => {
                let rest = spec_session(s, n, apply_store(m, r));
                SessionEnd {
                    out: resp_chars(m, r) + rest.out,
                    store: rest.store,
                    clean: rest.clean,
                }
            },
            Parsed::Short => SessionEnd { out: Seq::empty(), store: m, clean: false },
            Parsed::Bad => SessionEnd { out: Seq::empty(), store: m, clean: false },
        }
    }
}

#[via_fn]
proof fn spec_session_decreases(s: Seq<char>, i: int, m: Map<Seq<char>, Seq<char>>) {
    lemma_req_advance(s, i);
}

/// Applies one request to the in-memory engine and renders its reply.
pub fn dispatch_mem(store: &mut MemStore, req: Request) -> (out: String)
    requires
        old(store).wf(),
    ensures
        final(store).wf(),
        final(store)@ == apply_store(old(store)@, req@),
        out@ == resp_chars(old(store)@, req@),
{
    match req {
        Request::Get { key } => {
            let found = store.lookup(&key);
            encode_get_response(&GetResponse::Value(found))
        },
        Request::Put { key, value } => {
            store.insert(key, value);
            encode_mut_response(&MutResponse::Done)
        },
        Request::Remove { key } => {
            if store.delete(&key) {
                encode_mut_response(&MutResponse::Done)
            } else {
                encode_mut_response(&MutResponse::Fail(key_not_found_message()))
            }
        },
    }
}

/// Serves one decoded request against any engine, as a connection's loop
/// does: the engine's answer shapes the reply, and an engine failure
/// becomes a well-formed error reply, never a broken connection.
pub fn handle_request<E: KvsEngine>(engine: &mut E, req: Request) -> (out: String)
    requires
        old(engine).inv(),
    ensures
        final(engine).inv(),
        (match req@ {
            ReqData::Get { key } => final(engine).kv() == old(engine).kv() && (out@ == resp_chars(
                old(engine).kv(),
                req@,
            ) || (exists|msg: Seq<char>| out@ == enc_get_resp(GetRespData::Fail(msg)))),
            ReqData::Put { key, value } => (final(engine).kv() == old(engine).kv().insert(
                key,
                value,
            ) && out@ == enc_mut_resp(MutRespData::Done)) || (final(engine).kv() == old(
                engine,
            ).kv() && (exists|msg: Seq<char>| out@ == enc_mut_resp(MutRespData::Fail(msg)))),
            ReqData::Remove { key } => (old(engine).kv().contains_key(key) && final(engine).kv()
                == old(engine).kv().remove(key) && out@ == enc_mut_resp(MutRespData::Done)) || (
            final(engine).kv() == old(engine).kv() && (exists|msg: Seq<char>|
                out@ == enc_mut_resp(MutRespData::Fail(msg)))),
        }),
{
    match req {
        Request::Get { key } => {
            match engine.get(key) {
                Ok(found) => encode_get_response(&GetResponse::Value(found)),
                Err(e) => encode_get_response(&GetResponse::Fail(e.msg)),
            }
        },
        Request::Put { key, value } => {
            match engine.set(key, value) {
                Ok(_) => encode_mut_response(&MutResponse::Done),
                Err(e) => encode_mut_response(&MutResponse::Fail(e.msg)),
            }
        },
        Request::Remove { key } => {
            match engine.remove(key) {
                Ok(_) => encode_mut_response(&MutResponse::Done),
                Err(e) => encode_mut_response(&MutResponse::Fail(e.msg)),
            }
        },
    }
}

/// Runs one whole connection against the in-memory engine. Every request
/// the input holds is answered in order; input that ends inside a value
/// or fits no value closes only this conversation, marked unclean.
pub fn serve_connection(store: &mut MemStore, input: &Vec<char>) -> (r: (String, bool))
    requires
        old(store).wf(),
    ensures
        final(store).wf(),
        r.0@ == spec_session(input@, 0, old(store)@).out,
        final(store)@ == spec_session(input@, 0, old(store)@).store,
        r.1 == spec_session(input@, 0, old(store)@).clean,
{
    let ghost m0 = store@;
    let mut out: Vec<char> = Vec::new();
    let mut pos: usize = 0;
    proof {
        assert(Seq::<char>::empty() + spec_session(input@, 0, m0).out =~= spec_session(
            input@,
            0,
            m0,
        ).out);
    }
    loop
        invariant
            m0 == old(store)@,
            pos <= input.len(),
            store.wf(),
            spec_session(input@, 0, m0).out == out@ + spec_session(input@, pos as int, store@).out,
            spec_session(input@, 0, m0).store == spec_session(input@, pos as int, store@).store,
            spec_session(input@, 0, m0).clean == spec_session(input@, pos as int, store@).clean,
        decreases input.len() - pos,
    {
        let ghost m_here = store@;
        let d = decode_request(input, pos);
        match d {
            Decoded::Value { req, next } => {
                proof {
                    if skip_ws(input@, pos as int) >= input@.len() {
                        assert(parse_req(input@, pos as int) == Parsed::<ReqData>::Short);
                    }
                }
                let resp = dispatch_mem(store, req);
                push_chars_of(&mut out, resp.as_str());
                proof {
                    let rest = spec_session(input@, next as int, store@);
                    assert(spec_session(input@, pos as int, m_here).out == resp@ + rest.out);
                    assert(spec_session(input@, 0, m0).out =~= out@ + rest.out);
                }
                pos = next;
            },
            Decoded::End => {
                proof {
                    assert(spec_session(input@, pos as int, store@).out =~= Seq::<char>::empty());
                    assert(out@ + Seq::<char>::empty() =~= out@);
                }
                return (string_from_chars(out), true);
            },
            Decoded::Incomplete => {
                proof {
                    assert(spec_session(input@, pos as int, store@).out =~= Seq::<char>::empty());
                    assert(out@ + Seq::<char>::empty() =~= out@);
                }
                return (string_from_chars(out), false);
            },
            Decoded::Malformed => {
                proof {
                    if skip_ws(input@, pos as int) >= input@.len() {
                        assert(parse_req(input@, pos as int) == Parsed::<ReqData>::Short);
                    }
                    assert(spec_session(input@, pos as int, store@).out =~= Seq::<char>::empty());
                    assert(out@ + Seq::<char>::empty() =~= out@);
                }
                return (string_from_chars(out), false);
            },
        }
    }
}

/// The back-to-back encodings of a list of requests.
pub open spec fn enc_reqs(rs: Seq<ReqData>) -> Seq<char>
    decreases rs.len(),
{
    if rs.len() == 0 {
        Seq::empty()
    } else {
        enc_req(rs[0]) + enc_reqs(rs.drop_first())
    }
}

/// The replies owed to a list of requests, in order.
pub open spec fn session_outputs(m: Map<Seq<char>, Seq<char>>, rs: Seq<ReqData>) -> Seq<char>
    decreases rs.len(),
{
    if rs.len() == 0 {
        Seq::empty()
    } else {
        resp_chars(m, rs[0]) + session_outputs(apply_store(m, rs[0]), rs.drop_first())
    }
}

/// The namespace after a list of requests.
pub open spec fn session_store(m: Map<Seq<char>, Seq<char>>, rs: Seq<ReqData>) -> Map<
    Seq<char>,
    Seq<char>,
>
    decreases rs.len(),
{
    if rs.len() == 0 {
        m
    } else {
        session_store(apply_store(m, rs[0]), rs.drop_first())
    }
}

/// Every encoding starts with an opening brace.
proof fn lemma_enc_req_head(r: ReqData)
    ensures
        enc_req(r).len() > 0,
        enc_req(r)[0] == '{',
{
    match r {
        ReqData::Get { key } => {},
        ReqData::Put { key, value } => {},
        ReqData::Remove { key } => {},
    }
}

/// A connection that sends any run of back-to-back encoded requests is
/// answered by exactly one reply per request, in arrival order, and its
/// conversation ends cleanly.
pub proof fn lemma_session_in_order(
    s: Seq<char>,
    i: int,
    rs: Seq<ReqData>,
    m: Map<Seq<char>, Seq<char>>,
)
    requires
        0 <= i <= s.len(),
        s.subrange(i, s.len() as int) == enc_reqs(rs),
    ensures
        spec_session(s, i, m) == (SessionEnd {
            out: session_outputs(m, rs),
            store: session_store(m, rs),
            clean: true,
        }),
    decreases rs.len(),
{
    if rs.len() == 0 {
        assert(s.len() - i == enc_reqs(rs).len());
        assert(skip_ws(s, i) == i);
    } else {
        let r0 = rs[0];
        let e0 = enc_req(r0);
        let rest = rs.drop_first();
        assert(enc_reqs(rs) == e0 + enc_reqs(rest));
        assert(s.len() - i == e0.len() + enc_reqs(rest).len());
        lemma_window_split(s, i, e0, enc_reqs(rest));
        lemma_parse_enc_req(s, i, r0);
        lemma_enc_req_head(r0);
        assert(s.subrange(i, i + e0.len() as int)[0] == e0[0]);
        assert(s[i] == '{');
        assert(skip_ws(s, i) == i);
        lemma_session_in_order(s, i + e0.len(), rest, apply_store(m, r0));
        assert(spec_session(s, i, m) =~= (SessionEnd {
            out: session_outputs(m, rs),
            store: session_store(m, rs),
            clean: true,
        }));
    }
}

/// After any run of valid requests, input that fits no request stops the
/// conversation: the valid prefix is still answered fully and in order,
/// and only then does this one connection close, marked unclean.
pub proof fn lemma_session_stops_at_error(
    s: Seq<char>,
    i: int,
    rs: Seq<ReqData>,
    m: Map<Seq<char>, Seq<char>>,
)
    requires
        0 <= i,
        i + enc_reqs(rs).len() <= s.len(),
        s.subrange(i, i + enc_reqs(rs).len() as int) == enc_reqs(rs),
        parse_req(s, i + enc_reqs(rs).len()) == Parsed::<ReqData>::Bad || (parse_req(
            s,
            i + enc_reqs(rs).len(),
        ) == Parsed::<ReqData>::Short && skip_ws(s, i + enc_reqs(rs).len()) < s.len()),
    ensures
        spec_session(s, i, m) == (SessionEnd {
            out: session_outputs(m, rs),
            store: session_store(m, rs),
            clean: false,
        }),
    decreases rs.len(),
{
    if rs.len() == 0 {
        if skip_ws(s, i) >= s.len() {
            assert(parse_req(s, i) == Parsed::<ReqData>::Short);
        }
    } else {
        let r0 = rs[0];
        let e0 = enc_req(r0);
        let rest = rs.drop_first();
        assert(enc_reqs(rs) == e0 + enc_reqs(rest));
        assert(i + enc_reqs(rs).len() == i + e0.len() + enc_reqs(rest).len());
        assert(s.subrange(i, i + e0.len() + enc_reqs(rest).len()) == e0 + enc_reqs(rest));
        lemma_window_split(s, i, e0, enc_reqs(rest));
        lemma_parse_enc_req(s, i, r0);
        lemma_enc_req_head(r0);
        assert(s.subrange(i, i + e0.len() as int)[0] == e0[0]);
        assert(s[i] == '{');
        assert(skip_ws(s, i) == i);
        lemma_session_stops_at_error(s, i + e0.len(), rest, apply_store(m, r0));
        assert(spec_session(s, i, m) =~= (SessionEnd {
            out: session_outputs(m, rs),
            store: session_store(m, rs),
            clean: false,
        }));
    }
}

/// A value just written is the value then read: after a write of `v`
/// under `k` succeeds, a read of `k` against the resulting namespace, on
/// this or any other connection, answers with exactly `v`.
pub proof fn lemma_set_then_get(m: Map<Seq<char>, Seq<char>>, k: Seq<char>, v: Seq<char>)
    ensures
        resp_chars(apply_store(m, ReqData::Put { key: k, value: v }), ReqData::Get { key: k })
            == enc_get_resp(GetRespData::Value(Some(v))),
{
}

/// Deleting an absent key is answered with the engine's error text and
/// leaves the namespace unchanged; the conversation goes on.
pub proof fn lemma_remove_absent(m: Map<Seq<char>, Seq<char>>, k: Seq<char>)
    requires
        !m.contains_key(k),
    ensures
        resp_chars(m, ReqData::Remove { key: k }) == enc_mut_resp(
            MutRespData::Fail(lit_key_not_found()),
        ),
        apply_store(m, ReqData::Remove { key: k }) == m,
{
}

/// A request touches no key but its own: every other key keeps its
/// binding, so connections working on disjoint keys cannot disturb one
/// another's results.
pub proof fn lemma_key_isolation(m: Map<Seq<char>, Seq<char>>, r: ReqData, k: Seq<char>)
    requires
        req_key(r) != k,
    ensures
        apply_store(m, r).contains_key(k) == m.contains_key(k),
        m.contains_key(k) ==> apply_store(m, r)[k] == m[k],
{
}

/// Requests on distinct keys commute: serving them in either order
/// leaves the same namespace, and the reply to each is unaffected by the
/// other.
pub proof fn lemma_disjoint_commute(m: Map<Seq<char>, Seq<char>>, r1: ReqData, r2: ReqData)
    requires
        req_key(r1) != req_key(r2),
    ensures
        apply_store(apply_store(m, r1), r2) == apply_store(apply_store(m, r2), r1),
        resp_chars(apply_store(m, r2), r1) == resp_chars(m, r1),
{
    lemma_key_isolation(m, r2, req_key(r1));
    lemma_key_isolation(m, r1, req_key(r2));
    assert(apply_store(apply_store(m, r1), r2) =~= apply_store(apply_store(m, r2), r1));
}

} // verus!
