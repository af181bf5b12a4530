//! Encoding requests and responses onto the wire.
//!
//! A message is one structured value in a JSON-like text form, written
//! back to back with the next one and delimited only by its own structure:
//! `{"Get":{"key":K}}`, `{"Set":{"key":K,"value":V}}`, `{"Remove":{"key":K}}`
//! for requests, and `{"Ok":V}`, `{"Ok":null}` or `{"Err":M}` for responses,
//! where `K`, `V`, `M` are quoted strings in which `"` and `\` (and a few
//! control characters) are escaped with a backslash.

use vstd::prelude::*;

use crate::protocol::{GetRespData, GetResponse, MutRespData, MutResponse, ReqData, Request};
use vstd::string::StrSliceExecFns;

verus! {

/// A control character, which may not stand raw inside a quoted string.
pub open spec fn is_ctl(c: char) -> bool {
    (c as u32) < 0x20
}

/// The lowercase hexadecimal digit for `n`.
pub open spec fn hex_digit(n: u32) -> char {
    if n < 10 {
        ((48 + n) as u8) as char
    } else {
        ((87 + n) as u8) as char
    }
}

/// How one character of a string payload appears on the wire.
pub open spec fn esc_char(c: char) -> Seq<char> {
    if c == '"' {
        seq!['\\', '"']
    } else if c == '\\' {
        seq!['\\', '\\']
    } else if c == '\n' {
        seq!['\\', 'n']
    } else if c == '\r' {
        seq!['\\', 'r']
    } else if c == '\t' {
        seq!['\\', 't']
    } else if c == '\u{8}' {
        seq!['\\', 'b']
    } else if c == '\u{c}' {
        seq!['\\', 'f']
    } else if is_ctl(c) {
        seq!['\\', 'u', '0', '0', hex_digit((c as u32) / 16), hex_digit((c as u32) % 16)]
    } else {
        seq![c]
    }
}

/// The lowercase hexadecimal digit for `n`, executable.
fn hex_digit_exec(n: u32) -> (c: char)
    requires
        n < 16,
    ensures
        c == hex_digit(n),
{
    if n < 10 {
        ((48 + n) as u8) as char
    } else {
        ((87 + n) as u8) as char
    }
}

/// A string payload with every character escaped as the wire wants it.
pub open spec fn json_escape(s: Seq<char>) -> Seq<char>
    decreases s.len(),
{
    if s.len() == 0 {
        Seq::empty()
    } else {
        esc_char(s[0]) + json_escape(s.drop_first())
    }
}

/// A quoted, escaped string payload.
pub open spec fn json_string(s: Seq<char>) -> Seq<char> {
    seq!['"'] + json_escape(s) + seq!['"']
}

/// The whole encoding of one request.
pub open spec fn enc_req(r: ReqData) -> Seq<char> {
    match r {
        ReqData::Get { key } => seq!['{', '"', 'G', 'e', 't', '"', ':', '{', '"', 'k', 'e', 'y', '"', ':']
            + json_string(key) + seq!['}', '}'],
        ReqData::Put { key, value } => seq!['{', '"', 'S', 'e', 't', '"', ':', '{', '"', 'k', 'e', 'y', '"', ':']
            + json_string(key) + seq![',', '"', 'v', 'a', 'l', 'u', 'e', '"', ':'] + json_string(value)
            + seq!['}', '}'],
        ReqData::Remove { key } => seq!['{', '"', 'R', 'e', 'm', 'o', 'v', 'e', '"', ':', '{', '"', 'k', 'e', 'y', '"', ':']
            + json_string(key) + seq!['}', '}'],
    }
}

/// The whole encoding of one get reply.
pub open spec fn enc_get_resp(r: GetRespData) -> Seq<char> {
    match r {
        GetRespData::Value(ov) => match ov {
            Some(v) => seq!['{', '"', 'O', 'k', '"', ':'] + json_string(v) + seq!['}'],
            None => seq!['{', '"', 'O', 'k', '"', ':', 'n', 'u', 'l', 'l', '}'],
        },
        GetRespData::Fail(m) => seq!['{', '"', 'E', 'r', 'r', '"', ':'] + json_string(m) + seq!['}'],
    }
}

/// The whole encoding of one put or remove reply.
pub open spec fn enc_mut_resp(r: MutRespData) -> Seq<char> {
    match r {
        MutRespData::Done => seq!['{', '"', 'O', 'k', '"', ':', 'n', 'u', 'l', 'l', '}'],
        MutRespData::Fail(m) => seq!['{', '"', 'E', 'r', 'r', '"', ':'] + json_string(m) + seq!['}'],
    }
}

/// Escaping distributes over concatenation.
pub proof fn lemma_json_escape_append(a: Seq<char>, b: Seq<char>)
    ensures
        json_escape(a + b) == json_escape(a) + json_escape(b),
    decreases a.len(),
{
    if a.len() == 0 {
        assert(a + b =~= b);
        assert(json_escape(a) + json_escape(b) =~= json_escape(b));
    } else {
        assert((a + b).drop_first() =~= a.drop_first() + b);
        lemma_json_escape_append(a.drop_first(), b);
        assert(esc_char((a + b)[0]) + (json_escape(a.drop_first()) + json_escape(b)) =~= (esc_char(
            a[0],
        ) + json_escape(a.drop_first())) + json_escape(b));
    }
}

/// Escaping one more character appends its escape.
pub proof fn lemma_json_escape_push(s: Seq<char>, i: int)
    requires
        0 <= i < s.len(),
    ensures
        json_escape(s.take(i + 1)) == json_escape(s.take(i)) + esc_char(s[i]),
{
    assert(s.take(i + 1) =~= s.take(i) + seq![s[i]]);
    lemma_json_escape_append(s.take(i), seq![s[i]]);
    let one = seq![s[i]];
    assert(one.drop_first() =~= Seq::<char>::empty());
    assert(json_escape(one.drop_first()) =~= Seq::<char>::empty());
    assert(json_escape(one) =~= esc_char(s[i]));
}

/// Appends the escaped form of `s` to `out`.
fn push_escaped(out: &mut Vec<char>, s: &str)
    ensures
        final(out)@ == old(out)@ + json_escape(s@),
{
    let n = s.unicode_len();
    let ghost base = out@;
    let mut i: usize = 0;
    proof {
        assert(s@.take(0) =~= Seq::<char>::empty());
        assert(base + json_escape(s@.take(0)) =~= base);
    }
    while i < n
        invariant
            i <= n,
            n == s@.len(),
            out@ == base + json_escape(s@.take(i as int)),
        decreases n - i,
    {
        let c = s.get_char(i);
        if c == '"' {
            out.push('\\');
            out.push('"');
        } else if c == '\\' {
            out.push('\\');
            out.push('\\');
        } else if c == '\n' {
            out.push('\\');
            out.push('n');
        } else if c == '\r' {
            out.push('\\');
            out.push('r');
        } else if c == '\t' {
            out.push('\\');
            out.push('t');
        } else if c == '\u{8}' {
            out.push('\\');
            out.push('b');
        } else if c == '\u{c}' {
            out.push('\\');
            out.push('f');
        } else if (c as u32) < 0x20 {
            let u = c as u32;
            out.push('\\');
            out.push('u');
            out.push('0');
            out.push('0');
            out.push(hex_digit_exec(u / 16));
            out.push(hex_digit_exec(u % 16));
        } else {
            out.push(c);
        }
        proof {
            lemma_json_escape_push(s@, i as int);
            assert(out@ =~= base + json_escape(s@.take(i + 1)));
        }
        i = i + 1;
    }
    proof {
        assert(s@.take(n as int) =~= s@);
    }
}

/// Appends a quoted, escaped string payload to `out`.
fn push_json_string(out: &mut Vec<char>, s: &str)
    ensures
        final(out)@ == old(out)@ + json_string(s@),
{
    out.push('"');
    push_escaped(out, s);
    out.push('"');
    proof {
        assert(out@ =~= old(out)@ + json_string(s@));
    }
}

/// Appends the characters of `s` to `out`, unchanged.
pub fn push_chars_of(out: &mut Vec<char>, s: &str)
    ensures
        final(out)@ == old(out)@ + s@,
{
    let n = s.unicode_len();
    let ghost base = out@;
    let mut i: usize = 0;
    proof {
        assert(base + s@.take(0) =~= base);
    }
    while i < n
        invariant
            i <= n,
            n == s@.len(),
            out@ == base + s@.take(i as int),
        decreases n - i,
    {
        let c = s.get_char(i);
        out.push(c);
        proof {
            assert(s@.take(i as int).push(c) =~= s@.take(i + 1));
            assert(out@ =~= base + s@.take(i + 1));
        }
        i = i + 1;
    }
    proof {
        assert(s@.take(n as int) =~= s@);
    }
}

/// Relies on `Iterator::collect` for `String`: the collected string holds
/// exactly the characters of the vector, in order.
#[verifier::external_body]
pub(crate) fn string_from_chars(v: Vec<char>) -> (s: String)
    ensures
        s@ == v@,
{
    v.into_iter().collect()
}

/// Encodes one request as wire text.
pub fn encode_request(req: &Request) -> (out: String)
    ensures
        out@ == enc_req(req@),
{
    let mut buf: Vec<char> = Vec::new();
    match req {
        Request::Get { key } => {
            buf.push('{');
            buf.push('"');
            buf.push('G');
            buf.push('e');
            buf.push('t');
            buf.push('"');
            buf.push(':');
            buf.push('{');
            buf.push('"');
            buf.push('k');
            buf.push('e');
            buf.push('y');
            buf.push('"');
            buf.push(':');
            push_json_string(&mut buf, key.as_str());
            buf.push('}');
            buf.push('}');
            proof {
                assert(buf@ =~= enc_req(req@));
            }
        },
        Request::Put { key, value } => {
            buf.push('{');
            buf.push('"');
            buf.push('S');
            buf.push('e');
            buf.push('t');
            buf.push('"');
            buf.push(':');
            buf.push('{');
            buf.push('"');
            buf.push('k');
            buf.push('e');
            buf.push('y');
            buf.push('"');
            buf.push(':');
            push_json_string(&mut buf, key.as_str());
            buf.push(',');
            buf.push('"');
            buf.push('v');
            buf.push('a');
            buf.push('l');
            buf.push('u');
            buf.push('e');
            buf.push('"');
            buf.push(':');
            push_json_string(&mut buf, value.as_str());
            buf.push('}');
            buf.push('}');
            proof {
                assert(buf@ =~= enc_req(req@));
            }
        },
        Request::Remove { key } => {
            buf.push('{');
            buf.push('"');
            buf.push('R');
            buf.push('e');
            buf.push('m');
            buf.push('o');
            buf.push('v');
            buf.push('e');
            buf.push('"');
            buf.push(':');
            buf.push('{');
            buf.push('"');
            buf.push('k');
            buf.push('e');
            buf.push('y');
            buf.push('"');
            buf.push(':');
            push_json_string(&mut buf, key.as_str());
            buf.push('}');
            buf.push('}');
            proof {
                assert(buf@ =~= enc_req(req@));
            }
        },
    }
    string_from_chars(buf)
}

/// Encodes one get reply as wire text.
pub fn encode_get_response(resp: &GetResponse) -> (out: String)
    ensures
        out@ == enc_get_resp(resp@),
{
    let mut buf: Vec<char> = Vec::new();
    buf.push('{');
    buf.push('"');
    match resp {
        GetResponse::Value(ov) => {
            buf.push('O');
            buf.push('k');
            buf.push('"');
            buf.push(':');
            match ov {
                Some(v) => {
                    push_json_string(&mut buf, v.as_str());
                },
                None => {
                    buf.push('n');
                    buf.push('u');
                    buf.push('l');
                    buf.push('l');
                },
            }
        },
        GetResponse::Fail(m) => {
            buf.push('E');
            buf.push('r');
            buf.push('r');
            buf.push('"');
            buf.push(':');
            push_json_string(&mut buf, m.as_str());
        },
    }
    buf.push('}');
    proof {
        assert(buf@ =~= enc_get_resp(resp@));
    }
    string_from_chars(buf)
}

/// Encodes one put or remove reply as wire text.
pub fn encode_mut_response(resp: &MutResponse) -> (out: String)
    ensures
        out@ == enc_mut_resp(resp@),
{
    let mut buf: Vec<char> = Vec::new();
    buf.push('{');
    buf.push('"');
    match resp {
        MutResponse::Done => {
            buf.push('O');
            buf.push('k');
            buf.push('"');
            buf.push(':');
            buf.push('n');
            buf.push('u');
            buf.push('l');
            buf.push('l');
        },
        MutResponse::Fail(m) => {
            buf.push('E');
            buf.push('r');
            buf.push('r');
            buf.push('"');
            buf.push(':');
            push_json_string(&mut buf, m.as_str());
        },
    }
    buf.push('}');
    proof {
        assert(buf@ =~= enc_mut_resp(resp@));
    }
    string_from_chars(buf)
}

} // verus!
