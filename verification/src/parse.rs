//! Decoding requests from the wire.
//!
//! The stream carries one value after another with no length prefix: the
//! decoder finds the end of a value from its structure alone. Input that
//! ends inside a value is distinguished from input that fits no value at
//! all, so a connection can tell a clean end of stream from a protocol
//! error.

use vstd::prelude::*;

use crate::codec::{enc_req, esc_char, json_escape, json_string};
use crate::protocol::{ReqData, Request};

verus! {

/// Outcome of one production of the grammar: the value read and the
/// position one past it, input that ended too early, or input that fits
/// no production.
pub enum Parsed<T> {
    Val(T, int),
    Short,
    Bad,
}

/// Feeds the value of one parse into the next step.
pub open spec fn pstep<T, U>(p: Parsed<T>, f: spec_fn(T, int) -> Parsed<U>) -> Parsed<U> {
    match p {
        Parsed::Val(t, i) => f(t, i),
        Parsed::Short => Parsed::Short,
        Parsed::Bad => Parsed::Bad,
    }
}

/// The whitespace the wire allows between values and tokens.
pub open spec fn is_ws(c: char) -> bool {
    c == ' ' || c == '\t' || c == '\n' || c == '\r'
}

/// First position at or after `i` that holds a non-whitespace character.
pub open spec fn skip_ws(s: Seq<char>, i: int) -> int
    decreases s.len() - i,
{
    if i < s.len() && is_ws(s[i]) {
        skip_ws(s, i + 1)
    } else {
        i
    }
}

/// Where whitespace skipping lands: between `i` and the end, on a
/// non-whitespace character unless it is the end.
pub proof fn lemma_skip_ws(s: Seq<char>, i: int)
    requires
        0 <= i <= s.len(),
    ensures
        i <= skip_ws(s, i) <= s.len(),
        skip_ws(s, i) < s.len() ==> !is_ws(s[skip_ws(s, i)]),
    decreases s.len() - i,
{
    if i < s.len() && is_ws(s[i]) {
        lemma_skip_ws(s, i + 1);
    }
}

/// One expected punctuation character, after any whitespace.
pub open spec fn expect_tok(s: Seq<char>, i: int, c: char) -> Parsed<()> {
    let j = skip_ws(s, i);
    if j >= s.len() {
        Parsed::Short
    } else if s[j] == c {
        Parsed::Val((), j + 1)
    } else {
        Parsed::Bad
    }
}

/// A hexadecimal digit of the wire, either case.
pub open spec fn is_hex(c: char) -> bool {
    (48 <= (c as u32) && (c as u32) <= 57) || (97 <= (c as u32) && (c as u32) <= 102) || (65 <= (
    c as u32) && (c as u32) <= 70)
}

/// The value of a hexadecimal digit.
pub open spec fn hex_val(c: char) -> u32 {
    if 48 <= (c as u32) && (c as u32) <= 57 {
        ((c as u32) - 48) as u32
    } else if 97 <= (c as u32) && (c as u32) <= 102 {
        ((c as u32) - 87) as u32
    } else {
        ((c as u32) - 55) as u32
    }
}

/// What a backslash escape stands for, if it is one the wire knows.
pub open spec fn simple_escape(e: char) -> Option<char> {
    if e == '"' {
        Some('"')
    } else if e == '\\' {
        Some('\\')
    } else if e == '/' {
        Some('/')
    } else if e == 'n' {
        Some('\n')
    } else if e == 'r' {
        Some('\r')
    } else if e == 't' {
        Some('\t')
    } else if e == 'b' {
        Some('\u{8}')
    } else if e == 'f' {
        Some('\u{c}')
    } else {
        None
    }
}

/// The rest of a quoted string after its opening quote: the characters it
/// stands for and the position one past its closing quote.
pub open spec fn parse_string_body(s: Seq<char>, i: int) -> Parsed<Seq<char>>
    decreases s.len() - i,
{
    if i >= s.len() {
        Parsed::Short
    } else if s[i] == '"' {
        Parsed::Val(Seq::empty(), i + 1)
    } else if s[i] == '\\' {
        if i + 1 >= s.len() {
            Parsed::Short
        } else if s[i + 1] == 'u' {
            if i + 6 > s.len() {
                Parsed::Short
            } else if is_hex(s[i + 2]) && is_hex(s[i + 3]) && is_hex(s[i + 4]) && is_hex(s[i + 5]) {
                let v = hex_val(s[i + 2]) * 4096 + hex_val(s[i + 3]) * 256 + hex_val(s[i + 4]) * 16
                    + hex_val(s[i + 5]);
                if v < 256 {
                    pstep(
                        parse_string_body(s, i + 6),
                        |t: Seq<char>, j: int| Parsed::Val(seq![((v as u8) as char)] + t, j),
                    )
                } else {
                    Parsed::Bad
                }
            } else {
                Parsed::Bad
            }
        } else {
            match simple_escape(s[i + 1]) {
                Some(c) => pstep(
                    parse_string_body(s, i + 2),
                    |t: Seq<char>, j: int| Parsed::Val(seq![c] + t, j),
                ),
                None => Parsed::Bad,
            }
        }
    } else {
        pstep(parse_string_body(s, i + 1), |t: Seq<char>, j: int| Parsed::Val(seq![s[i]] + t, j))
    }
}

/// A quoted string, after any whitespace.
pub open spec fn parse_json_string(s: Seq<char>, i: int) -> Parsed<Seq<char>> {
    let j = skip_ws(s, i);
    if j >= s.len() {
        Parsed::Short
    } else if s[j] == '"' {
        parse_string_body(s, j + 1)
    } else {
        Parsed::Bad
    }
}

/// A field written `"name":<string>`, after any whitespace.
pub open spec fn parse_field(s: Seq<char>, i: int, name: Seq<char>) -> Parsed<Seq<char>> {
    pstep(
        parse_json_string(s, i),
        |n: Seq<char>, j: int|
            if n == name {
                pstep(expect_tok(s, j, ':'), |u: (), j2: int| parse_json_string(s, j2))
            } else {
                Parsed::Bad
            },
    )
}

/// The tag of a read request.
pub open spec fn lit_get() -> Seq<char> {
    seq!['G', 'e', 't']
}

/// The tag of a write request.
pub open spec fn lit_set() -> Seq<char> {
    seq!['S', 'e', 't']
}

/// The tag of a delete request.
pub open spec fn lit_remove() -> Seq<char> {
    seq!['R', 'e', 'm', 'o', 'v', 'e']
}

/// The name of the key field.
pub open spec fn lit_key() -> Seq<char> {
    seq!['k', 'e', 'y']
}

/// The name of the value field.
pub open spec fn lit_value() -> Seq<char> {
    seq!['v', 'a', 'l', 'u', 'e']
}

/// The two closing braces of a read or delete request, after its key.
pub open spec fn parse_get_like_tail(s: Seq<char>, i5: int, get: bool, key: Seq<char>) -> Parsed<
    ReqData,
> {
    pstep(
        expect_tok(s, i5, '}'),
        |u3: (), i6: int|
            pstep(
                expect_tok(s, i6, '}'),
                |u4: (), i7: int|
                    Parsed::Val(
                        if get {
                            ReqData::Get { key }
                        } else {
                            ReqData::Remove { key }
                        },
                        i7,
                    ),
            ),
    )
}

/// The value field and closing braces of a write request, after its key.
pub open spec fn parse_put_tail(s: Seq<char>, i5: int, key: Seq<char>) -> Parsed<ReqData> {
    pstep(
        expect_tok(s, i5, ','),
        |u3: (), i6: int|
            pstep(
                parse_field(s, i6, lit_value()),
                |value: Seq<char>, i7: int|
                    pstep(
                        expect_tok(s, i7, '}'),
                        |u4: (), i8: int|
                            pstep(
                                expect_tok(s, i8, '}'),
                                |u5: (), i9: int| Parsed::Val(ReqData::Put { key, value }, i9),
                            ),
                    ),
            ),
    )
}

/// What follows a request's tag: the colon, the inner object with its
/// key field, the write's value field, and the closing braces.
pub open spec fn parse_req_body(s: Seq<char>, tag: Seq<char>, i2: int) -> Parsed<ReqData> {
    if tag == lit_get() || tag == lit_set() || tag == lit_remove() {
        pstep(
            expect_tok(s, i2, ':'),
            |u1: (), i3: int|
                pstep(
                    expect_tok(s, i3, '{'),
                    |u2: (), i4: int|
                        pstep(
                            parse_field(s, i4, lit_key()),
                            |key: Seq<char>, i5: int|
                                if tag == lit_set() {
                                    parse_put_tail(s, i5, key)
                                } else {
                                    parse_get_like_tail(s, i5, tag == lit_get(), key)
                                },
                        ),
                ),
        )
    } else {
        Parsed::Bad
    }
}

/// One whole request value, after any whitespace: its meaning and the
/// position one past its closing brace.
pub open spec fn parse_req(s: Seq<char>, i: int) -> Parsed<ReqData> {
    pstep(
        expect_tok(s, i, '{'),
        |u0: (), i1: int|
            pstep(
                parse_json_string(s, i1),
                |tag: Seq<char>, i2: int| parse_req_body(s, tag, i2),
            ),
    )
}

/// A parsed string ends strictly past where it began and inside the input.
pub proof fn lemma_string_body_advance(s: Seq<char>, i: int)
    requires
        0 <= i,
    ensures
        parse_string_body(s, i) matches Parsed::Val(t, j) ==> i < j <= s.len(),
    decreases s.len() - i,
{
    if i >= s.len() {
    } else if s[i] == '"' {
    } else if s[i] == '\\' {
        if i + 1 < s.len() {
            if s[i + 1] == 'u' {
                if i + 6 <= s.len() {
                    lemma_string_body_advance(s, i + 6);
                }
            } else if simple_escape(s[i + 1]) is Some {
                lemma_string_body_advance(s, i + 2);
            }
        }
    } else {
        lemma_string_body_advance(s, i + 1);
    }
}

/// A parsed quoted string ends strictly past where it began.
pub proof fn lemma_json_string_advance(s: Seq<char>, i: int)
    requires
        0 <= i <= s.len(),
    ensures
        parse_json_string(s, i) matches Parsed::Val(t, j) ==> i < j <= s.len(),
{
    lemma_skip_ws(s, i);
    let j0 = skip_ws(s, i);
    if j0 < s.len() && s[j0] == '"' {
        lemma_string_body_advance(s, j0 + 1);
    }
}

/// A matched token ends strictly past where it began.
pub proof fn lemma_expect_advance(s: Seq<char>, i: int, c: char)
    requires
        0 <= i <= s.len(),
    ensures
        expect_tok(s, i, c) matches Parsed::Val(u, j) ==> i < j <= s.len(),
{
    lemma_skip_ws(s, i);
}

/// A parsed field ends strictly past where it began.
pub proof fn lemma_field_advance(s: Seq<char>, i: int, name: Seq<char>)
    requires
        0 <= i <= s.len(),
    ensures
        parse_field(s, i, name) matches Parsed::Val(t, j) ==> i < j <= s.len(),
{
    lemma_json_string_advance(s, i);
    match parse_json_string(s, i) {
        Parsed::Val(n, j) => {
            lemma_expect_advance(s, j, ':');
            match expect_tok(s, j, ':') {
                Parsed::Val(u, j2) => {
                    lemma_json_string_advance(s, j2);
                },
                _ => {},
            }
        },
        _ => {},
    }
}

/// A parsed request ends strictly past where it began and inside the input.
pub proof fn lemma_req_advance(s: Seq<char>, i: int)
    requires
        0 <= i <= s.len(),
    ensures
        parse_req(s, i) matches Parsed::Val(r, n) ==> i < n <= s.len(),
{
    lemma_expect_advance(s, i, '{');
    match expect_tok(s, i, '{') {
        Parsed::Val(u0, i1) => {
            lemma_json_string_advance(s, i1);
            match parse_json_string(s, i1) {
                Parsed::Val(tag, i2) => {
                    lemma_expect_advance(s, i2, ':');
                    match expect_tok(s, i2, ':') {
                        Parsed::Val(u1, i3) => {
                            lemma_expect_advance(s, i3, '{');
                            match expect_tok(s, i3, '{') {
                                Parsed::Val(u2, i4) => {
                                    lemma_field_advance(s, i4, lit_key());
                                    match parse_field(s, i4, lit_key()) {
                                        Parsed::Val(key, i5) => {
                                            lemma_expect_advance(s, i5, '}');
                                            match expect_tok(s, i5, '}') {
                                                Parsed::Val(u3, i6) => {
                                                    lemma_expect_advance(s, i6, '}');
                                                },
                                                _ => {},
                                            }
                                            lemma_expect_advance(s, i5, ',');
                                            match expect_tok(s, i5, ',') {
                                                Parsed::Val(u3, i6) => {
                                                    lemma_field_advance(s, i6, lit_value());
                                                    match parse_field(s, i6, lit_value()) {
                                                        Parsed::Val(value, i7) => {
                                                            lemma_expect_advance(s, i7, '}');
                                                            match expect_tok(s, i7, '}') {
                                                                Parsed::Val(u4, i8) => {
                                                                    lemma_expect_advance(s, i8, '}');
                                                                },
                                                                _ => {},
                                                            }
                                                        },
                                                        _ => {},
                                                    }
                                                },
                                                _ => {},
                                            }
                                        },
                                        _ => {},
                                    }
                                },
                                _ => {},
                            }
                        },
                        _ => {},
                    }
                },
                _ => {},
            }
        },
        _ => {},
    }
}

/// Splitting a known stretch of the input splits its window.
pub proof fn lemma_window_split(s: Seq<char>, i: int, a: Seq<char>, b: Seq<char>)
    requires
        0 <= i,
        i + a.len() + b.len() <= s.len(),
        s.subrange(i, i + a.len() + b.len()) == a + b,
    ensures
        s.subrange(i, i + a.len()) == a,
        s.subrange(i + a.len(), i + a.len() + b.len()) == b,
{
    let w = s.subrange(i, i + a.len() + b.len());
    assert forall|k: int| 0 <= k < a.len() implies s.subrange(i, i + a.len())[k] == a[k] by {
        assert(w[k] == (a + b)[k]);
    }
    assert(s.subrange(i, i + a.len()) =~= a);
    assert forall|k: int| 0 <= k < b.len() implies s.subrange(
        i + a.len(),
        i + a.len() + b.len(),
    )[k] == b[k] by {
        assert(w[a.len() + k] == (a + b)[a.len() + k]);
    }
    assert(s.subrange(i + a.len(), i + a.len() + b.len()) =~= b);
}

/// A character the wire writes as itself.
pub open spec fn plain_char(c: char) -> bool {
    esc_char(c) == seq![c]
}

/// A string of plain characters escapes to itself.
pub proof fn lemma_escape_plain(t: Seq<char>)
    requires
        forall|k: int| 0 <= k < t.len() ==> plain_char(#[trigger] t[k]),
    ensures
        json_escape(t) == t,
    decreases t.len(),
{
    if t.len() == 0 {
        assert(json_escape(t) =~= t);
    } else {
        lemma_escape_plain(t.drop_first());
        assert(esc_char(t[0]) + t.drop_first() =~= t);
    }
}

/// A single expected character parses where the window shows it.
pub proof fn lemma_tok_window(s: Seq<char>, i: int, c: char)
    requires
        0 <= i,
        i + 1 <= s.len(),
        s.subrange(i, i + 1) == seq![c],
        !is_ws(c),
    ensures
        expect_tok(s, i, c) == Parsed::Val((), i + 1),
{
    assert(s.subrange(i, i + 1)[0] == c);
}

/// A window holding the escaped form of `t` and a closing quote parses
/// back to exactly `t`.
pub proof fn lemma_parse_escape(s: Seq<char>, i: int, t: Seq<char>)
    requires
        0 <= i,
        i + json_escape(t).len() + 1 <= s.len(),
        s.subrange(i, i + json_escape(t).len() + 1) == json_escape(t) + seq!['"'],
    ensures
        parse_string_body(s, i) == Parsed::Val(t, i + json_escape(t).len() + 1),
    decreases t.len(),
{
    let je = json_escape(t);
    let w = s.subrange(i, i + je.len() + 1);
    if t.len() == 0 {
        assert(je =~= Seq::<char>::empty());
        assert(w[0] == (je + seq!['"'])[0]);
        assert(s[i] == '"');
        assert(t =~= Seq::<char>::empty());
    } else {
        let c = t[0];
        let t1 = t.drop_first();
        let e = esc_char(c);
        let je1 = json_escape(t1);
        assert(je == e + je1);
        if c == '"' || c == '\\' || c == '\n' || c == '\r' || c == '\t' || c == '\u{8}' || c
            == '\u{c}' {
            assert(e.len() == 2 && e[0] == '\\');
            assert(w[0] == (je + seq!['"'])[0]);
            assert(s[i] == '\\');
            assert(w[1] == (je + seq!['"'])[1]);
            assert(s[i + 1] == e[1]);
            assert(simple_escape(e[1]) == Some(c));
            assert forall|k: int| 0 <= k < je1.len() + 1 implies s.subrange(
                i + 2,
                i + 2 + je1.len() + 1,
            )[k] == (je1 + seq!['"'])[k] by {
                assert(w[2 + k] == (je + seq!['"'])[2 + k]);
            }
            assert(s.subrange(i + 2, i + 2 + je1.len() + 1) =~= je1 + seq!['"']);
            lemma_parse_escape(s, i + 2, t1);
            assert(seq![c] + t1 =~= t);
        } else if crate::codec::is_ctl(c) {
            let u = c as u32;
            assert(e.len() == 6);
            assert(e[0] == '\\' && e[1] == 'u' && e[2] == '0' && e[3] == '0');
            assert(e[4] == crate::codec::hex_digit(u / 16) && e[5] == crate::codec::hex_digit(
                u % 16,
            ));
            assert forall|k: int| 0 <= k < 6 implies s[i + k] == e[k] by {
                assert(w[k] == (je + seq!['"'])[k]);
            }
            assert(is_hex(e[2]) && hex_val(e[2]) == 0);
            assert(is_hex(e[3]) && hex_val(e[3]) == 0);
            assert(u / 16 < 16 && u % 16 < 16);
            assert(is_hex(e[4]) && hex_val(e[4]) == u / 16);
            assert(is_hex(e[5]) && hex_val(e[5]) == u % 16);
            let v = hex_val(s[i + 2]) * 4096 + hex_val(s[i + 3]) * 256 + hex_val(s[i + 4]) * 16
                + hex_val(s[i + 5]);
            assert(v == u);
            assert(((v as u8) as char) == c) by {
                vstd::utf8::char_u32_cast(c, u);
            }
            assert forall|k: int| 0 <= k < je1.len() + 1 implies s.subrange(
                i + 6,
                i + 6 + je1.len() + 1,
            )[k] == (je1 + seq!['"'])[k] by {
                assert(w[6 + k] == (je + seq!['"'])[6 + k]);
            }
            assert(s.subrange(i + 6, i + 6 + je1.len() + 1) =~= je1 + seq!['"']);
            lemma_parse_escape(s, i + 6, t1);
            assert(seq![c] + t1 =~= t);
        } else {
            assert(e =~= seq![c]);
            assert(w[0] == (je + seq!['"'])[0]);
            assert(s[i] == c);
            assert forall|k: int| 0 <= k < je1.len() + 1 implies s.subrange(
                i + 1,
                i + 1 + je1.len() + 1,
            )[k] == (je1 + seq!['"'])[k] by {
                assert(w[1 + k] == (je + seq!['"'])[1 + k]);
            }
            assert(s.subrange(i + 1, i + 1 + je1.len() + 1) =~= je1 + seq!['"']);
            lemma_parse_escape(s, i + 1, t1);
            assert(seq![c] + t1 =~= t);
        }
    }
}

/// A window holding a whole quoted string parses back to its payload.
pub proof fn lemma_parse_json_string(s: Seq<char>, i: int, t: Seq<char>)
    requires
        0 <= i,
        i + json_string(t).len() <= s.len(),
        s.subrange(i, i + json_string(t).len()) == json_string(t),
    ensures
        parse_json_string(s, i) == Parsed::Val(t, i + json_string(t).len()),
{
    let js = json_string(t);
    let je = json_escape(t);
    let w = s.subrange(i, i + js.len());
    assert(w[0] == (seq!['"'] + je + seq!['"'])[0]);
    assert(s[i] == '"');
    assert forall|k: int| 0 <= k < je.len() + 1 implies s.subrange(i + 1, i + 1 + je.len() + 1)[k]
        == (je + seq!['"'])[k] by {
        assert(w[1 + k] == (seq!['"'] + je + seq!['"'])[1 + k]);
    }
    assert(s.subrange(i + 1, i + 1 + je.len() + 1) =~= je + seq!['"']);
    lemma_parse_escape(s, i + 1, t);
}

/// A window holding a plain-character name in quotes parses back to it.
pub proof fn lemma_parse_plain_window(s: Seq<char>, i: int, t: Seq<char>)
    requires
        0 <= i,
        i + t.len() + 2 <= s.len(),
        s.subrange(i, i + t.len() + 2) == seq!['"'] + t + seq!['"'],
        forall|k: int| 0 <= k < t.len() ==> plain_char(#[trigger] t[k]),
    ensures
        parse_json_string(s, i) == Parsed::Val(t, i + t.len() + 2),
{
    lemma_escape_plain(t);
    assert(json_string(t) == seq!['"'] + t + seq!['"']);
    lemma_parse_json_string(s, i, t);
}

/// The encoding of any request, wherever it stands in the input, parses
/// back to that request and ends exactly at the encoding's end.
pub proof fn lemma_parse_enc_req(s: Seq<char>, i: int, r: ReqData)
    requires
        0 <= i,
        i + enc_req(r).len() <= s.len(),
        s.subrange(i, i + enc_req(r).len()) == enc_req(r),
    ensures
        parse_req(s, i) == Parsed::Val(r, i + enc_req(r).len()),
{
    match r {
        ReqData::Get { key } => lemma_parse_enc_get(s, i, key),
        ReqData::Remove { key } => lemma_parse_enc_remove(s, i, key),
        ReqData::Put { key, value } => lemma_parse_enc_put(s, i, key, value),
    }
}

#[verifier::rlimit(60)]
proof fn lemma_parse_enc_get(s: Seq<char>, i: int, key: Seq<char>)
    requires
        0 <= i,
        i + enc_req(ReqData::Get { key }).len() <= s.len(),
        s.subrange(i, i + enc_req(ReqData::Get { key }).len()) == enc_req(ReqData::Get { key }),
    ensures
        parse_req(s, i) == Parsed::Val(ReqData::Get { key }, i + enc_req(ReqData::Get { key }).len()),
{
    let r = ReqData::Get { key };
    let enc = enc_req(r);
    let brace = seq!['{'];
    let colon = seq![':'];
    let close = seq!['}'];
    let keyq = seq!['"', 'k', 'e', 'y', '"'];
    assert(lit_get() != lit_set()) by {
        assert(lit_get()[0] != lit_set()[0]);
    }
    assert(lit_get() != lit_remove()) by {
        assert(lit_get().len() != lit_remove().len());
    }
    assert(lit_set() != lit_remove()) by {
        assert(lit_set().len() != lit_remove().len());
    }
    {
        {
            let tagq = seq!['"', 'G', 'e', 't', '"'];
            let jsk = json_string(key);
            let tail = seq!['}', '}'];
            assert(enc =~= brace + (tagq + (colon + (brace + (keyq + (colon + (jsk + tail)))))));
            lemma_window_split(s, i, brace, tagq + (colon + (brace + (keyq + (colon + (jsk
                + tail))))));
            lemma_window_split(s, i + 1, tagq, colon + (brace + (keyq + (colon + (jsk + tail)))));
            lemma_window_split(s, i + 6, colon, brace + (keyq + (colon + (jsk + tail))));
            lemma_window_split(s, i + 7, brace, keyq + (colon + (jsk + tail)));
            lemma_window_split(s, i + 8, keyq, colon + (jsk + tail));
            lemma_window_split(s, i + 13, colon, jsk + tail);
            lemma_window_split(s, i + 14, jsk, tail);
            let p = i + 14 + jsk.len();
            assert(tail =~= close + close);
            lemma_window_split(s, p, close, close);
            lemma_tok_window(s, i, '{');
            assert(tagq =~= seq!['"'] + lit_get() + seq!['"']);
            lemma_parse_plain_window(s, i + 1, lit_get());
            lemma_tok_window(s, i + 6, ':');
            lemma_tok_window(s, i + 7, '{');
            assert(keyq =~= seq!['"'] + lit_key() + seq!['"']);
            lemma_parse_plain_window(s, i + 8, lit_key());
            lemma_tok_window(s, i + 13, ':');
            lemma_parse_json_string(s, i + 14, key);
            lemma_tok_window(s, p, '}');
            lemma_tok_window(s, p + 1, '}');
            assert(parse_field(s, i + 8, lit_key()) == Parsed::Val(key, p));
            assert(parse_req(s, i) == Parsed::Val(r, p + 2));
            assert(enc.len() == 14 + jsk.len() + 2);
        }
    }
}

#[verifier::rlimit(60)]
proof fn lemma_parse_enc_remove(s: Seq<char>, i: int, key: Seq<char>)
    requires
        0 <= i,
        i + enc_req(ReqData::Remove { key }).len() <= s.len(),
        s.subrange(i, i + enc_req(ReqData::Remove { key }).len()) == enc_req(
            ReqData::Remove { key },
        ),
    ensures
        parse_req(s, i) == Parsed::Val(
            ReqData::Remove { key },
            i + enc_req(ReqData::Remove { key }).len(),
        ),
{
    let r = ReqData::Remove { key };
    let enc = enc_req(r);
    let brace = seq!['{'];
    let colon = seq![':'];
    let close = seq!['}'];
    let keyq = seq!['"', 'k', 'e', 'y', '"'];
    assert(lit_get() != lit_set()) by {
        assert(lit_get()[0] != lit_set()[0]);
    }
    assert(lit_get() != lit_remove()) by {
        assert(lit_get().len() != lit_remove().len());
    }
    assert(lit_set() != lit_remove()) by {
        assert(lit_set().len() != lit_remove().len());
    }
    {
        {
            let tagq = seq!['"', 'R', 'e', 'm', 'o', 'v', 'e', '"'];
            let jsk = json_string(key);
            let tail = seq!['}', '}'];
            assert(enc =~= brace + (tagq + (colon + (brace + (keyq + (colon + (jsk + tail)))))));
            lemma_window_split(s, i, brace, tagq + (colon + (brace + (keyq + (colon + (jsk
                + tail))))));
            lemma_window_split(s, i + 1, tagq, colon + (brace + (keyq + (colon + (jsk + tail)))));
            lemma_window_split(s, i + 9, colon, brace + (keyq + (colon + (jsk + tail))));
            lemma_window_split(s, i + 10, brace, keyq + (colon + (jsk + tail)));
            lemma_window_split(s, i + 11, keyq, colon + (jsk + tail));
            lemma_window_split(s, i + 16, colon, jsk + tail);
            lemma_window_split(s, i + 17, jsk, tail);
            let p = i + 17 + jsk.len();
            assert(tail =~= close + close);
            lemma_window_split(s, p, close, close);
            lemma_tok_window(s, i, '{');
            assert(tagq =~= seq!['"'] + lit_remove() + seq!['"']);
            lemma_parse_plain_window(s, i + 1, lit_remove());
            lemma_tok_window(s, i + 9, ':');
            lemma_tok_window(s, i + 10, '{');
            assert(keyq =~= seq!['"'] + lit_key() + seq!['"']);
            lemma_parse_plain_window(s, i + 11, lit_key());
            lemma_tok_window(s, i + 16, ':');
            lemma_parse_json_string(s, i + 17, key);
            lemma_tok_window(s, p, '}');
            lemma_tok_window(s, p + 1, '}');
            assert(parse_field(s, i + 11, lit_key()) == Parsed::Val(key, p));
            assert(parse_req(s, i) == Parsed::Val(r, p + 2));
            assert(enc.len() == 17 + jsk.len() + 2);
        }
    }
}

#[verifier::rlimit(100)]
proof fn lemma_parse_enc_put(s: Seq<char>, i: int, key: Seq<char>, value: Seq<char>)
    requires
        0 <= i,
        i + enc_req(ReqData::Put { key, value }).len() <= s.len(),
        s.subrange(i, i + enc_req(ReqData::Put { key, value }).len()) == enc_req(
            ReqData::Put { key, value },
        ),
    ensures
        parse_req(s, i) == Parsed::Val(
            ReqData::Put { key, value },
            i + enc_req(ReqData::Put { key, value }).len(),
        ),
{
    let r = ReqData::Put { key, value };
    let enc = enc_req(r);
    let brace = seq!['{'];
    let colon = seq![':'];
    let close = seq!['}'];
    let keyq = seq!['"', 'k', 'e', 'y', '"'];
    assert(lit_get() != lit_set()) by {
        assert(lit_get()[0] != lit_set()[0]);
    }
    assert(lit_get() != lit_remove()) by {
        assert(lit_get().len() != lit_remove().len());
    }
    assert(lit_set() != lit_remove()) by {
        assert(lit_set().len() != lit_remove().len());
    }
    {
        {
            let tagq = seq!['"', 'S', 'e', 't', '"'];
            let jsk = json_string(key);
            let jsv = json_string(value);
            let comma = seq![','];
            let valq = seq!['"', 'v', 'a', 'l', 'u', 'e', '"'];
            let tail = seq!['}', '}'];
            assert(enc =~= brace + (tagq + (colon + (brace + (keyq + (colon + (jsk + (comma + (valq
                + (colon + (jsv + tail)))))))))));
            lemma_window_split(s, i, brace, tagq + (colon + (brace + (keyq + (colon + (jsk + (comma
                + (valq + (colon + (jsv + tail))))))))));
            lemma_window_split(s, i + 1, tagq, colon + (brace + (keyq + (colon + (jsk + (comma
                + (valq + (colon + (jsv + tail)))))))));
            lemma_window_split(s, i + 6, colon, brace + (keyq + (colon + (jsk + (comma + (valq
                + (colon + (jsv + tail))))))));
            lemma_window_split(s, i + 7, brace, keyq + (colon + (jsk + (comma + (valq + (colon
                + (jsv + tail)))))));
            lemma_window_split(s, i + 8, keyq, colon + (jsk + (comma + (valq + (colon + (jsv
                + tail))))));
            lemma_window_split(s, i + 13, colon, jsk + (comma + (valq + (colon + (jsv + tail)))));
            lemma_window_split(s, i + 14, jsk, comma + (valq + (colon + (jsv + tail))));
            let p = i + 14 + jsk.len();
            lemma_window_split(s, p, comma, valq + (colon + (jsv + tail)));
            lemma_window_split(s, p + 1, valq, colon + (jsv + tail));
            lemma_window_split(s, p + 8, colon, jsv + tail);
            lemma_window_split(s, p + 9, jsv, tail);
            let q = p + 9 + jsv.len();
            assert(tail =~= close + close);
            lemma_window_split(s, q, close, close);
            lemma_tok_window(s, i, '{');
            assert(tagq =~= seq!['"'] + lit_set() + seq!['"']);
            lemma_parse_plain_window(s, i + 1, lit_set());
            lemma_tok_window(s, i + 6, ':');
            lemma_tok_window(s, i + 7, '{');
            assert(keyq =~= seq!['"'] + lit_key() + seq!['"']);
            lemma_parse_plain_window(s, i + 8, lit_key());
            lemma_tok_window(s, i + 13, ':');
            lemma_parse_json_string(s, i + 14, key);
            lemma_tok_window(s, p, ',');
            assert(valq =~= seq!['"'] + lit_value() + seq!['"']);
            lemma_parse_plain_window(s, p + 1, lit_value());
            lemma_tok_window(s, p + 8, ':');
            lemma_parse_json_string(s, p + 9, value);
            lemma_tok_window(s, q, '}');
            lemma_tok_window(s, q + 1, '}');
            assert(parse_field(s, i + 8, lit_key()) == Parsed::Val(key, p));
            assert(parse_field(s, p + 1, lit_value()) == Parsed::Val(value, q));
            assert(parse_req(s, i) == Parsed::Val(r, q + 2));
            assert(enc.len() == 14 + jsk.len() + 9 + jsv.len() + 2);
        }
    }
}

/// What the decoder found at the head of the buffer.
pub enum Decoded {
    /// A whole request; it ends just before `next`.
    Value { req: Request, next: usize },
    /// Nothing left but whitespace: a clean end of input.
    End,
    /// A prefix of a value: more input may complete it.
    Incomplete,
    /// Input that fits no request form: a protocol error.
    Malformed,
}

/// Prefixes already-read characters onto the outcome of the rest of a
/// string.
pub open spec fn prepend_parsed(a: Seq<char>, p: Parsed<Seq<char>>) -> Parsed<Seq<char>> {
    match p {
        Parsed::Val(t, j) => Parsed::Val(a + t, j),
        Parsed::Short => Parsed::Short,
        Parsed::Bad => Parsed::Bad,
    }
}

fn is_ws_exec(c: char) -> (b: bool)
    ensures
        b == is_ws(c),
{
    c == ' ' || c == '\t' || c == '\n' || c == '\r'
}

fn skip_ws_exec(buf: &Vec<char>, start: usize) -> (j: usize)
    requires
        start <= buf.len(),
    ensures
        j as int == skip_ws(buf@, start as int),
        start <= j <= buf.len(),
{
    let mut j = start;
    while j < buf.len() && is_ws_exec(buf[j])
        invariant
            start <= j <= buf.len(),
            skip_ws(buf@, start as int) == skip_ws(buf@, j as int),
        decreases buf.len() - j,
    {
        j = j + 1;
    }
    j
}

enum Tok {
    Got(usize),
    More,
    Wrong,
}

fn expect_exec(buf: &Vec<char>, start: usize, c: char) -> (r: Tok)
    requires
        start <= buf.len(),
    ensures
        (match r {
            Tok::Got(j) => expect_tok(buf@, start as int, c) == Parsed::Val((), j as int) && start
                < j <= buf.len(),
            Tok::More => expect_tok(buf@, start as int, c) == Parsed::<()>::Short,
            Tok::Wrong => expect_tok(buf@, start as int, c) == Parsed::<()>::Bad,
        }),
{
    let j = skip_ws_exec(buf, start);
    if j >= buf.len() {
        Tok::More
    } else if buf[j] == c {
        Tok::Got(j + 1)
    } else {
        Tok::Wrong
    }
}

fn hex_val_exec(c: char) -> (r: Option<u32>)
    ensures
        r is Some <==> is_hex(c),
        r matches Some(v) ==> v == hex_val(c) && v < 16,
{
    let u = c as u32;
    if 48 <= u && u <= 57 {
        Some(u - 48)
    } else if 97 <= u && u <= 102 {
        Some(u - 87)
    } else if 65 <= u && u <= 70 {
        Some(u - 55)
    } else {
        None
    }
}

fn unescape_exec(e: char) -> (r: Option<char>)
    ensures
        r == simple_escape(e),
{
    if e == '"' {
        Some('"')
    } else if e == '\\' {
        Some('\\')
    } else if e == '/' {
        Some('/')
    } else if e == 'n' {
        Some('\n')
    } else if e == 'r' {
        Some('\r')
    } else if e == 't' {
        Some('\t')
    } else if e == 'b' {
        Some('\u{8}')
    } else if e == 'f' {
        Some('\u{c}')
    } else {
        None
    }
}

enum StrTok {
    Got(String, usize),
    More,
    Wrong,
}

fn parse_string_body_exec(buf: &Vec<char>, start: usize) -> (r: StrTok)
    requires
        start <= buf.len(),
    ensures
        (match r {
            StrTok::Got(t, j) => parse_string_body(buf@, start as int) == Parsed::Val(
                t@,
                j as int,
            ) && start < j <= buf.len(),
            StrTok::More => parse_string_body(buf@, start as int) == Parsed::<Seq<char>>::Short,
            StrTok::Wrong => parse_string_body(buf@, start as int) == Parsed::<Seq<char>>::Bad,
        }),
{
    let mut acc: Vec<char> = Vec::new();
    let mut i = start;
    proof {
        assert(prepend_parsed(acc@, parse_string_body(buf@, i as int)) == parse_string_body(
            buf@,
            start as int,
        )) by {
            match parse_string_body(buf@, start as int) {
                Parsed::Val(t, j) => {
                    assert(Seq::<char>::empty() + t =~= t);
                },
                _ => {},
            }
        }
    }
    loop
        invariant
            start <= i <= buf.len(),
            prepend_parsed(acc@, parse_string_body(buf@, i as int)) == parse_string_body(
                buf@,
                start as int,
            ),
        decreases buf.len() - i,
    {
        if i >= buf.len() {
            return StrTok::More;
        }
        let c = buf[i];
        if c == '"' {
            proof {
                assert(acc@ + Seq::<char>::empty() =~= acc@);
                lemma_string_body_advance(buf@, start as int);
            }
            let t = crate::codec::string_from_chars(acc);
            return StrTok::Got(t, i + 1);
        } else if c == '\\' {
            if i + 1 >= buf.len() {
                return StrTok::More;
            }
            let e = buf[i + 1];
            if e == 'u' {
                if buf.len() - i < 6 {
                    return StrTok::More;
                }
                let h2 = hex_val_exec(buf[i + 2]);
                let h3 = hex_val_exec(buf[i + 3]);
                let h4 = hex_val_exec(buf[i + 4]);
                let h5 = hex_val_exec(buf[i + 5]);
                match (h2, h3, h4, h5) {
                    (Some(d2), Some(d3), Some(d4), Some(d5)) => {
                        let v = d2 * 4096 + d3 * 256 + d4 * 16 + d5;
                        if v < 256 {
                            let c2 = (v as u8) as char;
                            let ghost old_acc = acc@;
                            acc.push(c2);
                            proof {
                                match parse_string_body(buf@, i + 6) {
                                    Parsed::Val(t, j) => {
                                        assert(old_acc + (seq![c2] + t) =~= acc@ + t);
                                    },
                                    _ => {},
                                }
                            }
                            i = i + 6;
                        } else {
                            return StrTok::Wrong;
                        }
                    },
                    _ => {
                        return StrTok::Wrong;
                    },
                }
                continue;
            }
            match unescape_exec(e) {
                Some(c2) => {
                    let ghost old_acc = acc@;
                    acc.push(c2);
                    proof {
                        match parse_string_body(buf@, i + 2) {
                            Parsed::Val(t, j) => {
                                assert(old_acc + (seq![c2] + t) =~= acc@ + t);
                            },
                            _ => {},
                        }
                    }
                    i = i + 2;
                },
                None => {
                    return StrTok::Wrong;
                },
            }
        } else {
            let ghost old_acc = acc@;
            acc.push(c);
            proof {
                match parse_string_body(buf@, i + 1) {
                    Parsed::Val(t, j) => {
                        assert(old_acc + (seq![c] + t) =~= acc@ + t);
                    },
                    _ => {},
                }
            }
            i = i + 1;
        }
    }
}

fn parse_json_string_exec(buf: &Vec<char>, start: usize) -> (r: StrTok)
    requires
        start <= buf.len(),
    ensures
        (match r {
            StrTok::Got(t, j) => parse_json_string(buf@, start as int) == Parsed::Val(
                t@,
                j as int,
            ) && start < j <= buf.len(),
            StrTok::More => parse_json_string(buf@, start as int) == Parsed::<Seq<char>>::Short,
            StrTok::Wrong => parse_json_string(buf@, start as int) == Parsed::<Seq<char>>::Bad,
        }),
{
    let j = skip_ws_exec(buf, start);
    if j >= buf.len() {
        StrTok::More
    } else if buf[j] == '"' {
        parse_string_body_exec(buf, j + 1)
    } else {
        StrTok::Wrong
    }
}

fn parse_field_exec(buf: &Vec<char>, start: usize, name: &String) -> (r: StrTok)
    requires
        start <= buf.len(),
    ensures
        (match r {
            StrTok::Got(t, j) => parse_field(buf@, start as int, name@) == Parsed::Val(
                t@,
                j as int,
            ) && start < j <= buf.len(),
            StrTok::More => parse_field(buf@, start as int, name@) == Parsed::<Seq<char>>::Short,
            StrTok::Wrong => parse_field(buf@, start as int, name@) == Parsed::<Seq<char>>::Bad,
        }),
{
    match parse_json_string_exec(buf, start) {
        StrTok::Got(n, j) => {
            if !(n == *name) {
                return StrTok::Wrong;
            }
            match expect_exec(buf, j, ':') {
                Tok::Got(j2) => parse_json_string_exec(buf, j2),
                Tok::More => StrTok::More,
                Tok::Wrong => StrTok::Wrong,
            }
        },
        StrTok::More => StrTok::More,
        StrTok::Wrong => StrTok::Wrong,
    }
}

/// Reads the next request from `buf` at `start`: the request and where it
/// ends, a clean end of input, a value still missing its tail, or a
/// protocol error.
#[verifier::rlimit(100)]
pub fn decode_request(buf: &Vec<char>, start: usize) -> (r: Decoded)
    requires
        start <= buf.len(),
    ensures
        (match r {
            Decoded::Value { req, next } => parse_req(buf@, start as int) == Parsed::Val(
                req@,
                next as int,
            ) && start < next <= buf.len(),
            Decoded::End => skip_ws(buf@, start as int) == buf@.len(),
            Decoded::Incomplete => parse_req(buf@, start as int) == Parsed::<ReqData>::Short
                && skip_ws(buf@, start as int) < buf@.len(),
            Decoded::Malformed => parse_req(buf@, start as int) == Parsed::<ReqData>::Bad,
        }),
{
    let j0 = skip_ws_exec(buf, start);
    if j0 >= buf.len() {
        return Decoded::End;
    }
    proof {
        lemma_skip_ws(buf@, start as int);
    }
    let i1 = match expect_exec(buf, start, '{') {
        Tok::Got(i1) => i1,
        Tok::More => {
            return Decoded::Incomplete;
        },
        Tok::Wrong => {
            return Decoded::Malformed;
        },
    };
    let (tag, i2) = match parse_json_string_exec(buf, i1) {
        StrTok::Got(tag, i2) => (tag, i2),
        StrTok::More => {
            return Decoded::Incomplete;
        },
        StrTok::Wrong => {
            return Decoded::Malformed;
        },
    };
    let is_get = tag == chars_string_3('G', 'e', 't');
    let is_set = tag == chars_string_3('S', 'e', 't');
    let is_remove = tag == remove_tag_name();
    proof {
        assert(seq!['G', 'e', 't'] =~= lit_get());
        assert(seq!['S', 'e', 't'] =~= lit_set());
    }
    if !is_get && !is_set && !is_remove {
        return Decoded::Malformed;
    }
    match decode_body(buf, i2, is_get, is_set) {
        Decoded::Value { req, next } => Decoded::Value { req, next },
        Decoded::End => Decoded::Malformed,
        Decoded::Incomplete => Decoded::Incomplete,
        Decoded::Malformed => Decoded::Malformed,
    }
}

/// The rest of a request after its tag was read and recognized.
fn decode_body(buf: &Vec<char>, i2: usize, is_get: bool, is_set: bool) -> (r: Decoded)
    requires
        i2 <= buf.len(),
        !(is_get && is_set),
    ensures
        ({
            let tag = if is_get {
                lit_get()
            } else if is_set {
                lit_set()
            } else {
                lit_remove()
            };
            match r {
                Decoded::Value { req, next } => parse_req_body(buf@, tag, i2 as int)
                    == Parsed::Val(req@, next as int) && i2 < next <= buf.len(),
                Decoded::End => false,
                Decoded::Incomplete => parse_req_body(buf@, tag, i2 as int) == Parsed::<
                    ReqData,
                >::Short,
                Decoded::Malformed => parse_req_body(buf@, tag, i2 as int) == Parsed::<
                    ReqData,
                >::Bad,
            }
        }),
{
    proof {
        assert(lit_get() != lit_set()) by {
            assert(lit_get()[0] != lit_set()[0]);
        }
        assert(lit_get() != lit_remove()) by {
            assert(lit_get().len() != lit_remove().len());
        }
        assert(lit_set() != lit_remove()) by {
            assert(lit_set().len() != lit_remove().len());
        }
    }
    let i3 = match expect_exec(buf, i2, ':') {
        Tok::Got(i3) => i3,
        Tok::More => {
            return Decoded::Incomplete;
        },
        Tok::Wrong => {
            return Decoded::Malformed;
        },
    };
    let i4 = match expect_exec(buf, i3, '{') {
        Tok::Got(i4) => i4,
        Tok::More => {
            return Decoded::Incomplete;
        },
        Tok::Wrong => {
            return Decoded::Malformed;
        },
    };
    let field_key = key_field_name();
    let (key, i5) = match parse_field_exec(buf, i4, &field_key) {
        StrTok::Got(key, i5) => (key, i5),
        StrTok::More => {
            return Decoded::Incomplete;
        },
        StrTok::Wrong => {
            return Decoded::Malformed;
        },
    };
    if !is_set {
        let i6 = match expect_exec(buf, i5, '}') {
            Tok::Got(i6) => i6,
            Tok::More => {
                return Decoded::Incomplete;
            },
            Tok::Wrong => {
                return Decoded::Malformed;
            },
        };
        let i7 = match expect_exec(buf, i6, '}') {
            Tok::Got(i7) => i7,
            Tok::More => {
                return Decoded::Incomplete;
            },
            Tok::Wrong => {
                return Decoded::Malformed;
            },
        };
        if is_get {
            Decoded::Value { req: Request::Get { key }, next: i7 }
        } else {
            Decoded::Value { req: Request::Remove { key }, next: i7 }
        }
    } else {
        let i6 = match expect_exec(buf, i5, ',') {
            Tok::Got(i6) => i6,
            Tok::More => {
                return Decoded::Incomplete;
            },
            Tok::Wrong => {
                return Decoded::Malformed;
            },
        };
        let field_value = value_field_name();
        let (value, i7) = match parse_field_exec(buf, i6, &field_value) {
            StrTok::Got(value, i7) => (value, i7),
            StrTok::More => {
                return Decoded::Incomplete;
            },
            StrTok::Wrong => {
                return Decoded::Malformed;
            },
        };
        let i8 = match expect_exec(buf, i7, '}') {
            Tok::Got(i8) => i8,
            Tok::More => {
                return Decoded::Incomplete;
            },
            Tok::Wrong => {
                return Decoded::Malformed;
            },
        };
        let i9 = match expect_exec(buf, i8, '}') {
            Tok::Got(i9) => i9,
            Tok::More => {
                return Decoded::Incomplete;
            },
            Tok::Wrong => {
                return Decoded::Malformed;
            },
        };
        Decoded::Value { req: Request::Put { key, value }, next: i9 }
    }
}

/// A three-character string value.
fn chars_string_3(a: char, b: char, c: char) -> (s: String)
    ensures
        s@ == seq![a, b, c],
{
    let mut v: Vec<char> = Vec::new();
    v.push(a);
    v.push(b);
    v.push(c);
    proof {
        assert(v@ =~= seq![a, b, c]);
    }
    crate::codec::string_from_chars(v)
}

/// The tag of a delete request as a string value.
fn remove_tag_name() -> (s: String)
    ensures
        s@ == lit_remove(),
{
    let mut v: Vec<char> = Vec::new();
    v.push('R');
    v.push('e');
    v.push('m');
    v.push('o');
    v.push('v');
    v.push('e');
    proof {
        assert(v@ =~= lit_remove());
    }
    crate::codec::string_from_chars(v)
}

/// The key field's name as a string value.
fn key_field_name() -> (s: String)
    ensures
        s@ == lit_key(),
{
    let s = chars_string_3('k', 'e', 'y');
    proof {
        assert(seq!['k', 'e', 'y'] =~= lit_key());
    }
    s
}

/// The value field's name as a string value.
fn value_field_name() -> (s: String)
    ensures
        s@ == lit_value(),
{
    let mut v: Vec<char> = Vec::new();
    v.push('v');
    v.push('a');
    v.push('l');
    v.push('u');
    v.push('e');
    proof {
        assert(v@ =~= lit_value());
    }
    crate::codec::string_from_chars(v)
}

} // verus!
